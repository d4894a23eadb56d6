[package]
name = "reconverge"
version = "0.1.0"
edition = "2021"
publish = false

[dependencies]
unicode-width = "=0.2.3"
serde = { version = "=1.0.229", features = ["derive"] }
serde_json = "=1.0.154"
syn = { version = "=3.0.9", features = ["full", "visit"] }
proc-macro2 = { version = "=1.0.107", features = ["span-locations"] }
