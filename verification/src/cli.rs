//! The command-line rules: how each subcommand reads its arguments, what a
//! user is shown, and when a run fails. The process plumbing that launches
//! builds and viewers lives with the binary.
pub mod args;
pub mod check;
pub mod command;
pub mod explain;
pub mod inspect;
pub mod learn;
pub mod out;
pub mod render;
pub mod review;
pub mod sarif;
pub mod setup;
pub mod triage;
pub mod watch;
pub mod witness;
