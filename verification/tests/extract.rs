//! Extraction of an example's device side.
use reconverge::conformance::extract::{check_parts, lib_rs_from_parts, TopItem, TopItemKind};
use reconverge::conformance::parse::extract_lib_rs;

const SAMPLE: &str = r#"/*
 * SPDX-FileCopyrightText: Copyright (c) 2026 EXAMPLE HOLDER
 * SPDX-License-Identifier: Apache-2.0
 */
use cuda_core::{CudaContext, LaunchConfig};
use cuda_device::{DisjointSlice, kernel, thread};
use cuda_host::cuda_module;

const THREADS: usize = 128;

#[cuda_module]
mod kernels {
    use super::*;

    #[kernel]
    pub fn scale(mut out: DisjointSlice<f32>) {
        let i = thread::index_1d();
        if let Some(e) = out.get_mut(i) {
            *e *= 2.0;
        }
    }
}

fn main() {
    println!("host side");
}
"#;

fn span(source: &str, text: &str) -> (usize, usize) {
    let start = source.find(text).expect("text in the sample");
    (start, start + text.len())
}

fn use_item(source: &str, text: &str, root: &str) -> TopItem {
    TopItem { kind: TopItemKind::Use { root: Some(root.to_string()) }, range: span(source, text) }
}

fn sample_items() -> Vec<TopItem> {
    let module_start = SAMPLE.find("#[cuda_module]").unwrap();
    let module_end = SAMPLE.find("\n}\n\nfn main").unwrap() + 2;
    let mod_keyword = SAMPLE.find("mod kernels").unwrap();
    vec![
        use_item(SAMPLE, "use cuda_core::{CudaContext, LaunchConfig};", "cuda_core"),
        use_item(SAMPLE, "use cuda_device::{DisjointSlice, kernel, thread};", "cuda_device"),
        use_item(SAMPLE, "use cuda_host::cuda_module;", "cuda_host"),
        TopItem { kind: TopItemKind::Definition, range: span(SAMPLE, "const THREADS: usize = 128;") },
        TopItem {
            kind: TopItemKind::Mod { attrs: vec!["cuda_module".to_string()], inline_from: Some(mod_keyword) },
            range: (module_start, module_end),
        },
        TopItem {
            kind: TopItemKind::Fn { attrs: Vec::new() },
            range: span(SAMPLE, "fn main() {\n    println!(\"host side\");\n}"),
        },
    ]
}

#[test]
fn extracts_device_side_only() {
    let lib = extract_lib_rs(SAMPLE).unwrap();
    assert!(lib.contains("SPDX-License-Identifier: Apache-2.0"));
    assert!(lib.contains("use cuda_device::{DisjointSlice, kernel, thread};"));
    assert!(lib.contains("const THREADS: usize = 128;"));
    assert!(lib.contains("mod kernels {"));
    assert!(lib.contains("pub fn scale"));
    assert!(!lib.contains("cuda_core"));
    assert!(!lib.contains("cuda_host"));
    assert!(!lib.contains("#[cuda_module]"));
    assert!(!lib.contains("fn main"));
}

#[test]
fn refuses_examples_without_kernel_modules() {
    let err = extract_lib_rs("fn main() {}").unwrap_err();
    assert!(err.contains("no #[cuda_module] mod"));
}

#[test]
fn a_file_that_does_not_parse_is_a_parse_error() {
    let err = extract_lib_rs("fn main( {").unwrap_err();
    assert!(err.starts_with("parse error: "), "{err}");
}

#[test]
fn parsing_reports_the_same_parts_as_written_by_hand() {
    let items = sample_items();
    assert!(check_parts(SAMPLE, &Vec::new(), &items));
    assert_eq!(lib_rs_from_parts(SAMPLE, &Vec::new(), &items), extract_lib_rs(SAMPLE));
    let only_main = vec![TopItem { kind: TopItemKind::Fn { attrs: Vec::new() }, range: (0, 12) }];
    assert_eq!(
        lib_rs_from_parts("fn main() {}", &Vec::new(), &only_main).unwrap_err(),
        "no #[cuda_module] mod with inline content"
    );
}

#[test]
fn the_library_is_header_marker_attributes_items_then_modules() {
    let source = "/* H */\n#![feature(x)]\nuse std::mem;\n#[device]\nfn d() {}\nfn host() {}\n#[cuda_module]\nmod k { }\n";
    let items = vec![
        use_item(source, "use std::mem;", "std"),
        TopItem { kind: TopItemKind::Fn { attrs: vec!["device".to_string()] }, range: span(source, "#[device]\nfn d() {}") },
        TopItem { kind: TopItemKind::Fn { attrs: Vec::new() }, range: span(source, "fn host() {}") },
        TopItem {
            kind: TopItemKind::Mod {
                attrs: vec!["cuda_module".to_string()],
                inline_from: Some(source.find("mod k").unwrap()),
            },
            range: span(source, "#[cuda_module]\nmod k { }"),
        },
    ];
    let attrs = vec![span(source, "#![feature(x)]")];
    let lib = lib_rs_from_parts(source, &attrs, &items).unwrap();
    assert_eq!(
        lib,
        "/* H */\n// Extracted by reconverge's conformance-extractor; device side only.\n#![feature(x)]\n#![allow(dead_code, unused_imports)]\n\nuse std::mem;\n#[device]\nfn d() {}\n\nmod k { }\n"
    );
    assert!(!check_parts(source, &vec![(3, 2)], &items));
}

#[test]
fn definitions_are_carried_and_extern_crates_are_not() {
    let source = "extern crate alloc;\nstruct S;\nimpl S {}\nmacro_rules! m { () => {} }\nfn host() {}\n#[cuda_module]\nmod k {}\n";
    let lib = extract_lib_rs(source).unwrap();
    assert!(lib.contains("struct S;\nimpl S {}\nmacro_rules! m { () => {} }\n"));
    assert!(!lib.contains("extern crate"));
    assert!(!lib.contains("fn host"));
    assert!(lib.ends_with("\nmod k {}\n"));
}
