//! Mutants of a source file, from the walk of its syntax tree.
use reconverge::conformance::mutate::{apply_edits, char_of, line_starts, mutants_of, slice, LineColumn, Sites};
use reconverge::conformance::sites::{
    collect_sites, full_mask_text, has_attr, mutate_source, MaskArg, ParamSyntax, StmtShape, SyntaxEvent,
};
use reconverge::conformance::Class;

const SOURCE: &str = "#[kernel]\nfn k(mut out: DisjointSlice<u32>) {\n    thread::sync_threads();\n    let v = warp::ballot_sync(FULL_MASK, true);\n    if let Some(e) = out.get_mut(i) { *e = v; }\n}\nfn h() { thread::sync_threads(); }\n";

/// The character range of the `nth` occurrence of `text` (ASCII source).
fn range(text: &str, nth: usize) -> (usize, usize) {
    let start = SOURCE.match_indices(text).nth(nth).unwrap().0;
    (start, start + text.len())
}

fn events() -> Vec<SyntaxEvent> {
    let u32_at = range("u32", 0);
    vec![
        SyntaxEvent::FnStart {
            name: "k".to_string(),
            attrs: vec!["kernel".to_string()],
            params: vec![ParamSyntax {
                typed: true,
                ty_last: Some("DisjointSlice".to_string()),
                generic_args: Some(1),
                type_args: vec![u32_at],
                ident: Some("out".to_string()),
                ty_range: range("DisjointSlice<u32>", 0),
                line: 2,
            }],
        },
        SyntaxEvent::StmtStart {
            range: range("thread::sync_threads();", 0),
            line: 3,
            shape: StmtShape::Expr { semi: true, call: Some("sync_threads".to_string()) },
        },
        SyntaxEvent::Call { name: Some("sync_threads".to_string()), line: 3, first_arg: None },
        SyntaxEvent::StmtEnd,
        SyntaxEvent::StmtStart {
            range: range("let v = warp::ballot_sync(FULL_MASK, true);", 0),
            line: 4,
            shape: StmtShape::Local { init: Some(range("warp::ballot_sync(FULL_MASK, true)", 0)) },
        },
        SyntaxEvent::Call {
            name: Some("ballot_sync".to_string()),
            line: 4,
            first_arg: Some((range("FULL_MASK", 0), MaskArg::Path(vec!["FULL_MASK".to_string()]))),
        },
        SyntaxEvent::StmtEnd,
        SyntaxEvent::StmtStart {
            range: range("if let Some(e) = out.get_mut(i) { *e = v; }", 0),
            line: 5,
            shape: StmtShape::Expr { semi: false, call: None },
        },
        SyntaxEvent::MethodCall {
            receiver: Some("out".to_string()),
            method: "get_mut".to_string(),
            arg_count: 1,
            first_arg: (range("get_mut(i)", 0).0 + 8, range("get_mut(i)", 0).0 + 9),
        },
        SyntaxEvent::StmtEnd,
        SyntaxEvent::FnEnd,
        SyntaxEvent::FnStart { name: "h".to_string(), attrs: vec![], params: vec![] },
        SyntaxEvent::StmtStart {
            range: range("thread::sync_threads();", 1),
            line: 7,
            shape: StmtShape::Expr { semi: true, call: Some("sync_threads".to_string()) },
        },
        SyntaxEvent::StmtEnd,
        SyntaxEvent::FnEnd,
    ]
}

#[test]
fn every_operator_yields_its_mutant_in_order() {
    let generated = mutate_source(SOURCE, &events()).unwrap();
    let classes: Vec<Class> = generated.mutants.iter().map(|m| m.class).collect();
    assert_eq!(
        classes,
        vec![Class::WrapBarrier, Class::DeleteBarrier, Class::WrapCollective, Class::ShrinkMask, Class::SwapMutSlice]
    );
    let m = &generated.mutants;
    assert!(m[0].source.contains("if cuda_device::thread::threadIdx_x() % 2 == 0 { thread::sync_threads(); }"));
    assert_eq!(m[0].kernel, "k");
    assert_eq!(m[0].line, 3);
    assert_eq!(m[1].source.matches("thread::sync_threads();").count(), 1, "only the kernel's barrier goes");
    assert_eq!(m[1].detail, "barrier deleted (data race; no static diagnostic by design)");
    assert!(m[2].source.contains(
        "let v = if cuda_device::thread::threadIdx_x() % 2 == 0 { warp::ballot_sync(FULL_MASK, true) } else { Default::default() };"
    ));
    assert_eq!(m[2].detail, "ballot_sync wrapped in an index-derived if");
    assert!(m[3].source.contains("warp::ballot_sync(0x0000_ffff, true)"));
    assert_eq!(m[3].detail, "ballot_sync: FULL_MASK -> 0x0000_ffff");
    assert!(m[4].source.contains("fn k(mut out: &mut [u32])"));
    assert!(m[4].source.contains("out.get_mut((i).get())"));
    assert_eq!(m[4].detail, "param `out`: DisjointSlice<u32> -> &mut [u32]");
    assert_eq!(generated.skips.sites_outside_kernels, 1, "h()'s barrier is counted");
    assert_eq!(generated.skips.tail_expression_collectives, 0);
}

#[test]
fn the_sites_follow_the_walk() {
    let sites: Sites = collect_sites(SOURCE, &events());
    assert_eq!(sites.barriers.len(), 1);
    assert_eq!(sites.collectives.len(), 1);
    assert_eq!(sites.masks.len(), 1);
    assert_eq!(sites.swaps.len(), 1);
    assert_eq!(sites.swaps[0].elem_ty, "u32");
    assert_eq!(sites.swaps[0].arg_ranges.len(), 1);
    let again = mutants_of(SOURCE, &sites);
    assert_eq!(again.mutants.len(), 5);
}

#[test]
fn a_collective_in_a_tail_expression_is_skipped_and_counted() {
    let source = "#[kernel]\nfn k() -> u32 {\n    warp::ballot_sync(FULL_MASK, true)\n}\n";
    let stmt = (source.find("warp::").unwrap(), source.find(")\n}").unwrap() + 1);
    let evs = vec![
        SyntaxEvent::FnStart { name: "k".to_string(), attrs: vec!["kernel".to_string()], params: vec![] },
        SyntaxEvent::StmtStart { range: stmt, line: 3, shape: StmtShape::Expr { semi: false, call: Some("ballot_sync".to_string()) } },
        SyntaxEvent::Call { name: Some("ballot_sync".to_string()), line: 3, first_arg: None },
        SyntaxEvent::StmtEnd,
        SyntaxEvent::FnEnd,
    ];
    let generated = mutate_source(source, &evs).unwrap();
    assert!(generated.mutants.is_empty());
    assert_eq!(generated.skips.tail_expression_collectives, 1);
}

#[test]
fn edits_splice_in_order_and_positions_count_characters() {
    let s = "héllo wörld";
    let out = apply_edits(s, &vec![(0, 1, "H".to_string()), (6, 11, "there".to_string())]);
    assert_eq!(out, "Héllo there");
    let starts = line_starts("ab\ncdé\nf");
    assert_eq!(starts, vec![0, 3, 7]);
    assert_eq!(char_of(&starts, "ab\ncdé\nf", LineColumn { line: 2, column: 2 }), 5);
    assert_eq!(char_of(&starts, "ab\ncdé\nf", LineColumn { line: 3, column: 9 }), 8);
    let text = slice(&starts, "ab\ncdé\nf", LineColumn { line: 2, column: 1 }, LineColumn { line: 2, column: 3 });
    assert_eq!(text, "dé");
}

#[test]
fn masks_and_attributes_are_read_by_their_last_segments() {
    assert_eq!(full_mask_text(&MaskArg::Path(vec!["warp".into(), "FULL_MASK".into()])).as_deref(), Some("FULL_MASK"));
    assert_eq!(full_mask_text(&MaskArg::Path(vec!["u32".into(), "MAX".into()])).as_deref(), Some("u32::MAX"));
    assert_eq!(
        full_mask_text(&MaskArg::Int { token: "0xffff_ffff".into(), value: Some(0xffff_ffff) }).as_deref(),
        Some("0xffff_ffff")
    );
    assert_eq!(full_mask_text(&MaskArg::Int { token: "0xff".into(), value: Some(0xff) }), None);
    assert_eq!(full_mask_text(&MaskArg::Other), None);
    assert!(has_attr(&vec!["inline".into(), "kernel".into()], "kernel"));
    assert!(!has_attr(&vec![], "kernel"));
}
