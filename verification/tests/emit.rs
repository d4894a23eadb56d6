//! What the engine's results become in the artifacts, and the toolkit's
//! small rules.
use reconverge::analysis::{Analysis, Reason, ReasonKind};
use reconverge::artifacts::findings::{Confidence, Finding, SourceSpan};
use reconverge::artifacts::unimap::{Uniformity as MapUniformity, ValueSource};
use reconverge::conformance::{
    is_classified_collective, is_unclassified_collective, member_manifest, percent, workspace_manifest, Class,
};
use reconverge::dialect::{CallKind, MaskSource};
use reconverge::emit::rules::{
    rc001_divergent_barriers, rc002_nonconvergent_warp_ops, BARRIER_HELP, BARRIER_NOTE, COLLECTIVE_NOTE,
};
use reconverge::emit::{
    analyze_kernels, annotate_coverage, axes, build_unimap, crate_types_from_args, is_temp_plumbing, run_coverage,
    sort_findings, span_of, value_source, CrateModels,
};
use reconverge::emit::launch::rc005_findings;
use reconverge::emit::lints::{kernel_lints, rc003_findings, rc004_finding, run_lints, KernelParam, SharedStatic, LIMIT_NOTE};
use reconverge::oxide::paths::{IndexFn, LaunchDomain};
use reconverge::model::{Block, Callee, FnModel, Stmt, Term, TermKind};
use reconverge::{LaunchScope, Uniformity};

fn span(file: &str, line: usize, column: usize) -> SourceSpan {
    SourceSpan { file: file.into(), line_start: line, column_start: column, line_end: line, column_end: column + 1 }
}

/// `if index_1d() % 2 == 0 { sync_threads() }`, with every span at its own
/// table row.
fn models() -> CrateModels {
    let call = |kind: CallKind, display: &str, dest: Option<usize>, target: usize| TermKind::Call {
        callee: Callee { kind, scope: LaunchScope::Block, display: display.into(), local_fn: None },
        args: Vec::new(),
        const_args: Vec::new(),
        arg_operands: Vec::new(),
        dest,
        target: Some(target),
    };
    let stmt = |dest: usize, uses: &[usize]| Stmt { dest: Some(dest), uses: uses.to_vec(), eval: None, opaque: false, span: 1 };
    let kernel = FnModel {
        name: "scale".into(),
        item_path: "k::scale".into(),
        span: 0,
        local_count: 4,
        arg_count: 1,
        local_names: vec![None, Some("out".into()), None, None],
        local_spans: vec![None, Some(1), None, None],
        blocks: vec![
            Block { stmts: vec![], term: Term { kind: call(CallKind::ThreadIndexWitness, "index_1d", Some(2), 1), span: 1 } },
            Block {
                stmts: vec![stmt(3, &[2]), stmt(3, &[3])],
                term: Term { kind: TermKind::Branch { cond: 3, targets: vec![2, 3], values: vec![] }, span: 2 },
            },
            Block { stmts: vec![], term: Term { kind: call(CallKind::Barrier, "sync_threads", None, 3), span: 3 } },
            Block { stmts: vec![], term: Term { kind: TermKind::Return, span: 0 } },
        ],
        declared_block: None,
        declared_cluster: None,
    };
    CrateModels {
        fns: vec![kernel],
        kernels: vec![0],
        spans: vec![span("src/lib.rs", 1, 1), span("src/lib.rs", 2, 5), span("src/lib.rs", 3, 5), span("src/lib.rs", 4, 9)],
    }
}

#[test]
fn kernels_are_analyzed_and_mapped() {
    let m = models();
    let results = analyze_kernels(&m);
    assert_eq!(results.len(), 1);
    assert_eq!(results[0].0, 0);
    let a = &results[0].1;
    assert_eq!(a.locals[2], Uniformity::Divergent);
    assert!(a.barriers[0].divergent_cause.is_some());

    let map = build_unimap(&m, &results);
    assert_eq!(map.len(), 1);
    let f = &map[0];
    assert_eq!(f.name, "scale");
    assert_eq!(f.item, "k::scale");
    assert_eq!(f.span, m.spans[0]);
    assert_eq!(f.values.len(), 4);
    assert_eq!(f.values[1].id, "_1");
    assert_eq!(f.values[1].name.as_deref(), Some("out"));
    assert_eq!(f.values[1].source, Some(ValueSource::KernelParam), "a parameter with no reason");
    assert_eq!(f.values[1].span, m.spans[1]);
    assert_eq!(f.values[2].uniformity, MapUniformity::Divergent);
    assert_eq!(f.values[2].source, Some(ValueSource::ThreadIndex));
    assert_eq!(f.values[0].span, m.spans[0], "no span of its own: the function's");
    assert_eq!(f.blocks.len(), 4);
    assert_eq!(f.blocks[0].id, "bb0");
    assert_eq!(f.blocks[0].values, ["_2"], "the call's destination");
    assert_eq!(f.blocks[1].values, ["_3"], "a repeated write is listed once");
    assert!(f.blocks[2].divergent_control);
    assert!(!f.blocks[3].divergent_control);
    assert_eq!(f.blocks[2].span, Some(m.spans[3].clone()));
    assert!(f.provenance.iter().any(|e| e.from == "_2" && e.to == "_3"), "{:?}", f.provenance);
}

#[test]
fn coverage_is_tallied_and_noted_once() {
    let m = models();
    let mut results = analyze_kernels(&m);
    let cov = run_coverage(&results);
    assert_eq!((cov.opaque_statements, cov.opaque_functions), (0, 0));
    assert_eq!(cov.analyzed_statements, results[0].1.analyzed_statements);

    results[0].1.opaque_statements = 2;
    results[0].1.analyzed_statements = 8;
    let cov = run_coverage(&results);
    assert_eq!((cov.analyzed_statements, cov.opaque_statements, cov.opaque_functions), (8, 2, 1));

    let finding = |kernel: Option<&str>, notes: Vec<String>| Finding {
        code: "RC001".into(),
        confidence: Confidence::Warning,
        message: "m".into(),
        kernel: kernel.map(str::to_string),
        span: span("src/lib.rs", 4, 9),
        notes,
        help: None,
        explain: "RC001".into(),
        provenance: Vec::new(),
    };
    let mut findings = vec![
        finding(Some("scale"), vec![]),
        finding(Some("other"), vec![]),
        finding(Some("scale"), vec!["coverage: already said".into()]),
    ];
    annotate_coverage(&m, &results, &mut findings);
    assert_eq!(findings[0].notes, ["coverage: 8 of 10 statements analyzed (2 opaque)"]);
    assert!(findings[1].notes.is_empty());
    assert_eq!(findings[2].notes, ["coverage: already said"]);
    // A second pass adds nothing.
    annotate_coverage(&m, &results, &mut findings);
    assert_eq!(findings[0].notes.len(), 1);
}

#[test]
fn temporary_plumbing_is_recognized() {
    assert!(is_temp_plumbing("_4: derived from divergent _3"));
    assert!(!is_temp_plumbing("`x`: derived from divergent _3"));
    assert!(!is_temp_plumbing("_4: derived from divergent `idx`"));
    assert!(!is_temp_plumbing("_4 derived from divergent _3"));
}

#[test]
fn value_sources_follow_the_reason() {
    assert_eq!(value_source(&ReasonKind::Source, Some(CallKind::ThreadIndexWitness)), ValueSource::ThreadIndex);
    assert_eq!(value_source(&ReasonKind::Source, Some(CallKind::AtomicRmw)), ValueSource::AtomicReturn);
    assert_eq!(value_source(&ReasonKind::Source, None), ValueSource::Derived);
    assert_eq!(value_source(&ReasonKind::DerivedFrom(vec![1]), None), ValueSource::Derived);
    assert_eq!(value_source(&ReasonKind::ControlDependent { branch: 0 }, None), ValueSource::DivergentPhi);
    let _unused: Option<Reason> = None;
    let _also: Option<Analysis> = None;
}

#[test]
fn spans_are_looked_up_by_reference() {
    let m = models();
    assert_eq!(span_of(&m, 2), m.spans[2]);
}

#[test]
fn findings_are_sorted_by_file_line_column_and_code_stably() {
    let f = |file: &str, line: usize, col: usize, code: &str, msg: &str| Finding {
        code: code.into(),
        confidence: Confidence::Deny,
        message: msg.into(),
        kernel: None,
        span: span(file, line, col),
        notes: Vec::new(),
        help: None,
        explain: code.into(),
        provenance: Vec::new(),
    };
    let mut v = vec![
        f("b.rs", 1, 1, "RC001", "1"),
        f("a.rs", 9, 1, "RC003", "2"),
        f("a.rs", 9, 1, "RC001", "3"),
        f("a.rs", 2, 7, "RC005", "4"),
        f("a.rs", 9, 1, "RC001", "5"),
    ];
    sort_findings(&mut v);
    let order: Vec<&str> = v.iter().map(|x| x.message.as_str()).collect();
    assert_eq!(order, ["4", "3", "5", "2", "1"]);
}

#[test]
fn crate_types_are_sorted_deduplicated_and_joined() {
    let argv = |a: &[&str]| a.iter().map(ToString::to_string).collect::<Vec<_>>();
    assert_eq!(crate_types_from_args(&argv(&["--crate-type", "lib", "--edition=2021"])), "lib");
    assert_eq!(crate_types_from_args(&argv(&["--crate-type=rlib,cdylib", "--crate-type", "rlib"])), "cdylib+rlib");
    assert_eq!(crate_types_from_args(&argv(&["--crate-type=proc-macro"])), "proc-macro");
    assert_eq!(crate_types_from_args(&argv(&["--crate-typo=lib", "x"])), "unknown");
    assert_eq!(crate_types_from_args(&argv(&[])), "unknown");
    assert_eq!(crate_types_from_args(&argv(&["--crate-type"])), "unknown");
}

#[test]
fn axes_are_spelled_out() {
    assert_eq!(axes(1), "one axis");
    assert_eq!(axes(2), "two axes");
}

#[test]
fn mutation_classes_name_their_diagnostic() {
    assert_eq!(Class::WrapBarrier.slug(), "wrapbar");
    assert_eq!(Class::SwapMutSlice.slug(), "mutslice");
    assert_eq!(Class::WrapBarrier.expected_code(), "RC001");
    assert_eq!(Class::DeleteBarrier.expected_code(), "-");
    assert_eq!(Class::ShrinkMask.expected_code(), "RC002");
    assert_eq!(Class::SwapMutSlice.expected_code(), "RC003");
}

#[test]
fn collective_helpers_are_sorted_into_classified_and_not() {
    assert!(is_classified_collective("shuffle_xor_sync"));
    assert!(is_classified_collective("ballot"), "unmasked wrappers carry an implicit mask now");
    assert!(!is_classified_collective("shfl_sync"));
    for name in ["shuffle", "ballot", "all", "any", "live_lanes_1d", "shuffle_down", "reduce_sum_f32"] {
        assert!(is_unclassified_collective(name), "{name}");
    }
    for name in ["shuffle_sync", "shuffle_xor_sync", "match_any_sync", "active_mask"] {
        assert!(!is_unclassified_collective(name), "{name}");
    }
}

#[test]
fn corpus_manifests_are_exact() {
    assert_eq!(
        member_manifest("vecadd", "/up/cuda-device"),
        "[package]\nname = \"conformance_vecadd\"\nversion = \"0.0.0\"\nedition = \"2024\"\npublish = false\n\n[lib]\npath = \"lib.rs\"\n\n[dependencies]\ncuda-device = { path = \"/up/cuda-device\" }\n"
    );
    assert_eq!(
        workspace_manifest(&["a".to_string(), "b".to_string()]),
        "[workspace]\nresolver = \"3\"\nmembers = [\n    \"crates/a\",\n    \"crates/b\",\n]\n"
    );
}

#[test]
fn rates_print_with_a_rounded_down_percentage() {
    assert_eq!(percent(1, 3), "1/3 (33%)");
    assert_eq!(percent(3, 3), "3/3 (100%)");
    assert_eq!(percent(0, 0), "-");
}

#[test]
fn a_barrier_under_a_divergent_branch_is_an_rc001_warning() {
    let m = models();
    let results = analyze_kernels(&m);
    let mut findings: Vec<Finding> = Vec::new();
    rc001_divergent_barriers(&m, &results, &mut findings);
    assert_eq!(findings.len(), 1);
    let f = &findings[0];
    assert_eq!(f.code, "RC001");
    assert_eq!(f.confidence, Confidence::Warning);
    assert_eq!(f.message, "kernel `scale` may execute `sync_threads()` under thread-divergent control");
    assert_eq!(f.kernel.as_deref(), Some("scale"));
    assert_eq!(f.span, m.spans[3]);
    assert_eq!(f.notes, [BARRIER_NOTE]);
    assert_eq!(f.help.as_deref(), Some(BARRIER_HELP));
    assert_eq!(f.explain, "RC001");
    assert_eq!(f.provenance[0].what, "thread-divergent branch");
    assert_eq!(f.provenance[0].span, m.spans[2]);
    assert!(f.provenance.len() >= 2);
    assert!(f.provenance.iter().skip(1).all(|s| !is_temp_plumbing(&s.what)));
    assert!(f.provenance.last().unwrap().what.contains("index_1d"), "{:?}", f.provenance);
    // No collective in this kernel.
    let mut none: Vec<Finding> = Vec::new();
    rc002_nonconvergent_warp_ops(&m, &results, &mut none);
    assert!(none.is_empty());
}

#[test]
fn a_collective_under_a_divergent_branch_names_its_mask() {
    let mut m = models();
    if let TermKind::Call { callee, const_args, .. } = &mut m.fns[0].blocks[2].term.kind {
        callee.kind = CallKind::WarpCollective { mask: MaskSource::FirstArgument };
        callee.display = "shuffle_sync".into();
        *const_args = vec![Some(0x0000_ffff)];
    }
    let results = analyze_kernels(&m);
    let mut findings: Vec<Finding> = Vec::new();
    rc002_nonconvergent_warp_ops(&m, &results, &mut findings);
    assert_eq!(findings.len(), 1);
    let f = &findings[0];
    assert_eq!(f.code, "RC002");
    assert_eq!(f.message, "kernel `scale` calls `shuffle_sync()` at a point where threads of the warp may be inactive");
    assert_eq!(
        f.notes,
        [COLLECTIVE_NOTE, "the mask is 0x0000ffff; verify the branch admits exactly the lanes it names"]
    );
    let mut barriers: Vec<Finding> = Vec::new();
    rc001_divergent_barriers(&m, &results, &mut barriers);
    assert!(barriers.is_empty());
}

fn kernel_span() -> SourceSpan {
    SourceSpan { file: "src/lib.rs".to_string(), line_start: 3, column_start: 1, line_end: 9, column_end: 2 }
}

#[test]
fn a_contract_wider_than_the_formula_is_an_rc005_warning_once_per_pair() {
    let calls = vec![
        (IndexFn::Index1d, LaunchDomain::D2),
        (IndexFn::Index1d, LaunchDomain::D2),
        (IndexFn::Index2d, LaunchDomain::D2),
        (IndexFn::Index2dRuntime, LaunchDomain::Unknown),
        (IndexFn::Index2d, LaunchDomain::Unknown),
    ];
    let fs = rc005_findings("scale", &kernel_span(), &calls);
    assert_eq!(fs.len(), 2);
    assert_eq!(fs[0].code, "RC005");
    assert_eq!(fs[0].confidence, Confidence::Warning);
    assert_eq!(
        fs[0].message,
        "kernel `scale` declares `domain = 2` but calls `index_1d()`, which is thread-unique only for launches of at most one axis"
    );
    assert_eq!(
        fs[0].help.as_deref(),
        Some("use an index formula that covers two axes, or narrow the contract")
    );
    assert!(fs[0].notes[0].starts_with("on a launch that uses all 2 contracted axes"));
    assert_eq!(fs[1].message, "kernel `scale` calls `index_2d()` without a launch contract");
    assert_eq!(
        fs[1].help.as_deref(),
        Some("declare `#[launch_contract(domain = 2, coordinates = u32, block = (…))]` on the kernel")
    );
    assert_eq!(fs[1].span, kernel_span());
    assert_eq!(fs[1].kernel.as_deref(), Some("scale"));
}

#[test]
fn a_three_axis_contract_over_one_axis_names_no_formula() {
    let calls = vec![(IndexFn::Index1d, LaunchDomain::D3), (IndexFn::Index2d, LaunchDomain::D3)];
    let fs = rc005_findings("wide", &kernel_span(), &calls);
    assert_eq!(fs.len(), 2);
    for f in &fs {
        assert_eq!(
            f.help.as_deref(),
            Some("narrow the contract; no recognized index formula covers three axes")
        );
        assert!(!f.help.as_deref().unwrap().contains("covers 3 two axes"));
    }
    assert!(fs[1].message.ends_with("at most two axes"));
}

fn param_span(line: usize) -> SourceSpan {
    SourceSpan { file: "src/lib.rs".to_string(), line_start: line, column_start: 5, line_end: line, column_end: 30 }
}

#[test]
fn a_mut_slice_parameter_is_an_rc003_error_at_the_parameter() {
    let params = vec![
        KernelParam { span: param_span(3), mut_slice_of: None },
        KernelParam { span: param_span(4), mut_slice_of: Some("f32".to_string()) },
        KernelParam { span: param_span(5), mut_slice_of: Some("u32".to_string()) },
    ];
    let fs = rc003_findings("alias", &params);
    assert_eq!(fs.len(), 2);
    assert_eq!(fs[0].code, "RC003");
    assert_eq!(fs[0].confidence, Confidence::Deny);
    assert_eq!(fs[0].message, "kernel `alias` takes `&mut [f32]` as a parameter");
    assert_eq!(fs[0].span, param_span(4));
    assert_eq!(fs[0].notes.len(), 2);
    assert_eq!(fs[0].help.as_deref(), Some("pass `DisjointSlice<f32>` and index it with a thread-index witness"));
    assert_eq!(fs[1].message, "kernel `alias` takes `&mut [u32]` as a parameter");
    assert_eq!(fs[1].span, param_span(5));
    assert!(rc003_findings("clean", &vec![KernelParam { span: param_span(1), mut_slice_of: None }]).is_empty());
}

fn shared(name: &str, size: u64, kind: &str) -> SharedStatic {
    SharedStatic { name: name.to_string(), size, kind: kind.to_string() }
}

#[test]
fn shared_memory_over_48_kib_is_an_rc004_error_with_the_target_capacity() {
    let statics = vec![shared("TILE_B", 32768, "SharedArray"), shared("TILE_A", 16384, "SharedArray"), shared("BAR", 8, "Barrier")];
    let f = rc004_finding("big", &kernel_span(), &statics, Some((8, 6))).expect("over the limit");
    assert_eq!(f.code, "RC004");
    assert_eq!(f.confidence, Confidence::Deny);
    assert_eq!(
        f.message,
        "kernel `big` declares 49160 bytes of static shared memory, over the 49152-byte static limit"
    );
    assert_eq!(
        f.notes,
        vec![
            "`BAR`: 8 bytes (Barrier)".to_string(),
            "`TILE_A`: 16384 bytes (SharedArray)".to_string(),
            "`TILE_B`: 32768 bytes (SharedArray)".to_string(),
            LIMIT_NOTE.to_string(),
            "target compute capability 8.6 offers at most 101376 bytes per block even with the dynamic opt-in".to_string(),
        ]
    );
    assert_eq!(
        f.help.as_deref(),
        Some("shrink the shared arrays, or move the excess to dynamic shared memory sized at launch")
    );
    assert_eq!(f.span, kernel_span());
    let unknown = rc004_finding("big", &kernel_span(), &statics, Some((1, 0))).unwrap();
    assert_eq!(unknown.notes.len(), 4);
    let none = rc004_finding("big", &kernel_span(), &statics, None).unwrap();
    assert_eq!(none.notes.len(), 4);
}

#[test]
fn shared_memory_at_the_limit_is_clean() {
    let statics = vec![shared("TILE", 49152, "SharedArray")];
    assert!(rc004_finding("fits", &kernel_span(), &statics, Some((9, 0))).is_none());
    assert!(rc004_finding("empty", &kernel_span(), &Vec::new(), None).is_none());
}

#[test]
fn a_kernels_lints_come_rc003_rc004_rc005_and_a_crates_are_sorted() {
    let params = vec![KernelParam { span: param_span(4), mut_slice_of: Some("f32".to_string()) }];
    let statics = vec![shared("BIG", 65536, "SharedArray")];
    let calls = vec![(IndexFn::Index1d, LaunchDomain::D2)];
    let one = kernel_lints("k", &kernel_span(), &params, &statics, None, &calls);
    let codes: Vec<&str> = one.iter().map(|f| f.code.as_str()).collect();
    assert_eq!(codes, ["RC003", "RC004", "RC005"]);

    let early = SourceSpan { file: "src/a.rs".to_string(), line_start: 1, column_start: 1, line_end: 1, column_end: 2 };
    let kernels = vec![
        ("late".to_string(), kernel_span(), Vec::new(), Vec::new(), vec![(IndexFn::Index2d, LaunchDomain::Unknown)]),
        (
            "early".to_string(),
            early.clone(),
            vec![KernelParam { span: early.clone(), mut_slice_of: Some("u8".to_string()) }],
            Vec::new(),
            Vec::new(),
        ),
    ];
    let all = run_lints(&kernels, None);
    assert_eq!(all.len(), 2);
    assert_eq!(all[0].code, "RC003");
    assert_eq!(all[1].code, "RC005");
    assert_eq!(all[1].kernel.as_deref(), Some("late"));
}
