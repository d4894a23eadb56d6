//! Laying out a mutation corpus.
use reconverge::conformance::corpus::{
    corpus_members, plan_corpus, plan_file, CorpusMember, FileMutants, LineOffsets, Mutant, SkipCounts,
};
use reconverge::conformance::{member_manifest, Class};

fn mutant(class: Class, kernel: &str, line: usize, detail: &str) -> Mutant {
    Mutant {
        class,
        kernel: kernel.to_string(),
        line,
        detail: detail.to_string(),
        source: format!("// {detail}\n"),
    }
}

fn skips(a: usize, b: usize, c: usize, d: usize) -> SkipCounts {
    SkipCounts {
        sites_outside_kernels: a,
        unclassified_collectives: b,
        tail_expression_collectives: c,
        extra_disjoint_params: d,
    }
}

#[test]
fn corpus_members_are_read_from_the_workspace_manifest() {
    let manifest = "[workspace]\nresolver = \"3\"\nmembers = [\n    \"crates/vecadd\",\n  \"crates/reduce\",  \n    \"other/x\",\n]\n";
    assert_eq!(corpus_members(manifest).unwrap(), ["vecadd", "reduce"]);
    assert_eq!(corpus_members("[workspace]\nmembers = []\n").unwrap_err(), "corpus manifest lists no members");
}

#[test]
fn mutants_are_named_per_class_and_member_and_labeled() {
    let members = vec![
        CorpusMember {
            name: "reduce".to_string(),
            manifest: member_manifest("reduce", "/cuda"),
            generated: FileMutants {
                mutants: vec![
                    mutant(Class::WrapBarrier, "k", 10, "barrier wrapped in an index-derived if"),
                    mutant(Class::DeleteBarrier, "k", 10, "barrier deleted"),
                    mutant(Class::WrapBarrier, "k", 14, "second barrier"),
                ],
                skips: skips(1, 0, 2, 0),
            },
        },
        CorpusMember {
            name: "scan".to_string(),
            manifest: member_manifest("scan", "/cuda"),
            generated: FileMutants {
                mutants: vec![mutant(Class::SwapMutSlice, "s", 3, "param `out`")],
                skips: skips(0, 4, 0, 1),
            },
        },
    ];
    let plan = plan_corpus(&members);
    let names: Vec<&str> = plan.crates.iter().map(|c| c.name.as_str()).collect();
    assert_eq!(names, ["m_wrapbar_reduce_00", "m_delbar_reduce_00", "m_wrapbar_reduce_01", "m_mutslice_scan_00"]);
    assert!(plan.crates[2].manifest.contains("name = \"m_wrapbar_reduce_01\""));
    assert!(!plan.crates[2].manifest.contains("conformance_reduce"));
    assert_eq!(plan.crates[3].lib_rs, "// param `out`\n");
    assert_eq!(
        plan.labels,
        "# mutant\tclass\texpected\tsource_crate\tkernel\tline\tdetail\n\
         m_wrapbar_reduce_00\twrapbar\tRC001\tconformance_reduce\tk\t10\tbarrier wrapped in an index-derived if\n\
         m_delbar_reduce_00\tdelbar\t-\tconformance_reduce\tk\t10\tbarrier deleted\n\
         m_wrapbar_reduce_01\twrapbar\tRC001\tconformance_reduce\tk\t14\tsecond barrier\n\
         m_mutslice_scan_00\tmutslice\tRC003\tconformance_scan\ts\t3\tparam `out`\n"
    );
    assert!(plan.workspace.contains("    \"crates/m_mutslice_scan_00\",\n]\n"));
    assert_eq!(
        plan.report,
        "# what\tcount\nemitted_wrapbar\t2\nemitted_delbar\t1\nemitted_wrapcol\t0\nemitted_shrinkmask\t0\n\
         emitted_mutslice\t1\nskipped_sites_outside_kernels\t1\nskipped_unclassified_collectives\t4\n\
         skipped_tail_expression_collectives\t2\nskipped_extra_disjoint_params\t1\n"
    );
}

#[test]
fn single_file_mutants_are_numbered_per_class() {
    let generated = FileMutants {
        mutants: vec![
            mutant(Class::ShrinkMask, "k", 5, "FULL_MASK -> 0x0000_ffff"),
            mutant(Class::ShrinkMask, "k", 6, "0xffff_ffff -> 0x0000_ffff"),
            mutant(Class::WrapCollective, "k", 5, "ballot_sync wrapped"),
        ],
        skips: SkipCounts::default(),
    };
    let plan = plan_file(&generated);
    let names: Vec<&str> = plan.files.iter().map(|f| f.name.as_str()).collect();
    assert_eq!(names, ["shrinkmask_00.rs", "shrinkmask_01.rs", "wrapcol_00.rs"]);
    assert!(plan.labels.starts_with("# file\tclass\texpected\tkernel\tline\tdetail\nshrinkmask_00.rs\tshrinkmask\tRC002\tk\t5\t"));
}

#[test]
fn skipped_sites_add_up_across_files() {
    let mut total = SkipCounts::default();
    total.absorb(&skips(1, 2, 3, 4));
    total.absorb(&skips(1, 0, 0, 1));
    assert_eq!(total, skips(2, 2, 3, 5));
}

#[test]
fn line_starts_are_byte_offsets() {
    assert_eq!(LineOffsets::new("ab\ncd\n").0, [0, 3, 6]);
    assert_eq!(LineOffsets::new("é\nx").0, [0, 3]);
    assert_eq!(LineOffsets::new("").0, [0]);
}
