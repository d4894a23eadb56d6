//! Scoring a mutation-corpus run.
use reconverge::conformance::score::{
    claims_fit, parse_labels, run_size_fits, score, tally, RunDoc, RunFinding,
};
use reconverge::conformance::Class;
use reconverge::text::{lines_of, split_chars, trim_leading_str};

fn doc(krate: &str, findings: &[(&str, &str, &str)]) -> RunDoc {
    RunDoc {
        krate: Some(krate.to_string()),
        findings: findings
            .iter()
            .map(|(code, kernel, confidence)| RunFinding {
                code: Some(code.to_string()),
                kernel: Some(kernel.to_string()),
                confidence: Some(confidence.to_string()),
            })
            .collect(),
    }
}

const LABELS: &str = "# header\n\
     m_wrapbar_ex_00\twrapbar\tRC001\tconformance_ex\tk\t10\td\n\
     m_delbar_ex_00\tdelbar\t-\tconformance_ex\tk\t10\td\n\
     m_mutslice_ex_00\tmutslice\tRC003\tconformance_ex\tk\t5\td\n";

#[test]
fn detection_is_measured_against_the_baseline_and_fps_fail() {
    let labels = parse_labels(LABELS).unwrap();
    let report = "# what\tcount\nemitted_wrapbar\t1\n";
    // The source example already carries one RC001 warning on kernel k.
    let baseline_docs = vec![doc("conformance_ex", &[("RC001", "k", "warning")])];
    assert!(run_size_fits(&baseline_docs));
    let baseline = tally(&baseline_docs).unwrap();

    // wrapbar: one MORE RC001, confirmed -> detected at default.
    // delbar: no findings. mutslice: RC003 deny -> detected.
    let result_docs = vec![
        doc("m_wrapbar_ex_00", &[("RC001", "k", "warning"), ("RC001", "k", "confirmed")]),
        doc("m_delbar_ex_00", &[]),
        doc("m_mutslice_ex_00", &[("RC003", "k", "deny")]),
    ];
    let results = tally(&result_docs).unwrap();
    assert!(claims_fit(&labels, &results));
    let md = score(&labels, report, &baseline, &results).expect("precision holds");
    assert!(md.contains("**Precision at default confidence: 1.000**"));
    assert!(md.contains(
        "| wrapbar | barrier wrapped in an index-derived `if` | RC001 | 1 | 1 | 1/1 (100%) | 1/1 (100%) |"
    ));
    assert!(md.contains(
        "| mutslice | `DisjointSlice<T>` param swapped to `&mut [T]` | RC003 | 1 | 1 | 1/1 (100%) | 1/1 (100%) |"
    ));

    // Now a spurious gating finding on the delete mutant: precision fails.
    let bad_docs = vec![
        doc("m_wrapbar_ex_00", &[("RC001", "k", "confirmed")]),
        doc("m_delbar_ex_00", &[("RC001", "k", "confirmed")]),
        doc("m_mutslice_ex_00", &[("RC003", "k", "deny")]),
    ];
    let bad = tally(&bad_docs).unwrap();
    let err = score(&labels, report, &baseline, &bad).expect_err("FP must fail");
    assert!(err.contains("m_delbar_ex_00: RC001 on kernel `k`"));
}

#[test]
fn a_passing_report_counts_the_attributed_findings_and_strips_the_site_header() {
    let labels = parse_labels(LABELS).unwrap();
    let baseline = tally(&vec![doc("conformance_ex", &[("RC001", "k", "warning")])]).unwrap();
    let results = tally(&vec![
        doc("m_wrapbar_ex_00", &[("RC001", "k", "confirmed")]),
        doc("m_mutslice_ex_00", &[("RC003", "k", "deny")]),
    ])
    .unwrap();
    let md = score(&labels, "# what\tcount\nemitted_wrapbar\t1\n", &baseline, &results).unwrap();
    assert!(md.starts_with("# Mutation-corpus results\n\nGenerated by `scripts/run-mutation-corpus.sh`"));
    assert!(md.contains("**Precision at default confidence: 1.000** — 2 gating finding(s)\nacross all compiling mutants"));
    // The delete mutant did not compile: emitted 1, compiling 0, no rate.
    assert!(md.contains("| delbar | barrier deleted (data race) | - | 1 | 0 | - | - |"));
    assert!(md.contains("| wrapcol | warp collective wrapped the same way | RC002 | 0 | 0 | - | - |"));
    assert!(md.ends_with("(from `mutation-report.tsv`):\n\n```\nemitted_wrapbar\t1\n```\n"));
}

#[test]
fn an_analyzed_crate_no_label_claims_is_a_false_positive() {
    let labels = parse_labels(LABELS).unwrap();
    let baseline = tally(&Vec::new()).unwrap();
    let results = tally(&vec![doc("m_wrapbar_ex_00", &[]), doc("stray", &[("RC005", "x", "warning")])]).unwrap();
    let err = score(&labels, "", &baseline, &results).unwrap_err();
    assert!(err.contains("**Precision at default confidence: FAILED**\n\n- stray: analyzed but not in labels.tsv\n"));
}

#[test]
fn gating_findings_beyond_the_injected_bug_are_named_with_their_counts() {
    let labels = parse_labels(LABELS).unwrap();
    let baseline = tally(&vec![doc("conformance_ex", &[])]).unwrap();
    let results = tally(&vec![doc(
        "m_wrapbar_ex_00",
        &[("RC001", "k", "confirmed"), ("RC001", "k", "deny"), ("RC004", "k", "deny")],
    )])
    .unwrap();
    let err = score(&labels, "", &baseline, &results).unwrap_err();
    assert!(err.contains("- m_wrapbar_ex_00: RC001 on kernel `k` — 2 gating finding(s), 1 attributable\n"));
    assert!(err.contains("- m_wrapbar_ex_00: RC004 on kernel `k` — 1 gating finding(s), 0 attributable\n"));
}

#[test]
fn runs_are_tallied_by_crate_and_key_in_order() {
    let docs = vec![
        doc("b", &[("RC002", "z", "warning")]),
        doc("a", &[("RC001", "k", "deny"), ("RC001", "j", "warning")]),
        RunDoc {
            krate: Some("b".to_string()),
            findings: vec![RunFinding { code: None, kernel: None, confidence: None }],
        },
        doc("b", &[("RC002", "z", "confirmed")]),
    ];
    let t = tally(&docs).unwrap();
    let crates: Vec<&str> = t.iter().map(|c| c.krate.as_str()).collect();
    assert_eq!(crates, ["a", "b"]);
    let b: Vec<(&str, &str, usize, usize)> =
        t[1].keys.iter().map(|k| (k.code.as_str(), k.kernel.as_str(), k.counts.gating, k.counts.total)).collect();
    assert_eq!(b, [("?", "-", 0, 1), ("RC002", "z", 1, 2)]);
    let a: Vec<(&str, &str)> = t[0].keys.iter().map(|k| (k.code.as_str(), k.kernel.as_str())).collect();
    assert_eq!(a, [("RC001", "j"), ("RC001", "k")]);
}

#[test]
fn a_document_without_a_crate_is_refused() {
    let docs = vec![doc("a", &[]), RunDoc { krate: None, findings: Vec::new() }];
    assert_eq!(tally(&docs).unwrap_err(), "findings document lacks `crate`");
}

#[test]
fn label_rows_are_checked() {
    assert_eq!(parse_labels("m\twrapbar\tRC001\n").unwrap_err(), "malformed label row: m\twrapbar\tRC001");
    assert_eq!(parse_labels("m\tfrob\tRC001\tx\tk\t1\td\n").unwrap_err(), "unknown mutation class `frob`");
    let labels = parse_labels("  \n# c\r\nm\tshrinkmask\tRC002\tx\tk\t1\td\r\n").unwrap();
    assert_eq!(labels.len(), 1);
    assert_eq!(labels[0].class, Class::ShrinkMask);
    assert_eq!(labels[0].kernel, "k");
}

#[test]
fn text_is_split_into_lines_and_fields_as_std_does() {
    let cases = ["", "a", "a\n", "a\r\nb", "\n", "a\n\nb\r", "x\r"];
    for text in cases {
        let expected: Vec<String> = text.lines().map(str::to_string).collect();
        assert_eq!(lines_of(text), expected, "{text:?}");
    }
    let expected: Vec<String> = "a\t\tb\t".split('\t').map(str::to_string).collect();
    assert_eq!(split_chars("a\t\tb\t", '\t'), expected);
    assert_eq!(trim_leading_str("abab-x", "ab"), "-x");
    assert_eq!(trim_leading_str("x", ""), "x");
}
