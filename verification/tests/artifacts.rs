//! The artifact records: schema tags, findings tiers, baseline
//! maintenance, and witness replay.
use reconverge::artifacts::baseline::{BaselineArtifact, Entry};
use reconverge::artifacts::findings::{
    order_documents, Confidence, Finding, FindingsArtifact, RunCoverage, SourceSpan, ToolInfo, TOOL_VERSION,
};
use reconverge::artifacts::read::{check_schema, ReadError};
use reconverge::artifacts::schema;
use reconverge::artifacts::unimap::UnimapArtifact;
use reconverge::artifacts::witness::{
    parse_lane_mask, LaneChange, LaneState, Launch, Step, Verdict, VerdictKind, WarpOpEvent, WitnessArtifact,
};
use reconverge::artifacts::{plural, Artifact};

fn finding(code: &str, kernel: Option<&str>) -> Finding {
    Finding {
        code: code.to_string(),
        confidence: Confidence::Warning,
        message: "m".into(),
        kernel: kernel.map(str::to_string),
        span: SourceSpan {
            file: "src/lib.rs".into(),
            line_start: 1,
            column_start: 1,
            line_end: 1,
            column_end: 2,
        },
        notes: Vec::new(),
        help: None,
        explain: code.to_string(),
        provenance: Vec::new(),
    }
}

#[test]
fn schema_identifiers_are_versioned() {
    for id in [schema::FINDINGS, schema::UNIMAP, schema::WITNESS, schema::BASELINE] {
        assert!(id.ends_with(".v1"));
    }
}

#[test]
fn every_artifact_kind_checks_its_own_tag() {
    assert_eq!(FindingsArtifact::expected_schema(), schema::FINDINGS);
    assert_eq!(UnimapArtifact::expected_schema(), schema::UNIMAP);
    assert_eq!(WitnessArtifact::expected_schema(), schema::WITNESS);
    assert_eq!(BaselineArtifact::expected_schema(), schema::BASELINE);
}

#[test]
fn a_document_naming_another_artifact_kind_is_refused() {
    let mut baseline = BaselineArtifact::empty();
    baseline.schema = schema::FINDINGS.to_string();
    let err = check_schema(baseline).unwrap_err();
    assert!(matches!(err, ReadError::Schema { .. }));
    assert_eq!(err.to_string(), "schema is `findings.v1`, expected `baseline.v1`");
}

#[test]
fn a_future_version_of_the_same_kind_is_refused_too() {
    let mut baseline = BaselineArtifact::empty();
    baseline.schema = "baseline.v2".to_string();
    assert!(matches!(check_schema(baseline).unwrap_err(), ReadError::Schema { .. }));
    let current = BaselineArtifact::empty();
    assert_eq!(check_schema(current.clone()).unwrap(), current);
}

#[test]
fn a_parse_failure_is_reported_bare() {
    let err = ReadError::Parse("expected ident at line 1 column 2".to_string());
    assert_eq!(err.to_string(), "expected ident at line 1 column 2");
}

#[test]
fn confidence_tiers_gate_display_and_exit() {
    assert!(Confidence::Deny.shown_by_default());
    assert!(Confidence::Confirmed.shown_by_default());
    assert!(!Confidence::Warning.shown_by_default());
    assert!(!Confidence::Warning.gates_exit_code());
    assert!(Confidence::Deny.gates_exit_code());
    assert!(Confidence::Confirmed.gates_exit_code());
}

#[test]
fn findings_documents_are_stamped_and_extended() {
    let doc = FindingsArtifact::new("k".to_string(), vec![finding("RC003", Some("scale"))]);
    assert_eq!(doc.schema, schema::FINDINGS);
    assert_eq!(doc.tool, ToolInfo::current());
    assert_eq!(doc.tool.name, "reconverge");
    assert_eq!(doc.tool.version, TOOL_VERSION);
    assert_eq!(doc.sort_key(), ("k", ""));
    let doc = doc.for_target("lib".to_string());
    assert_eq!(doc.sort_key(), ("k", "lib"));
    let coverage = RunCoverage { analyzed_statements: 10, opaque_statements: 1, opaque_functions: 1 };
    assert!(coverage.is_degraded());
    let doc = doc.with_coverage(coverage);
    assert_eq!(doc.coverage, Some(coverage));
    assert!(!RunCoverage { analyzed_statements: 3, opaque_statements: 0, opaque_functions: 0 }.is_degraded());
}

#[test]
fn plural_picks_the_singular_only_for_one() {
    assert_eq!(plural(1, "file", "files"), "file");
    assert_eq!(plural(0, "file", "files"), "files");
    assert_eq!(plural(2, "file", "files"), "files");
}

#[test]
fn suppression_matches_on_crate_kernel_and_code_only() {
    let mut baseline = BaselineArtifact::empty();
    let f = finding("RC005", Some("scale"));
    assert!(baseline.suppress("k", &f, "reviewed: host validates the shape"));

    // Same code and kernel, different span and message: still covered.
    let mut moved = finding("RC005", Some("scale"));
    moved.span.line_start = 99;
    moved.message = "different wording".into();
    assert!(baseline.suppression_of("k", &moved).is_some());

    // Different kernel, different code, different crate: not covered.
    assert!(baseline.suppression_of("k", &finding("RC005", Some("other"))).is_none());
    assert!(baseline.suppression_of("k", &finding("RC001", Some("scale"))).is_none());
    assert!(baseline.suppression_of("other", &f).is_none());
    // A crate-level finding is not covered by a kernel entry.
    assert!(baseline.suppression_of("k", &finding("RC005", None)).is_none());
}

#[test]
fn suppress_is_idempotent_and_updates_reasons() {
    let mut baseline = BaselineArtifact::empty();
    let f = finding("RC003", Some("scale"));
    assert!(baseline.suppress("k", &f, "first reason"));
    assert!(!baseline.suppress("k", &f, "first reason"), "no-op repeat");
    assert!(baseline.suppress("k", &f, "better reason"), "reason updated");
    assert_eq!(baseline.entries.len(), 1);
    assert_eq!(baseline.entries[0].reason, "better reason");

    assert!(baseline.unsuppress("k", &f));
    assert!(baseline.entries.is_empty());
    assert!(!baseline.unsuppress("k", &f), "already gone");
}

#[test]
fn entries_are_sorted_and_deduplicated_for_clean_diffs() {
    let mut baseline = BaselineArtifact::new(vec![
        Entry { krate: "z".into(), kernel: None, code: "RC004".into(), reason: "b".into() },
        Entry { krate: "a".into(), kernel: Some("k".into()), code: "RC001".into(), reason: "a".into() },
        Entry {
            krate: "a".into(),
            kernel: Some("k".into()),
            code: "RC001".into(),
            reason: "duplicate, dropped".into(),
        },
    ]);
    baseline.normalize();
    assert_eq!(baseline.entries.len(), 2);
    assert_eq!(baseline.entries[0].krate, "a");
    assert_eq!(baseline.entries[0].reason, "a");
    assert_eq!(baseline.entries[1].krate, "z");
}

#[test]
fn labels_read_naturally_in_diagnostics() {
    let entry = Entry { krate: "kernels".into(), kernel: Some("scale".into()), code: "RC005".into(), reason: "r".into() };
    assert_eq!(entry.label(), "kernels RC005 in `scale`");
    let crate_level = Entry { kernel: None, ..entry };
    assert_eq!(crate_level.label(), "kernels RC005");
}

#[test]
fn normalizing_twice_changes_nothing() {
    let mut baseline = BaselineArtifact::new(vec![
        Entry { krate: "b".into(), kernel: None, code: "RC002".into(), reason: "x".into() },
        Entry { krate: "a".into(), kernel: None, code: "RC002".into(), reason: "y".into() },
    ]);
    let once = baseline.clone();
    baseline.normalize();
    assert_eq!(baseline, once);
    assert_eq!(baseline.entries[0].krate, "a");
}

#[test]
fn a_suppression_reads_back_with_its_reason_and_unsuppress_removes_it() {
    let mut baseline = BaselineArtifact::empty();
    let f = finding("RC001", Some("reduce"));
    baseline.suppress("k", &f, "guarded by the host");
    assert_eq!(baseline.suppression_of("k", &f).unwrap().reason, "guarded by the host");
    baseline.unsuppress("k", &f);
    assert!(baseline.suppression_of("k", &f).is_none());
}

#[test]
fn unimap_documents_are_stamped() {
    let doc = UnimapArtifact::new("k".to_string(), Vec::new());
    assert_eq!(doc.schema, schema::UNIMAP);
    assert_eq!(doc.krate, "k");
    assert_eq!(doc.declared_schema(), schema::UNIMAP);
}

fn artifact_with_collective(lane_changes: Vec<LaneChange>) -> WitnessArtifact {
    WitnessArtifact {
        schema: schema::WITNESS.to_string(),
        tool: ToolInfo::current(),
        krate: "k".into(),
        kernel: "rc002_divergent_collective".into(),
        finding: None,
        launch: Launch { grid: [1, 1, 1], block: [32, 1, 1], warp: Some(0) },
        lanes: 32,
        initial_lane_states: vec![LaneState::Active; 32],
        steps: vec![
            Step {
                index: 0,
                statement: "lanes evaluate the guarding branch".into(),
                span: None,
                lane_changes: vec![],
                barrier: None,
                warp_op: None,
            },
            Step {
                index: 1,
                statement: "ballot_sync()".into(),
                span: None,
                lane_changes,
                barrier: None,
                warp_op: Some(WarpOpEvent {
                    op: "ballot_sync".into(),
                    mask: "0xffffffff".into(),
                    active: "0x55555555".into(),
                }),
            },
        ],
        verdict: Verdict { kind: VerdictKind::UndefinedBehavior, message: "m".into(), step: Some(1) },
    }
}

#[test]
fn a_collective_whose_strip_contradicts_its_mask_is_named() {
    let mut artifact = artifact_with_collective(vec![]);
    // Deltas deferred to the step after the call: the shipped shape.
    assert_eq!(
        artifact.first_collective_disagreeing_with_its_mask(),
        Some(1),
        "all 32 lanes present under a mask naming 16 must be caught"
    );

    // The same call with the departures at the site.
    artifact = artifact_with_collective(
        (0..32u8)
            .filter(|lane| lane % 2 == 1)
            .map(|lane| LaneChange { lane, state: LaneState::Exited })
            .collect(),
    );
    assert_eq!(artifact.first_collective_disagreeing_with_its_mask(), None);
}

#[test]
fn lane_state_replay_applies_deltas_in_order() {
    let mut artifact = WitnessArtifact {
        schema: schema::WITNESS.to_string(),
        tool: ToolInfo::current(),
        krate: "k".into(),
        kernel: "k".into(),
        finding: None,
        launch: Launch { grid: [1, 1, 1], block: [32, 1, 1], warp: Some(0) },
        lanes: 32,
        initial_lane_states: vec![LaneState::Active; 32],
        steps: vec![
            Step {
                index: 0,
                statement: "s0".into(),
                span: None,
                lane_changes: vec![LaneChange { lane: 1, state: LaneState::Exited }],
                barrier: None,
                warp_op: None,
            },
            Step {
                index: 1,
                statement: "s1".into(),
                span: None,
                lane_changes: vec![LaneChange { lane: 0, state: LaneState::Waiting }],
                barrier: None,
                warp_op: None,
            },
        ],
        verdict: Verdict { kind: VerdictKind::Completed, message: "done".into(), step: Some(1) },
    };

    assert_eq!(artifact.lane_states_at(None)[1], LaneState::Active);
    assert_eq!(artifact.lane_states_at(Some(0))[1], LaneState::Exited);
    assert_eq!(artifact.lane_states_at(Some(0))[0], LaneState::Active);
    assert_eq!(artifact.lane_states_at(Some(1))[0], LaneState::Waiting);

    // Steps beyond the last recorded index change nothing.
    artifact.verdict.step = None;
    assert_eq!(artifact.lane_states_at(Some(99))[0], LaneState::Waiting);
}

#[test]
fn lane_masks_parse_as_hex_words() {
    assert_eq!(parse_lane_mask("0xffffffff"), Some(0xffff_ffff));
    assert_eq!(parse_lane_mask("0x55555555"), Some(0x5555_5555));
    assert_eq!(parse_lane_mask("ffffffff"), Some(0xffff_ffff), "the prefix is optional");
    assert_eq!(parse_lane_mask("0x1ffffffff"), None, "wider than a warp");
    assert_eq!(parse_lane_mask("0x"), None);
    assert_eq!(parse_lane_mask("0xzz"), None);
}

#[test]
fn the_same_entries_in_any_order_normalize_alike() {
    let e = |krate: &str, kernel: Option<&str>, code: &str, reason: &str| Entry {
        krate: krate.into(),
        kernel: kernel.map(str::to_string),
        code: code.into(),
        reason: reason.into(),
    };
    let forward = BaselineArtifact::new(vec![
        e("b", None, "RC002", "x"),
        e("a", Some("k"), "RC001", "z"),
        e("a", Some("k"), "RC001", "y"),
        e("a", None, "RC004", "w"),
    ]);
    let backward = BaselineArtifact::new(vec![
        e("a", None, "RC004", "w"),
        e("a", Some("k"), "RC001", "y"),
        e("a", Some("k"), "RC001", "z"),
        e("b", None, "RC002", "x"),
    ]);
    assert_eq!(forward.entries, backward.entries);
    let reasons: Vec<&str> = forward.entries.iter().map(|x| x.reason.as_str()).collect();
    assert_eq!(reasons, ["w", "y", "x"]);
}

#[test]
fn documents_are_ordered_by_crate_then_target() {
    let doc = |krate: &str, target: Option<&str>| {
        let d = FindingsArtifact::new(krate.to_string(), Vec::new());
        match target {
            Some(t) => d.for_target(t.to_string()),
            None => d,
        }
    };
    let ordered = order_documents(vec![doc("b", Some("lib")), doc("a", Some("lib")), doc("a", None), doc("a", Some("bin"))]);
    let keys: Vec<(&str, &str)> = ordered.iter().map(|d| d.sort_key()).collect();
    assert_eq!(keys, [("a", ""), ("a", "bin"), ("a", "lib"), ("b", "lib")]);
}

#[test]
fn a_suppression_leaves_exactly_one_covering_entry() {
    let mut baseline = BaselineArtifact::empty();
    let a = finding("RC001", Some("scale"));
    let b = finding("RC005", Some("scale"));
    assert!(baseline.suppress("k", &a, "a"));
    assert!(baseline.suppress("k", &b, "b"));
    assert!(baseline.suppress("k", &b, "b again"));
    let covering: Vec<&Entry> =
        baseline.entries.iter().filter(|e| e.covers("k", &b.code, b.kernel.as_deref())).collect();
    assert_eq!(covering.len(), 1);
    assert_eq!(covering[0].reason, "b again");
    assert_eq!(baseline.entries.len(), 2);
    assert!(baseline.entries.iter().any(|e| e.covers("k", &a.code, a.kernel.as_deref()) && e.reason == "a"));
}
