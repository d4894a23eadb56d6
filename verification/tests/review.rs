//! What a user sees of a review and whether the run fails: suppressions,
//! counts, the summary line, stale entries, the text block and SARIF.
use reconverge::artifacts::baseline::{BaselineArtifact, Entry};
use reconverge::artifacts::findings::{Confidence, Finding, FindingsArtifact, ProvenanceStep, SourceSpan};
use reconverge::cli::render::{control_picture, render_item, PreparedLine, MAX_SNIPPET_WIDTH};
use reconverge::cli::review::{BaselineSource, Counts, Item, Review, DEFAULT_BASELINE};
use reconverge::cli::sarif::{help_uri, level, report, rule_default_level, rule_description};

fn finding(code: &str, kernel: Option<&str>, confidence: Confidence) -> Finding {
    Finding {
        code: code.to_string(),
        confidence,
        message: "m".into(),
        kernel: kernel.map(str::to_string),
        span: SourceSpan { file: "src/lib.rs".into(), line_start: 1, column_start: 1, line_end: 1, column_end: 2 },
        notes: Vec::new(),
        help: None,
        explain: code.to_string(),
        provenance: Vec::new(),
    }
}

fn review(findings: Vec<Finding>, entries: Vec<Entry>) -> Review {
    Review {
        artifacts: vec![FindingsArtifact::new("k".to_string(), findings)],
        baseline: BaselineArtifact::new(entries),
        baseline_path: DEFAULT_BASELINE.to_string(),
    }
}

fn entry(code: &str, kernel: Option<&str>) -> Entry {
    Entry { krate: "k".into(), kernel: kernel.map(str::to_string), code: code.to_string(), reason: "reviewed".into() }
}

#[test]
fn suppressed_findings_leave_the_gate_and_the_counts() {
    let findings = vec![
        finding("RC003", Some("a"), Confidence::Deny),
        finding("RC001", Some("b"), Confidence::Confirmed),
        finding("RC005", Some("c"), Confidence::Warning),
    ];
    let open = review(findings.clone(), Vec::new());
    assert_eq!(open.exit_code(), 1);
    assert_eq!(open.counts(), Counts { deny: 1, confirmed: 1, warning: 1, suppressed: 0 });

    // Accepting both gating findings clears the exit code; the warning is
    // untouched and still counted.
    let reviewed = review(findings, vec![entry("RC003", Some("a")), entry("RC001", Some("b"))]);
    assert_eq!(reviewed.exit_code(), 0);
    assert_eq!(reviewed.counts(), Counts { deny: 0, confirmed: 0, warning: 1, suppressed: 2 });
}

#[test]
fn summary_line_always_reports_suppressions() {
    let counts = Counts { deny: 0, confirmed: 0, warning: 2, suppressed: 3 };
    let line = counts.summary_line(false);
    assert!(line.contains("2 warning findings (2 hidden"), "{line}");
    assert!(line.contains("3 suppressed by the baseline"), "{line}");
    // Even in strict mode the suppressed count stays visible.
    assert!(counts.summary_line(true).contains("3 suppressed"));
    assert!(!Counts::default().summary_line(false).contains("suppressed"));
}

#[test]
fn summary_lines_are_worded_exactly() {
    assert_eq!(
        Counts { deny: 1, confirmed: 0, warning: 1, suppressed: 1 }.summary_line(false),
        "reconverge: 1 deny, 0 confirmed, 1 warning findings (1 hidden; rerun with --strict to see it); 1 suppressed by the baseline (--show-suppressed to review)"
    );
    assert_eq!(
        Counts { deny: 0, confirmed: 1, warning: 0, suppressed: 0 }.summary_line(true),
        "reconverge: 0 deny, 1 confirmed, 0 warning finding"
    );
    assert_eq!(Counts::default().summary_line(false), "reconverge: 0 deny, 0 confirmed, 0 warning findings");
}

#[test]
fn stale_entries_are_reported_not_fatal() {
    let reviewed = review(
        vec![finding("RC003", Some("a"), Confidence::Deny)],
        vec![entry("RC003", Some("a")), entry("RC004", Some("gone"))],
    );
    let stale = reviewed.stale_entries();
    assert_eq!(stale.len(), 1);
    assert_eq!(stale[0].code, "RC004");
    assert_eq!(reviewed.exit_code(), 0, "stale entries never gate");
}

#[test]
fn items_report_display_eligibility_per_mode() {
    let reviewed = review(
        vec![finding("RC003", Some("a"), Confidence::Deny), finding("RC005", Some("c"), Confidence::Warning)],
        vec![entry("RC003", Some("a"))],
    );
    let items: Vec<Item<'_>> = reviewed.items();
    assert_eq!(items.len(), 2);
    // Suppressed: hidden unless explicitly reviewed, at any strictness.
    assert!(!items[0].shown(false, false));
    assert!(!items[0].shown(true, false));
    assert!(items[0].shown(false, true));
    // Warning: the usual --strict rule, unaffected by --show-suppressed.
    assert!(!items[1].shown(false, false));
    assert!(items[1].shown(true, false));
}

#[test]
fn a_missing_explicit_baseline_is_an_error_but_a_missing_default_is_not() {
    let missing = "definitely/not/here.json".to_string();
    let source = || BaselineSource::Missing("No such file or directory (os error 2)".to_string());
    assert!(Review::load(Vec::new(), missing.clone(), false, source()).is_ok());
    let err = Review::load(Vec::new(), missing, true, source()).unwrap_err();
    assert!(err.contains("cannot read"), "{err}");
    assert!(err.contains("only the default is treated as empty when absent"), "{err}");
}

#[test]
fn baselines_are_checked_for_reasons_and_normalized_on_load() {
    let path = "bl.json".to_string();
    let parsed = BaselineArtifact::new(vec![entry("RC004", Some("b")), entry("RC003", Some("a"))]);
    let loaded = Review::load(Vec::new(), path.clone(), true, BaselineSource::Parsed(parsed.clone())).unwrap();
    assert_eq!(loaded.baseline, parsed);
    assert_eq!(loaded.baseline_path, "bl.json");

    let mut bad = parsed;
    bad.entries[0].reason = "  \t ".into();
    let err = Review::load(Vec::new(), path.clone(), true, BaselineSource::Parsed(bad)).unwrap_err();
    assert_eq!(err, "bl.json: entry `k RC003 in `a`` has no reason; every suppression must say why");

    let err = Review::load(Vec::new(), path.clone(), false, BaselineSource::Malformed("eof".into())).unwrap_err();
    assert_eq!(err, "bl.json is not a baseline.v1 document: eof");
    let err = Review::load(Vec::new(), path, false, BaselineSource::Unreadable("denied".into())).unwrap_err();
    assert_eq!(err, "cannot read bl.json: denied");
}

fn scale_finding() -> Finding {
    Finding {
        code: "RC003".into(),
        confidence: Confidence::Deny,
        message: "kernel `scale` takes `&mut [f32]` as a parameter".into(),
        kernel: Some("scale".into()),
        span: SourceSpan { file: "no/such/file.rs".into(), line_start: 7, column_start: 1, line_end: 7, column_end: 9 },
        notes: vec!["every thread gets the same exclusive reference".into()],
        help: Some("use `DisjointSlice<f32>`".into()),
        explain: "RC003".into(),
        provenance: Vec::new(),
    }
}

#[test]
fn suppressed_findings_render_as_decisions_with_their_reason() {
    let finding = scale_finding();
    let entry = Entry {
        krate: "k".into(),
        kernel: Some("scale".into()),
        code: "RC003".into(),
        reason: "reviewed: the host half owns this buffer".into(),
    };

    let open = render_item(&Item { finding: &finding, suppression: None }, None);
    assert!(open.starts_with("error[RC003]: "), "{open}");
    assert!(!open.contains("= baseline:"));

    let suppressed = render_item(&Item { finding: &finding, suppression: Some(&entry) }, None);
    assert!(suppressed.starts_with("suppressed[RC003]: "), "{suppressed}");
    assert!(suppressed.contains(" = baseline: reviewed: the host half owns this buffer\n"), "{suppressed}");
    // A suppression hides the finding by default; it never edits it.
    assert!(suppressed.contains("= note: every thread gets"));
    assert!(suppressed.contains("= help: use `DisjointSlice<f32>`"));
}

fn rendered(line: &str, line_no: usize, column_start: usize, column_end: usize) -> String {
    let mut finding = scale_finding();
    finding.span = SourceSpan { file: "src/lib.rs".into(), line_start: line_no, column_start, line_end: line_no, column_end };
    render_item(&Item { finding: &finding, suppression: None }, Some(line))
}

#[test]
fn the_rendered_block_is_aligned_under_its_own_gutter() {
    let expected = [
        "error[RC003]: kernel `scale` takes `&mut [f32]` as a parameter\n",
        " --> src/lib.rs:6:12\n",
        "  |\n",
        "6 |     if x { sync(); }\n",
        "  |            ^^^^^^\n",
        "  = note: every thread gets the same exclusive reference\n",
        "  = help: use `DisjointSlice<f32>`\n",
    ]
    .concat();
    assert_eq!(rendered("    if x { sync(); }", 6, 12, 18), expected);
}

#[test]
fn the_frame_does_not_drift_with_the_line_numbers_digit_count() {
    for (line_no, pad) in [(6, " "), (22, "  "), (100, "   "), (1001, "    ")] {
        let out = rendered("\tif x { sync(); }", line_no, 9, 15);
        assert!(out.contains(&format!("\n{pad}--> src/lib.rs:{line_no}:9\n")), "line {line_no}: {out}");
        assert!(out.contains(&format!("\n{pad} = note: ")), "line {line_no}: {out}");
        assert!(out.contains(&format!("\n{pad} | {}^^^^^^\n", " ".repeat(11))), "line {line_no}: {out}");
    }
}

#[test]
fn the_caret_is_measured_in_cells_not_characters() {
    let out = rendered("幅幅幅幅幅幅幅幅 sync();", 6, 10, 16);
    let caret_row = out.lines().find(|l| l.contains('^')).expect("a caret row");
    assert_eq!(caret_row, format!("  | {}^^^^^^", " ".repeat(17)), "{out}");

    let out = rendered("pub fn k(幅幅幅幅: &mut [f32]) {}", 6, 10, 14);
    let caret_row = out.lines().find(|l| l.contains('^')).expect("a caret row");
    assert_eq!(caret_row, format!("  | {}^^^^^^^^", " ".repeat(9)), "{out}");
}

#[test]
fn control_bytes_in_the_source_are_shown_rather_than_obeyed() {
    let out = rendered("    if x { sync(); } // \u{1b}[2J\u{1b}[H", 6, 12, 18);
    assert!(!out.contains('\u{1b}'), "an ESC reached stdout: {out:?}");
    assert!(out.contains("␛[2J␛[H"), "{out}");
    let out = rendered("a\u{0}b\u{7}c\u{7f}d\u{9b}e", 6, 1, 2);
    assert!(
        !out.lines().any(|l| l
            .chars()
            .any(|c| (c < ' ' && c != '\t') || c == '\u{7f}' || ('\u{80}'..='\u{9f}').contains(&c))),
        "{out:?}"
    );
    assert!(out.contains("a␀b␇c␡d\u{fffd}e"), "{out}");
    assert_eq!(control_picture('\u{1b}'), "␛");
}

#[test]
fn an_over_long_line_is_trimmed_around_its_span() {
    let long = format!("{}sync();{}", "x".repeat(400), "y".repeat(400));
    let out = rendered(&long, 6, 401, 407);
    let snippet = out.lines().find(|l| l.starts_with("6 | ")).expect("a snippet row");
    let caret_row = out.lines().find(|l| l.contains('^')).expect("a caret row");
    assert!(snippet.chars().count() <= MAX_SNIPPET_WIDTH + 10, "{snippet}");
    assert!(caret_row.chars().count() <= MAX_SNIPPET_WIDTH + 10, "{caret_row}");
    assert!(snippet.contains("...x"), "{snippet}");
    assert!(snippet.ends_with("..."), "{snippet}");
    assert!(snippet.contains("sync();"), "{snippet}");
    let carets = caret_row.find('^').expect("carets");
    let under: String = snippet.chars().skip(carets).take(6).collect();
    assert_eq!(under, "sync()", "the caret must sit under the span:\n{out}");
}

#[test]
fn a_line_within_the_bound_is_not_trimmed() {
    let out = rendered("    if x { sync(); }", 6, 12, 18);
    assert!(!out.contains("..."), "{out}");
}

#[test]
fn prepared_lines_clamp_columns_and_keep_one_caret() {
    let p = PreparedLine::new("abc", 2, 2);
    assert_eq!((p.text.as_str(), p.caret_col, p.caret_width), ("abc", 1, 1), "an empty span still gets a caret");
    let p = PreparedLine::new("abc", 9, 12);
    assert_eq!((p.caret_col, p.caret_width), (3, 1), "a column past the end clamps to it");
    let p = PreparedLine::new("\tx", 2, 3);
    assert_eq!((p.text.as_str(), p.caret_col), ("    x", 4), "a tab runs to the next stop");
}

#[test]
fn provenance_and_multiline_spans_render() {
    let mut f = scale_finding();
    f.span.line_end = 8;
    f.provenance = vec![ProvenanceStep {
        what: "condition derives from `index_1d()`".into(),
        span: SourceSpan { file: "src/k.rs".into(), line_start: 3, column_start: 1, line_end: 3, column_end: 2 },
    }];
    f.help = None;
    f.notes = Vec::new();
    let out = render_item(&Item { finding: &f, suppression: None }, Some("ignored"));
    assert_eq!(
        out,
        "error[RC003]: kernel `scale` takes `&mut [f32]` as a parameter\n --> no/such/file.rs:7:1\n  = provenance: condition derives from `index_1d()` (src/k.rs:3)\n"
    );
}

#[test]
fn sarif_rules_are_properties_of_the_code() {
    assert_eq!(rule_description("RC001"), "sync_threads() under thread-divergent control flow");
    assert_eq!(rule_description("RC999"), "reconverge finding");
    assert_eq!(rule_default_level("RC002"), "error");
    assert_eq!(rule_default_level("RC999"), "warning");
    assert_eq!(level(Confidence::Confirmed), "error");
    assert_eq!(level(Confidence::Warning), "warning");
    assert_eq!(
        help_uri("RC004"),
        "https://github.com/vyncint/reconverge/blob/v0.1.0/crates/cargo-reconverge/explain/RC004.md"
    );
}

#[test]
fn sarif_reports_every_finding_and_one_rule_per_code() {
    let mut a = finding("RC005", Some("c"), Confidence::Warning);
    a.notes = vec!["n1".into()];
    a.help = Some("h".into());
    let b = finding("RC001", Some("b"), Confidence::Confirmed);
    let c = finding("RC005", Some("d"), Confidence::Warning);
    let r = review(vec![a, b, c], vec![entry("RC001", Some("b"))]);
    let sarif = report(&r);
    let ids: Vec<&str> = sarif.rules.iter().map(|rule| rule.id.as_str()).collect();
    assert_eq!(ids, ["RC001", "RC005"], "sorted, one per code");
    assert_eq!(sarif.results.len(), 3, "suppressed findings stay in the report");
    assert_eq!(sarif.results[0].text, "m\n\nnote: n1\n\nhelp: h");
    assert_eq!(sarif.results[0].level, "warning");
    assert_eq!(sarif.results[1].suppression.as_deref(), Some("reviewed"));
    assert_eq!(sarif.results[2].suppression, None);
}

#[test]
fn counts_cover_every_finding_and_the_exit_code_follows_them() {
    let findings = vec![
        finding("RC003", Some("a"), Confidence::Deny),
        finding("RC001", Some("b"), Confidence::Confirmed),
        finding("RC005", Some("c"), Confidence::Warning),
        finding("RC005", Some("d"), Confidence::Warning),
    ];
    for entries in [
        Vec::new(),
        vec![entry("RC003", Some("a"))],
        vec![entry("RC003", Some("a")), entry("RC001", Some("b"))],
        vec![entry("RC005", Some("c")), entry("RC005", Some("d"))],
    ] {
        let r = review(findings.clone(), entries);
        let c = r.counts();
        assert_eq!(c.deny + c.confirmed + c.warning + c.suppressed, findings.len());
        assert_eq!(r.exit_code() == 1, c.deny + c.confirmed > 0);
    }
}

#[test]
fn prepared_text_never_holds_a_terminal_control() {
    let raw = "\tlet x = \u{1b}[31m\u{7f}\u{85}\u{9b}y;\u{0}";
    let p = PreparedLine::new(raw, 2, 5);
    assert!(p.text.chars().all(|c| !(c <= '\u{1f}' || c == '\u{7f}' || ('\u{80}'..='\u{9f}').contains(&c))));
    assert_eq!(p.text, "    let x = \u{241b}[31m\u{2421}\u{fffd}\u{fffd}y;\u{2400}");
    let long: String = std::iter::repeat("\u{1b}a").take(200).collect();
    let q = PreparedLine::new(&long, 150, 151);
    assert!(q.text.chars().all(|c| !(c <= '\u{1f}' || c == '\u{7f}' || ('\u{80}'..='\u{9f}').contains(&c))));
}
