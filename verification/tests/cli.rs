//! The command-line rules: flag reading, the error kinds, the artifact
//! selection, and the small decisions around output.
use reconverge::cli::args::{reject_value, require_value, split_flag, ArgError};
use reconverge::cli::command::{route, Command};
use reconverge::cli::check::{cc_check, findings_file_crate, member_findings_crate, CheckOptions, MessageFormat};
use reconverge::cli::explain::{self, Explained};
use reconverge::cli::inspect::{select_inspect_inputs, InspectOptions};
use reconverge::cli::learn::LearnOptions;
use reconverge::cli::out::{finish, WriteOutcome};
use reconverge::cli::setup::{manual_steps, plan, SetupOptions, PINNED_TOOLCHAIN};
use reconverge::cli::triage::{select_triage_inputs, TriageOptions};
use reconverge::cli::watch::{dashboard_to_stderr, is_skipped, is_watched, run_banner, WatchLoop, WatchOptions};
use reconverge::cli::witness::{select_witness_inputs, witness_missing_hint, WitnessOptions};
use reconverge::artifacts::findings::TOOL_VERSION;

fn argv(args: &[&str]) -> Vec<String> {
    args.iter().map(ToString::to_string).collect()
}

#[test]
fn only_an_unknown_argument_asks_for_the_usage_text() {
    assert!(ArgError::unknown("--bogus").wants_usage());
    assert!(!ArgError::from("`80` is not a compute capability".to_string()).wants_usage());
}

#[test]
fn the_message_is_the_whole_display() {
    // No prefix of its own: `main` already writes "error: ".
    assert_eq!(ArgError::unknown("--x").to_string(), "unrecognized argument `--x`");
    assert_eq!(ArgError::from("bad value".to_string()).to_string(), "bad value");
}

#[test]
fn a_boolean_rejects_an_inline_value() {
    assert_eq!(reject_value("--strict", Some("false")).unwrap_err().to_string(), "`--strict` takes no value");
    assert!(!reject_value("--strict", Some("false")).unwrap_err().wants_usage());
    assert!(reject_value("--strict", None).is_ok());
}

#[test]
fn a_value_flag_refuses_a_following_flag() {
    let err = require_value("--sarif", None, || Some("--strict".into())).unwrap_err();
    assert_eq!(err.to_string(), "`--sarif` requires a value (got the flag `--strict`)");
    assert!(!err.wants_usage());
    assert_eq!(require_value("--sarif", None, || None).unwrap_err().to_string(), "`--sarif` requires a value");
    // Inline is the escape hatch: a path beginning with `--` is fine.
    assert_eq!(require_value("--sarif", Some("--weird"), || Some("--must-not-consume".into())).unwrap(), "--weird");
}

#[test]
fn split_flag_splits_at_the_first_equals_sign() {
    assert_eq!(split_flag("--sarif=a=b"), ("--sarif", Some("a=b")));
    assert_eq!(split_flag("--strict"), ("--strict", None));
    assert_eq!(split_flag("--x="), ("--x", Some("")));
}

#[test]
fn check_flags_parse() {
    let o = CheckOptions::parse(&argv(&[
        "--strict",
        "--cc",
        "8.6",
        "--message-format=json",
        "--sarif",
        "out.sarif",
        "--baseline=bl.json",
        "--show-suppressed",
    ]))
    .unwrap();
    assert!(o.strict && o.show_suppressed);
    assert_eq!(o.cc.as_deref(), Some("8.6"));
    assert_eq!(o.message_format, MessageFormat::Json);
    assert_eq!(o.sarif_path.as_deref(), Some("out.sarif"));
    assert_eq!(o.baseline.as_deref(), Some("bl.json"));
    let d = CheckOptions::parse(&[]).unwrap();
    assert!(!d.strict && d.cc.is_none() && d.message_format == MessageFormat::Text);
}

#[test]
fn check_flag_errors_say_which_value_is_wrong() {
    let e = CheckOptions::parse(&argv(&["--message-format", "xml"])).unwrap_err();
    assert_eq!(e.to_string(), "unknown message format `xml` (expected `text` or `json`)");
    assert!(!e.wants_usage());
    let e = CheckOptions::parse(&argv(&["--sarif"])).unwrap_err();
    assert_eq!(e.to_string(), "`--sarif` requires a value");
    let e = CheckOptions::parse(&argv(&["--bogus=1"])).unwrap_err();
    assert_eq!(e.to_string(), "unrecognized argument `--bogus`");
    assert!(e.wants_usage());
    let e = CheckOptions::parse(&argv(&["--cc", "9.9"])).unwrap_err();
    assert!(e.to_string().starts_with("--cc 9.9 is not in the compute-capability table; known: 7.0, 7.2"), "{}", e.to_string());
    assert!(!e.wants_usage());
    let e = CheckOptions::parse(&argv(&["--cc=8"])).unwrap_err();
    assert_eq!(e.to_string(), "`8` is not a compute capability; expected e.g. `8.6`");
}

#[test]
fn cc_values_are_checked_against_the_table_and_kept_verbatim() {
    assert_eq!(cc_check("+8.6"), Ok("+8.6".to_string()));
    assert!(cc_check("3.5").unwrap_err().contains("is not in the compute-capability table"));
}

#[test]
fn findings_files_name_their_crate_before_the_first_hyphen() {
    assert_eq!(findings_file_crate("findings-helper_macros-proc-macro.json"), Some("helper_macros"));
    assert_eq!(findings_file_crate("findings-k-lib.json"), Some("k"));
    assert_eq!(findings_file_crate("findings-k.json"), None);
    assert_eq!(findings_file_crate("unimap-k-lib.json"), None);
    assert_eq!(findings_file_crate("findings-k-lib.txt"), None);
    let members = argv(&["helper_macros"]);
    assert_eq!(member_findings_crate("findings-helper_macros-proc-macro.json", &members), Some("helper_macros"));
    assert_eq!(member_findings_crate("findings-gone-lib.json", &members), None);
}

#[test]
fn parse_takes_exactly_one_code() {
    assert_eq!(explain::parse(&["RC001".into()]).unwrap(), "RC001");
    assert!(explain::parse(&[]).is_err());
    assert!(explain::parse(&["RC001".into(), "RC002".into()]).is_err());
    assert!(explain::parse(&["--flag".into()]).is_err());
    assert_eq!(
        explain::parse(&[]).unwrap_err().to_string(),
        "`--explain` requires a diagnostic code (e.g. `--explain RC001`)"
    );
}

#[test]
fn run_normalizes_case_and_rejects_unknown_codes() {
    assert_eq!(explain::answer("rc001").exit_code(), 0);
    assert_eq!(explain::answer("RC006").exit_code(), 2); // reserved, unshipped
    assert_eq!(explain::answer("RC999").exit_code(), 2);
    assert_eq!(explain::answer("rc003"), Explained::Page("RC003"));
    assert_eq!(
        explain::answer("rc007"),
        Explained::Reserved(
            "RC007 is reserved but not shipped yet: shared-memory bank-conflict stride on a divergent index (planned for v1.1)"
                .to_string()
        )
    );
    assert_eq!(
        explain::answer("rc999"),
        Explained::Unknown("unknown diagnostic code `rc999`; known codes: RC001, RC002, RC003, RC004, RC005".to_string())
    );
}

#[test]
fn learn_cmd_ascii_rejects_an_inline_value() {
    let err = LearnOptions::parse(&argv(&["--ascii=false"])).map(|_| ()).unwrap_err();
    assert_eq!(err.to_string(), "`--ascii` takes no value");
    assert!(!err.wants_usage());
    assert!(LearnOptions::parse(&argv(&["--ascii"])).unwrap().ascii);
}

#[test]
fn inspect_takes_ascii_alone() {
    assert!(InspectOptions::parse(&argv(&["--ascii"])).unwrap().ascii);
    let err = InspectOptions::parse(&argv(&["--ascii=1"])).map(|_| ()).unwrap_err();
    assert_eq!(err.to_string(), "unrecognized argument `--ascii=1`");
}

#[test]
fn the_plan_pins_toolchain_version_and_lockfile() {
    let [toolchain, install] = plan();
    assert_eq!(toolchain[0], "rustup");
    assert!(toolchain.contains(&PINNED_TOOLCHAIN.to_string()));
    assert!(toolchain.contains(&"rustc-dev".to_string()));

    let version = TOOL_VERSION;
    assert!(install.contains(&format!("reconverge-driver@{version}")));
    assert!(install.contains(&format!("reconverge-tui@{version}")));
    assert!(install.contains(&"--locked".to_string()));
    // The companions are built by the pinned toolchain.
    assert_eq!(&install[..3], &["rustup", "run", PINNED_TOOLCHAIN]);
}

#[test]
fn setup_takes_no_arguments() {
    assert!(SetupOptions::parse(&[]).is_ok());
    assert!(SetupOptions::parse(&["--force".into()]).is_err());
}

#[test]
fn failure_guidance_is_pasteable() {
    let steps = manual_steps();
    assert!(steps.contains("rustup toolchain install"));
    assert!(steps.contains("cargo install --locked"));
    assert_eq!(steps.lines().count(), 2);
    assert!(steps.lines().all(|l| l.starts_with("  rustup ")));
}

#[test]
fn baseline_does_not_swallow_the_next_flag() {
    let err = TriageOptions::parse(&argv(&["--baseline", "--ascii"])).map(|_| ()).unwrap_err();
    assert_eq!(err.to_string(), "`--baseline` requires a value (got the flag `--ascii`)");
    assert!(!err.wants_usage());
}

#[test]
fn triage_cmd_ascii_rejects_an_inline_value() {
    let err = TriageOptions::parse(&argv(&["--ascii=false"])).map(|_| ()).unwrap_err();
    assert_eq!(err.to_string(), "`--ascii` takes no value");
    assert!(!err.wants_usage());
}

#[test]
fn triage_cmd_documented_flags_still_parse() {
    let options = TriageOptions::parse(&argv(&["--ascii", "--baseline", "bl.json"])).unwrap();
    assert!(options.ascii);
    assert_eq!(options.baseline.as_deref(), Some("bl.json"));
    let inline = TriageOptions::parse(&argv(&["--baseline=--odd.json"])).unwrap();
    assert_eq!(inline.baseline.as_deref(), Some("--odd.json"));
}

#[test]
fn kernel_does_not_swallow_the_next_flag() {
    let err = WitnessOptions::parse(&argv(&["--kernel", "--ascii"])).map(|_| ()).unwrap_err();
    assert_eq!(err.to_string(), "`--kernel` requires a value (got the flag `--ascii`)");
    assert!(!err.wants_usage());
}

#[test]
fn witness_cmd_ascii_rejects_an_inline_value() {
    let err = WitnessOptions::parse(&argv(&["--ascii=false"])).map(|_| ()).unwrap_err();
    assert_eq!(err.to_string(), "`--ascii` takes no value");
    assert!(!err.wants_usage());
}

#[test]
fn witness_cmd_documented_flags_still_parse() {
    let options = WitnessOptions::parse(&argv(&["--ascii", "--kernel", "reduce"])).unwrap();
    assert!(options.ascii);
    assert_eq!(options.kernel.as_deref(), Some("reduce"));
}

#[test]
fn max_runs_is_parsed_and_validated_while_check_flags_pass_through() {
    let options = WatchOptions::parse(&argv(&["--max-runs", "3", "--strict"])).unwrap();
    assert_eq!(options.max_runs, Some(3));
    assert!(options.check.strict);

    let options = WatchOptions::parse(&argv(&["--max-runs=2"])).unwrap();
    assert_eq!(options.max_runs, Some(2));

    assert!(WatchOptions::parse(&argv(&[])).unwrap().max_runs.is_none());
    assert!(WatchOptions::parse(&argv(&["--max-runs", "0"])).is_err());
    assert!(WatchOptions::parse(&argv(&["--max-runs", "soon"])).is_err());
    assert!(WatchOptions::parse(&argv(&["--max-runs"])).is_err());
    // Unknown flags are still rejected, by `check`'s own parser.
    assert!(WatchOptions::parse(&argv(&["--bogus"])).is_err());

    let err = WatchOptions::parse(&argv(&["--max-runs", "--strict"])).map(|_| ()).unwrap_err();
    assert_eq!(err.to_string(), "`--max-runs` requires a value (got the flag `--strict`)");
    assert!(!err.wants_usage());
}

#[test]
fn max_runs_errors_are_worded_exactly() {
    assert_eq!(
        WatchOptions::parse(&argv(&["--max-runs", "soon"])).map(|_| ()).unwrap_err().to_string(),
        "--max-runs soon is not a number"
    );
    assert_eq!(
        WatchOptions::parse(&argv(&["--max-runs=0"])).map(|_| ()).unwrap_err().to_string(),
        "--max-runs must be at least 1"
    );
    assert_eq!(WatchOptions::parse(&argv(&["--max-runs=+7"])).unwrap().max_runs, Some(7));
}

#[test]
fn the_watch_set_is_sources_and_manifests() {
    assert!(is_watched("lib.rs"));
    assert!(is_watched("Cargo.toml"));
    assert!(is_watched("Cargo.lock"));
    assert!(!is_watched("notes.md"));
    assert!(is_skipped("target"));
    assert!(is_skipped(".git"));
    assert!(!is_skipped("src"));
}

#[test]
fn the_watch_dashboard_and_its_bound() {
    assert_eq!(run_banner(1, 1), "reconverge watch: run #1 \u{2014} 1 file watched");
    assert_eq!(run_banner(12, 3), "reconverge watch: run #12 \u{2014} 3 files watched");
    assert!(dashboard_to_stderr(MessageFormat::Json));
    assert!(!dashboard_to_stderr(MessageFormat::Text));
    let mut state = WatchLoop::new();
    assert_eq!(state.start_run(), 1);
    assert!(!state.finish_run(None, Some(2)));
    assert_eq!(state.exit, 2, "a failed check is a tool error");
    assert_eq!(state.start_run(), 2);
    assert!(state.finish_run(Some(1), Some(2)));
    assert_eq!(state.exit, 1);
    assert!(!state.finish_run(Some(0), None), "unbounded never stops");
}

#[test]
fn a_reader_that_closes_early_is_not_a_failure() {
    assert_eq!(finish(WriteOutcome::Written), Ok(()));
    assert_eq!(finish(WriteOutcome::BrokenPipe), Ok(()));
    assert_eq!(
        finish(WriteOutcome::Failed("disk full".to_string())),
        Err("cannot write to stdout: disk full".to_string())
    );
}

#[test]
fn artifact_selection_keeps_members_and_sorts() {
    let members = argv(&["k"]);
    let names = argv(&[
        "unimap-k-lib.json",
        "findings-k-lib.json",
        "findings-gone-lib.json",
        "witness-k-reduce-0.json",
        "witness-k-scale-0.json",
        "findings-k-lib.txt",
    ]);
    assert_eq!(select_inspect_inputs(&names, &members).unwrap(), ["findings-k-lib.json", "unimap-k-lib.json"]);
    assert!(select_inspect_inputs(&argv(&["findings-k-lib.json"]), &members).is_none(), "no unimap");
    assert_eq!(select_triage_inputs(&names, &members), ["findings-k-lib.json"]);
    assert_eq!(
        select_witness_inputs(&names, &members, None),
        ["witness-k-reduce-0.json", "witness-k-scale-0.json"]
    );
    assert_eq!(select_witness_inputs(&names, &members, Some("scale")), ["witness-k-scale-0.json"]);
    assert_eq!(witness_missing_hint(Some("scale")), " (or drop `--kernel scale` to see every witness)");
    assert_eq!(witness_missing_hint(None), "");
}

#[test]
fn the_program_s_own_argument_is_skipped_and_the_subcommand_routed() {
    assert_eq!(route(&argv(&["reconverge", "--version"])), Ok(Command::Version));
    assert_eq!(route(&argv(&["--version"])), Ok(Command::Version));
    assert_eq!(route(&argv(&["reconverge", "-V"])), Ok(Command::Version));
    assert_eq!(route(&argv(&[])), Ok(Command::Help));
    assert_eq!(route(&argv(&["reconverge", "-h"])), Ok(Command::Help));
    assert_eq!(route(&argv(&["explain", "RC005"])), Ok(Command::Explain("RC005".to_string())));
    assert_eq!(route(&argv(&["reconverge", "--explain", "rc001"])), Ok(Command::Explain("rc001".to_string())));
    assert_eq!(route(&argv(&["reconverge", "learn", "--ascii"])), Ok(Command::Learn(LearnOptions { ascii: true })));
    assert_eq!(route(&argv(&["setup"])), Ok(Command::Setup(SetupOptions {})));
}

#[test]
fn routing_refuses_what_the_subcommand_refuses() {
    assert_eq!(
        route(&argv(&["reconverge", "frobnicate"])),
        Err(ArgError::Unknown("unrecognized argument `frobnicate`".to_string()))
    );
    assert!(matches!(route(&argv(&["reconverge", "check", "--bogus"])), Err(ArgError::Unknown(_))));
    assert!(matches!(route(&argv(&["reconverge", "check", "--cc"])), Err(ArgError::Value(_))));
    assert!(matches!(route(&argv(&["reconverge", "check", "--cc", "nope"])), Err(ArgError::Value(_))));
    assert!(matches!(route(&argv(&["reconverge", "--explain"])), Err(_)));
    assert!(matches!(route(&argv(&["reconverge", "witness", "--kernel"])), Err(ArgError::Value(_))));
    assert!(matches!(route(&argv(&["reconverge", "setup", "--bogus"])), Err(ArgError::Unknown(_))));
    assert!(matches!(route(&argv(&["reconverge", "watch", "--max-runs", "0"])), Err(ArgError::Value(_))));
    assert!(matches!(route(&argv(&["reconverge", "triage", "--baseline"])), Err(ArgError::Value(_))));
}

#[test]
fn a_value_flag_never_swallows_a_flag_and_a_boolean_rejects_a_value() {
    for (args, message) in [
        (vec!["--sarif", "--strict"], "`--sarif` requires a value (got the flag `--strict`)"),
        (vec!["--strict=false"], "`--strict` takes no value"),
        (vec!["--show-suppressed=yes"], "`--show-suppressed` takes no value"),
        (vec!["--baseline", "--sarif", "out.json"], "`--baseline` requires a value (got the flag `--sarif`)"),
        (vec!["--cc", "--strict"], "`--cc` requires a value (got the flag `--strict`)"),
    ] {
        let e = CheckOptions::parse(&argv(&args)).unwrap_err();
        assert!(!e.wants_usage(), "{args:?}");
        assert_eq!(e.to_string(), message);
    }
    let o = CheckOptions::parse(&argv(&["--sarif=--strict"])).unwrap();
    assert_eq!(o.sarif_path.as_deref(), Some("--strict"));
}

#[test]
fn every_subcommand_parser_answers_help() {
    for flag in ["--help", "-h"] {
        for sub in ["check", "setup", "learn", "triage", "inspect", "witness", "watch", "explain"] {
            assert_eq!(route(&argv(&["reconverge", sub, flag])), Err(ArgError::Help), "{sub} {flag}");
        }
        assert_eq!(InspectOptions::parse(&argv(&[flag])), Err(ArgError::Help));
        assert_eq!(LearnOptions::parse(&argv(&["--ascii", flag])), Err(ArgError::Help));
        assert_eq!(SetupOptions::parse(&argv(&[flag])), Err(ArgError::Help));
    }
    assert!(InspectOptions::parse(&argv(&["--ascii"])).unwrap().ascii);
    // A value flag still reads its value: `--baseline --help` lacks one.
    let e = route(&argv(&["reconverge", "check", "--baseline", "--help"])).unwrap_err();
    assert_eq!(e.to_string(), "`--baseline` requires a value (got the flag `--help`)");
}
