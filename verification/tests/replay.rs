//! What a witness replay's answer does to a finding.
use reconverge::artifacts::findings::{Confidence, Finding, SourceSpan};
use reconverge::dialect::{CallKind, MaskSource};
use reconverge::emit::replay::{
    exposed_sites, note_no_witness, promote, retry_width, site_kind_of, NoWitness, Replay, SiteKind, INLINED_NOTE,
    UNREACHABLE_NOTE,
};
use reconverge::model::{Block, Callee, Term, TermKind};
use reconverge::LaunchScope;

fn warning(notes: &[&str]) -> Finding {
    Finding {
        code: "RC002".to_string(),
        confidence: Confidence::Warning,
        message: "m".to_string(),
        kernel: Some("k".to_string()),
        span: SourceSpan { file: "src/lib.rs".to_string(), line_start: 1, column_start: 1, line_end: 1, column_end: 2 },
        notes: notes.iter().map(|n| n.to_string()).collect(),
        help: None,
        explain: "RC002".to_string(),
        provenance: Vec::new(),
    }
}

#[test]
fn only_a_one_dimensional_block_of_several_warps_is_replayed_again() {
    assert_eq!(retry_width(Some([128, 1, 1])), Some(128));
    assert_eq!(retry_width(Some([32, 1, 1])), None);
    assert_eq!(retry_width(Some([64, 2, 1])), None);
    assert_eq!(retry_width(None), None);
}

#[test]
fn a_witness_confirms_the_finding_with_its_launch_and_diagram() {
    let mut f = warning(&["first"]);
    let replay = Replay {
        grid: [1, 1, 1],
        block: [32, 1, 1],
        verdict_message: "lanes 0..16 wait forever".to_string(),
        diagram: vec!["WWWW....".to_string(), "legend".to_string()],
    };
    promote(&mut f, &replay, false);
    assert_eq!(f.confidence, Confidence::Confirmed);
    assert_eq!(
        f.notes,
        vec![
            "first".to_string(),
            "witness: replayed with grid (1,1,1) x block (32,1,1), warp 0 — lanes 0..16 wait forever".to_string(),
            "WWWW....".to_string(),
            "legend".to_string(),
        ]
    );
    let mut g = warning(&[]);
    let wide = Replay { grid: [2, 1, 1], block: [128, 1, 1], verdict_message: "v".to_string(), diagram: Vec::new() };
    promote(&mut g, &wide, true);
    assert_eq!(g.notes[0], INLINED_NOTE);
    assert_eq!(g.notes[1], "witness: replayed with grid (2,1,1) x block (128,1,1), all 4 warps — v");
}

#[test]
fn answers_without_a_witness_are_noted_and_keep_the_confidence() {
    let mut f = warning(&["verify the branch admits exactly the lanes in the mask", "other"]);
    note_no_witness(&mut f, &NoWitness::MaskMatchesArrivals { mask: 0xffff, arrived: 0xffff });
    assert_eq!(f.confidence, Confidence::Warning);
    assert_eq!(
        f.notes,
        vec![
            "other".to_string(),
            "replay: the mask 0x0000ffff names exactly the lanes that arrive (0x0000ffff) — the guarded partial-warp idiom, checked and correct under this launch".to_string(),
        ]
    );
    let mut g = warning(&[]);
    note_no_witness(&mut g, &NoWitness::UnreachableUnderLaunch);
    assert_eq!(g.notes, vec![UNREACHABLE_NOTE.to_string()]);
    let mut h = warning(&["x"]);
    note_no_witness(&mut h, &NoWitness::Uniform);
    note_no_witness(&mut h, &NoWitness::Indeterminate);
    assert_eq!(h.notes, vec!["x".to_string()]);
}

fn call_block(kind: CallKind, const_args: Vec<Option<u64>>) -> Block {
    Block {
        stmts: Vec::new(),
        term: Term {
            kind: TermKind::Call {
                callee: Callee { kind, scope: LaunchScope::Block, display: "c".to_string(), local_fn: None },
                args: Vec::new(),
                const_args,
                arg_operands: Vec::new(),
                dest: None,
                target: Some(1),
            },
            span: 0,
        },
    }
}

#[test]
fn a_site_is_a_barrier_or_a_collective_with_its_known_mask() {
    assert_eq!(site_kind_of(&call_block(CallKind::Barrier, Vec::new())), Some(SiteKind::Barrier));
    assert_eq!(
        site_kind_of(&call_block(CallKind::WarpCollective { mask: MaskSource::Unknown }, vec![Some(3)])),
        Some(SiteKind::Collective { mask: None })
    );
    assert_eq!(
        site_kind_of(&call_block(CallKind::WarpCollective { mask: MaskSource::ImplicitFull }, Vec::new())),
        Some(SiteKind::Collective { mask: Some(0xffff_ffff) })
    );
    assert_eq!(site_kind_of(&call_block(CallKind::Other, Vec::new())), None);
    assert_eq!(exposed_sites(&vec![(1, vec![5]), (2, vec![7, 8])], 2), vec![7, 8]);
    assert!(exposed_sites(&vec![(1, vec![5])], 3).is_empty());
}
