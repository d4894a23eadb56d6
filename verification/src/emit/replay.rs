//! What a witness replay's answer does to an RC001/RC002 finding.
//!
//! A direct site is replayed over one warp first; when that finds nothing
//! and the kernel's launch contract declares a one-dimensional block of
//! several whole warps, the declared block is replayed, since whole-warp
//! divergence only shows at that size. A replay that yields a witness
//! promotes the finding to `confirmed` with the launch, the verdict and
//! the warp diagram in its notes. Two answers that are not witnesses are
//! still results and are noted: the construct is unreachable under the
//! launch, or the collective's mask names exactly the lanes that arrive.
//! The replay itself is the witness engine's.
use vstd::prelude::*;

use super::rules::notes_view;
use crate::dialect::{spec_implicit_mask, spec_mask_is_unknown, CallKind};
use crate::model::{Block, BlockId, TermKind};
use crate::artifacts::findings::{Confidence, Finding};
use crate::text::{contains_seq, contains_str, decimal, hex_width8, owned, push_decimal, push_hex_width8, push_str};

verus! {

/// A replay that found a witness, as plain values: the launch it ran, the
/// verdict's message, and the warp diagram's lines.
pub struct Replay {
    pub grid: [u32; 3],
    pub block: [u32; 3],
    pub verdict_message: String,
    pub diagram: Vec<String>,
}

/// Why a replay found no witness.
pub enum NoWitness {
    /// No lane reaches the construct under the declared launch.
    UnreachableUnderLaunch,
    /// The collective's mask names exactly the lanes that arrive.
    MaskMatchesArrivals { mask: u64, arrived: u64 },
    /// Every lane agrees.
    Uniform,
    /// The replay could not decide.
    Indeterminate,
}

/// The block width to replay after one warp found nothing: the declared
/// block's width, when the contract declares a one-dimensional block
/// wider than a warp.
pub open spec fn spec_retry_width(declared: Option<[u32; 3]>) -> Option<u32> {
    match declared {
        Some(b) => if b@[1] == 1 && b@[2] == 1 && b@[0] > 32 {
            Some(b@[0])
        } else {
            None
        },
        None => None,
    }
}

/// The block width to replay after a one-warp replay found no witness, if
/// any.
pub fn retry_width(declared: Option<[u32; 3]>) -> (r: Option<u32>)
    ensures
        r == spec_retry_width(declared),
{
    match declared {
        Some(b) => if b[1] == 1 && b[2] == 1 && b[0] > 32 {
            Some(b[0])
        } else {
            None
        },
        None => None,
    }
}

/// The note on a construct no lane reaches.
pub const UNREACHABLE_NOTE: &'static str = "replay: unreachable under the declared launch — no lane reaches this construct, so there is nothing to confirm. This is a result, not a failure to evaluate";

/// The generic note a checked mask makes redundant.
pub const VERIFY_MASK: &'static str = "verify the branch admits exactly the lanes";

/// The note on a mask that names exactly the arriving lanes.
pub open spec fn mask_note(mask: u64, arrived: u64) -> Seq<char> {
    "replay: the mask "@ + hex_width8(mask as nat) + " names exactly the lanes that arrive ("@ + hex_width8(
        arrived as nat,
    ) + ") — the guarded partial-warp idiom, checked and correct under this launch"@
}

/// The notes that do not ask the reader to verify the mask.
pub open spec fn without_verify(notes: Seq<Seq<char>>) -> Seq<Seq<char>> {
    notes.filter(|n: Seq<char>| !contains_seq(n, VERIFY_MASK@))
}

/// The notes after a replay that found no witness.
pub open spec fn notes_after(notes: Seq<Seq<char>>, why: NoWitness) -> Seq<Seq<char>> {
    match why {
        NoWitness::UnreachableUnderLaunch => notes.push(UNREACHABLE_NOTE@),
        NoWitness::MaskMatchesArrivals { mask, arrived } => without_verify(notes).push(mask_note(mask, arrived)),
        _ => notes,
    }
}

/// Note a replay that found no witness on the finding; its confidence
/// stays.
pub fn note_no_witness(finding: &mut Finding, why: &NoWitness)
    ensures
        notes_view(final(finding).notes@) == notes_after(notes_view(old(finding).notes@), *why),
        final(finding).confidence == old(finding).confidence,
        final(finding).code == old(finding).code,
        final(finding).message == old(finding).message,
        final(finding).span == old(finding).span,
{
    match why {
        NoWitness::UnreachableUnderLaunch => {
            finding.notes.push(owned(UNREACHABLE_NOTE));
            assert(notes_view(finding.notes@) =~= notes_view(old(finding).notes@).push(UNREACHABLE_NOTE@));
        },
        NoWitness::MaskMatchesArrivals { mask, arrived } => {
            let ghost before = notes_view(old(finding).notes@);
            let mut kept: Vec<String> = Vec::new();
            let mut i: usize = 0;
            while i < finding.notes.len()
                invariant
                    i <= finding.notes.len(),
                    notes_view(finding.notes@) == before,
                    notes_view(kept@) == without_verify(before.take(i as int)),
                decreases finding.notes.len() - i,
            {
                proof {
                    assert(before.take(i + 1).drop_last() =~= before.take(i as int));
                    reveal(Seq::filter);
                }
                let ghost k0 = kept@;
                if !contains_str(finding.notes[i].as_str(), VERIFY_MASK) {
                    kept.push(finding.notes[i].clone());
                    assert(notes_view(kept@) =~= notes_view(k0).push(finding.notes@[i as int]@));
                }
                i = i + 1;
            }
            assert(before.take(i as int) =~= before);
            let mut note = owned("replay: the mask ");
            push_hex_width8(&mut note, *mask);
            push_str(&mut note, " names exactly the lanes that arrive (");
            push_hex_width8(&mut note, *arrived);
            push_str(&mut note, ") — the guarded partial-warp idiom, checked and correct under this launch");
            let ghost k1 = kept@;
            kept.push(note);
            assert(notes_view(kept@) =~= notes_view(k1).push(note@));
            finding.notes = kept;
        },
        _ => {},
    }
}

/// How many warps a block of `width` threads spans.
pub open spec fn warps_of(width: u32) -> nat {
    ((width as nat + 31) / 32) as nat
}

/// The note describing a replay's launch and verdict.
pub open spec fn launch_note(r: Replay) -> Seq<char> {
    let warps = warps_of(r.block@[0]);
    "witness: replayed with grid ("@ + decimal(r.grid@[0] as nat) + ","@ + decimal(r.grid@[1] as nat) + ","@
        + decimal(r.grid@[2] as nat) + ") x block ("@ + decimal(r.block@[0] as nat) + ","@ + decimal(
        r.block@[1] as nat,
    ) + ","@ + decimal(r.block@[2] as nat) + "), "@ + (if warps == 1 {
        "warp 0"@
    } else {
        "all "@ + decimal(warps) + " warps"@
    }) + " — "@ + r.verdict_message@
}

/// The note on a witness found through an inlined callee.
pub const INLINED_NOTE: &'static str = "witness: the callee was inlined at the call site, so this is a concrete path rather than a summary bit";

/// Promote a finding on a replay that found a witness: it becomes
/// `confirmed`, and its notes gain (after the note on inlining, when the
/// site was reached through an inlined callee) the replay's launch and
/// verdict, then the warp diagram.
pub fn promote(finding: &mut Finding, replay: &Replay, inlined: bool)
    ensures
        final(finding).confidence == Confidence::Confirmed,
        notes_view(final(finding).notes@) == notes_view(old(finding).notes@) + (if inlined {
            seq![INLINED_NOTE@]
        } else {
            Seq::empty()
        }) + seq![launch_note(*replay)] + notes_view(replay.diagram@),
        final(finding).code == old(finding).code,
        final(finding).message == old(finding).message,
        final(finding).span == old(finding).span,
        final(finding).help == old(finding).help,
{
    let ghost before = notes_view(finding.notes@);
    if inlined {
        finding.notes.push(owned(INLINED_NOTE));
    }
    let ghost mid = notes_view(finding.notes@);
    assert(mid =~= before + (if inlined { seq![INLINED_NOTE@] } else { Seq::<Seq<char>>::empty() }));
    finding.confidence = Confidence::Confirmed;
    let warps: u64 = (replay.block[0] as u64 + 31) / 32;
    let mut note = owned("witness: replayed with grid (");
    push_decimal(&mut note, replay.grid[0] as usize);
    push_str(&mut note, ",");
    push_decimal(&mut note, replay.grid[1] as usize);
    push_str(&mut note, ",");
    push_decimal(&mut note, replay.grid[2] as usize);
    push_str(&mut note, ") x block (");
    push_decimal(&mut note, replay.block[0] as usize);
    push_str(&mut note, ",");
    push_decimal(&mut note, replay.block[1] as usize);
    push_str(&mut note, ",");
    push_decimal(&mut note, replay.block[2] as usize);
    push_str(&mut note, "), ");
    if warps == 1 {
        push_str(&mut note, "warp 0");
    } else {
        push_str(&mut note, "all ");
        push_decimal(&mut note, warps as usize);
        push_str(&mut note, " warps");
    }
    push_str(&mut note, " — ");
    push_str(&mut note, replay.verdict_message.as_str());
    assert(note@ =~= launch_note(*replay));
    finding.notes.push(note);
    let mut i: usize = 0;
    let ghost with_launch = notes_view(finding.notes@);
    while i < replay.diagram.len()
        invariant
            i <= replay.diagram.len(),
            notes_view(finding.notes@) == with_launch + notes_view(replay.diagram@.take(i as int)),
            finding.confidence == Confidence::Confirmed,
            finding.code == old(finding).code,
            finding.message == old(finding).message,
            finding.span == old(finding).span,
            finding.help == old(finding).help,
        decreases replay.diagram.len() - i,
    {
        let ghost f0 = finding.notes@;
        let line = replay.diagram[i].clone();
        assert(line@ == replay.diagram@[i as int]@);
        finding.notes.push(line);
        assert(notes_view(finding.notes@) =~= notes_view(f0).push(line@));
        assert(notes_view(replay.diagram@.take(i + 1)) =~= notes_view(replay.diagram@.take(i as int)).push(
            replay.diagram@[i as int]@,
        ));
        assert(notes_view(finding.notes@) =~= with_launch + notes_view(replay.diagram@.take(i + 1)));
        i = i + 1;
    }
    assert(replay.diagram@.take(i as int) =~= replay.diagram@);
    assert(notes_view(finding.notes@) =~= before + (if inlined { seq![INLINED_NOTE@] } else {
        Seq::<Seq<char>>::empty()
    }) + seq![launch_note(*replay)] + notes_view(replay.diagram@));
}


/// What a replay is asked to check at a site: a barrier, or a collective
/// with its participation mask when it is known.
#[derive(Debug, Clone, Copy, PartialEq, Eq, Structural)]
pub enum SiteKind {
    Barrier,
    Collective { mask: Option<u64> },
}

/// The site a block's call is, if it is a barrier or a collective: a
/// collective's mask is the one its wrapper supplies, else its first
/// constant argument, and none when the mask is a run-time value.
pub open spec fn spec_site_kind(b: Block) -> Option<SiteKind> {
    match b.term.kind {
        TermKind::Call { callee, const_args, .. } => match callee.kind {
            CallKind::Barrier => Some(SiteKind::Barrier),
            CallKind::WarpCollective { .. } => Some(
                SiteKind::Collective {
                    mask: if spec_mask_is_unknown(callee.kind) {
                        None
                    } else {
                        match spec_implicit_mask(callee.kind) {
                            Some(m) => Some(m),
                            None => if const_args.len() > 0 {
                                const_args@[0]
                            } else {
                                None
                            },
                        }
                    },
                },
            ),
            _ => None,
        },
        _ => None,
    }
}

/// The site a block's call is, if any.
pub fn site_kind_of(b: &Block) -> (r: Option<SiteKind>)
    ensures
        r == spec_site_kind(*b),
{
    match &b.term.kind {
        TermKind::Call { callee, const_args, .. } => match callee.kind {
            CallKind::Barrier => Some(SiteKind::Barrier),
            CallKind::WarpCollective { .. } => {
                let mask = if callee.kind.mask_is_unknown() {
                    None
                } else {
                    match callee.kind.implicit_mask() {
                        Some(m) => Some(m),
                        None => if const_args.len() > 0 {
                            const_args[0]
                        } else {
                            None
                        },
                    }
                };
                Some(SiteKind::Collective { mask })
            },
            _ => None,
        },
        _ => None,
    }
}

/// The sites inlining exposed behind the call ending `call_block`: those
/// of the first exposed entry for that block, none if there is none.
pub open spec fn spec_exposed_sites(exposed: Seq<(BlockId, Vec<BlockId>)>, call_block: BlockId) -> Seq<BlockId>
    decreases exposed.len(),
{
    if exposed.len() == 0 {
        Seq::empty()
    } else if exposed[0].0 == call_block {
        exposed[0].1@
    } else {
        spec_exposed_sites(exposed.drop_first(), call_block)
    }
}

/// The sites inlining exposed behind the call ending `call_block`.
pub fn exposed_sites(exposed: &Vec<(BlockId, Vec<BlockId>)>, call_block: BlockId) -> (r: Vec<BlockId>)
    ensures
        r@ == spec_exposed_sites(exposed@, call_block),
{
    let mut i: usize = 0;
    assert(exposed@.skip(0) =~= exposed@);
    while i < exposed.len()
        invariant
            i <= exposed.len(),
            spec_exposed_sites(exposed@.skip(i as int), call_block) == spec_exposed_sites(exposed@, call_block),
        decreases exposed.len() - i,
    {
        assert(exposed@.skip(i as int)[0] == exposed@[i as int]);
        assert(exposed@.skip(i as int).drop_first() =~= exposed@.skip(i + 1));
        if exposed[i].0 == call_block {
            let mut out: Vec<BlockId> = Vec::new();
            let sites = &exposed[i].1;
            let mut j: usize = 0;
            while j < sites.len()
                invariant
                    j <= sites.len(),
                    out@ == sites@.take(j as int),
                decreases sites.len() - j,
            {
                out.push(sites[j]);
                assert(out@ =~= sites@.take(j + 1));
                j = j + 1;
            }
            assert(sites@.take(j as int) =~= sites@);
            return out;
        }
        i = i + 1;
    }
    assert(exposed@.skip(i as int) =~= Seq::<(BlockId, Vec<BlockId>)>::empty());
    Vec::new()
}

} // verus!
