//! RC001 and RC002 as the static analysis states them: a `warning` for
//! every barrier, and every warp collective, reached under thread-divergent
//! control, with the chain of reasons back to the divergence source.
//! Promotion to `confirmed` needs a concrete replay of the kernel, which
//! this library does not run.
use vstd::prelude::*;

use super::{is_temp_plumbing, span_of, spec_is_temp_plumbing, CrateModels};
use crate::analysis::{
    analysis_shape, fresh, prov_next, prov_walk, provenance_chain, Analysis, BarrierSite, BranchCause, WarpOpSite,
};
use crate::graph::{lemma_count_le, lemma_count_set};
use crate::artifacts::findings::{Confidence, Finding, ProvenanceStep, SourceSpan};
use crate::model::{FnId, FnModel, Local};
use crate::text::{hex_width8, owned, push_hex_width8, push_str};

verus! {

/// Why a divergent barrier hangs.
pub const BARRIER_NOTE: &'static str = "lanes that skip the barrier never arrive, and the lanes that reach it wait for them forever — on hardware this is undefined behavior, usually a permanent hang with no error";

/// Why a collective with absent lanes is undefined.
pub const COLLECTIVE_NOTE: &'static str = "a warp collective synchronizes the lanes its participation mask names; a named lane that never reaches the call makes the operation undefined — upstream calls this the worst kind of bug, because there is no crash and no error, just a kernel that usually never finishes";

/// What a full mask means under a divergent branch.
pub const FULL_MASK_NOTE: &'static str = "the mask is 0xffffffff (every lane), but under this branch some lanes may never arrive";

/// Why a mask cannot be checked.
pub const OPAQUE_MASK_NOTE: &'static str = "the mask is not a literal the analysis can evaluate (a runtime value, or a named const — opaque through rustc_public at this pin), so it cannot be checked statically";

/// What irreducible control flow does to the analysis.
pub const IRREDUCIBLE_NOTE: &'static str = "this function has irreducible control flow; the analysis degraded to all-divergent for the whole body";

/// How to fix a divergent barrier.
pub const BARRIER_HELP: &'static str = "make every thread of the block reach the barrier: hoist it out of the divergent branch, or make the branch condition uniform";

/// How to fix a collective at a non-convergent point.
pub const COLLECTIVE_HELP: &'static str = "make the call site convergent (hoist it out of the divergent branch), or derive the mask from the guard itself (e.g. ballot the condition) so it names exactly the lanes that arrive";

/// Every span and local a result's sites and reasons name is in range,
/// and its provenance walks can be taken.
pub open spec fn reportable(m: CrateModels, f: FnModel, a: Analysis) -> bool {
    &&& f.wf()
    &&& analysis_shape(f, a)
    &&& forall|l: int|
        0 <= l < a.reasons.len() ==> (#[trigger] a.reasons@[l] matches Some(r) ==> r.span < m.spans.len())
    &&& forall|i: int|
        0 <= i < a.barriers.len() ==> (#[trigger] a.barriers@[i]).span < m.spans.len() && (a.barriers@[i].divergent_cause matches Some(
            c,
        ) ==> c.span < m.spans.len() && c.cond < f.local_count)
    &&& forall|i: int|
        0 <= i < a.warp_ops.len() ==> (#[trigger] a.warp_ops@[i]).span < m.spans.len() && (a.warp_ops@[i].divergent_cause matches Some(
            c,
        ) ==> c.span < m.spans.len() && c.cond < f.local_count)
}

/// Every result names a function of the set and can be reported.
pub open spec fn results_reportable(m: CrateModels, results: Seq<(FnId, Analysis)>) -> bool {
    forall|i: int|
        0 <= i < results.len() ==> (#[trigger] results[i]).0 < m.fns.len() && reportable(
            m,
            m.fns@[results[i].0 as int],
            results[i].1,
        )
}

/// One step of a provenance chain: the local and its reason, and where
/// the reason was recorded.
pub open spec fn chain_step(m: CrateModels, f: FnModel, a: Analysis, l: Local) -> (Seq<char>, SourceSpan) {
    let r = a.reasons@[l as int]->Some_0;
    (f.spec_local_display(l as int) + ": "@ + r.detail@, m.spans@[r.span as int])
}

/// The chain from local `start` back to a divergence source, without the
/// compiler's temporaries.
pub open spec fn kept_chain(m: CrateModels, f: FnModel, a: Analysis, start: Local) -> Seq<(Seq<char>, SourceSpan)> {
    prov_walk(f, a, start as int, fresh(f.local_count as nat)).map_values(|l: Local| chain_step(m, f, a, l)).filter(
        |x: (Seq<char>, SourceSpan)| !spec_is_temp_plumbing(x.0),
    )
}

/// A finding's provenance: the divergent branch, then the chain back from
/// its condition.
pub open spec fn provenance_of(m: CrateModels, f: FnModel, a: Analysis, cause: BranchCause) -> Seq<
    (Seq<char>, SourceSpan),
> {
    seq![("thread-divergent branch"@, m.spans@[cause.span as int])] + kept_chain(m, f, a, cause.cond)
}

/// A provenance as plain values.
pub open spec fn prov_view(p: Seq<ProvenanceStep>) -> Seq<(Seq<char>, SourceSpan)> {
    p.map_values(|s: ProvenanceStep| (s.what@, s.span))
}

/// The irreducibility note, where it applies.
pub open spec fn irreducible_notes(a: Analysis) -> Seq<Seq<char>> {
    if a.irreducible {
        seq![IRREDUCIBLE_NOTE@]
    } else {
        Seq::empty()
    }
}

/// The message of RC001 at a barrier site.
pub open spec fn rc001_message(kernel: Seq<char>, site: BarrierSite) -> Seq<char> {
    if site.interprocedural {
        "kernel `"@ + kernel + "` calls `"@ + site.callee_display@
            + "`, which may execute a barrier, under thread-divergent control"@
    } else {
        "kernel `"@ + kernel + "` may execute `"@ + site.callee_display@ + "()` under thread-divergent control"@
    }
}

/// The message of RC002 at a collective site.
pub open spec fn rc002_message(kernel: Seq<char>, site: WarpOpSite) -> Seq<char> {
    if site.interprocedural {
        "kernel `"@ + kernel + "` calls `"@ + site.callee_display@
            + "`, which may execute a warp collective, under thread-divergent control"@
    } else {
        "kernel `"@ + kernel + "` calls `"@ + site.callee_display@
            + "()` at a point where threads of the warp may be inactive"@
    }
}

/// What RC002 says about the site's mask.
pub open spec fn mask_notes(site: WarpOpSite) -> Seq<Seq<char>> {
    match site.mask {
        Some(mask) => if mask == 0xffff_ffff {
            seq![FULL_MASK_NOTE@]
        } else {
            seq![
                "the mask is "@ + hex_width8(mask as nat) + "; verify the branch admits exactly the lanes it names"@,
            ]
        },
        None => if !site.interprocedural {
            seq![OPAQUE_MASK_NOTE@]
        } else {
            Seq::empty()
        },
    }
}

/// The notes of a finding as plain values.
pub open spec fn notes_view(notes: Seq<String>) -> Seq<Seq<char>> {
    notes.map_values(|n: String| n@)
}

/// `fd` is RC001 at barrier `site` of kernel `f`, as a warning.
pub open spec fn rc001_finding(m: CrateModels, f: FnModel, a: Analysis, site: BarrierSite, cause: BranchCause, fd: Finding) -> bool {
    &&& fd.code@ == "RC001"@
    &&& fd.confidence == Confidence::Warning
    &&& fd.message@ == rc001_message(f.name@, site)
    &&& fd.kernel matches Some(k) && k@ == f.name@
    &&& fd.span == m.spans@[site.span as int]
    &&& notes_view(fd.notes@) == seq![BARRIER_NOTE@] + irreducible_notes(a)
    &&& fd.help matches Some(h) && h@ == BARRIER_HELP@
    &&& fd.explain@ == "RC001"@
    &&& prov_view(fd.provenance@) == provenance_of(m, f, a, cause)
}

/// `fd` is RC002 at collective `site` of kernel `f`, as a warning.
pub open spec fn rc002_finding(m: CrateModels, f: FnModel, a: Analysis, site: WarpOpSite, cause: BranchCause, fd: Finding) -> bool {
    &&& fd.code@ == "RC002"@
    &&& fd.confidence == Confidence::Warning
    &&& fd.message@ == rc002_message(f.name@, site)
    &&& fd.kernel matches Some(k) && k@ == f.name@
    &&& fd.span == m.spans@[site.span as int]
    &&& notes_view(fd.notes@) == seq![COLLECTIVE_NOTE@] + mask_notes(site) + irreducible_notes(a)
    &&& fd.help matches Some(h) && h@ == COLLECTIVE_HELP@
    &&& fd.explain@ == "RC002"@
    &&& prov_view(fd.provenance@) == provenance_of(m, f, a, cause)
}

proof fn lemma_walk_in_range(f: FnModel, a: Analysis, cur: int, visited: Seq<bool>)
    ensures
        forall|k: int|
            0 <= k < prov_walk(f, a, cur, visited).len() ==> 0 <= #[trigger] prov_walk(f, a, cur, visited)[k]
                < visited.len(),
    decreases visited.len() - crate::graph::count_true(visited),
{
    if 0 <= cur < visited.len() && !visited[cur] && a.reasons@[cur] is Some {
        let v2 = visited.update(cur, true);
        lemma_count_set(visited, cur);
        lemma_count_le(v2);
        match prov_next(f, a, cur) {
            Some(nx) => {
                lemma_walk_in_range(f, a, nx as int, v2);
                let w = prov_walk(f, a, cur, visited);
                assert(w =~= seq![cur as Local] + prov_walk(f, a, nx as int, v2));
                assert forall|k: int| 0 <= k < w.len() implies 0 <= #[trigger] w[k] < visited.len() by {
                    if k > 0 {
                        assert(w[k] == prov_walk(f, a, nx as int, v2)[k - 1]);
                    }
                }
            },
            None => {
                assert(prov_walk(f, a, cur, visited) =~= seq![cur as Local]);
            },
        }
    }
}

/// The provenance of a finding whose divergent branch is `cause`.
fn provenance(models: &CrateModels, f: &FnModel, analysis: &Analysis, cause: &BranchCause) -> (r: Vec<ProvenanceStep>)
    requires
        reportable(*models, *f, *analysis),
        cause.span < models.spans.len(),
        cause.cond < f.local_count,
    ensures
        prov_view(r@) == provenance_of(*models, *f, *analysis, *cause),
{
    let ghost walk = prov_walk(*f, *analysis, cause.cond as int, fresh(f.local_count as nat));
    let ghost steps = walk.map_values(|l: Local| chain_step(*models, *f, *analysis, l));
    let ghost keep = |x: (Seq<char>, SourceSpan)| !spec_is_temp_plumbing(x.0);
    proof {
        lemma_walk_in_range(*f, *analysis, cause.cond as int, fresh(f.local_count as nat));
    }
    let mut out: Vec<ProvenanceStep> = Vec::new();
    out.push(ProvenanceStep { what: owned("thread-divergent branch"), span: span_of(models, cause.span) });
    let chain = provenance_chain(f, analysis, cause.cond);
    let mut i: usize = 0;
    let ghost head = prov_view(out@);
    assert(steps.take(0).filter(keep) =~= Seq::<(Seq<char>, SourceSpan)>::empty());
    while i < chain.len()
        invariant
            i <= chain.len(),
            chain.len() == walk.len(),
            steps == walk.map_values(|l: Local| chain_step(*models, *f, *analysis, l)),
            keep == (|x: (Seq<char>, SourceSpan)| !spec_is_temp_plumbing(x.0)),
            reportable(*models, *f, *analysis),
            forall|k: int| 0 <= k < chain.len() ==> crate::analysis::step_ok(#[trigger] chain@[k], *f, *analysis, walk[k]),
            forall|k: int| 0 <= k < walk.len() ==> 0 <= #[trigger] walk[k] < f.local_count,
            prov_view(out@) == head + steps.take(i as int).filter(keep),
        decreases chain.len() - i,
    {
        let step = &chain[i];
        let ghost l = walk[i as int];
        proof {
            assert(crate::analysis::step_ok(chain@[i as int], *f, *analysis, l));
            assert(steps[i as int] == chain_step(*models, *f, *analysis, l));
            assert(steps.take(i + 1) =~= steps.take(i as int).push(steps[i as int]));
            steps.take(i as int).lemma_filter_push(steps[i as int], keep);
        }
        let ghost before = out@;
        if !is_temp_plumbing(step.detail.as_str()) {
            out.push(ProvenanceStep { what: step.detail.clone(), span: span_of(models, step.span) });
            assert(prov_view(out@) =~= prov_view(before).push(steps[i as int]));
        }
        i = i + 1;
    }
    assert(steps.take(i as int) =~= steps);
    out
}

/// The notes every finding of a site starts with, and the irreducibility
/// note after them where it applies.
fn push_irreducible(notes: &mut Vec<String>, analysis: &Analysis)
    ensures
        notes_view(final(notes)@) == notes_view(old(notes)@) + irreducible_notes(*analysis),
{
    let ghost before = notes@;
    if analysis.irreducible {
        notes.push(owned(IRREDUCIBLE_NOTE));
        assert(notes_view(notes@) =~= notes_view(before).push(IRREDUCIBLE_NOTE@));
    } else {
        assert(notes_view(notes@) =~= notes_view(before) + irreducible_notes(*analysis));
    }
}

/// RC001 at a divergent barrier, as a warning.
fn rc001_at(models: &CrateModels, f: &FnModel, analysis: &Analysis, site: &BarrierSite, cause: &BranchCause) -> (r:
    Finding)
    requires
        reportable(*models, *f, *analysis),
        site.span < models.spans.len(),
        cause.span < models.spans.len(),
        cause.cond < f.local_count,
    ensures
        rc001_finding(*models, *f, *analysis, *site, *cause, r),
{
    let mut message = owned("kernel `");
    push_str(&mut message, f.name.as_str());
    if site.interprocedural {
        push_str(&mut message, "` calls `");
        push_str(&mut message, site.callee_display.as_str());
        push_str(&mut message, "`, which may execute a barrier, under thread-divergent control");
    } else {
        push_str(&mut message, "` may execute `");
        push_str(&mut message, site.callee_display.as_str());
        push_str(&mut message, "()` under thread-divergent control");
    }
    assert(message@ =~= rc001_message(f.name@, *site));
    let mut notes: Vec<String> = Vec::new();
    notes.push(owned(BARRIER_NOTE));
    assert(notes_view(notes@) =~= seq![BARRIER_NOTE@]);
    push_irreducible(&mut notes, analysis);
    Finding {
        code: owned("RC001"),
        confidence: Confidence::Warning,
        message,
        kernel: Some(f.name.clone()),
        span: span_of(models, site.span),
        notes,
        help: Some(owned(BARRIER_HELP)),
        explain: owned("RC001"),
        provenance: provenance(models, f, analysis, cause),
    }
}

/// RC002 at a collective under divergent control, as a warning.
fn rc002_at(models: &CrateModels, f: &FnModel, analysis: &Analysis, site: &WarpOpSite, cause: &BranchCause) -> (r:
    Finding)
    requires
        reportable(*models, *f, *analysis),
        site.span < models.spans.len(),
        cause.span < models.spans.len(),
        cause.cond < f.local_count,
    ensures
        rc002_finding(*models, *f, *analysis, *site, *cause, r),
{
    let mut message = owned("kernel `");
    push_str(&mut message, f.name.as_str());
    push_str(&mut message, "` calls `");
    push_str(&mut message, site.callee_display.as_str());
    if site.interprocedural {
        push_str(&mut message, "`, which may execute a warp collective, under thread-divergent control");
    } else {
        push_str(&mut message, "()` at a point where threads of the warp may be inactive");
    }
    assert(message@ =~= rc002_message(f.name@, *site));
    let mut notes: Vec<String> = Vec::new();
    notes.push(owned(COLLECTIVE_NOTE));
    let ghost first = notes@;
    match site.mask {
        Some(mask) => {
            if mask == 0xffff_ffff {
                notes.push(owned(FULL_MASK_NOTE));
            } else {
                let mut m = owned("the mask is ");
                push_hex_width8(&mut m, mask);
                push_str(&mut m, "; verify the branch admits exactly the lanes it names");
                notes.push(m);
            }
            assert(notes_view(notes@) =~= seq![COLLECTIVE_NOTE@] + mask_notes(*site));
        },
        None => {
            if !site.interprocedural {
                notes.push(owned(OPAQUE_MASK_NOTE));
            }
            assert(notes_view(notes@) =~= seq![COLLECTIVE_NOTE@] + mask_notes(*site));
        },
    }
    push_irreducible(&mut notes, analysis);
    Finding {
        code: owned("RC002"),
        confidence: Confidence::Warning,
        message,
        kernel: Some(f.name.clone()),
        span: span_of(models, site.span),
        notes,
        help: Some(owned(COLLECTIVE_HELP)),
        explain: owned("RC002"),
        provenance: provenance(models, f, analysis, cause),
    }
}

/// The barrier sites among `sites` reached under divergent control, with
/// their cause.
pub open spec fn divergent_barriers(sites: Seq<BarrierSite>) -> Seq<(BarrierSite, BranchCause)>
    decreases sites.len(),
{
    if sites.len() == 0 {
        Seq::empty()
    } else {
        let t = divergent_barriers(sites.drop_last());
        match sites.last().divergent_cause {
            Some(c) => t.push((sites.last(), c)),
            None => t,
        }
    }
}

/// The collective sites among `sites` reached under divergent control,
/// with their cause.
pub open spec fn divergent_warp_ops(sites: Seq<WarpOpSite>) -> Seq<(WarpOpSite, BranchCause)>
    decreases sites.len(),
{
    if sites.len() == 0 {
        Seq::empty()
    } else {
        let t = divergent_warp_ops(sites.drop_last());
        match sites.last().divergent_cause {
            Some(c) => t.push((sites.last(), c)),
            None => t,
        }
    }
}

/// Every RC001 site of the results, in order, with its function's id and
/// analysis.
pub open spec fn rc001_sites(results: Seq<(FnId, Analysis)>) -> Seq<(FnId, Analysis, BarrierSite, BranchCause)>
    decreases results.len(),
{
    if results.len() == 0 {
        Seq::empty()
    } else {
        let (id, a) = results.last();
        rc001_sites(results.drop_last()) + divergent_barriers(a.barriers@).map_values(
            |x: (BarrierSite, BranchCause)| (id, a, x.0, x.1),
        )
    }
}

/// Every RC002 site of the results, in order, with its function's id and
/// analysis.
pub open spec fn rc002_sites(results: Seq<(FnId, Analysis)>) -> Seq<(FnId, Analysis, WarpOpSite, BranchCause)>
    decreases results.len(),
{
    if results.len() == 0 {
        Seq::empty()
    } else {
        let (id, a) = results.last();
        rc002_sites(results.drop_last()) + divergent_warp_ops(a.warp_ops@).map_values(
            |x: (WarpOpSite, BranchCause)| (id, a, x.0, x.1),
        )
    }
}

/// RC001: a warning for every barrier a kernel may execute under
/// thread-divergent control, appended in result and site order.
pub fn rc001_divergent_barriers(models: &CrateModels, results: &Vec<(FnId, Analysis)>, findings: &mut Vec<Finding>)
    requires
        results_reportable(*models, results@),
    ensures
        final(findings).len() == old(findings).len() + rc001_sites(results@).len(),
        forall|j: int| 0 <= j < old(findings).len() ==> #[trigger] final(findings)@[j] == old(findings)@[j],
        forall|k: int|
            0 <= k < rc001_sites(results@).len() ==> {
                let s = #[trigger] rc001_sites(results@)[k];
                rc001_finding(*models, models.fns@[s.0 as int], s.1, s.2, s.3, final(findings)@[old(findings).len() + k])
            },
{
    let ghost start = findings@;
    let mut i: usize = 0;
    assert(results@.take(0) =~= Seq::<(FnId, Analysis)>::empty());
    while i < results.len()
        invariant
            i <= results.len(),
            results_reportable(*models, results@),
            findings.len() == start.len() + rc001_sites(results@.take(i as int)).len(),
            forall|j: int| 0 <= j < start.len() ==> #[trigger] findings@[j] == start[j],
            forall|k: int|
                0 <= k < rc001_sites(results@.take(i as int)).len() ==> {
                    let s = #[trigger] rc001_sites(results@.take(i as int))[k];
                    rc001_finding(*models, models.fns@[s.0 as int], s.1, s.2, s.3, findings@[start.len() + k])
                },
        decreases results.len() - i,
    {
        let (fn_id, analysis) = &results[i];
        let f = &models.fns[*fn_id];
        let ghost pre = rc001_sites(results@.take(i as int));
        let ghost id = *fn_id;
        let ghost a = *analysis;
        proof {
            assert(results@.take(i + 1).drop_last() =~= results@.take(i as int));
            assert(results@.take(i + 1).last() == results@[i as int]);
            assert(reportable(*models, *f, *analysis));
        }
        let mut b: usize = 0;
        assert(analysis.barriers@.take(0) =~= Seq::<BarrierSite>::empty());
        while b < analysis.barriers.len()
            invariant
                b <= analysis.barriers.len(),
                *f == models.fns@[id as int],
                a == *analysis,
                reportable(*models, *f, *analysis),
                findings.len() == start.len() + pre.len() + divergent_barriers(analysis.barriers@.take(b as int)).len(),
                forall|j: int| 0 <= j < start.len() ==> #[trigger] findings@[j] == start[j],
                forall|k: int|
                    0 <= k < pre.len() ==> {
                        let s = #[trigger] pre[k];
                        rc001_finding(*models, models.fns@[s.0 as int], s.1, s.2, s.3, findings@[start.len() + k])
                    },
                forall|k: int|
                    0 <= k < divergent_barriers(analysis.barriers@.take(b as int)).len() ==> {
                        let x = #[trigger] divergent_barriers(analysis.barriers@.take(b as int))[k];
                        rc001_finding(*models, *f, a, x.0, x.1, findings@[start.len() + pre.len() + k])
                    },
            decreases analysis.barriers.len() - b,
        {
            let site = &analysis.barriers[b];
            proof {
                assert(analysis.barriers@.take(b + 1).drop_last() =~= analysis.barriers@.take(b as int));
                assert(analysis.barriers@.take(b + 1).last() == analysis.barriers@[b as int]);
            }
            if let Some(cause) = &site.divergent_cause {
                let fd = rc001_at(models, f, analysis, site, cause);
                findings.push(fd);
            }
            b = b + 1;
        }
        proof {
            assert(analysis.barriers@.take(b as int) =~= analysis.barriers@);
            let now = rc001_sites(results@.take(i + 1));
            let add = divergent_barriers(analysis.barriers@).map_values(
                |x: (BarrierSite, BranchCause)| (id, a, x.0, x.1),
            );
            assert(now == pre + add);
            assert forall|k: int| 0 <= k < now.len() implies {
                let s = #[trigger] now[k];
                rc001_finding(*models, models.fns@[s.0 as int], s.1, s.2, s.3, findings@[start.len() + k])
            } by {
                if k >= pre.len() {
                    assert(now[k] == add[k - pre.len()]);
                }
            }
        }
        i = i + 1;
    }
    assert(results@.take(i as int) =~= results@);
}

/// RC002: a warning for every warp collective a kernel may execute at a
/// point where lanes of the warp may be inactive, appended in result and
/// site order.
pub fn rc002_nonconvergent_warp_ops(models: &CrateModels, results: &Vec<(FnId, Analysis)>, findings: &mut Vec<Finding>)
    requires
        results_reportable(*models, results@),
    ensures
        final(findings).len() == old(findings).len() + rc002_sites(results@).len(),
        forall|j: int| 0 <= j < old(findings).len() ==> #[trigger] final(findings)@[j] == old(findings)@[j],
        forall|k: int|
            0 <= k < rc002_sites(results@).len() ==> {
                let s = #[trigger] rc002_sites(results@)[k];
                rc002_finding(*models, models.fns@[s.0 as int], s.1, s.2, s.3, final(findings)@[old(findings).len() + k])
            },
{
    let ghost start = findings@;
    let mut i: usize = 0;
    assert(results@.take(0) =~= Seq::<(FnId, Analysis)>::empty());
    while i < results.len()
        invariant
            i <= results.len(),
            results_reportable(*models, results@),
            findings.len() == start.len() + rc002_sites(results@.take(i as int)).len(),
            forall|j: int| 0 <= j < start.len() ==> #[trigger] findings@[j] == start[j],
            forall|k: int|
                0 <= k < rc002_sites(results@.take(i as int)).len() ==> {
                    let s = #[trigger] rc002_sites(results@.take(i as int))[k];
                    rc002_finding(*models, models.fns@[s.0 as int], s.1, s.2, s.3, findings@[start.len() + k])
                },
        decreases results.len() - i,
    {
        let (fn_id, analysis) = &results[i];
        let f = &models.fns[*fn_id];
        let ghost pre = rc002_sites(results@.take(i as int));
        let ghost id = *fn_id;
        let ghost a = *analysis;
        proof {
            assert(results@.take(i + 1).drop_last() =~= results@.take(i as int));
            assert(results@.take(i + 1).last() == results@[i as int]);
            assert(reportable(*models, *f, *analysis));
        }
        let mut b: usize = 0;
        assert(analysis.warp_ops@.take(0) =~= Seq::<WarpOpSite>::empty());
        while b < analysis.warp_ops.len()
            invariant
                b <= analysis.warp_ops.len(),
                *f == models.fns@[id as int],
                a == *analysis,
                reportable(*models, *f, *analysis),
                findings.len() == start.len() + pre.len() + divergent_warp_ops(analysis.warp_ops@.take(b as int)).len(),
                forall|j: int| 0 <= j < start.len() ==> #[trigger] findings@[j] == start[j],
                forall|k: int|
                    0 <= k < pre.len() ==> {
                        let s = #[trigger] pre[k];
                        rc002_finding(*models, models.fns@[s.0 as int], s.1, s.2, s.3, findings@[start.len() + k])
                    },
                forall|k: int|
                    0 <= k < divergent_warp_ops(analysis.warp_ops@.take(b as int)).len() ==> {
                        let x = #[trigger] divergent_warp_ops(analysis.warp_ops@.take(b as int))[k];
                        rc002_finding(*models, *f, a, x.0, x.1, findings@[start.len() + pre.len() + k])
                    },
            decreases analysis.warp_ops.len() - b,
        {
            let site = &analysis.warp_ops[b];
            proof {
                assert(analysis.warp_ops@.take(b + 1).drop_last() =~= analysis.warp_ops@.take(b as int));
                assert(analysis.warp_ops@.take(b + 1).last() == analysis.warp_ops@[b as int]);
            }
            if let Some(cause) = &site.divergent_cause {
                let fd = rc002_at(models, f, analysis, site, cause);
                findings.push(fd);
            }
            b = b + 1;
        }
        proof {
            assert(analysis.warp_ops@.take(b as int) =~= analysis.warp_ops@);
            let now = rc002_sites(results@.take(i + 1));
            let add = divergent_warp_ops(analysis.warp_ops@).map_values(
                |x: (WarpOpSite, BranchCause)| (id, a, x.0, x.1),
            );
            assert(now == pre + add);
            assert forall|k: int| 0 <= k < now.len() implies {
                let s = #[trigger] now[k];
                rc002_finding(*models, models.fns@[s.0 as int], s.1, s.2, s.3, findings@[start.len() + k])
            } by {
                if k >= pre.len() {
                    assert(now[k] == add[k - pre.len()]);
                }
            }
        }
        i = i + 1;
    }
    assert(results@.take(i as int) =~= results@);
}

} // verus!
