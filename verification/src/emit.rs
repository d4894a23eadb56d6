//! What the engine's results become in the artifacts: the per-kernel
//! analyses, the coverage a run reports, the uniformity map of each
//! function, the order findings are written in, and the name a target's
//! artifacts are filed under.
use vstd::prelude::*;

pub mod launch;
pub mod lints;
pub mod replay;
pub mod rules;

use crate::analysis::{
    analysis_has_shape, analysis_of, analysis_spans_within, analyze, fn_size, may_reach_barrier, may_reach_warp_op, summaries_cover, Analysis, BranchCause,
    ReasonKind, Summaries,
};
use crate::artifacts::findings::{Finding, RunCoverage, SourceSpan};
use crate::artifacts::unimap;
use crate::dialect::CallKind;
use crate::model::{spans_below, Block, FnId, FnModel, Local, TermKind};
use crate::text::{
    contains_seq, decimal, is_first_occurrence, lemma_first_occurrence_unique, owned, push_decimal, push_str,
    split_once_str, starts_with,
};
use crate::Uniformity;

verus! {

/// Models of every local function, the kernels among them, and the span
/// table every `SpanRef` indexes.
pub struct CrateModels {
    pub fns: Vec<FnModel>,
    /// Indices into `fns` of the detected kernels.
    pub kernels: Vec<FnId>,
    /// The span table.
    pub spans: Vec<SourceSpan>,
}

/// Every call's local callee is a function of the set.
pub open spec fn calls_in_range(fns: Seq<FnModel>) -> bool {
    forall|i: int, k: int|
        0 <= i < fns.len() && 0 <= k < fns[i].blocks.len() ==> match #[trigger] fns[i].blocks@[k].term.kind {
            TermKind::Call { callee, .. } => callee.local_fn matches Some(c) ==> c < fns.len(),
            _ => true,
        }
}

/// A function the engine can analyze, within the machine's counts.
pub open spec fn fn_ok(f: FnModel, nspans: nat) -> bool {
    &&& f.wf()
    &&& f.blocks.len() < usize::MAX
    &&& fn_size(f, f.blocks.len() as int) <= usize::MAX
    &&& spans_below(f, nspans)
}

/// The models are consistent: every function analyzable, every callee and
/// kernel index in range.
pub open spec fn models_wf(m: CrateModels) -> bool {
    &&& forall|i: int| 0 <= i < m.fns.len() ==> fn_ok(#[trigger] m.fns@[i], m.spans.len() as nat)
    &&& calls_in_range(m.fns@)
    &&& forall|k: int| 0 <= k < m.kernels.len() ==> #[trigger] m.kernels@[k] < m.fns.len()
}

/// The summary bits of a model set, exactly.
pub open spec fn exact_summaries(fns: Seq<FnModel>, s: Summaries) -> bool {
    &&& s.may_contain_barrier.len() == fns.len()
    &&& s.may_contain_warp_op.len() == fns.len()
    &&& forall|i: int| 0 <= i < fns.len() ==> (#[trigger] s.may_contain_barrier@[i] <==> may_reach_barrier(fns, i))
    &&& forall|i: int| 0 <= i < fns.len() ==> (#[trigger] s.may_contain_warp_op@[i] <==> may_reach_warp_op(fns, i))
}

/// Analyze every kernel with the core engine, under the summaries of the
/// whole set.
pub fn analyze_kernels(models: &CrateModels) -> (r: Vec<(FnId, Analysis)>)
    requires
        models_wf(*models),
    ensures
        r.len() == models.kernels.len(),
        exists|s: Summaries|
            exact_summaries(models.fns@, s) && forall|i: int|
                0 <= i < r.len() ==> (#[trigger] r@[i]).0 == models.kernels@[i] && analysis_of(
                    models.fns@[models.kernels@[i] as int],
                    s,
                    r@[i].1,
                ),
        rules::results_reportable(*models, r@),
{
    proof {
        assert forall|i: int, k: int, c: FnId|
            0 <= i < models.fns.len() && 0 <= k < models.fns@[i].blocks.len() && #[trigger] crate::analysis::local_call_at(
                models.fns@[i].blocks@[k].term.kind,
                c,
            ) implies c < models.fns.len() by {
            assert(match models.fns@[i].blocks@[k].term.kind {
                TermKind::Call { callee, .. } => callee.local_fn matches Some(c) ==> c < models.fns.len(),
                _ => true,
            });
        }
    }
    let summaries = Summaries::compute(models.fns.as_slice());
    let mut out: Vec<(FnId, Analysis)> = Vec::new();
    let mut i: usize = 0;
    while i < models.kernels.len()
        invariant
            i <= models.kernels.len(),
            models_wf(*models),
            exact_summaries(models.fns@, summaries),
            out.len() == i,
            forall|j: int|
                0 <= j < i ==> (#[trigger] out@[j]).0 == models.kernels@[j] && analysis_of(
                    models.fns@[models.kernels@[j] as int],
                    summaries,
                    out@[j].1,
                ),
        decreases models.kernels.len() - i,
    {
        let id = models.kernels[i];
        let f = &models.fns[id];
        proof {
            let fi = models.fns@[id as int];
            assert(fn_ok(fi, models.spans.len() as nat));
            assert forall|b: int|
                crate::analysis::live(fi, b) implies match #[trigger] fi.blocks@[b].term.kind {
                TermKind::Call { callee, .. } => callee.local_fn matches Some(c) ==> (callee.kind != CallKind::Barrier
                    ==> c < summaries.may_contain_barrier.len()) && (!(callee.kind is WarpCollective) ==> c
                    < summaries.may_contain_warp_op.len()),
                _ => true,
            } by {
                assert(match models.fns@[id as int].blocks@[b].term.kind {
                    TermKind::Call { callee, .. } => callee.local_fn matches Some(c) ==> c < models.fns.len(),
                    _ => true,
                });
            }
            assert(summaries_cover(fi, summaries));
        }
        let a = analyze(f, &summaries);
        out.push((id, a));
        i = i + 1;
    }
    proof {
        assert forall|j: int| 0 <= j < out.len() implies (#[trigger] out@[j]).0 < models.fns.len()
            && rules::reportable(*models, models.fns@[out@[j].0 as int], out@[j].1) by {
            let fj = models.fns@[out@[j].0 as int];
            assert(fn_ok(fj, models.spans.len() as nat));
            analysis_has_shape(fj, summaries, out@[j].1);
            analysis_spans_within(fj, summaries, out@[j].1, models.spans.len() as nat);
        }
    }
    out
}

/// The span a `SpanRef` names.
pub fn span_of(models: &CrateModels, span_ref: usize) -> (r: SourceSpan)
    requires
        span_ref < models.spans.len(),
    ensures
        r == models.spans@[span_ref as int],
{
    let s = &models.spans[span_ref];
    SourceSpan {
        file: s.file.clone(),
        line_start: s.line_start,
        column_start: s.column_start,
        line_end: s.line_end,
        column_end: s.column_end,
    }
}

/// Statements analyzed, statements opaque, and functions with any opaque
/// statement, over the first `n` results.
pub open spec fn coverage_upto(results: Seq<(FnId, Analysis)>, n: int) -> (nat, nat, nat)
    decreases n,
{
    if n <= 0 || n > results.len() {
        (0, 0, 0)
    } else {
        let c = coverage_upto(results, n - 1);
        let a = results[n - 1].1;
        (
            c.0 + a.analyzed_statements as nat,
            c.1 + a.opaque_statements as nat,
            c.2 + if a.opaque_statements > 0 {
                1nat
            } else {
                0nat
            },
        )
    }
}

proof fn lemma_coverage_grows(results: Seq<(FnId, Analysis)>, i: int, n: int)
    requires
        0 <= i <= n <= results.len(),
    ensures
        coverage_upto(results, i).0 <= coverage_upto(results, n).0,
        coverage_upto(results, i).1 <= coverage_upto(results, n).1,
        coverage_upto(results, i).2 <= coverage_upto(results, n).2,
    decreases n - i,
{
    if i < n {
        lemma_coverage_grows(results, i, n - 1);
    }
}

/// The whole target's coverage, for the findings document: the tally
/// that tells a clean run from a run that could not read what mattered.
pub fn run_coverage(results: &Vec<(FnId, Analysis)>) -> (r: RunCoverage)
    requires
        coverage_upto(results@, results.len() as int).0 <= usize::MAX,
        coverage_upto(results@, results.len() as int).1 <= usize::MAX,
    ensures
        (r.analyzed_statements as nat, r.opaque_statements as nat, r.opaque_functions as nat) == coverage_upto(
            results@,
            results.len() as int,
        ),
{
    let mut coverage = RunCoverage { analyzed_statements: 0, opaque_statements: 0, opaque_functions: 0 };
    let mut i: usize = 0;
    while i < results.len()
        invariant
            i <= results.len(),
            coverage_upto(results@, results.len() as int).0 <= usize::MAX,
            coverage_upto(results@, results.len() as int).1 <= usize::MAX,
            (coverage.analyzed_statements as nat, coverage.opaque_statements as nat, coverage.opaque_functions as nat)
                == coverage_upto(results@, i as int),
            coverage.opaque_functions <= i,
        decreases results.len() - i,
    {
        proof {
            lemma_coverage_grows(results@, i + 1, results.len() as int);
        }
        let a = &results[i].1;
        coverage.analyzed_statements = coverage.analyzed_statements + a.analyzed_statements;
        coverage.opaque_statements = coverage.opaque_statements + a.opaque_statements;
        if a.opaque_statements > 0 {
            coverage.opaque_functions = coverage.opaque_functions + 1;
        }
        i = i + 1;
    }
    coverage
}

/// What follows the first `sep` in `s`, when `sep` occurs.
pub open spec fn after_first(s: Seq<char>, sep: Seq<char>) -> Option<Seq<char>> {
    if exists|i: int| is_first_occurrence(s, sep, i) {
        let i = choose|i: int| is_first_occurrence(s, sep, i);
        Some(s.skip(i + sep.len()))
    } else {
        None
    }
}

/// A chain hop that only moves one unnamed temporary into another: it
/// adds nothing to the displayed story (the full graph stays in the map).
pub open spec fn spec_is_temp_plumbing(detail: Seq<char>) -> bool {
    "_"@.is_prefix_of(detail) && match after_first(detail, ": "@) {
        Some(rest) => "derived from divergent _"@.is_prefix_of(rest),
        None => false,
    }
}

/// Whether a provenance hop is temporary plumbing.
pub fn is_temp_plumbing(detail: &str) -> (r: bool)
    ensures
        r == spec_is_temp_plumbing(detail@),
{
    if !starts_with(detail, "_") {
        return false;
    }
    match split_once_str(detail, ": ") {
        Some((_head, rest)) => {
            proof {
                let i = choose|i: int|
                    is_first_occurrence(detail@, ": "@, i) && _head@ == detail@.take(i) && rest@ == detail@.skip(
                        i + ": "@.len(),
                    );
                let j = choose|j: int| is_first_occurrence(detail@, ": "@, j);
                lemma_first_occurrence_unique(detail@, ": "@, i, j);
            }
            starts_with(rest, "derived from divergent _")
        },
        None => {
            assert(!exists|i: int| is_first_occurrence(detail@, ": "@, i));
            false
        },
    }
}

/// Where a value's label comes from, for the map.
pub open spec fn spec_value_source(kind: ReasonKind, call: Option<CallKind>) -> unimap::ValueSource {
    match kind {
        ReasonKind::Source => match call {
            Some(CallKind::ThreadIndexWitness) => unimap::ValueSource::ThreadIndex,
            Some(CallKind::AtomicRmw) => unimap::ValueSource::AtomicReturn,
            _ => unimap::ValueSource::Derived,
        },
        ReasonKind::DerivedFrom(_) => unimap::ValueSource::Derived,
        ReasonKind::ControlDependent { .. } => unimap::ValueSource::DivergentPhi,
    }
}

/// The source of a value with this reason: a value written on only some
/// lanes' paths is the divergent phi.
pub fn value_source(kind: &ReasonKind, call: Option<CallKind>) -> (r: unimap::ValueSource)
    ensures
        r == spec_value_source(*kind, call),
{
    match kind {
        ReasonKind::Source => match call {
            Some(CallKind::ThreadIndexWitness) => unimap::ValueSource::ThreadIndex,
            Some(CallKind::AtomicRmw) => unimap::ValueSource::AtomicReturn,
            _ => unimap::ValueSource::Derived,
        },
        ReasonKind::DerivedFrom(_) => unimap::ValueSource::Derived,
        ReasonKind::ControlDependent { .. } => unimap::ValueSource::DivergentPhi,
    }
}

/// An analysis has the shape of its function: a label and a reason per
/// local, a bit and a cause per block, and every control-dependent write
/// naming a block.
pub open spec fn shaped(f: FnModel, a: Analysis) -> bool {
    &&& a.locals.len() == f.local_count
    &&& a.reasons.len() == f.local_count
    &&& a.block_divergent.len() == f.blocks.len()
    &&& a.block_cause.len() == f.blocks.len()
    &&& forall|l: int|
        0 <= l < f.local_count ==> (#[trigger] a.reasons@[l] matches Some(r) ==> (r.kind matches ReasonKind::ControlDependent {
            branch,
        } ==> branch < f.blocks.len()))
}

/// Every result names a function of the set and has its shape.
pub open spec fn results_ok(m: CrateModels, results: Seq<(FnId, Analysis)>) -> bool {
    forall|i: int|
        0 <= i < results.len() ==> (#[trigger] results[i]).0 < m.fns.len() && shaped(m.fns@[results[i].0 as int], results[i].1)
}

/// The map's label of a uniformity.
pub open spec fn label_of(u: Uniformity) -> unimap::Uniformity {
    match u {
        Uniformity::Uniform => unimap::Uniformity::Uniform,
        Uniformity::Divergent => unimap::Uniformity::Divergent,
    }
}

/// The id local `l` goes by in the map.
pub open spec fn value_id(l: int) -> Seq<char> {
    "_"@ + decimal(l as nat)
}

/// Why local `l` carries its label: its reason, or being a parameter.
pub open spec fn value_source_of(f: FnModel, a: Analysis, l: int) -> Option<unimap::ValueSource> {
    match a.reasons@[l] {
        Some(r) => Some(spec_value_source(r.kind, r.source_call)),
        None => if 1 <= l <= f.arg_count {
            Some(unimap::ValueSource::KernelParam)
        } else {
            None
        },
    }
}

/// Where local `l` is defined: its own span, else the function's.
pub open spec fn value_span_ref(f: FnModel, l: int) -> usize {
    match f.local_spans@[l] {
        Some(s) => s,
        None => f.span,
    }
}

/// `v` is the map's record of local `l`.
pub open spec fn value_of(v: unimap::Value, m: CrateModels, f: FnModel, a: Analysis, l: int) -> bool {
    &&& v.id@ == value_id(l)
    &&& v.name == f.local_names@[l]
    &&& v.uniformity == label_of(a.locals@[l])
    &&& v.source == value_source_of(f, a, l)
    &&& v.span == m.spans@[value_span_ref(f, l) as int]
}

fn local_id(l: usize) -> (r: String)
    ensures
        r@ == value_id(l as int),
{
    let mut s = owned("_");
    push_decimal(&mut s, l);
    s
}

/// Every local of `f`, labeled.
pub fn values_of(models: &CrateModels, f: &FnModel, analysis: &Analysis) -> (r: Vec<unimap::Value>)
    requires
        f.wf(),
        spans_below(*f, models.spans.len() as nat),
        shaped(*f, *analysis),
    ensures
        r.len() == f.local_count,
        forall|l: int| 0 <= l < r.len() ==> value_of(#[trigger] r@[l], *models, *f, *analysis, l),
{
    let mut out: Vec<unimap::Value> = Vec::new();
    let mut l: usize = 0;
    while l < f.local_count
        invariant
            l <= f.local_count,
            f.wf(),
            spans_below(*f, models.spans.len() as nat),
            shaped(*f, *analysis),
            out.len() == l,
            forall|k: int| 0 <= k < l ==> value_of(#[trigger] out@[k], *models, *f, *analysis, k),
        decreases f.local_count - l,
    {
        let uniformity = match analysis.locals[l] {
            Uniformity::Uniform => unimap::Uniformity::Uniform,
            Uniformity::Divergent => unimap::Uniformity::Divergent,
        };
        let source = match &analysis.reasons[l] {
            Some(reason) => Some(value_source(&reason.kind, reason.source_call)),
            None => if 1 <= l && l <= f.arg_count {
                Some(unimap::ValueSource::KernelParam)
            } else {
                None
            },
        };
        let name = match &f.local_names[l] {
            Some(n) => Some(n.clone()),
            None => None,
        };
        let span_ref = match f.local_spans[l] {
            Some(s) => s,
            None => f.span,
        };
        assert(f.local_spans@[l as int] matches Some(s) ==> s < models.spans.len());
        let span = span_of(models, span_ref);
        out.push(unimap::Value { id: local_id(l), name, uniformity, source, span });
        l = l + 1;
    }
    out
}

/// The locals the statements write, in order.
pub open spec fn stmt_dests(stmts: Seq<crate::model::Stmt>) -> Seq<Local>
    decreases stmts.len(),
{
    if stmts.len() == 0 {
        Seq::empty()
    } else {
        stmt_dests(stmts.drop_last()) + match stmts.last().dest {
            Some(d) => seq![d],
            None => Seq::empty(),
        }
    }
}

/// The locals a block writes: its statements', then its call's.
pub open spec fn written(b: Block) -> Seq<Local> {
    stmt_dests(b.stmts@) + match b.term.kind {
        TermKind::Call { dest: Some(d), .. } => seq![d],
        _ => Seq::empty(),
    }
}

/// `s` with each run of repeats collapsed to one.
pub open spec fn dedup_runs(s: Seq<Local>) -> Seq<Local>
    decreases s.len(),
{
    if s.len() <= 1 {
        s
    } else if s[s.len() - 2] == s.last() {
        dedup_runs(s.drop_last())
    } else {
        dedup_runs(s.drop_last()).push(s.last())
    }
}

/// `r` is the map's record of block `b`.
pub open spec fn block_of(r: unimap::Block, m: CrateModels, f: FnModel, a: Analysis, b: int) -> bool {
    &&& r.id@ == "bb"@ + decimal(b as nat)
    &&& r.divergent_control == a.block_divergent@[b]
    &&& r.span == Some(m.spans@[f.blocks@[b].term.span as int])
    &&& r.values@.map_values(|s: String| s@) == dedup_runs(written(f.blocks@[b])).map_values(|l: Local| value_id(l as int))
}

fn written_locals(block: &Block) -> (r: Vec<Local>)
    ensures
        r@ == written(*block),
{
    let mut out: Vec<Local> = Vec::new();
    let mut k: usize = 0;
    while k < block.stmts.len()
        invariant
            k <= block.stmts.len(),
            out@ == stmt_dests(block.stmts@.take(k as int)),
        decreases block.stmts.len() - k,
    {
        assert(block.stmts@.take(k + 1).drop_last() =~= block.stmts@.take(k as int));
        if let Some(d) = block.stmts[k].dest {
            out.push(d);
        }
        assert(out@ =~= stmt_dests(block.stmts@.take(k + 1)));
        k = k + 1;
    }
    assert(block.stmts@.take(block.stmts.len() as int) =~= block.stmts@);
    if let TermKind::Call { dest: Some(d), .. } = &block.term.kind {
        out.push(*d);
    }
    assert(out@ =~= written(*block));
    out
}

/// Every block of `f`, with its divergent-control bit and the values it
/// writes.
pub fn blocks_of(models: &CrateModels, f: &FnModel, analysis: &Analysis) -> (r: Vec<unimap::Block>)
    requires
        f.wf(),
        spans_below(*f, models.spans.len() as nat),
        shaped(*f, *analysis),
    ensures
        r.len() == f.blocks.len(),
        forall|b: int| 0 <= b < r.len() ==> block_of(#[trigger] r@[b], *models, *f, *analysis, b),
{
    let mut out: Vec<unimap::Block> = Vec::new();
    let mut b: usize = 0;
    while b < f.blocks.len()
        invariant
            b <= f.blocks.len(),
            spans_below(*f, models.spans.len() as nat),
            shaped(*f, *analysis),
            out.len() == b,
            forall|k: int| 0 <= k < b ==> block_of(#[trigger] out@[k], *models, *f, *analysis, k),
        decreases f.blocks.len() - b,
    {
        let block = &f.blocks[b];
        let locals = written_locals(block);
        let mut values: Vec<String> = Vec::new();
        let mut k: usize = 0;
        while k < locals.len()
            invariant
                k <= locals.len(),
                values@.map_values(|s: String| s@) == dedup_runs(locals@.take(k as int)).map_values(
                    |l: Local| value_id(l as int),
                ),
            decreases locals.len() - k,
        {
            let ghost pre = locals@.take(k as int);
            let ghost post = locals@.take(k + 1);
            assert(post.drop_last() =~= pre);
            if k == 0 || locals[k - 1] != locals[k] {
                let ghost before = values@;
                values.push(local_id(locals[k]));
                proof {
                    if k == 0 {
                        assert(post =~= seq![locals@[0]]);
                    }
                    assert(values@.map_values(|s: String| s@) =~= before.map_values(|s: String| s@).push(
                        value_id(locals@[k as int] as int),
                    ));
                }
            } else {
                assert(post[post.len() - 2] == post.last());
            }
            assert(values@.map_values(|s: String| s@) =~= dedup_runs(post).map_values(|l: Local| value_id(l as int)));
            k = k + 1;
        }
        assert(locals@.take(locals.len() as int) =~= locals@);
        let mut id = owned("bb");
        push_decimal(&mut id, b);
        let span = span_of(models, block.term.span);
        out.push(unimap::Block { id, divergent_control: analysis.block_divergent[b], span: Some(span), values });
        b = b + 1;
    }
    out
}

/// An edge as values: from, to, and what.
pub open spec fn edge_view(e: unimap::ProvenanceEdge) -> (Seq<char>, Seq<char>, Option<Seq<char>>) {
    (e.from@, e.to@, crate::artifacts::findings::opt_view(e.what))
}

/// The condition a control-dependent write answers to: the branch's
/// recorded cause, else the branch terminator's own condition.
pub open spec fn cause_cond(f: FnModel, a: Analysis, branch: int) -> Option<Local> {
    match a.block_cause@[branch] {
        Some(c) => Some(c.cond),
        None => match f.blocks@[branch].term.kind {
            TermKind::Branch { cond, .. } => Some(cond),
            _ => None,
        },
    }
}

/// The edges into local `l`: one per input of a derivation, one from the
/// controlling condition of a control-dependent write, none for a source.
pub open spec fn edges_into(f: FnModel, a: Analysis, l: int) -> Seq<(Seq<char>, Seq<char>, Option<Seq<char>>)> {
    match a.reasons@[l] {
        None => Seq::empty(),
        Some(r) => match r.kind {
            ReasonKind::DerivedFrom(uses) => uses@.map_values(
                |u: Local| (value_id(u as int), value_id(l), Some(r.detail@)),
            ),
            ReasonKind::ControlDependent { branch } => match cause_cond(f, a, branch as int) {
                Some(c) => seq![(value_id(c as int), value_id(l), Some("written under thread-divergent control"@))],
                None => Seq::empty(),
            },
            ReasonKind::Source => Seq::empty(),
        },
    }
}

/// The edges into the first `n` locals, in order.
pub open spec fn edges_upto(f: FnModel, a: Analysis, n: int) -> Seq<(Seq<char>, Seq<char>, Option<Seq<char>>)>
    decreases n,
{
    if n <= 0 {
        Seq::empty()
    } else {
        edges_upto(f, a, n - 1) + edges_into(f, a, n - 1)
    }
}

/// The def→use edges of `f`'s provenance graph.
pub fn provenance_edges(f: &FnModel, analysis: &Analysis) -> (r: Vec<unimap::ProvenanceEdge>)
    requires
        shaped(*f, *analysis),
    ensures
        r@.map_values(|e: unimap::ProvenanceEdge| edge_view(e)) == edges_upto(*f, *analysis, analysis.reasons.len() as int),
{
    let mut edges: Vec<unimap::ProvenanceEdge> = Vec::new();
    let mut l: usize = 0;
    while l < analysis.reasons.len()
        invariant
            l <= analysis.reasons.len(),
            shaped(*f, *analysis),
            edges@.map_values(|e: unimap::ProvenanceEdge| edge_view(e)) == edges_upto(*f, *analysis, l as int),
        decreases analysis.reasons.len() - l,
    {
        let ghost start = edges@.map_values(|e: unimap::ProvenanceEdge| edge_view(e));
        if let Some(reason) = &analysis.reasons[l] {
            match &reason.kind {
                ReasonKind::DerivedFrom(uses) => {
                    let mut u: usize = 0;
                    while u < uses.len()
                        invariant
                            u <= uses.len(),
                            edges@.map_values(|e: unimap::ProvenanceEdge| edge_view(e)) == start + uses@.take(
                                u as int,
                            ).map_values(|x: Local| (value_id(x as int), value_id(l as int), Some(reason.detail@))),
                        decreases uses.len() - u,
                    {
                        let ghost before = edges@;
                        let edge = unimap::ProvenanceEdge {
                            from: local_id(uses[u]),
                            to: local_id(l),
                            what: Some(reason.detail.clone()),
                        };
                        assert(edge_view(edge) == (value_id(uses@[u as int] as int), value_id(l as int), Some(
                            reason.detail@,
                        )));
                        edges.push(edge);
                        assert(uses@.take(u + 1) =~= uses@.take(u as int).push(uses@[u as int]));
                        assert(edges@.map_values(|e: unimap::ProvenanceEdge| edge_view(e)) =~= before.map_values(
                            |e: unimap::ProvenanceEdge| edge_view(e),
                        ).push(edge_view(edge)));
                        assert(edges@.map_values(|e: unimap::ProvenanceEdge| edge_view(e)) =~= start + uses@.take(
                            u + 1,
                        ).map_values(|x: Local| (value_id(x as int), value_id(l as int), Some(reason.detail@))));
                        u = u + 1;
                    }
                    assert(uses@.take(uses.len() as int) =~= uses@);
                },
                ReasonKind::ControlDependent { branch } => {
                    assert(*branch < f.blocks.len());
                    let cond: Option<Local> = match analysis.block_cause[*branch] {
                        Some(c) => Some(c.cond),
                        None => match &f.blocks[*branch].term.kind {
                            TermKind::Branch { cond, .. } => Some(*cond),
                            _ => None,
                        },
                    };
                    if let Some(c) = cond {
                        edges.push(
                            unimap::ProvenanceEdge {
                                from: local_id(c),
                                to: local_id(l),
                                what: Some(owned("written under thread-divergent control")),
                            },
                        );
                    }
                    assert(edges@.map_values(|e: unimap::ProvenanceEdge| edge_view(e)) =~= start + edges_into(
                        *f,
                        *analysis,
                        l as int,
                    ));
                },
                ReasonKind::Source => {
                    assert(edges@.map_values(|e: unimap::ProvenanceEdge| edge_view(e)) =~= start + edges_into(
                        *f,
                        *analysis,
                        l as int,
                    ));
                },
            }
        } else {
            assert(edges@.map_values(|e: unimap::ProvenanceEdge| edge_view(e)) =~= start + edges_into(
                *f,
                *analysis,
                l as int,
            ));
        }
        l = l + 1;
    }
    edges
}

/// `r` is the map's record of function `f` under analysis `a`.
pub open spec fn function_of(r: unimap::Function, m: CrateModels, f: FnModel, a: Analysis) -> bool {
    &&& r.name == f.name
    &&& r.item == f.item_path
    &&& r.span == m.spans@[f.span as int]
    &&& r.coverage == Some(
        unimap::Coverage { analyzed_statements: a.analyzed_statements, opaque_statements: a.opaque_statements },
    )
    &&& r.values.len() == f.local_count
    &&& (forall|l: int| 0 <= l < r.values.len() ==> value_of(#[trigger] r.values@[l], m, f, a, l))
    &&& r.provenance@.map_values(|e: unimap::ProvenanceEdge| edge_view(e)) == edges_upto(f, a, a.reasons.len() as int)
    &&& r.blocks.len() == f.blocks.len()
    &&& (forall|b: int| 0 <= b < r.blocks.len() ==> block_of(#[trigger] r.blocks@[b], m, f, a, b))
}

/// The uniformity map's functions for the analyzed kernels.
pub fn build_unimap(models: &CrateModels, results: &Vec<(FnId, Analysis)>) -> (r: Vec<unimap::Function>)
    requires
        models_wf(*models),
        results_ok(*models, results@),
    ensures
        r.len() == results.len(),
        forall|i: int|
            0 <= i < r.len() ==> function_of(
                #[trigger] r@[i],
                *models,
                models.fns@[results@[i].0 as int],
                results@[i].1,
            ),
{
    let mut out: Vec<unimap::Function> = Vec::new();
    let mut i: usize = 0;
    while i < results.len()
        invariant
            i <= results.len(),
            models_wf(*models),
            results_ok(*models, results@),
            out.len() == i,
            forall|j: int|
                0 <= j < i ==> function_of(#[trigger] out@[j], *models, models.fns@[results@[j].0 as int], results@[j].1),
        decreases results.len() - i,
    {
        let (id, analysis) = (&results[i].0, &results[i].1);
        assert(results_ok(*models, results@));
        let f = &models.fns[*id];
        assert(fn_ok(*f, models.spans.len() as nat));
        let function = unimap::Function {
            name: f.name.clone(),
            item: f.item_path.clone(),
            span: span_of(models, f.span),
            coverage: Some(
                unimap::Coverage {
                    analyzed_statements: analysis.analyzed_statements,
                    opaque_statements: analysis.opaque_statements,
                },
            ),
            values: values_of(models, f, analysis),
            provenance: provenance_edges(f, analysis),
            blocks: blocks_of(models, f, analysis),
        };
        out.push(function);
        i = i + 1;
    }
    out
}

/// The coverage note of a partly read kernel.
pub open spec fn coverage_note(a: Analysis) -> Seq<char> {
    "coverage: "@ + decimal(a.analyzed_statements as nat) + " of "@ + decimal(
        (a.analyzed_statements + a.opaque_statements) as nat,
    ) + " statements analyzed ("@ + decimal(a.opaque_statements as nat) + " opaque)"@
}

/// Some note already reports coverage.
pub open spec fn has_coverage_note(notes: Seq<String>) -> bool {
    exists|k: int| 0 <= k < notes.len() && "coverage: "@.is_prefix_of(#[trigger] notes[k]@)
}

/// The coverage note a finding about `kernel` gets from the first `n`
/// results: that of the first partly read kernel of that name.
pub open spec fn note_for(m: CrateModels, results: Seq<(FnId, Analysis)>, n: int, kernel: Option<Seq<char>>) -> Option<
    Seq<char>,
>
    decreases n,
{
    if n <= 0 || n > results.len() {
        None
    } else {
        match note_for(m, results, n - 1, kernel) {
            Some(x) => Some(x),
            None => {
                let a = results[n - 1].1;
                if a.opaque_statements > 0 && kernel == Some(m.fns@[results[n - 1].0 as int].name@) {
                    Some(coverage_note(a))
                } else {
                    None
                }
            },
        }
    }
}

proof fn lemma_note_is_coverage(m: CrateModels, results: Seq<(FnId, Analysis)>, n: int, kernel: Option<Seq<char>>)
    ensures
        note_for(m, results, n, kernel) matches Some(x) ==> "coverage: "@.is_prefix_of(x),
    decreases n,
{
    if n > 0 && n <= results.len() {
        lemma_note_is_coverage(m, results, n - 1, kernel);
        let a = results[n - 1].1;
        let x = coverage_note(a);
        assert(x.subrange(0, "coverage: "@.len() as int) =~= "coverage: "@);
    }
}

/// `b` is `a` with one note added.
pub open spec fn with_note(a: Finding, b: Finding, note: Seq<char>) -> bool {
    &&& b.code == a.code
    &&& b.confidence == a.confidence
    &&& b.message == a.message
    &&& b.kernel == a.kernel
    &&& b.span == a.span
    &&& b.help == a.help
    &&& b.explain == a.explain
    &&& b.provenance == a.provenance
    &&& b.notes.len() == a.notes.len() + 1
    &&& b.notes@.take(a.notes.len() as int) == a.notes@
    &&& b.notes@.last()@ == note
}

/// What the coverage pass makes of finding `a`, given the note it is owed.
pub open spec fn annotated(a: Finding, b: Finding, note: Option<Seq<char>>) -> bool {
    match note {
        Some(n) => if has_coverage_note(a.notes@) {
            b == a
        } else {
            with_note(a, b, n)
        },
        None => b == a,
    }
}

fn has_coverage(notes: &Vec<String>) -> (r: bool)
    ensures
        r == has_coverage_note(notes@),
{
    let mut k: usize = 0;
    while k < notes.len()
        invariant
            k <= notes.len(),
            forall|j: int| 0 <= j < k ==> !"coverage: "@.is_prefix_of(#[trigger] notes@[j]@),
        decreases notes.len() - k,
    {
        if starts_with(notes[k].as_str(), "coverage: ") {
            return true;
        }
        k = k + 1;
    }
    false
}

fn kernel_is(kernel: &Option<String>, name: &String) -> (r: bool)
    ensures
        r == (crate::artifacts::findings::opt_view(*kernel) == Some(name@)),
{
    match kernel {
        Some(k) => crate::text::str_eq(k.as_str(), name.as_str()),
        None => false,
    }
}

/// Attach the coverage note to every finding about a kernel read only in
/// part, once, whichever rule produced it.
pub fn annotate_coverage(models: &CrateModels, results: &Vec<(FnId, Analysis)>, findings: &mut Vec<Finding>)
    requires
        results_ok(*models, results@),
        forall|i: int|
            0 <= i < results.len() ==> (#[trigger] results@[i]).1.analyzed_statements + results@[i].1.opaque_statements
                <= usize::MAX,
    ensures
        final(findings).len() == old(findings).len(),
        forall|j: int|
            0 <= j < final(findings).len() ==> annotated(
                old(findings)@[j],
                #[trigger] final(findings)@[j],
                note_for(
                    *models,
                    results@,
                    results.len() as int,
                    crate::artifacts::findings::opt_view(old(findings)@[j].kernel),
                ),
            ),
{
    let ghost orig = findings@;
    let mut i: usize = 0;
    while i < results.len()
        invariant
            i <= results.len(),
            results_ok(*models, results@),
            forall|k: int|
                0 <= k < results.len() ==> (#[trigger] results@[k]).1.analyzed_statements
                    + results@[k].1.opaque_statements <= usize::MAX,
            findings.len() == orig.len(),
            forall|j: int|
                0 <= j < findings.len() ==> annotated(
                    orig[j],
                    #[trigger] findings@[j],
                    note_for(*models, results@, i as int, crate::artifacts::findings::opt_view(orig[j].kernel)),
                ),
        decreases results.len() - i,
    {
        let id = results[i].0;
        let analysis = &results[i].1;
        if analysis.opaque_statements == 0 {
            i = i + 1;
            continue;
        }
        let total = analysis.analyzed_statements + analysis.opaque_statements;
        if total == 0 {
            i = i + 1;
            continue;
        }
        assert(results_ok(*models, results@));
        let name = &models.fns[id].name;
        let mut note = owned("coverage: ");
        push_decimal(&mut note, analysis.analyzed_statements);
        push_str(&mut note, " of ");
        push_decimal(&mut note, total);
        push_str(&mut note, " statements analyzed (");
        push_decimal(&mut note, analysis.opaque_statements);
        push_str(&mut note, " opaque)");
        assert(note@ =~= coverage_note(*analysis));
        let ghost before = findings@;
        let mut j: usize = 0;
        while j < findings.len()
            invariant
                j <= findings.len(),
                findings.len() == orig.len(),
                before.len() == orig.len(),
                i < results.len(),
                analysis == results@[i as int].1,
                id == results@[i as int].0,
                id < models.fns.len(),
                *name == models.fns@[id as int].name,
                analysis.opaque_statements > 0,
                note@ == coverage_note(*analysis),
                forall|k: int|
                    0 <= k < findings.len() ==> annotated(
                        orig[k],
                        #[trigger] before[k],
                        note_for(*models, results@, i as int, crate::artifacts::findings::opt_view(orig[k].kernel)),
                    ),
                forall|k: int| j <= k < findings.len() ==> #[trigger] findings@[k] == before[k],
                forall|k: int|
                    0 <= k < j ==> annotated(
                        orig[k],
                        #[trigger] findings@[k],
                        note_for(
                            *models,
                            results@,
                            i + 1,
                            crate::artifacts::findings::opt_view(orig[k].kernel),
                        ),
                    ),
            decreases findings.len() - j,
        {
            let ghost kv = crate::artifacts::findings::opt_view(orig[j as int].kernel);
            proof {
                assert(findings@[j as int] == before[j as int]);
                let prev = note_for(*models, results@, i as int, kv);
                if prev is Some && !has_coverage_note(orig[j as int].notes@) {
                    let n = findings@[j as int].notes.len() - 1;
                    lemma_note_is_coverage(*models, results@, i as int, kv);
                    assert("coverage: "@.is_prefix_of(findings@[j as int].notes@[n]@));
                }
            }
            let covered = has_coverage(&findings[j].notes);
            if kernel_is(&findings[j].kernel, name) && !covered {
                let ghost old_j = findings@[j as int];
                findings[j].notes.push(note.clone());
                proof {
                    assert(findings@[j as int].notes@.take(old_j.notes.len() as int) =~= old_j.notes@);
                }
            }
            j = j + 1;
        }
        i = i + 1;
    }
}

/// How many launch axes a formula is proven for, in words.
pub fn axes(n: u8) -> (r: &'static str)
    ensures
        r@ == (if n == 1 {
            "one axis"@
        } else {
            "two axes"@
        }),
{
    if n == 1 {
        "one axis"
    } else {
        "two axes"
    }
}

/// `v` split at every `,`, as `str::split(',')` yields the pieces.
pub open spec fn comma_pieces(v: Seq<char>) -> Seq<Seq<char>>
    decreases v.len(),
{
    if v.len() == 0 {
        seq![Seq::empty()]
    } else {
        let p = comma_pieces(v.drop_last());
        if v.last() == ',' {
            p.push(Seq::empty())
        } else {
            p.update(p.len() - 1, p.last().push(v.last()))
        }
    }
}

proof fn lemma_pieces_nonempty(v: Seq<char>)
    ensures
        comma_pieces(v).len() >= 1,
    decreases v.len(),
{
    if v.len() > 0 {
        lemma_pieces_nonempty(v.drop_last());
    }
}

/// The `--crate-type` value argument `i` gives: inline after `=`, or the
/// next argument after a bare flag (which is still read as an argument of
/// its own).
pub open spec fn crate_type_value(args: Seq<Seq<char>>, i: int) -> Option<Seq<char>> {
    let a = args[i];
    if "--crate-type"@.is_prefix_of(a) {
        let rest = a.skip("--crate-type"@.len() as int);
        if rest.len() == 0 {
            if i + 1 < args.len() {
                Some(args[i + 1])
            } else {
                None
            }
        } else if rest[0] == '=' {
            Some(rest.skip(1))
        } else {
            None
        }
    } else {
        None
    }
}

/// Every crate type named in the first `n` arguments, in order.
pub open spec fn crate_types_upto(args: Seq<Seq<char>>, n: int) -> Seq<Seq<char>>
    decreases n,
{
    if n <= 0 || n > args.len() {
        Seq::empty()
    } else {
        crate_types_upto(args, n - 1) + match crate_type_value(args, n - 1) {
            Some(v) => comma_pieces(v),
            None => Seq::empty(),
        }
    }
}

/// Strictly ascending, character by character: sorted, no repeats.
pub open spec fn strictly_sorted(s: Seq<Seq<char>>) -> bool {
    forall|i: int, j: int| 0 <= i < j < s.len() ==> crate::text::seq_lt(#[trigger] s[i], #[trigger] s[j])
}

fn comma_split(v: &str) -> (r: Vec<String>)
    ensures
        crate::text::str_views(r@) == comma_pieces(v@),
{
    let cs = crate::text::chars_of(v);
    let mut done: Vec<String> = Vec::new();
    let mut cur = String::new();
    let mut k: usize = 0;
    while k < cs.len()
        invariant
            k <= cs.len(),
            cs@ == v@,
            crate::text::str_views(done@).push(cur@) == comma_pieces(v@.take(k as int)),
        decreases cs.len() - k,
    {
        let ghost pre = v@.take(k as int);
        let ghost post = v@.take(k + 1);
        assert(post.drop_last() =~= pre);
        assert(post.last() == cs@[k as int]);
        let ghost before = crate::text::str_views(done@);
        if cs[k] == ',' {
            let piece = cur;
            done.push(piece);
            cur = String::new();
            assert(crate::text::str_views(done@) =~= before.push(piece@));
            assert(crate::text::str_views(done@).push(cur@) =~= comma_pieces(post));
        } else {
            crate::text::push_char(&mut cur, cs[k]);
            assert(crate::text::str_views(done@).push(cur@) =~= comma_pieces(post));
        }
        k = k + 1;
    }
    assert(v@.take(cs.len() as int) =~= v@);
    done.push(cur);
    done
}

/// `a` is the adjacent-repeat-free `s`.
pub open spec fn dedup_strs(s: Seq<Seq<char>>) -> Seq<Seq<char>>
    decreases s.len(),
{
    if s.len() <= 1 {
        s
    } else if s[s.len() - 2] == s.last() {
        dedup_strs(s.drop_last())
    } else {
        dedup_strs(s.drop_last()).push(s.last())
    }
}

proof fn lemma_dedup_sorted(s: Seq<Seq<char>>)
    requires
        crate::text::sorted_strs(s),
    ensures
        strictly_sorted(dedup_strs(s)),
        forall|x: Seq<char>| dedup_strs(s).contains(x) <==> s.contains(x),
        s.len() > 0 ==> dedup_strs(s).len() > 0 && dedup_strs(s).last() == s.last(),
    decreases s.len(),
{
    if s.len() > 1 {
        let p = s.drop_last();
        assert(crate::text::sorted_strs(p));
        lemma_dedup_sorted(p);
        let d = dedup_strs(p);
        assert forall|x: Seq<char>| p.contains(x) implies s.contains(x) by {
            let k = choose|k: int| 0 <= k < p.len() && p[k] == x;
            assert(s[k] == x);
        }
        assert(s.contains(s.last()));
        assert forall|x: Seq<char>| s.contains(x) implies (p.contains(x) || x == s.last()) by {
            let k = choose|k: int| 0 <= k < s.len() && s[k] == x;
            if k < s.len() - 1 {
                assert(p[k] == x);
            }
        }
        if s[s.len() - 2] != s.last() {
            let e = s.last();
            assert(!crate::text::seq_lt(e, s[s.len() - 2]));
            crate::text::lemma_seq_lt_total(e, s[s.len() - 2]);
            let t = d.push(e);
            assert forall|i: int, j: int| 0 <= i < j < t.len() implies crate::text::seq_lt(#[trigger] t[i], #[trigger] t[j]) by {
                if j == t.len() - 1 {
                    if i < d.len() - 1 {
                        crate::text::lemma_seq_lt_transitive(d[i], d.last(), e);
                    }
                    assert(t[i] == d[i]);
                } else {
                    assert(t[i] == d[i] && t[j] == d[j]);
                }
            }
            assert(t[t.len() - 1] == e);
            assert(t.contains(e));
            assert forall|x: Seq<char>| t.contains(x) <==> s.contains(x) by {
                if t.contains(x) {
                    let k = choose|k: int| 0 <= k < t.len() && t[k] == x;
                    if k < d.len() {
                        assert(d[k] == x);
                    }
                }
                if d.contains(x) {
                    let k = choose|k: int| 0 <= k < d.len() && d[k] == x;
                    assert(t[k] == x);
                }
            }
        } else {
            assert forall|x: Seq<char>| d.contains(x) <==> s.contains(x) by {
                if x == s.last() {
                    assert(p.contains(p.last()));
                }
            }
        }
    } else if s.len() == 1 {
        assert(dedup_strs(s) == s);
    }
}

/// The crate types of a compiler invocation, for the artifact file name:
/// every `--crate-type` value, split at commas, sorted, without repeats,
/// joined with `+`; `unknown` when there is none.
pub fn crate_types_from_args(args: &[String]) -> (r: String)
    ensures
        crate_types_upto(crate::text::str_views(args@), args.len() as int).len() == 0 ==> r@ == "unknown"@,
        crate_types_upto(crate::text::str_views(args@), args.len() as int).len() > 0 ==> exists|s: Seq<Seq<char>>|
            strictly_sorted(s) && (forall|x: Seq<char>|
                #[trigger] s.contains(x) <==> crate_types_upto(crate::text::str_views(args@), args.len() as int).contains(x))
                && r@ == crate::text::joined(s, "+"@),
{
    let ghost a = crate::text::str_views(args@);
    let mut types: Vec<String> = Vec::new();
    let mut i: usize = 0;
    while i < args.len()
        invariant
            i <= args.len(),
            a == crate::text::str_views(args@),
            crate::text::str_views(types@) == crate_types_upto(a, i as int),
        decreases args.len() - i,
    {
        assert(a[i as int] == args@[i as int]@);
        let arg = args[i].as_str();
        let value: Option<String> = match crate::text::strip_prefix(arg, "--crate-type") {
            Some(rest) => {
                if rest.unicode_len() == 0 {
                    if i + 1 < args.len() {
                        Some(args[i + 1].clone())
                    } else {
                        None
                    }
                } else {
                    match crate::text::strip_prefix(rest, "=") {
                        Some(v) => {
                            proof {
                                reveal_strlit("=");
                                assert("="@[0] == '=');
                                assert(rest@.subrange(0, 1)[0] == rest@[0]);
                                assert(rest@[0] == '=');
                            }
                            Some(owned(v))
                        },
                        None => {
                            proof {
                                reveal_strlit("=");
                                if rest@[0] == '=' {
                                    assert(rest@.subrange(0, 1) =~= "="@);
                                }
                            }
                            None
                        },
                    }
                }
            },
            None => None,
        };
        proof {
            reveal_strlit("=");
        }
        assert(crate::artifacts::findings::opt_view(value) == crate_type_value(a, i as int));
        let ghost before = crate::text::str_views(types@);
        if let Some(v) = value {
            let pieces = comma_split(v.as_str());
            let mut k: usize = 0;
            while k < pieces.len()
                invariant
                    k <= pieces.len(),
                    crate::text::str_views(types@) == before + crate::text::str_views(pieces@).take(k as int),
                decreases pieces.len() - k,
            {
                let ghost t = crate::text::str_views(types@);
                types.push(pieces[k].clone());
                assert(crate::text::str_views(types@) =~= t.push(pieces@[k as int]@));
                assert(crate::text::str_views(pieces@).take(k + 1) =~= crate::text::str_views(pieces@).take(
                    k as int,
                ).push(pieces@[k as int]@));
                k = k + 1;
            }
            assert(crate::text::str_views(pieces@).take(pieces.len() as int) =~= crate::text::str_views(pieces@));
        }
        assert(crate::text::str_views(types@) =~= crate_types_upto(a, i + 1));
        i = i + 1;
    }
    if types.len() == 0 {
        return owned("unknown");
    }
    let ghost all = crate::text::str_views(types@);
    let sorted = crate::text::sort_strings(types);
    let ghost sv = crate::text::str_views(sorted@);
    let mut unique: Vec<String> = Vec::new();
    let mut k: usize = 0;
    while k < sorted.len()
        invariant
            k <= sorted.len(),
            sv == crate::text::str_views(sorted@),
            crate::text::str_views(unique@) == dedup_strs(sv.take(k as int)),
        decreases sorted.len() - k,
    {
        let ghost pre = sv.take(k as int);
        let ghost post = sv.take(k + 1);
        assert(post.drop_last() =~= pre);
        if k == 0 || !crate::text::str_eq(sorted[k - 1].as_str(), sorted[k].as_str()) {
            let ghost u = crate::text::str_views(unique@);
            unique.push(sorted[k].clone());
            proof {
                if k == 0 {
                    assert(post =~= seq![sv[0]]);
                } else {
                    assert(post[post.len() - 2] == sv[k - 1]);
                }
                assert(crate::text::str_views(unique@) =~= u.push(sv[k as int]));
            }
        } else {
            assert(post[post.len() - 2] == post.last());
        }
        k = k + 1;
    }
    assert(sv.take(sorted.len() as int) =~= sv);
    proof {
        lemma_dedup_sorted(sv);
        assert forall|x: Seq<char>| #[trigger] sv.contains(x) <==> all.contains(x) by {
            vstd::seq_lib::to_multiset_contains(sv, x);
            vstd::seq_lib::to_multiset_contains(all, x);
        }
    }
    let r = crate::text::join_strings(&unique, "+");
    assert(unique@.map_values(|x: String| x@) =~= crate::text::str_views(unique@));
    proof {
        let s = dedup_strs(sv);
        assert(all == crate_types_upto(crate::text::str_views(args@), args.len() as int));
        assert(strictly_sorted(s));
        assert forall|x: Seq<char>| #[trigger] s.contains(x) <==> all.contains(x) by {
            vstd::seq_lib::to_multiset_contains(sv, x);
            vstd::seq_lib::to_multiset_contains(all, x);
            assert(s.contains(x) <==> sv.contains(x));
        }
        assert(r@ == crate::text::joined(s, "+"@));
    }
    r
}

/// The order findings are written in: by file, line, column, then code.
pub open spec fn finding_before(a: Finding, b: Finding) -> bool {
    ||| crate::text::seq_lt(a.span.file@, b.span.file@)
    ||| (a.span.file@ == b.span.file@ && a.span.line_start < b.span.line_start)
    ||| (a.span.file@ == b.span.file@ && a.span.line_start == b.span.line_start && a.span.column_start
        < b.span.column_start)
    ||| (a.span.file@ == b.span.file@ && a.span.line_start == b.span.line_start && a.span.column_start
        == b.span.column_start && crate::text::seq_lt(a.code@, b.code@))
}

/// `x` placed after every element of `s` that does not sort after it,
/// counting from the end: one step of a stable insertion sort.
pub open spec fn stable_insert(s: Seq<Finding>, x: Finding) -> Seq<Finding>
    decreases s.len(),
{
    if s.len() == 0 {
        seq![x]
    } else if finding_before(x, s.last()) {
        stable_insert(s.drop_last(), x).push(s.last())
    } else {
        s.push(x)
    }
}

/// `s` sorted stably in the finding order: findings that compare equal
/// keep their relative order.
pub open spec fn stable_sorted(s: Seq<Finding>) -> Seq<Finding>
    decreases s.len(),
{
    if s.len() == 0 {
        s
    } else {
        stable_insert(stable_sorted(s.drop_last()), s.last())
    }
}

proof fn lemma_stable_insert_at(s: Seq<Finding>, x: Finding, p: int)
    requires
        0 <= p <= s.len(),
        forall|k: int| p <= k < s.len() ==> finding_before(x, #[trigger] s[k]),
        p > 0 ==> !finding_before(x, s[p - 1]),
    ensures
        stable_insert(s, x) == s.insert(p, x),
    decreases s.len(),
{
    if s.len() == 0 {
        assert(s.insert(p, x) =~= seq![x]);
    } else if p == s.len() {
        assert(s.insert(p, x) =~= s.push(x));
    } else {
        assert(finding_before(x, s[s.len() - 1]));
        lemma_stable_insert_at(s.drop_last(), x, p);
        assert(s.drop_last().insert(p, x).push(s.last()) =~= s.insert(p, x));
    }
}

proof fn lemma_before_asymmetric(a: Finding, b: Finding)
    requires
        finding_before(a, b),
    ensures
        !finding_before(b, a),
{
    if crate::text::seq_lt(a.span.file@, b.span.file@) {
        crate::text::lemma_seq_lt_asymmetric(a.span.file@, b.span.file@);
    }
    if crate::text::seq_lt(b.span.file@, a.span.file@) {
        crate::text::lemma_seq_lt_asymmetric(b.span.file@, a.span.file@);
    }
    if crate::text::seq_lt(a.code@, b.code@) {
        crate::text::lemma_seq_lt_asymmetric(a.code@, b.code@);
    }
    crate::text::lemma_seq_lt_irreflexive(a.span.file@);
}

proof fn lemma_seq_not_lt_chain(x: Seq<char>, b: Seq<char>, a: Seq<char>)
    requires
        !crate::text::seq_lt(x, b),
        !crate::text::seq_lt(b, a),
    ensures
        !crate::text::seq_lt(x, a),
        x == a ==> x == b,
{
    crate::text::lemma_seq_lt_total(x, b);
    crate::text::lemma_seq_lt_total(b, a);
    if crate::text::seq_lt(b, x) && crate::text::seq_lt(a, b) {
        crate::text::lemma_seq_lt_transitive(a, b, x);
        crate::text::lemma_seq_lt_asymmetric(a, x);
    } else if crate::text::seq_lt(b, x) {
        crate::text::lemma_seq_lt_asymmetric(b, x);
    } else if crate::text::seq_lt(a, b) {
        crate::text::lemma_seq_lt_asymmetric(a, b);
    } else {
        crate::text::lemma_seq_lt_irreflexive(x);
    }
}

proof fn lemma_before_negative_transitive(x: Finding, b: Finding, a: Finding)
    requires
        !finding_before(x, b),
        !finding_before(b, a),
    ensures
        !finding_before(x, a),
{
    lemma_seq_not_lt_chain(x.span.file@, b.span.file@, a.span.file@);
    if x.span.file@ == b.span.file@ && b.span.file@ == a.span.file@ {
        if x.span.line_start == b.span.line_start && b.span.line_start == a.span.line_start
            && x.span.column_start == b.span.column_start && b.span.column_start == a.span.column_start {
            lemma_seq_not_lt_chain(x.code@, b.code@, a.code@);
        }
    }
}

/// No finding sorts before one ahead of it.
pub open spec fn findings_sorted(s: Seq<Finding>) -> bool {
    forall|i: int, j: int| 0 <= i < j < s.len() ==> !finding_before(#[trigger] s[j], #[trigger] s[i])
}

proof fn lemma_stable_insert_sorted(s: Seq<Finding>, x: Finding)
    requires
        findings_sorted(s),
    ensures
        findings_sorted(stable_insert(s, x)),
        stable_insert(s, x).len() == s.len() + 1,
        forall|i: int|
            0 <= i < s.len() + 1 ==> stable_insert(s, x)[i] == x || s.contains(#[trigger] stable_insert(s, x)[i]),
    decreases s.len(),
{
    if s.len() > 0 {
        let p = s.drop_last();
        let l = s.last();
        if finding_before(x, l) {
            lemma_stable_insert_sorted(p, x);
            let q = stable_insert(p, x);
            let r = q.push(l);
            assert forall|i: int| 0 <= i < q.len() implies !finding_before(l, #[trigger] q[i]) by {
                if q[i] == x {
                    lemma_before_asymmetric(x, l);
                } else {
                    let k = choose|k: int| 0 <= k < p.len() && p[k] == q[i];
                    assert(s[k] == p[k]);
                    assert(s[s.len() - 1] == l);
                }
            }
            assert forall|i: int, j: int| 0 <= i < j < r.len() implies !finding_before(#[trigger] r[j], #[trigger] r[i]) by {
                if j < q.len() {
                    assert(r[i] == q[i] && r[j] == q[j]);
                } else {
                    assert(r[i] == q[i]);
                }
            }
            assert forall|i: int| 0 <= i < s.len() + 1 implies r[i] == x || s.contains(#[trigger] r[i]) by {
                if i < q.len() {
                    if q[i] != x {
                        let k = choose|k: int| 0 <= k < p.len() && p[k] == q[i];
                        assert(s[k] == p[k]);
                    }
                } else {
                    assert(s[s.len() - 1] == r[i]);
                }
            }
        } else {
            let r = s.push(x);
            assert forall|i: int, j: int| 0 <= i < j < r.len() implies !finding_before(#[trigger] r[j], #[trigger] r[i]) by {
                if j < s.len() {
                    assert(r[i] == s[i] && r[j] == s[j]);
                } else if i < s.len() - 1 {
                    assert(r[i] == s[i]);
                    assert(!finding_before(s[s.len() - 1], s[i]));
                    lemma_before_negative_transitive(x, l, s[i]);
                }
            }
            assert forall|i: int| 0 <= i < s.len() + 1 implies r[i] == x || s.contains(#[trigger] r[i]) by {
                if i < s.len() {
                    assert(s[i] == r[i]);
                }
            }
        }
    }
}

/// The finding order sorts: in what `sort_findings` gives back no finding
/// sorts before one ahead of it.
pub proof fn stable_sorted_is_sorted(s: Seq<Finding>)
    ensures
        findings_sorted(stable_sorted(s)),
        stable_sorted(s).len() == s.len(),
    decreases s.len(),
{
    if s.len() > 0 {
        stable_sorted_is_sorted(s.drop_last());
        lemma_stable_insert_sorted(stable_sorted(s.drop_last()), s.last());
    }
}

/// Two findings the order cannot tell apart: the same file, line, column
/// and code.
pub open spec fn same_place(a: Finding, b: Finding) -> bool {
    &&& a.span.file@ == b.span.file@
    &&& a.span.line_start == b.span.line_start
    &&& a.span.column_start == b.span.column_start
    &&& a.code@ == b.code@
}

/// The findings at the place of `k`.
pub open spec fn at_place(k: Finding) -> spec_fn(Finding) -> bool {
    |f: Finding| same_place(f, k)
}

proof fn lemma_insert_keeps_place(t: Seq<Finding>, x: Finding, k: Finding)
    ensures
        stable_insert(t, x).filter(at_place(k)) == (if same_place(x, k) {
            t.filter(at_place(k)).push(x)
        } else {
            t.filter(at_place(k))
        }),
    decreases t.len(),
{
    reveal(Seq::filter);
    let p = at_place(k);
    if t.len() == 0 {
        assert(seq![x].drop_last() =~= t);
        assert(t.filter(p) =~= Seq::<Finding>::empty());
    } else if finding_before(x, t.last()) {
        let t0 = t.drop_last();
        lemma_insert_keeps_place(t0, x, k);
        let r = stable_insert(t0, x).push(t.last());
        assert(r.drop_last() =~= stable_insert(t0, x));
        if same_place(x, k) && same_place(t.last(), k) {
            crate::text::lemma_seq_lt_irreflexive(x.span.file@);
            crate::text::lemma_seq_lt_irreflexive(x.code@);
            assert(!finding_before(x, t.last()));
        }
        if same_place(x, k) {
            assert(t.filter(p) == t0.filter(p));
            assert(r.filter(p) =~= t0.filter(p).push(x));
        } else if same_place(t.last(), k) {
            assert(r.filter(p) =~= t0.filter(p).push(t.last()));
        } else {
            assert(r.filter(p) =~= t0.filter(p));
        }
    } else {
        assert(t.push(x).drop_last() =~= t);
    }
}

/// The sort is stable: the findings at any one place (file, line, column
/// and code) come out in the order they went in.
pub proof fn sort_keeps_order_within_a_place(s: Seq<Finding>, k: Finding)
    ensures
        stable_sorted(s).filter(at_place(k)) == s.filter(at_place(k)),
    decreases s.len(),
{
    reveal(Seq::filter);
    if s.len() > 0 {
        sort_keeps_order_within_a_place(s.drop_last(), k);
        lemma_insert_keeps_place(stable_sorted(s.drop_last()), s.last(), k);
    }
}

fn before(a: &Finding, b: &Finding) -> (r: bool)
    ensures
        r == finding_before(*a, *b),
{
    if crate::text::str_lt(a.span.file.as_str(), b.span.file.as_str()) {
        return true;
    }
    if !crate::text::str_eq(a.span.file.as_str(), b.span.file.as_str()) {
        return false;
    }
    if a.span.line_start != b.span.line_start {
        return a.span.line_start < b.span.line_start;
    }
    if a.span.column_start != b.span.column_start {
        return a.span.column_start < b.span.column_start;
    }
    crate::text::str_lt(a.code.as_str(), b.code.as_str())
}

/// Deterministic finding order: file, line, column, code; findings that
/// agree on all four keep the order they were found in.
pub fn sort_findings(findings: &mut Vec<Finding>)
    ensures
        final(findings)@ == stable_sorted(old(findings)@),
        final(findings)@.to_multiset() == old(findings)@.to_multiset(),
{
    let ghost input = findings@;
    let mut rest: Vec<Finding> = Vec::new();
    std::mem::swap(&mut rest, findings);
    let mut out: Vec<Finding> = Vec::new();
    let ghost mut taken: int = 0;
    proof {
        vstd::seq_lib::to_multiset_len(out@);
        vstd::multiset::lemma_multiset_empty_len(out@.to_multiset());
        assert(input.take(0) =~= Seq::<Finding>::empty());
    }
    while rest.len() > 0
        invariant
            0 <= taken <= input.len(),
            rest@ == input.skip(taken),
            out@ == stable_sorted(input.take(taken)),
            out@.to_multiset() == input.take(taken).to_multiset(),
        decreases rest.len(),
    {
        let x = rest.remove(0);
        let ghost pre = input.take(taken);
        proof {
            assert(x == input[taken]);
            assert(input.take(taken + 1).drop_last() =~= pre);
            assert(input.take(taken + 1).last() == x);
            assert(rest@ =~= input.skip(taken + 1));
        }
        let mut p: usize = out.len();
        while p > 0 && before(&x, &out[p - 1])
            invariant
                p <= out.len(),
                forall|k: int| p <= k < out.len() ==> finding_before(x, #[trigger] out@[k]),
            decreases p,
        {
            p = p - 1;
        }
        let ghost old_out = out@;
        proof {
            lemma_stable_insert_at(old_out, x, p as int);
        }
        out.insert(p, x);
        proof {
            vstd::seq_lib::to_multiset_insert(old_out, p as int, x);
            vstd::seq_lib::to_multiset_build(pre, x);
            assert(input.take(taken + 1) =~= pre.push(x));
            taken = taken + 1;
        }
    }
    proof {
        assert(input.take(taken) =~= input);
    }
    *findings = out;
}

} // verus!
