//! The uniformity dataflow.
//!
//! Per-local lattice `Uniform ⊑ Divergent`, optimistic initialization,
//! iterate to fixpoint. Divergent branch conditions mark their control
//! region — every block reachable from a successor short of the branch's
//! immediate post-dominator — as divergent-control; any definition inside
//! such a region is divergent. Reconvergence is the post-dominator, so a
//! barrier *after* the join point is clean.
//!
//! Provenance is recorded during the dataflow, not reconstructed after:
//! the first reason each local turned divergent survives, and
//! [`provenance_chain`] walks reasons back to a source.
//!
//! Irreducible CFGs degrade to all-divergent for the whole function, and
//! the result says so (`Analysis::irreducible`).
use vstd::prelude::*;

use crate::dialect::{spec_implicit_mask, spec_mask_is_unknown, spec_result_base, CallKind};
use crate::graph::{
    count_true, divergence_region, dominators, forward_edges_acyclic, lemma_idom_table_unique, has_bad_back_edge, in_region, ipdom_slot, is_idom,
    is_idom_table, is_reducible, lemma_count_le, lemma_count_set, lemma_dom_antisymmetric,
    lemma_idom_table_is_forest, post_dominators, reachable, reaches, Cfg, Graph,
};
use crate::model::{
    block_wf, spans_below, stmt_below, Block, BlockId, FnId, FnModel, Local, SpanRef, Stmt, TermKind,
};
use crate::text::{owned, push_str};
use crate::Uniformity;

verus! {

/// Interprocedural summary bits: whether each function may execute a
/// barrier / warp collective, directly or transitively.
#[derive(Debug, Clone)]
pub struct Summaries {
    pub may_contain_barrier: Vec<bool>,
    pub may_contain_warp_op: Vec<bool>,
}

/// The terminator is a direct barrier call.
pub open spec fn barrier_call_at(t: TermKind) -> bool {
    t matches TermKind::Call { callee, .. } && callee.kind == CallKind::Barrier
}

/// The terminator is a direct warp-collective call.
pub open spec fn warp_call_at(t: TermKind) -> bool {
    t matches TermKind::Call { callee, .. } && callee.kind is WarpCollective
}

/// The terminator calls local function `c`, and is neither a barrier nor a
/// warp collective itself.
pub open spec fn local_call_at(t: TermKind, c: FnId) -> bool {
    t matches TermKind::Call { callee, .. } && callee.kind != CallKind::Barrier && !(
    callee.kind is WarpCollective) && callee.local_fn == Some(c)
}

/// Some block of `f` ends in a direct barrier call.
pub open spec fn calls_barrier(f: FnModel) -> bool {
    exists|k: int| 0 <= k < f.blocks.len() && #[trigger] barrier_call_at(f.blocks@[k].term.kind)
}

/// Some block of `f` ends in a direct warp-collective call.
pub open spec fn calls_warp_op(f: FnModel) -> bool {
    exists|k: int| 0 <= k < f.blocks.len() && #[trigger] warp_call_at(f.blocks@[k].term.kind)
}

/// Some block of `f` calls local function `c`.
pub open spec fn calls_local(f: FnModel, c: FnId) -> bool {
    exists|k: int| 0 <= k < f.blocks.len() && #[trigger] local_call_at(f.blocks@[k].term.kind, c)
}

/// A walk through the local call graph.
pub open spec fn call_chain(fns: Seq<FnModel>, p: Seq<FnId>) -> bool {
    &&& p.len() >= 1
    &&& forall|i: int| 0 <= i < p.len() ==> #[trigger] p[i] < fns.len()
    &&& forall|i: int| 0 <= i < p.len() - 1 ==> calls_local(fns[#[trigger] p[i] as int], p[i + 1])
}

/// Function `i` reaches a direct barrier through zero or more local calls.
pub open spec fn may_reach_barrier(fns: Seq<FnModel>, i: int) -> bool {
    exists|p: Seq<FnId>|
        #[trigger] call_chain(fns, p) && p[0] == i && calls_barrier(fns[p.last() as int])
}

/// Function `i` reaches a direct warp collective through zero or more
/// local calls.
pub open spec fn may_reach_warp_op(fns: Seq<FnModel>, i: int) -> bool {
    exists|p: Seq<FnId>|
        #[trigger] call_chain(fns, p) && p[0] == i && calls_warp_op(fns[p.last() as int])
}

/// Every local call the summaries follow names a function of the set.
pub open spec fn summary_callees_in_range(fns: Seq<FnModel>) -> bool {
    forall|i: int, k: int, c: FnId|
        0 <= i < fns.len() && 0 <= k < fns[i].blocks.len() && #[trigger] local_call_at(
            fns[i].blocks@[k].term.kind,
            c,
        ) ==> c < fns.len()
}

/// What one call site asks of the summary bits of its function.
pub open spec fn site_closed(fns: Seq<FnModel>, b: Seq<bool>, w: Seq<bool>, i: int, k: int) -> bool {
    match fns[i].blocks@[k].term.kind {
        TermKind::Call { callee, .. } => match callee.kind {
            CallKind::Barrier => b[i],
            CallKind::WarpCollective { .. } => w[i],
            _ => match callee.local_fn {
                Some(c) => (b[c as int] ==> b[i]) && (w[c as int] ==> w[i]),
                None => true,
            },
        },
        _ => true,
    }
}

/// Every call site of every function is satisfied by the bits.
pub open spec fn summaries_closed(fns: Seq<FnModel>, b: Seq<bool>, w: Seq<bool>) -> bool {
    forall|i: int, k: int|
        0 <= i < fns.len() && 0 <= k < fns[i].blocks.len() ==> #[trigger] site_closed(fns, b, w, i, k)
}

proof fn lemma_chain_prepend(fns: Seq<FnModel>, i: FnId, p: Seq<FnId>)
    requires
        call_chain(fns, p),
        i < fns.len(),
        calls_local(fns[i as int], p[0]),
    ensures
        call_chain(fns, seq![i] + p),
        (seq![i] + p)[0] == i,
        (seq![i] + p).last() == p.last(),
{
    let q = seq![i] + p;
    assert forall|j: int| 0 <= j < q.len() implies #[trigger] q[j] < fns.len() by {
        if j > 0 {
            assert(q[j] == p[j - 1]);
        }
    }
    assert forall|j: int| 0 <= j < q.len() - 1 implies calls_local(fns[#[trigger] q[j] as int], q[j + 1]) by {
        if j > 0 {
            assert(q[j] == p[j - 1] && q[j + 1] == p[j]);
        }
    }
}

proof fn lemma_single_chain(fns: Seq<FnModel>, i: FnId)
    requires
        i < fns.len(),
    ensures
        call_chain(fns, seq![i]),
        seq![i][0] == i,
        seq![i].last() == i,
{
}

/// Closed bits hold along every call chain that ends at a direct call.
proof fn lemma_closed_chain(fns: Seq<FnModel>, b: Seq<bool>, w: Seq<bool>, p: Seq<FnId>)
    requires
        summaries_closed(fns, b, w),
        summary_callees_in_range(fns),
        call_chain(fns, p),
    ensures
        calls_barrier(fns[p.last() as int]) ==> b[p[0] as int],
        calls_warp_op(fns[p.last() as int]) ==> w[p[0] as int],
    decreases p.len(),
{
    if p.len() == 1 {
        let i = p[0] as int;
        if calls_barrier(fns[i]) {
            let k = choose|k: int| 0 <= k < fns[i].blocks.len() && #[trigger] barrier_call_at(fns[i].blocks@[k].term.kind);
            assert(site_closed(fns, b, w, i, k));
        }
        if calls_warp_op(fns[i]) {
            let k = choose|k: int| 0 <= k < fns[i].blocks.len() && #[trigger] warp_call_at(fns[i].blocks@[k].term.kind);
            assert(site_closed(fns, b, w, i, k));
        }
    } else {
        let q = p.drop_first();
        assert forall|j: int| 0 <= j < q.len() implies #[trigger] q[j] < fns.len() by {
            assert(q[j] == p[j + 1]);
        }
        assert forall|j: int| 0 <= j < q.len() - 1 implies calls_local(fns[#[trigger] q[j] as int], q[j + 1]) by {
            assert(q[j] == p[j + 1] && q[j + 1] == p[j + 2]);
        }
        lemma_closed_chain(fns, b, w, q);
        assert(q.last() == p.last());
        let i = p[0] as int;
        assert(calls_local(fns[p[0] as int], p[1]));
        let k = choose|k: int| 0 <= k < fns[i].blocks.len() && #[trigger] local_call_at(fns[i].blocks@[k].term.kind, p[1]);
        assert(site_closed(fns, b, w, i, k));
    }
}


/// Why a local is divergent — the first cause wins and is stable.
#[derive(Debug, Clone)]
pub struct Reason {
    pub kind: ReasonKind,
    pub span: SpanRef,
    /// Human-readable one-liner, e.g. "thread-index witness `index_1d()`".
    pub detail: String,
    /// For `Source` reasons rooted in a call: what kind of call it was.
    pub source_call: Option<CallKind>,
}

/// The shape of a reason.
#[derive(Debug, Clone)]
pub enum ReasonKind {
    /// A divergence source in its own right (index witness, atomic, …).
    Source,
    /// Derived from already-divergent inputs.
    DerivedFrom(Vec<Local>),
    /// Written under thread-divergent control.
    ControlDependent { branch: BlockId },
}

/// The branch that made a block divergent-control.
#[derive(Debug, Clone, Copy, PartialEq, Eq, Structural)]
pub struct BranchCause {
    pub block: BlockId,
    pub cond: Local,
    pub span: SpanRef,
}

/// A barrier-relevant call site.
#[derive(Debug, Clone)]
pub struct BarrierSite {
    pub block: BlockId,
    pub span: SpanRef,
    /// What was called (`sync_threads`, or a local function for the
    /// interprocedural case).
    pub callee_display: String,
    /// True when this is a call to a local function that *may* execute a
    /// barrier, rather than a direct barrier.
    pub interprocedural: bool,
    /// Set when the site executes under thread-divergent control.
    pub divergent_cause: Option<BranchCause>,
}

/// A warp-collective call site.
#[derive(Debug, Clone)]
pub struct WarpOpSite {
    pub block: BlockId,
    pub span: SpanRef,
    pub callee_display: String,
    /// True for a call into a local function that may execute a warp
    /// collective, rather than a direct collective.
    pub interprocedural: bool,
    /// Set when the site executes under thread-divergent control.
    pub divergent_cause: Option<BranchCause>,
    /// The participation mask, when it is a literal constant at the call
    /// (direct calls only; the mask is the collective's first argument).
    pub mask: Option<u64>,
}

/// Analysis result for one function.
#[derive(Debug, Clone)]
pub struct Analysis {
    pub locals: Vec<Uniformity>,
    pub reasons: Vec<Option<Reason>>,
    pub block_divergent: Vec<bool>,
    pub block_cause: Vec<Option<BranchCause>>,
    /// The CFG was irreducible; everything was degraded to divergent.
    pub irreducible: bool,
    pub analyzed_statements: usize,
    pub opaque_statements: usize,
    pub barriers: Vec<BarrierSite>,
    pub warp_ops: Vec<WarpOpSite>,
}

/// The detail of a local written by an opaque statement.
pub open spec fn opaque_write_detail() -> Seq<char> {
    "written by opaque code (inline asm)"@
}

/// The detail of a local written by an opaque terminator.
pub open spec fn opaque_result_detail() -> Seq<char> {
    "result of opaque code (inline asm)"@
}

/// The detail of a local written under divergent control.
pub open spec fn control_detail() -> Seq<char> {
    "written under thread-divergent control"@
}

/// The detail every local gets when the CFG is irreducible.
pub open spec fn irreducible_detail() -> Seq<char> {
    "irreducible control flow: analysis degraded to all-divergent"@
}

/// The reason every local gets when the CFG is irreducible.
pub open spec fn irreducible_reason(o: Option<Reason>, span: SpanRef) -> bool {
    o matches Some(rs) && source_reason(rs, span, irreducible_detail(), None)
}

/// The detail of a statement result derived from divergent `u`.
pub open spec fn derived_detail(f: FnModel, u: Local) -> Seq<char> {
    "derived from divergent "@ + f.spec_local_display(u as int)
}

/// The detail of a call result derived from divergent argument `a`.
pub open spec fn call_derived_detail(f: FnModel, display: Seq<char>, a: Local) -> Seq<char> {
    "result of `"@ + display + "` on divergent "@ + f.spec_local_display(a as int)
}

/// The detail of a call whose result is divergent by classification.
pub open spec fn source_detail_of(kind: CallKind, display: Seq<char>) -> Seq<char> {
    match kind {
        CallKind::ThreadIndexWitness => "thread-index witness `"@ + display + "()`"@,
        CallKind::AtomicRmw => "atomic return value of `"@ + display + "()`"@,
        CallKind::WarpCollective { .. } => "warp-collective result of `"@ + display + "()`"@,
        CallKind::DivergentEnvRead => "per-lane environment read `"@ + display + "()`"@,
        _ => "result of `"@ + display + "()`"@,
    }
}

fn source_detail(kind: CallKind, display: &str) -> (r: String)
    ensures
        r@ == source_detail_of(kind, display@),
{
    let mut s = match kind {
        CallKind::ThreadIndexWitness => owned("thread-index witness `"),
        CallKind::AtomicRmw => owned("atomic return value of `"),
        CallKind::WarpCollective { .. } => owned("warp-collective result of `"),
        CallKind::DivergentEnvRead => owned("per-lane environment read `"),
        _ => owned("result of `"),
    };
    push_str(&mut s, display);
    push_str(&mut s, "()`");
    s
}

fn derived_detail_string(f: &FnModel, u: Local) -> (r: String)
    ensures
        r@ == derived_detail(*f, u),
{
    let mut s = owned("derived from divergent ");
    let d = f.local_display(u);
    push_str(&mut s, d.as_str());
    s
}

fn call_derived_detail_string(f: &FnModel, display: &str, a: Local) -> (r: String)
    ensures
        r@ == call_derived_detail(*f, display@, a),
{
    let mut s = owned("result of `");
    push_str(&mut s, display);
    push_str(&mut s, "` on divergent ");
    let d = f.local_display(a);
    push_str(&mut s, d.as_str());
    s
}

/// The function's CFG along normal edges.
pub open spec fn fn_graph(f: FnModel) -> Graph {
    Seq::new(f.blocks.len() as nat, |b: int| f.succs_of(b))
}

/// The blocks that end in a normal return.
pub open spec fn fn_exits(f: FnModel) -> Seq<bool> {
    Seq::new(f.blocks.len() as nat, |b: int| f.blocks@[b].term.kind is Return)
}

/// Block `b` is reachable from the entry.
pub open spec fn live(f: FnModel, b: int) -> bool {
    0 <= b < f.blocks.len() && reaches(fn_graph(f), 0, b)
}

/// Block `x` executes under the control of the branch ending block
/// `branch`: it is in the branch's divergence region, bounded by the
/// branch's immediate post-dominator.
pub open spec fn controls(f: FnModel, branch: int, x: int) -> bool {
    exists|p: Option<BlockId>|
        #[trigger] ipdom_slot(fn_graph(f), fn_exits(f), branch, p) && in_region(fn_graph(f), branch, p, x)
}

/// Local `l` turned divergent before time `t`.
pub open spec fn div_before(locals: Seq<Uniformity>, lt: Seq<int>, l: int, t: int) -> bool {
    0 <= l < locals.len() && locals[l] == Uniformity::Divergent && lt[l] < t
}

/// Block `x` turned divergent-control before time `t`.
pub open spec fn block_div_before(bdiv: Seq<bool>, bt: Seq<int>, x: int, t: int) -> bool {
    0 <= x < bdiv.len() && bdiv[x] && bt[x] < t
}

/// Some of `uses` was divergent before time `t`.
pub open spec fn any_div_at(uses: Seq<Local>, locals: Seq<Uniformity>, lt: Seq<int>, t: int) -> bool {
    exists|i: int| 0 <= i < uses.len() && div_before(locals, lt, #[trigger] uses[i] as int, t)
}

/// `uses[i]` is the first of `uses` that was divergent before time `t`.
pub open spec fn first_div_at(uses: Seq<Local>, locals: Seq<Uniformity>, lt: Seq<int>, t: int, i: int) -> bool {
    &&& 0 <= i < uses.len()
    &&& div_before(locals, lt, uses[i] as int, t)
    &&& forall|k: int| 0 <= k < i ==> !div_before(locals, lt, #[trigger] uses[k] as int, t)
}

/// A `Source` reason.
pub open spec fn source_reason(r: Reason, span: SpanRef, detail: Seq<char>, call: Option<CallKind>) -> bool {
    r.kind is Source && r.span == span && r.detail@ == detail && r.source_call == call
}

/// A reason derived from local `u`.
pub open spec fn derived_reason(r: Reason, u: Local, span: SpanRef, detail: Seq<char>) -> bool {
    &&& r.kind matches ReasonKind::DerivedFrom(v) && v@ == seq![u]
    &&& r.span == span
    &&& r.detail@ == detail
    &&& r.source_call is None
}

/// A reason recording divergent control in block `b`.
pub open spec fn control_reason(r: Reason, b: int, span: SpanRef) -> bool {
    &&& r.kind matches ReasonKind::ControlDependent { branch } && branch == b
    &&& r.span == span
    &&& r.detail@ == control_detail()
    &&& r.source_call is None
}

/// Statement `s` of block `b`, run at time `t`, makes its destination
/// divergent for reason `r`.
pub open spec fn stmt_justifies(
    f: FnModel,
    locals: Seq<Uniformity>,
    lt: Seq<int>,
    bdiv: Seq<bool>,
    bt: Seq<int>,
    b: int,
    s: Stmt,
    t: int,
    r: Reason,
) -> bool {
    if s.opaque {
        source_reason(r, s.span, opaque_write_detail(), None)
    } else if any_div_at(s.uses@, locals, lt, t) {
        exists|i: int|
            #[trigger] first_div_at(s.uses@, locals, lt, t, i) && derived_reason(
                r,
                s.uses@[i],
                s.span,
                derived_detail(f, s.uses@[i]),
            )
    } else {
        block_div_before(bdiv, bt, b, t) && control_reason(r, b, s.span)
    }
}

/// The terminator of block `b`, run at time `t`, makes its destination
/// divergent for reason `r`.
pub open spec fn term_justifies(
    f: FnModel,
    locals: Seq<Uniformity>,
    lt: Seq<int>,
    bdiv: Seq<bool>,
    bt: Seq<int>,
    b: int,
    t: int,
    r: Reason,
) -> bool {
    let term = f.blocks@[b].term;
    match term.kind {
        TermKind::Call { callee, args, .. } => {
            if spec_result_base(callee.kind) == Some(Uniformity::Divergent) {
                source_reason(r, term.span, source_detail_of(callee.kind, callee.display@), Some(callee.kind))
            } else if any_div_at(args@, locals, lt, t) {
                exists|i: int|
                    #[trigger] first_div_at(args@, locals, lt, t, i) && derived_reason(
                        r,
                        args@[i],
                        term.span,
                        call_derived_detail(f, callee.display@, args@[i]),
                    )
            } else {
                block_div_before(bdiv, bt, b, t) && control_reason(r, b, term.span)
            }
        },
        TermKind::Opaque { .. } => source_reason(r, term.span, opaque_result_detail(), None),
        _ => false,
    }
}

/// Position `j` of block `b` (a statement, or the terminator at
/// `j == stmts.len()`) writes local `d`.
pub open spec fn writes(f: FnModel, b: int, j: int, d: Local) -> bool {
    let blk = f.blocks@[b];
    if 0 <= j < blk.stmts.len() {
        blk.stmts@[j].dest == Some(d)
    } else if j == blk.stmts.len() {
        match blk.term.kind {
            TermKind::Call { dest, .. } => dest == Some(d),
            TermKind::Opaque { dest, .. } => dest == Some(d),
            _ => false,
        }
    } else {
        false
    }
}

/// Position `j` of block `b`, run at time `t`, justifies reason `r`.
pub open spec fn site_justifies(
    f: FnModel,
    locals: Seq<Uniformity>,
    lt: Seq<int>,
    bdiv: Seq<bool>,
    bt: Seq<int>,
    b: int,
    j: int,
    t: int,
    r: Reason,
) -> bool {
    if j < f.blocks@[b].stmts.len() {
        stmt_justifies(f, locals, lt, bdiv, bt, b, f.blocks@[b].stmts@[j], t, r)
    } else {
        term_justifies(f, locals, lt, bdiv, bt, b, t, r)
    }
}

/// A divergent local was made divergent, at its time, by a reachable
/// position that writes it, for the reason recorded; a uniform one has no
/// reason.
pub open spec fn local_justified(
    f: FnModel,
    locals: Seq<Uniformity>,
    reasons: Seq<Option<Reason>>,
    lt: Seq<int>,
    bdiv: Seq<bool>,
    bt: Seq<int>,
    d: int,
) -> bool {
    if locals[d] == Uniformity::Divergent {
        &&& reasons[d] is Some
        &&& exists|b: int, j: int|
            #![trigger writes(f, b, j, d as Local)]
            live(f, b) && 0 <= j <= f.blocks@[b].stmts.len() && writes(f, b, j, d as Local)
                && site_justifies(f, locals, lt, bdiv, bt, b, j, lt[d], reasons[d]->Some_0)
    } else {
        reasons[d] is None
    }
}

/// A divergent-control block lies in the region of a reachable branch on a
/// condition that was divergent before the block was marked, and records
/// it; any other block has no cause.
pub open spec fn block_justified(
    f: FnModel,
    locals: Seq<Uniformity>,
    lt: Seq<int>,
    bdiv: Seq<bool>,
    bcause: Seq<Option<BranchCause>>,
    bt: Seq<int>,
    x: int,
) -> bool {
    if bdiv[x] {
        &&& bcause[x] matches Some(c)
        &&& live(f, c.block as int)
        &&& f.blocks@[c.block as int].term.kind matches TermKind::Branch { cond, .. } && c.cond == cond
        &&& c.span == f.blocks@[c.block as int].term.span
        &&& div_before(locals, lt, c.cond as int, bt[x])
        &&& controls(f, c.block as int, x)
    } else {
        bcause[x] is None
    }
}

/// The result is justified by a derivation: times at which each local and
/// block turned divergent, every one for a recorded reason whose premises
/// held strictly earlier.
pub open spec fn derivation(
    f: FnModel,
    locals: Seq<Uniformity>,
    reasons: Seq<Option<Reason>>,
    bdiv: Seq<bool>,
    bcause: Seq<Option<BranchCause>>,
    lt: Seq<int>,
    bt: Seq<int>,
) -> bool {
    &&& locals.len() == f.local_count
    &&& reasons.len() == f.local_count
    &&& lt.len() == f.local_count
    &&& bdiv.len() == f.blocks.len()
    &&& bcause.len() == f.blocks.len()
    &&& bt.len() == f.blocks.len()
    &&& forall|d: int| 0 <= d < f.local_count ==> #[trigger] local_justified(f, locals, reasons, lt, bdiv, bt, d)
    &&& forall|x: int| 0 <= x < f.blocks.len() ==> #[trigger] block_justified(f, locals, lt, bdiv, bcause, bt, x)
}

/// Some of `uses` is divergent.
pub open spec fn any_div(uses: Seq<Local>, locals: Seq<Uniformity>) -> bool {
    exists|i: int| 0 <= i < uses.len() && locals[#[trigger] uses[i] as int] == Uniformity::Divergent
}

/// Position `j` of block `b` asks nothing more of the result.
pub open spec fn site_closed_at(f: FnModel, locals: Seq<Uniformity>, bdiv: Seq<bool>, b: int, j: int) -> bool {
    let blk = f.blocks@[b];
    if j < blk.stmts.len() {
        let s = blk.stmts@[j];
        s.dest matches Some(d) ==> ((s.opaque || any_div(s.uses@, locals) || bdiv[b]) ==> locals[d as int]
            == Uniformity::Divergent)
    } else {
        match blk.term.kind {
            TermKind::Call { callee, args, dest, .. } => dest matches Some(d) ==> ((spec_result_base(
                callee.kind,
            ) == Some(Uniformity::Divergent) || any_div(args@, locals) || bdiv[b]) ==> locals[d as int]
                == Uniformity::Divergent),
            TermKind::Opaque { dest, .. } => dest matches Some(d) ==> locals[d as int] == Uniformity::Divergent,
            TermKind::Branch { cond, .. } => locals[cond as int] == Uniformity::Divergent ==> forall|x: int|
                0 <= x < f.blocks.len() && #[trigger] controls(f, b, x) ==> bdiv[x],
            _ => true,
        }
    }
}

/// The result is closed under every rule of the dataflow at every
/// reachable position: it is a fixpoint.
pub open spec fn flow_closed(f: FnModel, locals: Seq<Uniformity>, bdiv: Seq<bool>) -> bool {
    forall|b: int, j: int|
        live(f, b) && 0 <= j <= f.blocks@[b].stmts.len() ==> #[trigger] site_closed_at(f, locals, bdiv, b, j)
}


/// Which locals are divergent.
pub open spec fn div_flags(locals: Seq<Uniformity>) -> Seq<bool> {
    Seq::new(locals.len(), |l: int| locals[l] == Uniformity::Divergent)
}

/// Two states agree on everything that had happened before time `t`.
spec fn agree_before(
    l1: Seq<Uniformity>,
    lt1: Seq<int>,
    bd1: Seq<bool>,
    bt1: Seq<int>,
    l2: Seq<Uniformity>,
    lt2: Seq<int>,
    bd2: Seq<bool>,
    bt2: Seq<int>,
    t: int,
) -> bool {
    &&& forall|l: int|
        #![trigger div_before(l1, lt1, l, t)]
        #![trigger div_before(l2, lt2, l, t)]
        div_before(l1, lt1, l, t) == div_before(l2, lt2, l, t)
    &&& forall|x: int|
        #![trigger block_div_before(bd1, bt1, x, t)]
        #![trigger block_div_before(bd2, bt2, x, t)]
        block_div_before(bd1, bt1, x, t) == block_div_before(bd2, bt2, x, t)
}

proof fn lemma_uses_stable(
    uses: Seq<Local>,
    l1: Seq<Uniformity>,
    lt1: Seq<int>,
    bd1: Seq<bool>,
    bt1: Seq<int>,
    l2: Seq<Uniformity>,
    lt2: Seq<int>,
    bd2: Seq<bool>,
    bt2: Seq<int>,
    t: int,
)
    requires
        agree_before(l1, lt1, bd1, bt1, l2, lt2, bd2, bt2, t),
    ensures
        any_div_at(uses, l1, lt1, t) == any_div_at(uses, l2, lt2, t),
        forall|i: int| #[trigger] first_div_at(uses, l1, lt1, t, i) == first_div_at(uses, l2, lt2, t, i),
{
    if any_div_at(uses, l1, lt1, t) {
        let i = choose|i: int| 0 <= i < uses.len() && div_before(l1, lt1, #[trigger] uses[i] as int, t);
        assert(div_before(l2, lt2, uses[i] as int, t));
    }
    if any_div_at(uses, l2, lt2, t) {
        let i = choose|i: int| 0 <= i < uses.len() && div_before(l2, lt2, #[trigger] uses[i] as int, t);
        assert(div_before(l1, lt1, uses[i] as int, t));
    }
    assert forall|i: int| #[trigger] first_div_at(uses, l1, lt1, t, i) == first_div_at(uses, l2, lt2, t, i) by {
        if 0 <= i < uses.len() {
            assert(div_before(l1, lt1, uses[i] as int, t) == div_before(l2, lt2, uses[i] as int, t));
            assert forall|k: int| 0 <= k < i implies !div_before(l1, lt1, #[trigger] uses[k] as int, t)
                == !div_before(l2, lt2, uses[k] as int, t) by {}
        }
    }
}

proof fn lemma_site_stable(
    f: FnModel,
    l1: Seq<Uniformity>,
    lt1: Seq<int>,
    bd1: Seq<bool>,
    bt1: Seq<int>,
    l2: Seq<Uniformity>,
    lt2: Seq<int>,
    bd2: Seq<bool>,
    bt2: Seq<int>,
    b: int,
    j: int,
    t: int,
    r: Reason,
)
    requires
        agree_before(l1, lt1, bd1, bt1, l2, lt2, bd2, bt2, t),
    ensures
        site_justifies(f, l1, lt1, bd1, bt1, b, j, t, r) == site_justifies(f, l2, lt2, bd2, bt2, b, j, t, r),
{
    let blk = f.blocks@[b];
    assert(block_div_before(bd1, bt1, b, t) == block_div_before(bd2, bt2, b, t));
    if j < blk.stmts.len() {
        let s = blk.stmts@[j];
        lemma_uses_stable(s.uses@, l1, lt1, bd1, bt1, l2, lt2, bd2, bt2, t);
        if !s.opaque && any_div_at(s.uses@, l1, lt1, t) {
            if stmt_justifies(f, l1, lt1, bd1, bt1, b, s, t, r) {
                let i = choose|i: int|
                    #[trigger] first_div_at(s.uses@, l1, lt1, t, i) && derived_reason(
                        r,
                        s.uses@[i],
                        s.span,
                        derived_detail(f, s.uses@[i]),
                    );
                assert(first_div_at(s.uses@, l2, lt2, t, i));
            }
            if stmt_justifies(f, l2, lt2, bd2, bt2, b, s, t, r) {
                let i = choose|i: int|
                    #[trigger] first_div_at(s.uses@, l2, lt2, t, i) && derived_reason(
                        r,
                        s.uses@[i],
                        s.span,
                        derived_detail(f, s.uses@[i]),
                    );
                assert(first_div_at(s.uses@, l1, lt1, t, i));
            }
        }
    } else {
        match blk.term.kind {
            TermKind::Call { callee, args, .. } => {
                lemma_uses_stable(args@, l1, lt1, bd1, bt1, l2, lt2, bd2, bt2, t);
                if spec_result_base(callee.kind) != Some(Uniformity::Divergent) && any_div_at(args@, l1, lt1, t) {
                    if term_justifies(f, l1, lt1, bd1, bt1, b, t, r) {
                        let i = choose|i: int|
                            #[trigger] first_div_at(args@, l1, lt1, t, i) && derived_reason(
                                r,
                                args@[i],
                                blk.term.span,
                                call_derived_detail(f, callee.display@, args@[i]),
                            );
                        assert(first_div_at(args@, l2, lt2, t, i));
                    }
                    if term_justifies(f, l2, lt2, bd2, bt2, b, t, r) {
                        let i = choose|i: int|
                            #[trigger] first_div_at(args@, l2, lt2, t, i) && derived_reason(
                                r,
                                args@[i],
                                blk.term.span,
                                call_derived_detail(f, callee.display@, args@[i]),
                            );
                        assert(first_div_at(args@, l1, lt1, t, i));
                    }
                }
            },
            _ => {},
        }
    }
}

/// The dataflow state, with the times at which each local and block
/// turned divergent.
struct Flow {
    locals: Vec<Uniformity>,
    reasons: Vec<Option<Reason>>,
    bdiv: Vec<bool>,
    bcause: Vec<Option<BranchCause>>,
    lt: Ghost<Seq<int>>,
    bt: Ghost<Seq<int>>,
    clock: Ghost<int>,
}

impl Flow {
    spec fn inv(&self, f: FnModel) -> bool {
        &&& derivation(f, self.locals@, self.reasons@, self.bdiv@, self.bcause@, self.lt@, self.bt@)
        &&& forall|d: int|
            0 <= d < self.locals.len() && self.locals@[d] == Uniformity::Divergent ==> #[trigger] self.lt@[d]
                < self.clock@
        &&& forall|x: int| 0 <= x < self.bdiv.len() && self.bdiv@[x] ==> #[trigger] self.bt@[x] < self.clock@
    }

    spec fn measure(&self) -> int {
        (self.locals.len() - count_true(div_flags(self.locals@))) + (self.bdiv.len() - count_true(self.bdiv@))
    }
}

proof fn lemma_measure_nonneg(fl: &Flow)
    ensures
        fl.measure() >= 0,
{
    lemma_count_le(div_flags(fl.locals@));
    lemma_count_le(fl.bdiv@);
}

/// Make `d` divergent for `reason`, unless it already is.
fn raise(
    fl: &mut Flow,
    Ghost(f): Ghost<FnModel>,
    d: Local,
    reason: Reason,
    Ghost(b): Ghost<int>,
    Ghost(j): Ghost<int>,
) -> (changed: bool)
    requires
        old(fl).inv(f),
        d < f.local_count,
        live(f, b),
        0 <= j <= f.blocks@[b].stmts.len(),
        writes(f, b, j, d),
        old(fl).locals@[d as int] == Uniformity::Uniform ==> site_justifies(
            f,
            old(fl).locals@,
            old(fl).lt@,
            old(fl).bdiv@,
            old(fl).bt@,
            b,
            j,
            old(fl).clock@,
            reason,
        ),
    ensures
        final(fl).inv(f),
        final(fl).locals@[d as int] == Uniformity::Divergent,
        changed == (old(fl).locals@[d as int] == Uniformity::Uniform),
        !changed ==> *final(fl) == *old(fl),
        changed ==> final(fl).measure() < old(fl).measure(),
        final(fl).locals@ == old(fl).locals@.update(d as int, Uniformity::Divergent),
        final(fl).bdiv@ == old(fl).bdiv@,
        final(fl).bcause@ == old(fl).bcause@,
{
    if fl.locals[d] == Uniformity::Divergent {
        return false;
    }
    let ghost o = *fl;
    let ghost t = fl.clock@;
    fl.locals.set(d, Uniformity::Divergent);
    fl.reasons.set(d, Some(reason));
    proof {
        fl.lt@ = fl.lt@.update(d as int, t);
        fl.clock@ = t + 1;
    }
    proof {
        let n = f.local_count;
        assert(div_flags(fl.locals@) =~= div_flags(o.locals@).update(d as int, true));
        lemma_count_set(div_flags(o.locals@), d as int);
        assert forall|l: int, t2: int| t2 <= t implies div_before(o.locals@, o.lt@, l, t2) == div_before(
            fl.locals@,
            fl.lt@,
            l,
            t2,
        ) by {}
        assert forall|e: int| 0 <= e < n implies #[trigger] local_justified(
            f,
            fl.locals@,
            fl.reasons@,
            fl.lt@,
            fl.bdiv@,
            fl.bt@,
            e,
        ) by {
            if e == d {
                lemma_site_stable(
                    f,
                    o.locals@,
                    o.lt@,
                    o.bdiv@,
                    o.bt@,
                    fl.locals@,
                    fl.lt@,
                    fl.bdiv@,
                    fl.bt@,
                    b,
                    j,
                    t,
                    reason,
                );
                assert(writes(f, b, j, e as Local));
            } else if o.locals@[e] == Uniformity::Divergent {
                assert(local_justified(f, o.locals@, o.reasons@, o.lt@, o.bdiv@, o.bt@, e));
                let (b2, j2) = choose|b2: int, j2: int|
                    #![trigger writes(f, b2, j2, e as Local)]
                    live(f, b2) && 0 <= j2 <= f.blocks@[b2].stmts.len() && writes(f, b2, j2, e as Local)
                        && site_justifies(f, o.locals@, o.lt@, o.bdiv@, o.bt@, b2, j2, o.lt@[e], o.reasons@[e]->Some_0);
                lemma_site_stable(
                    f,
                    o.locals@,
                    o.lt@,
                    o.bdiv@,
                    o.bt@,
                    fl.locals@,
                    fl.lt@,
                    fl.bdiv@,
                    fl.bt@,
                    b2,
                    j2,
                    o.lt@[e],
                    o.reasons@[e]->Some_0,
                );
            } else {
                assert(local_justified(f, o.locals@, o.reasons@, o.lt@, o.bdiv@, o.bt@, e));
            }
        }
        assert forall|x: int| 0 <= x < f.blocks.len() implies #[trigger] block_justified(
            f,
            fl.locals@,
            fl.lt@,
            fl.bdiv@,
            fl.bcause@,
            fl.bt@,
            x,
        ) by {
            assert(block_justified(f, o.locals@, o.lt@, o.bdiv@, o.bcause@, o.bt@, x));
            if o.bdiv@[x] {
                let c = o.bcause@[x]->Some_0;
                assert(div_before(o.locals@, o.lt@, c.cond as int, o.bt@[x]) == div_before(
                    fl.locals@,
                    fl.lt@,
                    c.cond as int,
                    o.bt@[x],
                ));
            }
        }
    }
    true
}

/// Mark block `x` divergent-control because of `cause`, unless it already
/// is.
fn mark(fl: &mut Flow, Ghost(f): Ghost<FnModel>, x: BlockId, cause: BranchCause) -> (changed: bool)
    requires
        old(fl).inv(f),
        x < f.blocks.len(),
        live(f, cause.block as int),
        f.blocks@[cause.block as int].term.kind matches TermKind::Branch { cond, .. } && cause.cond == cond,
        cause.span == f.blocks@[cause.block as int].term.span,
        cause.cond < f.local_count,
        old(fl).locals@[cause.cond as int] == Uniformity::Divergent,
        controls(f, cause.block as int, x as int),
    ensures
        final(fl).inv(f),
        final(fl).bdiv@[x as int],
        changed == !old(fl).bdiv@[x as int],
        !changed ==> *final(fl) == *old(fl),
        changed ==> final(fl).measure() < old(fl).measure(),
        final(fl).bdiv@ == old(fl).bdiv@.update(x as int, true),
        final(fl).locals@ == old(fl).locals@,
{
    if fl.bdiv[x] {
        return false;
    }
    let ghost o = *fl;
    let ghost t = fl.clock@;
    fl.bdiv.set(x, true);
    fl.bcause.set(x, Some(cause));
    proof {
        fl.bt@ = fl.bt@.update(x as int, t);
        fl.clock@ = t + 1;
    }
    proof {
        let n = f.local_count;
        lemma_count_set(o.bdiv@, x as int);
        assert forall|e: int| 0 <= e < n implies #[trigger] local_justified(
            f,
            fl.locals@,
            fl.reasons@,
            fl.lt@,
            fl.bdiv@,
            fl.bt@,
            e,
        ) by {
            assert(local_justified(f, o.locals@, o.reasons@, o.lt@, o.bdiv@, o.bt@, e));
            if o.locals@[e] == Uniformity::Divergent {
                let (b2, j2) = choose|b2: int, j2: int|
                    #![trigger writes(f, b2, j2, e as Local)]
                    live(f, b2) && 0 <= j2 <= f.blocks@[b2].stmts.len() && writes(f, b2, j2, e as Local)
                        && site_justifies(f, o.locals@, o.lt@, o.bdiv@, o.bt@, b2, j2, o.lt@[e], o.reasons@[e]->Some_0);
                lemma_site_stable(
                    f,
                    o.locals@,
                    o.lt@,
                    o.bdiv@,
                    o.bt@,
                    fl.locals@,
                    fl.lt@,
                    fl.bdiv@,
                    fl.bt@,
                    b2,
                    j2,
                    o.lt@[e],
                    o.reasons@[e]->Some_0,
                );
            }
        }
        assert forall|y: int| 0 <= y < f.blocks.len() implies #[trigger] block_justified(
            f,
            fl.locals@,
            fl.lt@,
            fl.bdiv@,
            fl.bcause@,
            fl.bt@,
            y,
        ) by {
            if y != x {
                assert(block_justified(f, o.locals@, o.lt@, o.bdiv@, o.bcause@, o.bt@, y));
            }
        }
    }
    true
}


/// The first of `uses` that is divergent in `locals`, by position.
fn first_divergent(uses: &Vec<Local>, locals: &Vec<Uniformity>) -> (r: Option<usize>)
    requires
        forall|k: int| 0 <= k < uses.len() ==> #[trigger] uses@[k] < locals.len(),
    ensures
        match r {
            Some(i) => i < uses.len() && locals@[uses@[i as int] as int] == Uniformity::Divergent && forall|k: int|
                0 <= k < i ==> locals@[#[trigger] uses@[k] as int] != Uniformity::Divergent,
            None => forall|k: int| 0 <= k < uses.len() ==> locals@[#[trigger] uses@[k] as int] != Uniformity::Divergent,
        },
{
    let mut i: usize = 0;
    while i < uses.len()
        invariant
            i <= uses.len(),
            forall|k: int| 0 <= k < uses.len() ==> #[trigger] uses@[k] < locals.len(),
            forall|k: int| 0 <= k < i ==> locals@[#[trigger] uses@[k] as int] != Uniformity::Divergent,
        decreases uses.len() - i,
    {
        if locals[uses[i]] == Uniformity::Divergent {
            return Some(i);
        }
        i = i + 1;
    }
    None
}

/// At the current time, "divergent before now" is "divergent".
proof fn lemma_now(fl: &Flow, f: FnModel)
    requires
        fl.inv(f),
    ensures
        forall|l: int|
            #[trigger] div_before(fl.locals@, fl.lt@, l, fl.clock@) == (0 <= l < fl.locals.len()
                && fl.locals@[l] == Uniformity::Divergent),
        forall|x: int|
            #[trigger] block_div_before(fl.bdiv@, fl.bt@, x, fl.clock@) == (0 <= x < fl.bdiv.len()
                && fl.bdiv@[x]),
{
}

/// Run statement `j` of block `b` once.
fn step_stmt(fl: &mut Flow, f: &FnModel, b: BlockId, j: usize, under: bool) -> (changed: bool)
    requires
        old(fl).inv(*f),
        f.wf(),
        live(*f, b as int),
        j < f.blocks@[b as int].stmts.len(),
        under == old(fl).bdiv@[b as int],
    ensures
        final(fl).inv(*f),
        !changed ==> *final(fl) == *old(fl),
        !changed ==> site_closed_at(*f, final(fl).locals@, final(fl).bdiv@, b as int, j as int),
        changed ==> final(fl).measure() < old(fl).measure(),
        final(fl).bdiv@ == old(fl).bdiv@,
{
    let stmt = &f.blocks[b].stmts[j];
    proof {
        assert(block_wf(f.blocks@[b as int], f.blocks.len() as nat, f.local_count as nat));
        assert(stmt_below(f.blocks@[b as int].stmts@[j as int], f.local_count as nat));
        lemma_now(fl, *f);
    }
    let dest = match stmt.dest {
        None => {
            return false;
        },
        Some(d) => d,
    };
    proof {
        assert(writes(*f, b as int, j as int, dest));
    }
    if stmt.opaque {
        let reason = Reason {
            kind: ReasonKind::Source,
            span: stmt.span,
            detail: owned("written by opaque code (inline asm)"),
            source_call: None,
        };
        return raise(fl, Ghost(*f), dest, reason, Ghost(b as int), Ghost(j as int));
    }
    match first_divergent(&stmt.uses, &fl.locals) {
        Some(i) => {
            let u = stmt.uses[i];
            let mut from: Vec<Local> = Vec::new();
            from.push(u);
            let reason = Reason {
                kind: ReasonKind::DerivedFrom(from),
                span: stmt.span,
                detail: derived_detail_string(f, u),
                source_call: None,
            };
            proof {
                assert(first_div_at(stmt.uses@, fl.locals@, fl.lt@, fl.clock@, i as int));
                assert(any_div_at(stmt.uses@, fl.locals@, fl.lt@, fl.clock@));
                assert(reason.kind->DerivedFrom_0@ =~= seq![u]);
                assert(derived_reason(reason, stmt.uses@[i as int], stmt.span, derived_detail(*f, stmt.uses@[i as int])));
            }
            let r = raise(fl, Ghost(*f), dest, reason, Ghost(b as int), Ghost(j as int));
            r
        },
        None => {
            proof {
                assert(!any_div_at(stmt.uses@, old(fl).locals@, old(fl).lt@, old(fl).clock@));
                assert(!any_div(stmt.uses@, old(fl).locals@));
            }
            if under {
                let reason = Reason {
                    kind: ReasonKind::ControlDependent { branch: b },
                    span: stmt.span,
                    detail: owned("written under thread-divergent control"),
                    source_call: None,
                };
                raise(fl, Ghost(*f), dest, reason, Ghost(b as int), Ghost(j as int))
            } else {
                false
            }
        },
    }
}

/// Two post-dominator slots for one block agree.
proof fn lemma_ipdom_unique(g: Graph, is_exit: Seq<bool>, b: int, p: Option<BlockId>, q: Option<BlockId>)
    requires
        ipdom_slot(g, is_exit, b, p),
        ipdom_slot(g, is_exit, b, q),
    ensures
        p == q,
{
    let rg = crate::graph::reverse_with_exit(g, is_exit);
    let e = g.len() as BlockId;
    match (p, q) {
        (Some(x), Some(y)) => {
            assert(is_idom(rg, e, b as BlockId, x) && is_idom(rg, e, b as BlockId, y));
            assert(crate::graph::sdom(rg, e, y, b as BlockId));
            assert(crate::graph::sdom(rg, e, x, b as BlockId));
            lemma_dom_antisymmetric(rg, e, x, y);
        },
        (Some(x), None) => {
            assert(!is_idom(rg, e, b as BlockId, x));
        },
        (None, Some(y)) => {
            assert(!is_idom(rg, e, b as BlockId, y));
        },
        (None, None) => {},
    }
}

/// What the dataflow needs of the graph tables it is given.
spec fn tables_ok(f: FnModel, cfg: Cfg, ipdom: Seq<Option<BlockId>>) -> bool {
    &&& cfg.wf()
    &&& cfg.succs.len() == f.blocks.len()
    &&& cfg.g() == fn_graph(f)
    &&& ipdom.len() == f.blocks.len()
    &&& forall|x: int| 0 <= x < f.blocks.len() ==> ipdom_slot(fn_graph(f), fn_exits(f), x, #[trigger] ipdom[x])
}


/// Mark every block of `region` divergent-control because of `cause`.
fn mark_region(fl: &mut Flow, f: &FnModel, region: &Vec<bool>, cause: BranchCause) -> (changed: bool)
    requires
        old(fl).inv(*f),
        region.len() == f.blocks.len(),
        live(*f, cause.block as int),
        f.blocks@[cause.block as int].term.kind matches TermKind::Branch { cond, .. } && cause.cond == cond,
        cause.span == f.blocks@[cause.block as int].term.span,
        cause.cond < f.local_count,
        old(fl).locals@[cause.cond as int] == Uniformity::Divergent,
        forall|y: int| 0 <= y < region.len() && #[trigger] region@[y] ==> controls(*f, cause.block as int, y),
    ensures
        final(fl).inv(*f),
        !changed ==> *final(fl) == *old(fl),
        changed ==> final(fl).measure() < old(fl).measure(),
        forall|y: int| 0 <= y < region.len() && #[trigger] region@[y] ==> final(fl).bdiv@[y],
{
    let n = region.len();
    let ghost o = *fl;
    let mut changed = false;
    let mut x: usize = 0;
    while x < n
        invariant
            n == f.blocks.len(),
            n == region.len(),
            x <= n,
            live(*f, cause.block as int),
            f.blocks@[cause.block as int].term.kind matches TermKind::Branch { cond, .. } && cause.cond == cond,
            cause.span == f.blocks@[cause.block as int].term.span,
            cause.cond < f.local_count,
            forall|y: int| 0 <= y < region.len() && #[trigger] region@[y] ==> controls(*f, cause.block as int, y),
            fl.inv(*f),
            fl.locals@ == o.locals@,
            o.locals@[cause.cond as int] == Uniformity::Divergent,
            !changed ==> *fl == o,
            changed ==> fl.measure() < o.measure(),
            forall|y: int| 0 <= y < x && #[trigger] region@[y] ==> fl.bdiv@[y],
        decreases n - x,
    {
        if region[x] {
            let ghost before = fl.bdiv@;
            if mark(fl, Ghost(*f), x, cause) {
                changed = true;
            }
            assert forall|y: int| 0 <= y < x + 1 && #[trigger] region@[y] implies fl.bdiv@[y] by {
                if y < x {
                    assert(before[y]);
                }
            }
        }
        x = x + 1;
    }
    changed
}

/// Run the terminator of block `b` once.
fn step_term(
    fl: &mut Flow,
    f: &FnModel,
    cfg: &Cfg,
    ipdom: &Vec<Option<BlockId>>,
    b: BlockId,
    under: bool,
) -> (changed: bool)
    requires
        old(fl).inv(*f),
        f.wf(),
        live(*f, b as int),
        under == old(fl).bdiv@[b as int],
        tables_ok(*f, *cfg, ipdom@),
    ensures
        final(fl).inv(*f),
        !changed ==> *final(fl) == *old(fl),
        !changed ==> site_closed_at(
            *f,
            final(fl).locals@,
            final(fl).bdiv@,
            b as int,
            f.blocks@[b as int].stmts.len() as int,
        ),
        changed ==> final(fl).measure() < old(fl).measure(),
{
    let term = &f.blocks[b].term;
    let nst = f.blocks[b].stmts.len();
    let ghost j = nst as int;
    proof {
        assert(block_wf(f.blocks@[b as int], f.blocks.len() as nat, f.local_count as nat));
        lemma_now(fl, *f);
    }
    match &term.kind {
        TermKind::Call { callee, args, dest, .. } => {
            let dest = match dest {
                Some(d) => *d,
                None => {
                    return false;
                },
            };
            proof {
                assert(writes(*f, b as int, j, dest));
            }
            let base = callee.kind.result_base();
            let base_div = match base {
                Some(Uniformity::Divergent) => true,
                _ => false,
            };
            let divergent_arg = first_divergent(args, &fl.locals);
            if base_div {
                let reason = Reason {
                    kind: ReasonKind::Source,
                    span: term.span,
                    detail: source_detail(callee.kind, callee.display.as_str()),
                    source_call: Some(callee.kind),
                };
                raise(fl, Ghost(*f), dest, reason, Ghost(b as int), Ghost(j))
            } else {
                match divergent_arg {
                    Some(i) => {
                        let a = args[i];
                        let mut from: Vec<Local> = Vec::new();
                        from.push(a);
                        let reason = Reason {
                            kind: ReasonKind::DerivedFrom(from),
                            span: term.span,
                            detail: call_derived_detail_string(f, callee.display.as_str(), a),
                            source_call: None,
                        };
                        proof {
                            assert(first_div_at(args@, fl.locals@, fl.lt@, fl.clock@, i as int));
                            assert(any_div_at(args@, fl.locals@, fl.lt@, fl.clock@));
                            assert(reason.kind->DerivedFrom_0@ =~= seq![a]);
                            assert(derived_reason(
                                reason,
                                args@[i as int],
                                term.span,
                                call_derived_detail(*f, callee.display@, args@[i as int]),
                            ));
                        }
                        raise(fl, Ghost(*f), dest, reason, Ghost(b as int), Ghost(j))
                    },
                    None => {
                        proof {
                            assert(!any_div_at(args@, old(fl).locals@, old(fl).lt@, old(fl).clock@));
                            assert(!any_div(args@, old(fl).locals@));
                        }
                        if under {
                            let reason = Reason {
                                kind: ReasonKind::ControlDependent { branch: b },
                                span: term.span,
                                detail: owned("written under thread-divergent control"),
                                source_call: None,
                            };
                            raise(fl, Ghost(*f), dest, reason, Ghost(b as int), Ghost(j))
                        } else {
                            false
                        }
                    },
                }
            }
        },
        TermKind::Opaque { dest, .. } => {
            match dest {
                Some(d) => {
                    proof {
                        assert(writes(*f, b as int, j, *d));
                    }
                    let reason = Reason {
                        kind: ReasonKind::Source,
                        span: term.span,
                        detail: owned("result of opaque code (inline asm)"),
                        source_call: None,
                    };
                    raise(fl, Ghost(*f), *d, reason, Ghost(b as int), Ghost(j))
                },
                None => false,
            }
        },
        TermKind::Branch { cond, .. } => {
            let cond = *cond;
            if fl.locals[cond] != Uniformity::Divergent {
                return false;
            }
            let cause = BranchCause { block: b, cond, span: term.span };
            let region = divergence_region(cfg, b, ipdom[b]);
            let n = f.blocks.len();
            proof {
                assert(ipdom_slot(fn_graph(*f), fn_exits(*f), b as int, ipdom@[b as int]));
                assert forall|y: int| 0 <= y < n && #[trigger] region@[y] implies controls(*f, b as int, y) by {
                    assert(ipdom_slot(fn_graph(*f), fn_exits(*f), b as int, ipdom@[b as int]));
                }
            }
            let changed = mark_region(fl, f, &region, cause);
            proof {
                if !changed {
                    assert forall|y: int| 0 <= y < n && #[trigger] controls(*f, b as int, y) implies fl.bdiv@[y] by {
                        let p = choose|p: Option<BlockId>|
                            #[trigger] ipdom_slot(fn_graph(*f), fn_exits(*f), b as int, p) && in_region(
                                fn_graph(*f),
                                b as int,
                                p,
                                y,
                            );
                        lemma_ipdom_unique(fn_graph(*f), fn_exits(*f), b as int, p, ipdom@[b as int]);
                        assert(region@[y]);
                    }
                }
            }
            changed
        },
        _ => false,
    }
}

/// One pass of the dataflow over every reachable block, in order.
fn pass(fl: &mut Flow, f: &FnModel, cfg: &Cfg, reach: &Vec<bool>, ipdom: &Vec<Option<BlockId>>) -> (changed: bool)
    requires
        old(fl).inv(*f),
        f.wf(),
        tables_ok(*f, *cfg, ipdom@),
        reach.len() == f.blocks.len(),
        forall|b: int| 0 <= b < f.blocks.len() ==> (#[trigger] reach@[b] <==> live(*f, b)),
    ensures
        final(fl).inv(*f),
        !changed ==> *final(fl) == *old(fl),
        !changed ==> flow_closed(*f, final(fl).locals@, final(fl).bdiv@),
        changed ==> final(fl).measure() < old(fl).measure(),
{
    let n = f.blocks.len();
    let ghost o = *fl;
    let mut changed = false;
    let mut b: usize = 0;
    while b < n
        invariant
            n == f.blocks.len(),
            b <= n,
            f.wf(),
            tables_ok(*f, *cfg, ipdom@),
            reach.len() == n,
            forall|x: int| 0 <= x < n ==> (#[trigger] reach@[x] <==> live(*f, x)),
            fl.inv(*f),
            !changed ==> *fl == o,
            changed ==> fl.measure() < o.measure(),
            !changed ==> forall|b2: int, j2: int|
                0 <= b2 < b && live(*f, b2) && 0 <= j2 <= f.blocks@[b2].stmts.len() ==> #[trigger] site_closed_at(
                    *f,
                    fl.locals@,
                    fl.bdiv@,
                    b2,
                    j2,
                ),
        decreases n - b,
    {
        if reach[b] {
            let under = fl.bdiv[b];
            let nst = f.blocks[b].stmts.len();
            let mut j: usize = 0;
            while j < nst
                invariant
                    n == f.blocks.len(),
                    b < n,
                    nst == f.blocks@[b as int].stmts.len(),
                    j <= nst,
                    f.wf(),
                    live(*f, b as int),
                    fl.inv(*f),
                    under == fl.bdiv@[b as int],
                    !changed ==> *fl == o,
                    changed ==> fl.measure() < o.measure(),
                    !changed ==> forall|b2: int, j2: int|
                        ((0 <= b2 < b && live(*f, b2) && 0 <= j2 <= f.blocks@[b2].stmts.len()) || (b2 == b && 0
                            <= j2 < j)) ==> #[trigger] site_closed_at(*f, fl.locals@, fl.bdiv@, b2, j2),
                decreases nst - j,
            {
                if step_stmt(fl, f, b, j, under) {
                    changed = true;
                }
                j = j + 1;
            }
            if step_term(fl, f, cfg, ipdom, b, under) {
                changed = true;
            }
        }
        b = b + 1;
    }
    changed
}


/// The non-opaque statements among `stmts`.
pub open spec fn plain_stmt_count(stmts: Seq<Stmt>) -> nat
    decreases stmts.len(),
{
    if stmts.len() == 0 {
        0
    } else {
        plain_stmt_count(stmts.drop_last()) + if stmts.last().opaque {
            0nat
        } else {
            1nat
        }
    }
}

/// The opaque statements among `stmts`.
pub open spec fn opaque_stmt_count(stmts: Seq<Stmt>) -> nat
    decreases stmts.len(),
{
    if stmts.len() == 0 {
        0
    } else {
        opaque_stmt_count(stmts.drop_last()) + if stmts.last().opaque {
            1nat
        } else {
            0nat
        }
    }
}

/// Analyzed positions of a block: its non-opaque statements, and its
/// terminator unless that is opaque.
pub open spec fn block_analyzed(blk: Block) -> nat {
    plain_stmt_count(blk.stmts@) + if blk.term.kind is Opaque {
        0nat
    } else {
        1nat
    }
}

/// Opaque positions of a block.
pub open spec fn block_opaque(blk: Block) -> nat {
    opaque_stmt_count(blk.stmts@) + if blk.term.kind is Opaque {
        1nat
    } else {
        0nat
    }
}

/// Analyzed positions of the reachable blocks below `k`.
pub open spec fn analyzed_upto(f: FnModel, k: int) -> nat
    decreases k,
{
    if k <= 0 {
        0
    } else {
        analyzed_upto(f, k - 1) + if live(f, k - 1) {
            block_analyzed(f.blocks@[k - 1])
        } else {
            0nat
        }
    }
}

/// Opaque positions of the reachable blocks below `k`.
pub open spec fn opaque_upto(f: FnModel, k: int) -> nat
    decreases k,
{
    if k <= 0 {
        0
    } else {
        opaque_upto(f, k - 1) + if live(f, k - 1) {
            block_opaque(f.blocks@[k - 1])
        } else {
            0nat
        }
    }
}

/// Statements plus terminators of the blocks below `k`.
pub open spec fn fn_size(f: FnModel, k: int) -> nat
    decreases k,
{
    if k <= 0 {
        0
    } else {
        fn_size(f, k - 1) + f.blocks@[k - 1].stmts.len() as nat + 1nat
    }
}

proof fn lemma_stmt_counts(stmts: Seq<Stmt>)
    ensures
        plain_stmt_count(stmts) + opaque_stmt_count(stmts) == stmts.len(),
    decreases stmts.len(),
{
    if stmts.len() > 0 {
        lemma_stmt_counts(stmts.drop_last());
    }
}

proof fn lemma_counts_within(f: FnModel, k: int, m: int)
    requires
        0 <= k <= m <= f.blocks.len(),
    ensures
        analyzed_upto(f, k) + opaque_upto(f, k) <= fn_size(f, k) <= fn_size(f, m),
    decreases m,
{
    if m > k {
        lemma_counts_within(f, k, m - 1);
    } else if k > 0 {
        lemma_counts_within(f, k - 1, k - 1);
        lemma_stmt_counts(f.blocks@[k - 1].stmts@);
    }
}

fn coverage(f: &FnModel, reach: &Vec<bool>) -> (r: (usize, usize))
    requires
        reach.len() == f.blocks.len(),
        forall|b: int| 0 <= b < f.blocks.len() ==> (#[trigger] reach@[b] <==> live(*f, b)),
        fn_size(*f, f.blocks.len() as int) <= usize::MAX,
    ensures
        r.0 == analyzed_upto(*f, f.blocks.len() as int),
        r.1 == opaque_upto(*f, f.blocks.len() as int),
{
    let n = f.blocks.len();
    let mut analyzed: usize = 0;
    let mut opaque: usize = 0;
    let mut b: usize = 0;
    while b < n
        invariant
            n == f.blocks.len(),
            b <= n,
            reach.len() == n,
            forall|x: int| 0 <= x < n ==> (#[trigger] reach@[x] <==> live(*f, x)),
            fn_size(*f, n as int) <= usize::MAX,
            analyzed == analyzed_upto(*f, b as int),
            opaque == opaque_upto(*f, b as int),
        decreases n - b,
    {
        proof {
            lemma_counts_within(*f, b as int + 1, n as int);
            lemma_counts_within(*f, b as int, n as int);
        }
        if reach[b] {
            let stmts = &f.blocks[b].stmts;
            let mut j: usize = 0;
            while j < stmts.len()
                invariant
                    b < n,
                    n == f.blocks.len(),
                    *stmts == f.blocks@[b as int].stmts,
                    j <= stmts.len(),
                    analyzed == analyzed_upto(*f, b as int) + plain_stmt_count(stmts@.take(j as int)),
                    opaque == opaque_upto(*f, b as int) + opaque_stmt_count(stmts@.take(j as int)),
                    analyzed_upto(*f, b as int) + opaque_upto(*f, b as int) + stmts.len() + 1 <= usize::MAX,
                decreases stmts.len() - j,
            {
                proof {
                    assert(stmts@.take(j + 1).drop_last() =~= stmts@.take(j as int));
                    lemma_stmt_counts(stmts@.take(j as int));
                }
                if stmts[j].opaque {
                    opaque = opaque + 1;
                } else {
                    analyzed = analyzed + 1;
                }
                j = j + 1;
            }
            assert(stmts@.take(stmts.len() as int) =~= stmts@);
            match &f.blocks[b].term.kind {
                TermKind::Opaque { .. } => {
                    opaque = opaque + 1;
                },
                _ => {
                    analyzed = analyzed + 1;
                },
            }
        }
        b = b + 1;
    }
    (analyzed, opaque)
}

/// Whether block `b` is a barrier site, and if so whether through a local
/// call.
pub open spec fn barrier_kind_at(f: FnModel, s: Summaries, b: int) -> Option<bool> {
    match f.blocks@[b].term.kind {
        TermKind::Call { callee, .. } => if callee.kind == CallKind::Barrier {
            Some(false)
        } else {
            match callee.local_fn {
                Some(c) => if s.may_contain_barrier@[c as int] {
                    Some(true)
                } else {
                    None
                },
                None => None,
            }
        },
        _ => None,
    }
}

/// Whether block `b` is a warp-collective site, and if so whether through
/// a local call.
pub open spec fn warp_kind_at(f: FnModel, s: Summaries, b: int) -> Option<bool> {
    match f.blocks@[b].term.kind {
        TermKind::Call { callee, .. } => if callee.kind is WarpCollective {
            Some(false)
        } else {
            match callee.local_fn {
                Some(c) => if s.may_contain_warp_op@[c as int] {
                    Some(true)
                } else {
                    None
                },
                None => None,
            }
        },
        _ => None,
    }
}

/// The reachable barrier sites below `k`, in block order.
pub open spec fn barrier_blocks(f: FnModel, s: Summaries, k: int) -> Seq<BlockId>
    decreases k,
{
    if k <= 0 {
        Seq::empty()
    } else if live(f, k - 1) && barrier_kind_at(f, s, k - 1) is Some {
        barrier_blocks(f, s, k - 1).push((k - 1) as BlockId)
    } else {
        barrier_blocks(f, s, k - 1)
    }
}

/// The reachable warp-collective sites below `k`, in block order.
pub open spec fn warp_blocks(f: FnModel, s: Summaries, k: int) -> Seq<BlockId>
    decreases k,
{
    if k <= 0 {
        Seq::empty()
    } else if live(f, k - 1) && warp_kind_at(f, s, k - 1) is Some {
        warp_blocks(f, s, k - 1).push((k - 1) as BlockId)
    } else {
        warp_blocks(f, s, k - 1)
    }
}

/// The divergent cause a site at block `b` reports.
pub open spec fn site_cause(bdiv: Seq<bool>, bcause: Seq<Option<BranchCause>>, b: int) -> Option<BranchCause> {
    if bdiv[b] {
        bcause[b]
    } else {
        None
    }
}

/// The participation mask recorded for a warp site at block `b`.
pub open spec fn warp_mask_at(f: FnModel, b: int, interprocedural: bool) -> Option<u64> {
    match f.blocks@[b].term.kind {
        TermKind::Call { callee, const_args, .. } => if interprocedural || spec_mask_is_unknown(callee.kind) {
            None
        } else if spec_implicit_mask(callee.kind) is Some {
            spec_implicit_mask(callee.kind)
        } else if const_args.len() > 0 {
            const_args@[0]
        } else {
            None
        },
        _ => None,
    }
}

/// `site` records the barrier site at block `b`.
pub open spec fn barrier_site_ok(
    site: BarrierSite,
    f: FnModel,
    s: Summaries,
    bdiv: Seq<bool>,
    bcause: Seq<Option<BranchCause>>,
    b: int,
) -> bool {
    &&& site.block == b
    &&& site.span == f.blocks@[b].term.span
    &&& f.blocks@[b].term.kind matches TermKind::Call { callee, .. } && site.callee_display@ == callee.display@
    &&& barrier_kind_at(f, s, b) == Some(site.interprocedural)
    &&& site.divergent_cause == site_cause(bdiv, bcause, b)
}

/// `site` records the warp-collective site at block `b`.
pub open spec fn warp_site_ok(
    site: WarpOpSite,
    f: FnModel,
    s: Summaries,
    bdiv: Seq<bool>,
    bcause: Seq<Option<BranchCause>>,
    b: int,
) -> bool {
    &&& site.block == b
    &&& site.span == f.blocks@[b].term.span
    &&& f.blocks@[b].term.kind matches TermKind::Call { callee, .. } && site.callee_display@ == callee.display@
    &&& warp_kind_at(f, s, b) == Some(site.interprocedural)
    &&& site.divergent_cause == site_cause(bdiv, bcause, b)
    &&& site.mask == warp_mask_at(f, b, site.interprocedural)
}

/// The summaries cover every local function a reachable call names.
pub open spec fn summaries_cover(f: FnModel, s: Summaries) -> bool {
    forall|b: int|
        live(f, b) ==> match #[trigger] f.blocks@[b].term.kind {
            TermKind::Call { callee, .. } => callee.local_fn matches Some(c) ==> (callee.kind
                != CallKind::Barrier ==> c < s.may_contain_barrier.len()) && (!(callee.kind is WarpCollective)
                ==> c < s.may_contain_warp_op.len()),
            _ => true,
        }
}

fn collect_sites(
    f: &FnModel,
    summaries: &Summaries,
    reach: &Vec<bool>,
    bdiv: &Vec<bool>,
    bcause: &Vec<Option<BranchCause>>,
) -> (r: (Vec<BarrierSite>, Vec<WarpOpSite>))
    requires
        reach.len() == f.blocks.len(),
        bdiv.len() == f.blocks.len(),
        bcause.len() == f.blocks.len(),
        forall|b: int| 0 <= b < f.blocks.len() ==> (#[trigger] reach@[b] <==> live(*f, b)),
        summaries_cover(*f, *summaries),
    ensures
        r.0.len() == barrier_blocks(*f, *summaries, f.blocks.len() as int).len(),
        forall|i: int|
            0 <= i < r.0.len() ==> barrier_site_ok(
                #[trigger] r.0@[i],
                *f,
                *summaries,
                bdiv@,
                bcause@,
                barrier_blocks(*f, *summaries, f.blocks.len() as int)[i] as int,
            ),
        r.1.len() == warp_blocks(*f, *summaries, f.blocks.len() as int).len(),
        forall|i: int|
            0 <= i < r.1.len() ==> warp_site_ok(
                #[trigger] r.1@[i],
                *f,
                *summaries,
                bdiv@,
                bcause@,
                warp_blocks(*f, *summaries, f.blocks.len() as int)[i] as int,
            ),
{
    let n = f.blocks.len();
    let mut barriers: Vec<BarrierSite> = Vec::new();
    let mut warp_ops: Vec<WarpOpSite> = Vec::new();
    let mut b: usize = 0;
    while b < n
        invariant
            n == f.blocks.len(),
            b <= n,
            reach.len() == n,
            bdiv.len() == n,
            bcause.len() == n,
            forall|x: int| 0 <= x < n ==> (#[trigger] reach@[x] <==> live(*f, x)),
            summaries_cover(*f, *summaries),
            barriers.len() == barrier_blocks(*f, *summaries, b as int).len(),
            forall|i: int|
                0 <= i < barriers.len() ==> barrier_site_ok(
                    #[trigger] barriers@[i],
                    *f,
                    *summaries,
                    bdiv@,
                    bcause@,
                    barrier_blocks(*f, *summaries, b as int)[i] as int,
                ),
            warp_ops.len() == warp_blocks(*f, *summaries, b as int).len(),
            forall|i: int|
                0 <= i < warp_ops.len() ==> warp_site_ok(
                    #[trigger] warp_ops@[i],
                    *f,
                    *summaries,
                    bdiv@,
                    bcause@,
                    warp_blocks(*f, *summaries, b as int)[i] as int,
                ),
        decreases n - b,
    {
        let ghost bb = barrier_blocks(*f, *summaries, b as int);
        let ghost wb = warp_blocks(*f, *summaries, b as int);
        if reach[b] {
            let term = &f.blocks[b].term;
            if let TermKind::Call { callee, const_args, .. } = &term.kind {
                let divergent_cause = if bdiv[b] {
                    bcause[b]
                } else {
                    None
                };
                let barrier = match callee.kind {
                    CallKind::Barrier => Some(false),
                    _ => match callee.local_fn {
                        Some(c) => if summaries.may_contain_barrier[c] {
                            Some(true)
                        } else {
                            None
                        },
                        None => None,
                    },
                };
                if let Some(interprocedural) = barrier {
                    barriers.push(
                        BarrierSite {
                            block: b,
                            span: term.span,
                            callee_display: callee.display.clone(),
                            interprocedural,
                            divergent_cause,
                        },
                    );
                }
                proof {
                    assert forall|i: int| 0 <= i < barriers.len() implies barrier_site_ok(
                        #[trigger] barriers@[i],
                        *f,
                        *summaries,
                        bdiv@,
                        bcause@,
                        barrier_blocks(*f, *summaries, b + 1)[i] as int,
                    ) by {
                        if i < bb.len() {
                            assert(barrier_blocks(*f, *summaries, b + 1)[i] == bb[i]);
                        }
                    }
                }
                let warp = match callee.kind {
                    CallKind::WarpCollective { .. } => Some(false),
                    _ => match callee.local_fn {
                        Some(c) => if summaries.may_contain_warp_op[c] {
                            Some(true)
                        } else {
                            None
                        },
                        None => None,
                    },
                };
                if let Some(interprocedural) = warp {
                    let mask = if interprocedural || callee.kind.mask_is_unknown() {
                        None
                    } else {
                        match callee.kind.implicit_mask() {
                            Some(m) => Some(m),
                            None => if const_args.len() > 0 {
                                const_args[0]
                            } else {
                                None
                            },
                        }
                    };
                    warp_ops.push(
                        WarpOpSite {
                            block: b,
                            span: term.span,
                            callee_display: callee.display.clone(),
                            interprocedural,
                            divergent_cause,
                            mask,
                        },
                    );
                }
                proof {
                    assert forall|i: int| 0 <= i < warp_ops.len() implies warp_site_ok(
                        #[trigger] warp_ops@[i],
                        *f,
                        *summaries,
                        bdiv@,
                        bcause@,
                        warp_blocks(*f, *summaries, b + 1)[i] as int,
                    ) by {
                        if i < wb.len() {
                            assert(warp_blocks(*f, *summaries, b + 1)[i] == wb[i]);
                        }
                    }
                }
            }
        }
        b = b + 1;
    }
    (barriers, warp_ops)
}

fn exit_blocks(f: &FnModel) -> (r: Vec<bool>)
    ensures
        r@ == fn_exits(*f),
{
    let n = f.blocks.len();
    let mut v: Vec<bool> = Vec::new();
    let mut b: usize = 0;
    while b < n
        invariant
            n == f.blocks.len(),
            b <= n,
            v.len() == b,
            forall|x: int| 0 <= x < b ==> #[trigger] v@[x] == (f.blocks@[x].term.kind is Return),
        decreases n - b,
    {
        let is_return = match &f.blocks[b].term.kind {
            TermKind::Return => true,
            _ => false,
        };
        v.push(is_return);
        b = b + 1;
    }
    assert(v@ =~= fn_exits(*f));
    v
}

fn new_flow(f: &FnModel) -> (fl: Flow)
    requires
        f.wf(),
    ensures
        fl.inv(*f),
{
    let nl = f.local_count;
    let n = f.blocks.len();
    let mut locals: Vec<Uniformity> = Vec::new();
    let mut reasons: Vec<Option<Reason>> = Vec::new();
    let mut i: usize = 0;
    while i < nl
        invariant
            i <= nl,
            locals.len() == i,
            reasons.len() == i,
            forall|l: int| 0 <= l < i ==> #[trigger] locals@[l] == Uniformity::Uniform && reasons@[l] is None,
        decreases nl - i,
    {
        locals.push(Uniformity::Uniform);
        reasons.push(None);
        i = i + 1;
    }
    let mut bdiv: Vec<bool> = Vec::new();
    let mut bcause: Vec<Option<BranchCause>> = Vec::new();
    let mut b: usize = 0;
    while b < n
        invariant
            b <= n,
            bdiv.len() == b,
            bcause.len() == b,
            forall|x: int| 0 <= x < b ==> !#[trigger] bdiv@[x] && bcause@[x] is None,
        decreases n - b,
    {
        bdiv.push(false);
        bcause.push(None);
        b = b + 1;
    }
    let fl = Flow {
        locals,
        reasons,
        bdiv,
        bcause,
        lt: Ghost(Seq::new(nl as nat, |l: int| 0int)),
        bt: Ghost(Seq::new(n as nat, |x: int| 0int)),
        clock: Ghost(0int),
    };
    assert forall|d: int| 0 <= d < nl implies #[trigger] local_justified(
        *f,
        fl.locals@,
        fl.reasons@,
        fl.lt@,
        fl.bdiv@,
        fl.bt@,
        d,
    ) by {
        assert(fl.locals@[d] == Uniformity::Uniform);
    }
    assert forall|x: int| 0 <= x < n implies #[trigger] block_justified(
        *f,
        fl.locals@,
        fl.lt@,
        fl.bdiv@,
        fl.bcause@,
        fl.bt@,
        x,
    ) by {
        assert(!fl.bdiv@[x]);
    }
    fl
}

/// Iterate passes until nothing changes.
fn fixpoint(f: &FnModel, cfg: &Cfg, reach: &Vec<bool>, ipdom: &Vec<Option<BlockId>>) -> (r: (
    Vec<Uniformity>,
    Vec<Option<Reason>>,
    Vec<bool>,
    Vec<Option<BranchCause>>,
))
    requires
        f.wf(),
        tables_ok(*f, *cfg, ipdom@),
        reach.len() == f.blocks.len(),
        forall|b: int| 0 <= b < f.blocks.len() ==> (#[trigger] reach@[b] <==> live(*f, b)),
    ensures
        flow_closed(*f, r.0@, r.2@),
        exists|lt: Seq<int>, bt: Seq<int>| derivation(*f, r.0@, r.1@, r.2@, r.3@, lt, bt),
{
    let mut fl = new_flow(f);
    let mut changed = true;
    while changed
        invariant
            f.wf(),
            tables_ok(*f, *cfg, ipdom@),
            reach.len() == f.blocks.len(),
            forall|b: int| 0 <= b < f.blocks.len() ==> (#[trigger] reach@[b] <==> live(*f, b)),
            fl.inv(*f),
            !changed ==> flow_closed(*f, fl.locals@, fl.bdiv@),
        decreases fl.measure() + if changed {
            1int
        } else {
            0int
        },
    {
        proof {
            lemma_measure_nonneg(&fl);
        }
        changed = pass(&mut fl, f, cfg, reach, ipdom);
        proof {
            lemma_measure_nonneg(&fl);
        }
    }
    let ghost lt = fl.lt@;
    let ghost bt = fl.bt@;
    let r = (fl.locals, fl.reasons, fl.bdiv, fl.bcause);
    assert(derivation(*f, r.0@, r.1@, r.2@, r.3@, lt, bt));
    r
}

/// Everything divergent, for the irreducible case.
fn degrade(f: &FnModel, reach: &Vec<bool>) -> (r: (
    Vec<Uniformity>,
    Vec<Option<Reason>>,
    Vec<bool>,
    Vec<Option<BranchCause>>,
))
    requires
        reach.len() == f.blocks.len(),
    ensures
        r.0.len() == f.local_count,
        r.1.len() == f.local_count,
        r.2@ == reach@,
        r.3.len() == f.blocks.len(),
        forall|l: int| 0 <= l < f.local_count ==> #[trigger] r.0@[l] == Uniformity::Divergent,
        forall|l: int|
            0 <= l < f.local_count ==> irreducible_reason(#[trigger] r.1@[l], f.span),
        forall|b: int| 0 <= b < f.blocks.len() ==> #[trigger] r.3@[b] is None,
{
    let nl = f.local_count;
    let mut locals: Vec<Uniformity> = Vec::new();
    let mut reasons: Vec<Option<Reason>> = Vec::new();
    let mut i: usize = 0;
    while i < nl
        invariant
            i <= nl,
            locals.len() == i,
            reasons.len() == i,
            forall|l: int| 0 <= l < i ==> #[trigger] locals@[l] == Uniformity::Divergent,
            forall|l: int|
                0 <= l < i ==> irreducible_reason(#[trigger] reasons@[l], f.span),
        decreases nl - i,
    {
        locals.push(Uniformity::Divergent);
        reasons.push(
            Some(
                Reason {
                    kind: ReasonKind::Source,
                    span: f.span,
                    detail: owned("irreducible control flow: analysis degraded to all-divergent"),
                    source_call: None,
                },
            ),
        );
        i = i + 1;
    }
    let n = f.blocks.len();
    let mut bdiv: Vec<bool> = Vec::new();
    let mut bcause: Vec<Option<BranchCause>> = Vec::new();
    let mut b: usize = 0;
    while b < n
        invariant
            n == reach.len(),
            b <= n,
            bdiv@ == reach@.take(b as int),
            bcause.len() == b,
            forall|x: int| 0 <= x < b ==> #[trigger] bcause@[x] is None,
        decreases n - b,
    {
        bdiv.push(reach[b]);
        bcause.push(None);
        b = b + 1;
        assert(bdiv@ =~= reach@.take(b as int));
    }
    assert(reach@.take(n as int) =~= reach@);
    (locals, reasons, bdiv, bcause)
}


/// One hop of a provenance chain.
#[derive(Debug, Clone)]
pub struct ProvenanceStep {
    pub detail: String,
    pub span: SpanRef,
}

/// The local a provenance walk moves to from `l`: a derived reason's first
/// input, or the condition of the branch that controls a control-dependent
/// write; nothing after a source.
pub open spec fn prov_next(f: FnModel, a: Analysis, l: int) -> Option<Local> {
    match a.reasons@[l] {
        Some(r) => match r.kind {
            ReasonKind::Source => None,
            ReasonKind::DerivedFrom(uses) => if uses.len() > 0 {
                Some(uses@[0])
            } else {
                None
            },
            ReasonKind::ControlDependent { branch } => match a.block_cause@[branch as int] {
                Some(c) => Some(c.cond),
                None => match f.blocks@[branch as int].term.kind {
                    TermKind::Branch { cond, .. } => Some(cond),
                    _ => None,
                },
            },
        },
        None => None,
    }
}

/// The locals a provenance walk from `cur` visits, given the ones already
/// `visited`: it stops at a repeat, at a local without a reason, or where
/// [`prov_next`] gives nothing.
pub open spec fn prov_walk(f: FnModel, a: Analysis, cur: int, visited: Seq<bool>) -> Seq<Local>
    decreases visited.len() - count_true(visited),
{
    if !(0 <= cur < visited.len()) || visited[cur] || a.reasons@[cur] is None {
        Seq::empty()
    } else {
        let v2 = visited.update(cur, true);
        proof {
            lemma_count_set(visited, cur);
            lemma_count_le(v2);
        }
        seq![cur as Local] + match prov_next(f, a, cur) {
            Some(nx) => prov_walk(f, a, nx as int, v2),
            None => Seq::empty(),
        }
    }
}

/// No local visited yet.
pub open spec fn fresh(n: nat) -> Seq<bool> {
    Seq::new(n, |i: int| false)
}

/// A step of the chain for local `l`: its display and reason, and where
/// the reason was recorded.
pub open spec fn step_ok(step: ProvenanceStep, f: FnModel, a: Analysis, l: Local) -> bool {
    &&& a.reasons@[l as int] matches Some(r) && step.detail@ == f.spec_local_display(l as int) + ": "@
        + r.detail@ && step.span == r.span
}

/// A recorded cause, if any, names a local below `n`.
pub open spec fn cause_cond_below(c: Option<BranchCause>, n: nat) -> bool {
    c matches Some(cc) ==> cc.cond < n
}

/// Every index a provenance walk follows is in range.
pub open spec fn analysis_shape(f: FnModel, a: Analysis) -> bool {
    &&& a.reasons.len() == f.local_count
    &&& a.block_cause.len() == f.blocks.len()
    &&& forall|l: int|
        0 <= l < f.local_count ==> match #[trigger] a.reasons@[l] {
            Some(r) => match r.kind {
                ReasonKind::DerivedFrom(uses) => uses.len() > 0 ==> uses@[0] < f.local_count,
                ReasonKind::ControlDependent { branch } => branch < f.blocks.len() && cause_cond_below(
                    a.block_cause@[branch as int],
                    f.local_count as nat,
                ),
                ReasonKind::Source => true,
            },
            None => true,
        }
}

/// Walk a divergent local's recorded reasons back to a source. The chain
/// starts at the given local and ends at a `Source` (or a cycle or a
/// uniform stop): exactly the walk [`prov_walk`] describes, one step per
/// local.
pub fn provenance_chain(f: &FnModel, analysis: &Analysis, start: Local) -> (r: Vec<ProvenanceStep>)
    requires
        f.wf(),
        analysis_shape(*f, *analysis),
        start < f.local_count,
    ensures
        r.len() == prov_walk(*f, *analysis, start as int, fresh(f.local_count as nat)).len(),
        forall|i: int|
            0 <= i < r.len() ==> step_ok(
                #[trigger] r@[i],
                *f,
                *analysis,
                prov_walk(*f, *analysis, start as int, fresh(f.local_count as nat))[i],
            ),
{
    let ghost whole = prov_walk(*f, *analysis, start as int, fresh(f.local_count as nat));
    let mut chain: Vec<ProvenanceStep> = Vec::new();
    let mut visited = all_false(f.local_count);
    assert(visited@ =~= fresh(f.local_count as nat));
    let mut current = start;
    loop
        invariant
            f.wf(),
            analysis_shape(*f, *analysis),
            current < f.local_count,
            visited.len() == f.local_count,
            chain@.len() + prov_walk(*f, *analysis, current as int, visited@).len() == whole.len(),
            forall|i: int| 0 <= i < chain.len() ==> step_ok(#[trigger] chain@[i], *f, *analysis, whole[i]),
            forall|i: int|
                0 <= i < prov_walk(*f, *analysis, current as int, visited@).len() ==> whole[chain.len() + i]
                    == #[trigger] prov_walk(*f, *analysis, current as int, visited@)[i],
        ensures
            chain@.len() == whole.len(),
            forall|i: int| 0 <= i < chain.len() ==> step_ok(#[trigger] chain@[i], *f, *analysis, whole[i]),
        decreases visited.len() - count_true(visited@),
    {
        if visited[current] {
            break;
        }
        let ghost before = visited@;
        let ghost w = prov_walk(*f, *analysis, current as int, before);
        proof {
            lemma_count_set(visited@, current as int);
            lemma_count_le(visited@.update(current as int, true));
        }
        visited.set(current, true);
        let reason = match &analysis.reasons[current] {
            Some(r) => r,
            None => {
                break;
            },
        };
        let mut detail = f.local_display(current);
        push_str(&mut detail, ": ");
        push_str(&mut detail, reason.detail.as_str());
        let ghost k = chain.len();
        chain.push(ProvenanceStep { detail, span: reason.span });
        proof {
            assert(w[0] == current);
            assert(whole[k as int] == current);
            assert(step_ok(chain@[k as int], *f, *analysis, whole[k as int]));
            assert forall|i: int| 0 <= i < chain.len() implies step_ok(
                #[trigger] chain@[i],
                *f,
                *analysis,
                whole[i],
            ) by {
                if i < k {
                    assert(chain@[i] == chain@.drop_last()[i]);
                }
            }
        }
        let next: Option<Local> = match &reason.kind {
            ReasonKind::Source => None,
            ReasonKind::DerivedFrom(uses) => if uses.len() > 0 {
                Some(uses[0])
            } else {
                None
            },
            ReasonKind::ControlDependent { branch } => match analysis.block_cause[*branch] {
                Some(c) => Some(c.cond),
                None => match &f.blocks[*branch].term.kind {
                    TermKind::Branch { cond, .. } => {
                        proof {
                            assert(block_wf(
                                f.blocks@[*branch as int],
                                f.blocks.len() as nat,
                                f.local_count as nat,
                            ));
                        }
                        Some(*cond)
                    },
                    _ => None,
                },
            },
        };
        assert(next == prov_next(*f, *analysis, current as int));
        match next {
            Some(nx) => {
                proof {
                    assert forall|i: int|
                        0 <= i < prov_walk(*f, *analysis, nx as int, visited@).len() implies whole[chain.len()
                        + i] == #[trigger] prov_walk(*f, *analysis, nx as int, visited@)[i] by {
                        assert(w[i + 1] == prov_walk(*f, *analysis, nx as int, visited@)[i]);
                    }
                }
                current = nx;
            },
            None => {
                break;
            },
        }
    }
    chain
}


/// The facts a recorded reason of a divergent local gives, read off the
/// position that justified it.
proof fn lemma_reason_facts(
    f: FnModel,
    a: Analysis,
    lt: Seq<int>,
    bt: Seq<int>,
    d: int,
)
    requires
        f.wf(),
        derivation(f, a.locals@, a.reasons@, a.block_divergent@, a.block_cause@, lt, bt),
        0 <= d < f.local_count,
        a.locals@[d] == Uniformity::Divergent,
    ensures
        a.reasons@[d] is Some,
        a.reasons@[d]->Some_0.kind matches ReasonKind::DerivedFrom(uses) ==> uses.len() == 1 && div_before(
            a.locals@,
            lt,
            uses@[0] as int,
            lt[d],
        ) && uses@[0] < f.local_count,
        a.reasons@[d]->Some_0.kind matches ReasonKind::ControlDependent { branch } ==> branch
            < f.blocks.len() && a.block_divergent@[branch as int] && bt[branch as int] < lt[d]
            && a.block_cause@[branch as int] is Some,
{
    assert(local_justified(f, a.locals@, a.reasons@, lt, a.block_divergent@, bt, d));
    let r = a.reasons@[d]->Some_0;
    let (b, j) = choose|b: int, j: int|
        #![trigger writes(f, b, j, d as Local)]
        live(f, b) && 0 <= j <= f.blocks@[b].stmts.len() && writes(f, b, j, d as Local) && site_justifies(
            f,
            a.locals@,
            lt,
            a.block_divergent@,
            bt,
            b,
            j,
            lt[d],
            r,
        );
    let blk = f.blocks@[b];
    assert(block_wf(blk, f.blocks.len() as nat, f.local_count as nat));
    if j < blk.stmts.len() {
        let st = blk.stmts@[j];
        assert(stmt_below(st, f.local_count as nat));
        if !st.opaque && any_div_at(st.uses@, a.locals@, lt, lt[d]) {
            let i = choose|i: int|
                #[trigger] first_div_at(st.uses@, a.locals@, lt, lt[d], i) && derived_reason(
                    r,
                    st.uses@[i],
                    st.span,
                    derived_detail(f, st.uses@[i]),
                );
        }
    } else {
        match blk.term.kind {
            TermKind::Call { callee, args, .. } => {
                if spec_result_base(callee.kind) != Some(Uniformity::Divergent) && any_div_at(
                    args@,
                    a.locals@,
                    lt,
                    lt[d],
                ) {
                    let i = choose|i: int|
                        #[trigger] first_div_at(args@, a.locals@, lt, lt[d], i) && derived_reason(
                            r,
                            args@[i],
                            blk.term.span,
                            call_derived_detail(f, callee.display@, args@[i]),
                        );
                }
            },
            _ => {},
        }
    }
    if r.kind is ControlDependent {
        assert(block_justified(f, a.locals@, lt, a.block_divergent@, a.block_cause@, bt, b));
    }
}

proof fn lemma_walk_to_source(
    f: FnModel,
    a: Analysis,
    lt: Seq<int>,
    bt: Seq<int>,
    cur: int,
    visited: Seq<bool>,
)
    requires
        f.wf(),
        derivation(f, a.locals@, a.reasons@, a.block_divergent@, a.block_cause@, lt, bt),
        0 <= cur < f.local_count,
        visited.len() == f.local_count,
        a.locals@[cur] == Uniformity::Divergent,
        forall|v: int|
            0 <= v < f.local_count && #[trigger] visited[v] ==> a.locals@[v] == Uniformity::Divergent && lt[v]
                > lt[cur],
    ensures
        prov_walk(f, a, cur, visited).len() > 0,
        prov_walk(f, a, cur, visited)[0] == cur,
        a.reasons@[prov_walk(f, a, cur, visited).last() as int] matches Some(r) && r.kind is Source,
    decreases visited.len() - count_true(visited),
{
    lemma_reason_facts(f, a, lt, bt, cur);
    assert(!visited[cur]);
    let v2 = visited.update(cur, true);
    lemma_count_set(visited, cur);
    lemma_count_le(v2);
    let r = a.reasons@[cur]->Some_0;
    match prov_next(f, a, cur) {
        Some(nx) => {
            if r.kind is ControlDependent {
                let b = r.kind->branch;
                assert(block_justified(f, a.locals@, lt, a.block_divergent@, a.block_cause@, bt, b as int));
            }
            assert(div_before(a.locals@, lt, nx as int, lt[cur]));
            lemma_walk_to_source(f, a, lt, bt, nx as int, v2);
            let w = prov_walk(f, a, cur, visited);
            assert(w =~= seq![cur as Local] + prov_walk(f, a, nx as int, v2));
        },
        None => {
            assert(prov_walk(f, a, cur, visited) =~= seq![cur as Local]);
        },
    }
}

/// An analysis result gives every index a provenance walk follows.
pub proof fn analysis_has_shape(f: FnModel, s: Summaries, a: Analysis)
    requires
        f.wf(),
        analysis_of(f, s, a),
    ensures
        analysis_shape(f, a),
{
    if a.irreducible {
        assert forall|l: int| 0 <= l < f.local_count implies match #[trigger] a.reasons@[l] {
            Some(r) => match r.kind {
                ReasonKind::DerivedFrom(uses) => uses.len() > 0 ==> uses@[0] < f.local_count,
                ReasonKind::ControlDependent { branch } => branch < f.blocks.len() && cause_cond_below(
                    a.block_cause@[branch as int],
                    f.local_count as nat,
                ),
                ReasonKind::Source => true,
            },
            None => true,
        } by {
            assert(a.locals@[l] == Uniformity::Divergent);
        }
    } else {
        let (lt, bt) = choose|lt: Seq<int>, bt: Seq<int>|
            derivation(f, a.locals@, a.reasons@, a.block_divergent@, a.block_cause@, lt, bt);
        assert forall|l: int| 0 <= l < f.local_count implies match #[trigger] a.reasons@[l] {
            Some(r) => match r.kind {
                ReasonKind::DerivedFrom(uses) => uses.len() > 0 ==> uses@[0] < f.local_count,
                ReasonKind::ControlDependent { branch } => branch < f.blocks.len() && cause_cond_below(
                    a.block_cause@[branch as int],
                    f.local_count as nat,
                ),
                ReasonKind::Source => true,
            },
            None => true,
        } by {
            assert(local_justified(f, a.locals@, a.reasons@, lt, a.block_divergent@, bt, l));
            if a.locals@[l] == Uniformity::Divergent {
                lemma_reason_facts(f, a, lt, bt, l);
                let r = a.reasons@[l]->Some_0;
                if r.kind is ControlDependent {
                    let b = r.kind->branch as int;
                    assert(block_justified(f, a.locals@, lt, a.block_divergent@, a.block_cause@, bt, b));
                    let c = a.block_cause@[b]->Some_0;
                    assert(block_wf(f.blocks@[c.block as int], f.blocks.len() as nat, f.local_count as nat));
                }
            }
        }
    }
}

/// The dataflow's rules hold of an analysis result on a reducible CFG: at
/// every reachable block, a statement that is opaque, reads a divergent
/// local, or sits in divergent control makes its destination divergent; a
/// branch on a divergent condition marks every block it controls; and a
/// local has a recorded reason exactly when it is divergent.
pub proof fn divergence_rules_hold(f: FnModel, s: Summaries, a: Analysis)
    requires
        analysis_of(f, s, a),
        !a.irreducible,
    ensures
        forall|b: int, j: int|
            live(f, b) && 0 <= j < f.blocks@[b].stmts.len() ==> ((#[trigger] f.blocks@[b].stmts@[j]).dest matches Some(
                d,
            ) ==> ((f.blocks@[b].stmts@[j].opaque || any_div(f.blocks@[b].stmts@[j].uses@, a.locals@)
                || a.block_divergent@[b]) ==> a.locals@[d as int] == Uniformity::Divergent)),
        forall|b: int, x: int|
            live(f, b) && 0 <= x < f.blocks.len() && #[trigger] controls(f, b, x) ==> (f.blocks@[b].term.kind matches TermKind::Branch {
                cond,
                ..
            } && a.locals@[cond as int] == Uniformity::Divergent ==> a.block_divergent@[x]),
        forall|l: int| 0 <= l < f.local_count ==> ((#[trigger] a.reasons@[l]) is Some <==> a.locals@[l] == Uniformity::Divergent),
{
    assert forall|b: int, j: int|
        live(f, b) && 0 <= j < f.blocks@[b].stmts.len() implies ((#[trigger] f.blocks@[b].stmts@[j]).dest matches Some(
            d,
        ) ==> ((f.blocks@[b].stmts@[j].opaque || any_div(f.blocks@[b].stmts@[j].uses@, a.locals@)
            || a.block_divergent@[b]) ==> a.locals@[d as int] == Uniformity::Divergent)) by {
        assert(site_closed_at(f, a.locals@, a.block_divergent@, b, j));
    }
    assert forall|b: int, x: int|
        live(f, b) && 0 <= x < f.blocks.len() && #[trigger] controls(f, b, x) implies (f.blocks@[b].term.kind matches TermKind::Branch {
            cond,
            ..
        } && a.locals@[cond as int] == Uniformity::Divergent ==> a.block_divergent@[x]) by {
        assert(site_closed_at(f, a.locals@, a.block_divergent@, b, f.blocks@[b].stmts.len() as int));
    }
    let (lt, bt) = choose|lt: Seq<int>, bt: Seq<int>|
        derivation(f, a.locals@, a.reasons@, a.block_divergent@, a.block_cause@, lt, bt);
    assert forall|l: int| 0 <= l < f.local_count implies ((#[trigger] a.reasons@[l]) is Some <==> a.locals@[l]
        == Uniformity::Divergent) by {
        assert(local_justified(f, a.locals@, a.reasons@, lt, a.block_divergent@, bt, l));
    }
}

proof fn lemma_barrier_blocks_listed(f: FnModel, s: Summaries, k: int)
    requires
        0 <= k <= f.blocks.len(),
    ensures
        forall|i: int, j: int|
            0 <= i < j < barrier_blocks(f, s, k).len() ==> #[trigger] barrier_blocks(f, s, k)[i]
                < #[trigger] barrier_blocks(f, s, k)[j],
        forall|i: int| 0 <= i < barrier_blocks(f, s, k).len() ==> #[trigger] barrier_blocks(f, s, k)[i] < k,
        forall|b: int|
            0 <= b < k ==> (barrier_blocks(f, s, k).contains(b as BlockId) <==> (live(f, b) && #[trigger] barrier_kind_at(
                f,
                s,
                b,
            ) is Some)),
    decreases k,
{
    if k > 0 {
        lemma_barrier_blocks_listed(f, s, k - 1);
        let p = barrier_blocks(f, s, k - 1);
        let q = barrier_blocks(f, s, k);
        assert forall|b: int| 0 <= b < k implies (q.contains(b as BlockId) <==> (live(f, b) && #[trigger] barrier_kind_at(
            f,
            s,
            b,
        ) is Some)) by {
            if q.contains(b as BlockId) {
                let i = choose|i: int| 0 <= i < q.len() && q[i] == b as BlockId;
                if b < k - 1 && i < p.len() {
                    assert(p[i] == q[i]);
                    assert(p.contains(b as BlockId));
                }
            }
            if b < k - 1 && p.contains(b as BlockId) {
                let i = choose|i: int| 0 <= i < p.len() && p[i] == b as BlockId;
                assert(q[i] == p[i]);
            }
            if b == k - 1 && live(f, b) && barrier_kind_at(f, s, b) is Some {
                assert(q[q.len() - 1] == b as BlockId);
            }
        }
    }
}

proof fn lemma_warp_blocks_listed(f: FnModel, s: Summaries, k: int)
    requires
        0 <= k <= f.blocks.len(),
    ensures
        forall|i: int, j: int|
            0 <= i < j < warp_blocks(f, s, k).len() ==> #[trigger] warp_blocks(f, s, k)[i]
                < #[trigger] warp_blocks(f, s, k)[j],
        forall|i: int| 0 <= i < warp_blocks(f, s, k).len() ==> #[trigger] warp_blocks(f, s, k)[i] < k,
        forall|b: int|
            0 <= b < k ==> (warp_blocks(f, s, k).contains(b as BlockId) <==> (live(f, b) && #[trigger] warp_kind_at(
                f,
                s,
                b,
            ) is Some)),
    decreases k,
{
    if k > 0 {
        lemma_warp_blocks_listed(f, s, k - 1);
        let p = warp_blocks(f, s, k - 1);
        let q = warp_blocks(f, s, k);
        assert forall|b: int| 0 <= b < k implies (q.contains(b as BlockId) <==> (live(f, b) && #[trigger] warp_kind_at(
            f,
            s,
            b,
        ) is Some)) by {
            if q.contains(b as BlockId) {
                let i = choose|i: int| 0 <= i < q.len() && q[i] == b as BlockId;
                if b < k - 1 && i < p.len() {
                    assert(p[i] == q[i]);
                    assert(p.contains(b as BlockId));
                }
            }
            if b < k - 1 && p.contains(b as BlockId) {
                let i = choose|i: int| 0 <= i < p.len() && p[i] == b as BlockId;
                assert(q[i] == p[i]);
            }
            if b == k - 1 && live(f, b) && warp_kind_at(f, s, b) is Some {
                assert(q[q.len() - 1] == b as BlockId);
            }
        }
    }
}

/// A value that differs from thread to thread by its nature — a thread
/// index witness, the old value an atomic read-modify-write returns, a
/// warp collective's result, a per-lane environment read — is divergent
/// wherever it is written in a reachable block, whatever its arguments.
pub proof fn per_thread_results_are_divergent(f: FnModel, s: Summaries, a: Analysis, b: int)
    requires
        analysis_of(f, s, a),
        live(f, b),
        f.blocks@[b].term.kind matches TermKind::Call { callee, dest: Some(d), .. } && d < f.local_count && (
        callee.kind == CallKind::ThreadIndexWitness || callee.kind == CallKind::AtomicRmw
            || callee.kind is WarpCollective || callee.kind == CallKind::DivergentEnvRead),
    ensures
        a.locals@[f.blocks@[b].term.kind->Call_dest->Some_0 as int] == Uniformity::Divergent,
{
    let d = f.blocks@[b].term.kind->Call_dest->Some_0 as int;
    if a.irreducible {
        assert(a.locals@[d] == Uniformity::Divergent);
    } else {
        assert(site_closed_at(f, a.locals@, a.block_divergent@, b, f.blocks@[b].stmts.len() as int));
    }
}

/// On a reducible CFG, a call that is not a per-thread source does not by
/// itself make its result divergent: a local whose only reachable writer
/// is such a call, in uniform control and on uniform arguments, stays
/// uniform.
pub proof fn other_calls_keep_uniform_results(f: FnModel, s: Summaries, a: Analysis, b: int, d: Local)
    requires
        analysis_of(f, s, a),
        !a.irreducible,
        live(f, b),
        d < f.local_count,
        f.blocks@[b].term.kind matches TermKind::Call { callee, args, dest: Some(x), .. } && x == d && !(callee.kind
            == CallKind::ThreadIndexWitness || callee.kind == CallKind::AtomicRmw || callee.kind is WarpCollective
            || callee.kind == CallKind::DivergentEnvRead) && (forall|i: int|
            0 <= i < args.len() ==> a.locals@[#[trigger] args@[i] as int] == Uniformity::Uniform),
        !a.block_divergent@[b],
        forall|b2: int, j2: int|
            live(f, b2) && 0 <= j2 <= f.blocks@[b2].stmts.len() && #[trigger] writes(f, b2, j2, d) ==> b2 == b && j2
                == f.blocks@[b2].stmts.len(),
    ensures
        a.locals@[d as int] == Uniformity::Uniform,
{
    if a.locals@[d as int] == Uniformity::Divergent {
        let (lt, bt) = choose|lt: Seq<int>, bt: Seq<int>|
            derivation(f, a.locals@, a.reasons@, a.block_divergent@, a.block_cause@, lt, bt);
        assert(local_justified(f, a.locals@, a.reasons@, lt, a.block_divergent@, bt, d as int));
        let (b2, j2) = choose|b2: int, j2: int|
            live(f, b2) && 0 <= j2 <= f.blocks@[b2].stmts.len() && writes(f, b2, j2, d) && site_justifies(
                f,
                a.locals@,
                lt,
                a.block_divergent@,
                bt,
                b2,
                j2,
                lt[d as int],
                a.reasons@[d as int]->Some_0,
            );
        assert(b2 == b && j2 == f.blocks@[b].stmts.len());
        let args = f.blocks@[b].term.kind->Call_args;
        if any_div_at(args@, a.locals@, lt, lt[d as int]) {
            let i = choose|i: int| 0 <= i < args.len() && div_before(a.locals@, lt, #[trigger] args@[i] as int, lt[d as int]);
            assert(a.locals@[args@[i] as int] == Uniformity::Uniform);
        }
    }
}

/// The barrier sites of an analysis are, in increasing block order,
/// exactly the reachable blocks whose call is a barrier (or may reach one
/// through a local callee, then marked interprocedural), and likewise the
/// warp-collective sites; a site reports a divergent cause only in a
/// divergent-control block, and on a reducible CFG always there.
pub proof fn sites_are_the_reachable_calls(f: FnModel, s: Summaries, a: Analysis)
    requires
        analysis_of(f, s, a),
    ensures
        forall|i: int, j: int| 0 <= i < j < a.barriers.len() ==> #[trigger] a.barriers@[i].block < #[trigger] a.barriers@[j].block,
        forall|b: int|
            0 <= b < f.blocks.len() ==> ((exists|i: int| 0 <= i < a.barriers.len() && #[trigger] a.barriers@[i].block == b)
                <==> (live(f, b) && #[trigger] barrier_kind_at(f, s, b) is Some)),
        forall|i: int|
            0 <= i < a.barriers.len() ==> barrier_kind_at(f, s, (#[trigger] a.barriers@[i]).block as int) == Some(
                a.barriers@[i].interprocedural,
            ) && (a.barriers@[i].divergent_cause is Some ==> a.block_divergent@[a.barriers@[i].block as int]) && (
            !a.irreducible && a.block_divergent@[a.barriers@[i].block as int] ==> a.barriers@[i].divergent_cause is Some),
        forall|i: int, j: int| 0 <= i < j < a.warp_ops.len() ==> #[trigger] a.warp_ops@[i].block < #[trigger] a.warp_ops@[j].block,
        forall|b: int|
            0 <= b < f.blocks.len() ==> ((exists|i: int| 0 <= i < a.warp_ops.len() && #[trigger] a.warp_ops@[i].block == b)
                <==> (live(f, b) && #[trigger] warp_kind_at(f, s, b) is Some)),
        forall|i: int|
            0 <= i < a.warp_ops.len() ==> warp_kind_at(f, s, (#[trigger] a.warp_ops@[i]).block as int) == Some(
                a.warp_ops@[i].interprocedural,
            ) && (a.warp_ops@[i].divergent_cause is Some ==> a.block_divergent@[a.warp_ops@[i].block as int]) && (
            !a.irreducible && a.block_divergent@[a.warp_ops@[i].block as int] ==> a.warp_ops@[i].divergent_cause is Some),
{
    let n = f.blocks.len() as int;
    lemma_barrier_blocks_listed(f, s, n);
    lemma_warp_blocks_listed(f, s, n);
    let bb = barrier_blocks(f, s, n);
    let wb = warp_blocks(f, s, n);
    assert forall|i: int| 0 <= i < a.barriers.len() implies (#[trigger] a.barriers@[i]).block == bb[i] by {
        assert(barrier_site_ok(a.barriers@[i], f, s, a.block_divergent@, a.block_cause@, bb[i] as int));
    }
    assert forall|i: int| 0 <= i < a.warp_ops.len() implies (#[trigger] a.warp_ops@[i]).block == wb[i] by {
        assert(warp_site_ok(a.warp_ops@[i], f, s, a.block_divergent@, a.block_cause@, wb[i] as int));
    }
    assert forall|b: int| 0 <= b < n implies ((exists|i: int| 0 <= i < a.barriers.len() && #[trigger] a.barriers@[i].block
        == b) <==> (live(f, b) && #[trigger] barrier_kind_at(f, s, b) is Some)) by {
        if live(f, b) && barrier_kind_at(f, s, b) is Some {
            assert(bb.contains(b as BlockId));
            let i = choose|i: int| 0 <= i < bb.len() && bb[i] == b as BlockId;
            assert(a.barriers@[i].block == b);
        }
        if exists|i: int| 0 <= i < a.barriers.len() && #[trigger] a.barriers@[i].block == b {
            let i = choose|i: int| 0 <= i < a.barriers.len() && #[trigger] a.barriers@[i].block == b;
            assert(bb[i] == b);
            assert(bb.contains(b as BlockId));
        }
    }
    assert forall|b: int| 0 <= b < n implies ((exists|i: int| 0 <= i < a.warp_ops.len() && #[trigger] a.warp_ops@[i].block
        == b) <==> (live(f, b) && #[trigger] warp_kind_at(f, s, b) is Some)) by {
        if live(f, b) && warp_kind_at(f, s, b) is Some {
            assert(wb.contains(b as BlockId));
            let i = choose|i: int| 0 <= i < wb.len() && wb[i] == b as BlockId;
            assert(a.warp_ops@[i].block == b);
        }
        if exists|i: int| 0 <= i < a.warp_ops.len() && #[trigger] a.warp_ops@[i].block == b {
            let i = choose|i: int| 0 <= i < a.warp_ops.len() && #[trigger] a.warp_ops@[i].block == b;
            assert(wb[i] == b);
            assert(wb.contains(b as BlockId));
        }
    }
    if !a.irreducible {
        let (lt, bt) = choose|lt: Seq<int>, bt: Seq<int>|
            derivation(f, a.locals@, a.reasons@, a.block_divergent@, a.block_cause@, lt, bt);
        assert forall|i: int| 0 <= i < a.barriers.len() implies (a.block_divergent@[(#[trigger] a.barriers@[i]).block as int]
            ==> a.barriers@[i].divergent_cause is Some) by {
            assert(block_justified(f, a.locals@, lt, a.block_divergent@, a.block_cause@, bt, bb[i] as int));
        }
        assert forall|i: int| 0 <= i < a.warp_ops.len() implies (a.block_divergent@[(#[trigger] a.warp_ops@[i]).block as int]
            ==> a.warp_ops@[i].divergent_cause is Some) by {
            assert(block_justified(f, a.locals@, lt, a.block_divergent@, a.block_cause@, bt, wb[i] as int));
        }
    }
}

/// An analysis calls its CFG irreducible exactly when the reducibility
/// test fails on the function's true dominator table, and then degrades:
/// every local divergent with a recorded reason, every reachable block in
/// divergent control, and only those.
pub proof fn irreducible_degrades(f: FnModel, s: Summaries, a: Analysis, idom: Seq<Option<BlockId>>)
    requires
        analysis_of(f, s, a),
        is_idom_table(fn_graph(f), 0, idom),
    ensures
        a.irreducible <==> !forward_edges_acyclic(fn_graph(f), 0, idom),
        a.irreducible ==> forall|l: int|
            0 <= l < f.local_count ==> #[trigger] a.locals@[l] == Uniformity::Divergent && a.reasons@[l] is Some,
        a.irreducible ==> forall|b: int| 0 <= b < f.blocks.len() ==> #[trigger] a.block_divergent@[b] == live(f, b),
{
}

/// Provenance is mandatory: for a divergent local of an analysis result,
/// the provenance walk is nonempty, starts at that local, and ends at a
/// local whose recorded reason is a source.
pub proof fn provenance_ends_at_a_source(f: FnModel, s: Summaries, a: Analysis, start: Local)
    requires
        f.wf(),
        analysis_of(f, s, a),
        start < f.local_count,
        a.locals@[start as int] == Uniformity::Divergent,
    ensures
        prov_walk(f, a, start as int, fresh(f.local_count as nat)).len() > 0,
        prov_walk(f, a, start as int, fresh(f.local_count as nat))[0] == start,
        a.reasons@[prov_walk(f, a, start as int, fresh(f.local_count as nat)).last() as int] matches Some(r)
            && r.kind is Source,
{
    let v = fresh(f.local_count as nat);
    if a.irreducible {
        assert(irreducible_reason(a.reasons@[start as int], f.span));
        assert(prov_walk(f, a, start as int, v) =~= seq![start]);
    } else {
        let (lt, bt) = choose|lt: Seq<int>, bt: Seq<int>|
            derivation(f, a.locals@, a.reasons@, a.block_divergent@, a.block_cause@, lt, bt);
        lemma_walk_to_source(f, a, lt, bt, start as int, v);
    }
}

/// The sites listed below `k` are reachable blocks.
proof fn lemma_site_blocks_live(f: FnModel, s: Summaries, k: int)
    ensures
        forall|i: int| 0 <= i < barrier_blocks(f, s, k).len() ==> live(f, #[trigger] barrier_blocks(f, s, k)[i] as int),
        forall|i: int| 0 <= i < warp_blocks(f, s, k).len() ==> live(f, #[trigger] warp_blocks(f, s, k)[i] as int),
    decreases k,
{
    if k > 0 {
        lemma_site_blocks_live(f, s, k - 1);
        let pb = barrier_blocks(f, s, k - 1);
        let pw = warp_blocks(f, s, k - 1);
        assert forall|i: int| 0 <= i < barrier_blocks(f, s, k).len() implies live(
            f,
            #[trigger] barrier_blocks(f, s, k)[i] as int,
        ) by {
            if i < pb.len() {
                assert(barrier_blocks(f, s, k)[i] == pb[i]);
            } else {
                assert(live(f, k - 1) && ((k - 1) as BlockId) as int == k - 1);
            }
        }
        assert forall|i: int| 0 <= i < warp_blocks(f, s, k).len() implies live(
            f,
            #[trigger] warp_blocks(f, s, k)[i] as int,
        ) by {
            if i < pw.len() {
                assert(warp_blocks(f, s, k)[i] == pw[i]);
            } else {
                assert(live(f, k - 1) && ((k - 1) as BlockId) as int == k - 1);
            }
        }
    }
}

/// A divergent local's recorded reason was recorded at a statement or a
/// terminator of the function.
proof fn lemma_reason_span(f: FnModel, a: Analysis, lt: Seq<int>, bt: Seq<int>, d: int, n: nat)
    requires
        f.wf(),
        spans_below(f, n),
        derivation(f, a.locals@, a.reasons@, a.block_divergent@, a.block_cause@, lt, bt),
        0 <= d < f.local_count,
        a.locals@[d] == Uniformity::Divergent,
    ensures
        a.reasons@[d] matches Some(r) && r.span < n,
{
    assert(local_justified(f, a.locals@, a.reasons@, lt, a.block_divergent@, bt, d));
    let r = a.reasons@[d]->Some_0;
    let (b, j) = choose|b: int, j: int|
        #![trigger writes(f, b, j, d as Local)]
        live(f, b) && 0 <= j <= f.blocks@[b].stmts.len() && writes(f, b, j, d as Local) && site_justifies(
            f,
            a.locals@,
            lt,
            a.block_divergent@,
            bt,
            b,
            j,
            lt[d],
            r,
        );
    let blk = f.blocks@[b];
    if j < blk.stmts.len() {
        let st = blk.stmts@[j];
        assert(st.span < n);
        if !st.opaque && any_div_at(st.uses@, a.locals@, lt, lt[d]) {
            let i = choose|i: int|
                #[trigger] first_div_at(st.uses@, a.locals@, lt, lt[d], i) && derived_reason(
                    r,
                    st.uses@[i],
                    st.span,
                    derived_detail(f, st.uses@[i]),
                );
        }
    } else {
        assert(blk.term.span < n);
        match blk.term.kind {
            TermKind::Call { callee, args, .. } => {
                if spec_result_base(callee.kind) != Some(Uniformity::Divergent) && any_div_at(
                    args@,
                    a.locals@,
                    lt,
                    lt[d],
                ) {
                    let i = choose|i: int|
                        #[trigger] first_div_at(args@, a.locals@, lt, lt[d], i) && derived_reason(
                            r,
                            args@[i],
                            blk.term.span,
                            call_derived_detail(f, callee.display@, args@[i]),
                        );
                }
            },
            _ => {},
        }
    }
}

/// The cause a site at block `b` reports, if any, is a reachable branch of
/// the function: its span is one the function names and its condition one
/// of its locals.
proof fn lemma_site_cause(f: FnModel, s: Summaries, a: Analysis, b: int, n: nat)
    requires
        f.wf(),
        spans_below(f, n),
        analysis_of(f, s, a),
        0 <= b < f.blocks.len(),
    ensures
        site_cause(a.block_divergent@, a.block_cause@, b) matches Some(c) ==> c.span < n && c.cond
            < f.local_count,
{
    if a.irreducible {
        assert(a.block_cause@[b] is None);
    } else {
        let (lt, bt) = choose|lt: Seq<int>, bt: Seq<int>|
            derivation(f, a.locals@, a.reasons@, a.block_divergent@, a.block_cause@, lt, bt);
        assert(block_justified(f, a.locals@, lt, a.block_divergent@, a.block_cause@, bt, b));
        if a.block_divergent@[b] {
            let c = a.block_cause@[b]->Some_0;
            assert(block_wf(f.blocks@[c.block as int], f.blocks.len() as nat, f.local_count as nat));
        }
    }
}

/// Every span an analysis result records is one its function names, so a
/// table holding the function's spans holds them all; every branch cause
/// it reports names a local of the function.
pub proof fn analysis_spans_within(f: FnModel, s: Summaries, a: Analysis, n: nat)
    requires
        f.wf(),
        spans_below(f, n),
        analysis_of(f, s, a),
    ensures
        forall|l: int| 0 <= l < a.reasons.len() ==> (#[trigger] a.reasons@[l] matches Some(r) ==> r.span < n),
        forall|i: int|
            0 <= i < a.barriers.len() ==> (#[trigger] a.barriers@[i]).span < n && (a.barriers@[i].divergent_cause matches Some(
                c,
            ) ==> c.span < n && c.cond < f.local_count),
        forall|i: int|
            0 <= i < a.warp_ops.len() ==> (#[trigger] a.warp_ops@[i]).span < n && (a.warp_ops@[i].divergent_cause matches Some(
                c,
            ) ==> c.span < n && c.cond < f.local_count),
{
    assert forall|l: int| 0 <= l < a.reasons.len() implies (#[trigger] a.reasons@[l] matches Some(r) ==> r.span
        < n) by {
        if a.irreducible {
            assert(irreducible_reason(a.reasons@[l], f.span));
        } else {
            let (lt, bt) = choose|lt: Seq<int>, bt: Seq<int>|
                derivation(f, a.locals@, a.reasons@, a.block_divergent@, a.block_cause@, lt, bt);
            assert(local_justified(f, a.locals@, a.reasons@, lt, a.block_divergent@, bt, l));
            if a.locals@[l] == Uniformity::Divergent {
                lemma_reason_span(f, a, lt, bt, l, n);
            }
        }
    }
    let k = f.blocks.len() as int;
    lemma_site_blocks_live(f, s, k);
    assert forall|i: int| 0 <= i < a.barriers.len() implies (#[trigger] a.barriers@[i]).span < n
        && (a.barriers@[i].divergent_cause matches Some(c) ==> c.span < n && c.cond < f.local_count) by {
        let b = barrier_blocks(f, s, k)[i] as int;
        assert(barrier_site_ok(a.barriers@[i], f, s, a.block_divergent@, a.block_cause@, b));
        assert(live(f, b));
        lemma_site_cause(f, s, a, b, n);
    }
    assert forall|i: int| 0 <= i < a.warp_ops.len() implies (#[trigger] a.warp_ops@[i]).span < n
        && (a.warp_ops@[i].divergent_cause matches Some(c) ==> c.span < n && c.cond < f.local_count) by {
        let b = warp_blocks(f, s, k)[i] as int;
        assert(warp_site_ok(a.warp_ops@[i], f, s, a.block_divergent@, a.block_cause@, b));
        assert(live(f, b));
        lemma_site_cause(f, s, a, b, n);
    }
}

/// What `analyze` returns for `f`: tables covering the function; for an
/// irreducible CFG (reported only with an edge that proves it) everything
/// degraded; otherwise a fixpoint derived from the rules; the coverage
/// counts; and the barrier and warp-collective sites in block order.
pub open spec fn analysis_of(f: FnModel, s: Summaries, r: Analysis) -> bool {
    &&& (r.locals.len() == f.local_count)
    &&& (r.reasons.len() == f.local_count)
    &&& (r.block_divergent.len() == f.blocks.len())
    &&& (r.block_cause.len() == f.blocks.len())
    &&& (forall|idom: Seq<Option<BlockId>>|
        #[trigger] is_idom_table(fn_graph(f), 0, idom) ==> (r.irreducible <==> !forward_edges_acyclic(
            fn_graph(f),
            0,
            idom,
        )))
    &&& (r.irreducible ==> exists|idom: Seq<Option<BlockId>>|
        #[trigger] is_idom_table(fn_graph(f), 0, idom) && has_bad_back_edge(fn_graph(f), 0, idom))
    &&& (r.irreducible ==> forall|l: int|
        0 <= l < f.local_count ==> #[trigger] r.locals@[l] == Uniformity::Divergent && irreducible_reason(
            r.reasons@[l],
            f.span,
        ))
    &&& (r.irreducible ==> forall|b: int|
        0 <= b < f.blocks.len() ==> (#[trigger] r.block_divergent@[b] == live(f, b) && r.block_cause@[b] is None))
    &&& (!r.irreducible ==> flow_closed(f, r.locals@, r.block_divergent@))
    &&& (!r.irreducible ==> exists|lt: Seq<int>, bt: Seq<int>|
        derivation(f, r.locals@, r.reasons@, r.block_divergent@, r.block_cause@, lt, bt))
    &&& (r.analyzed_statements == analyzed_upto(f, f.blocks.len() as int))
    &&& (r.opaque_statements == opaque_upto(f, f.blocks.len() as int))
    &&& (r.barriers.len() == barrier_blocks(f, s, f.blocks.len() as int).len())
    &&& (forall|i: int|
        0 <= i < r.barriers.len() ==> barrier_site_ok(
            #[trigger] r.barriers@[i],
            f,
            s,
            r.block_divergent@,
            r.block_cause@,
            barrier_blocks(f, s, f.blocks.len() as int)[i] as int,
        ))
    &&& (r.warp_ops.len() == warp_blocks(f, s, f.blocks.len() as int).len())
    &&& (forall|i: int|
        0 <= i < r.warp_ops.len() ==> warp_site_ok(
            #[trigger] r.warp_ops@[i],
            f,
            s,
            r.block_divergent@,
            r.block_cause@,
            warp_blocks(f, s, f.blocks.len() as int)[i] as int,
        ))
}

/// Run the uniformity dataflow over one function.
///
/// For a reducible CFG the result is the least fixpoint of the dataflow
/// rules over the reachable blocks: closed under every rule, and every
/// divergent local and block derived, by the reason recorded, from
/// premises that held strictly earlier. An irreducible CFG, reported with
/// the offending edge's existence, degrades every local to divergent and
/// every reachable block to divergent-control.
pub fn analyze(f: &FnModel, summaries: &Summaries) -> (r: Analysis)
    requires
        f.wf(),
        f.blocks.len() < usize::MAX,
        fn_size(*f, f.blocks.len() as int) <= usize::MAX,
        summaries_cover(*f, *summaries),
    ensures
        analysis_of(*f, *summaries, r),
{
    let cfg = Cfg::build(f);
    proof {
        assert(cfg.g() =~= fn_graph(*f));
    }
    let reach = reachable(&cfg, 0);
    let idom = dominators(&cfg, 0);
    proof {
        lemma_idom_table_is_forest(cfg.g(), 0, idom@);
    }
    let irreducible = !is_reducible(&cfg, 0, &idom);
    proof {
        assert forall|t: Seq<Option<BlockId>>| #[trigger] is_idom_table(fn_graph(*f), 0, t) implies (irreducible
            <==> !forward_edges_acyclic(fn_graph(*f), 0, t)) by {
            lemma_idom_table_unique(fn_graph(*f), 0, t, idom@);
        }
    }
    let exits = exit_blocks(f);
    let ipdom = post_dominators(&cfg, &exits);
    let ghost mut wlt: Seq<int> = Seq::empty();
    let ghost mut wbt: Seq<int> = Seq::empty();
    let (locals, reasons, block_divergent, block_cause) = if irreducible {
        degrade(f, &reach)
    } else {
        let x = fixpoint(f, &cfg, &reach, &ipdom);
        proof {
            let (a, c) = choose|a: Seq<int>, c: Seq<int>| derivation(*f, x.0@, x.1@, x.2@, x.3@, a, c);
            wlt = a;
            wbt = c;
        }
        x
    };
    assert(!irreducible ==> derivation(*f, locals@, reasons@, block_divergent@, block_cause@, wlt, wbt));
    let (analyzed, opaque) = coverage(f, &reach);
    let (barriers, warp_ops) = collect_sites(f, summaries, &reach, &block_divergent, &block_cause);
    let r = Analysis {
        locals,
        reasons,
        block_divergent,
        block_cause,
        irreducible,
        analyzed_statements: analyzed,
        opaque_statements: opaque,
        barriers,
        warp_ops,
    };
    assert(!r.irreducible ==> derivation(
        *f,
        r.locals@,
        r.reasons@,
        r.block_divergent@,
        r.block_cause@,
        wlt,
        wbt,
    ));
    r
}

fn all_false(n: usize) -> (r: Vec<bool>)
    ensures
        r.len() == n,
        forall|i: int| 0 <= i < n ==> !#[trigger] r@[i],
        count_true(r@) == 0,
{
    let mut v: Vec<bool> = Vec::new();
    let mut i: usize = 0;
    while i < n
        invariant
            i <= n,
            v.len() == i,
            forall|j: int| 0 <= j < i ==> !#[trigger] v@[j],
            count_true(v@) == 0,
        decreases n - i,
    {
        let ghost before = v@;
        v.push(false);
        assert(v@.drop_last() =~= before);
        i = i + 1;
    }
    v
}

impl Summaries {
    /// Fixpoint over the local call graph: a function may execute a barrier
    /// (warp collective) exactly when a chain of local calls leads from it
    /// to a function that calls one directly.
    pub fn compute(fns: &[FnModel]) -> (r: Summaries)
        requires
            summary_callees_in_range(fns@),
        ensures
            r.may_contain_barrier.len() == fns.len(),
            r.may_contain_warp_op.len() == fns.len(),
            forall|i: int|
                0 <= i < fns.len() ==> (#[trigger] r.may_contain_barrier@[i] <==> may_reach_barrier(fns@, i)),
            forall|i: int|
                0 <= i < fns.len() ==> (#[trigger] r.may_contain_warp_op@[i] <==> may_reach_warp_op(fns@, i)),
    {
        let n = fns.len();
        let mut barrier = all_false(n);
        let mut warp = all_false(n);
        let mut changed = true;
        while changed
            invariant
                n == fns.len(),
                summary_callees_in_range(fns@),
                barrier.len() == n,
                warp.len() == n,
                forall|i: int| 0 <= i < n && #[trigger] barrier@[i] ==> may_reach_barrier(fns@, i),
                forall|i: int| 0 <= i < n && #[trigger] warp@[i] ==> may_reach_warp_op(fns@, i),
                !changed ==> summaries_closed(fns@, barrier@, warp@),
            decreases 2 * n - count_true(barrier@) - count_true(warp@) + if changed {
                1int
            } else {
                0int
            },
        {
            let ghost b0 = barrier@;
            let ghost w0 = warp@;
            proof {
                lemma_count_le(barrier@);
                lemma_count_le(warp@);
            }
            changed = false;
            let mut i: usize = 0;
            while i < n
                invariant
                    n == fns.len(),
                    summary_callees_in_range(fns@),
                    barrier.len() == n,
                    warp.len() == n,
                    i <= n,
                    b0.len() == n,
                    w0.len() == n,
                    forall|x: int| 0 <= x < n && #[trigger] barrier@[x] ==> may_reach_barrier(fns@, x),
                    forall|x: int| 0 <= x < n && #[trigger] warp@[x] ==> may_reach_warp_op(fns@, x),
                    count_true(barrier@) >= count_true(b0),
                    count_true(warp@) >= count_true(w0),
                    changed ==> count_true(barrier@) + count_true(warp@) > count_true(b0) + count_true(w0),
                    !changed ==> barrier@ == b0 && warp@ == w0,
                    !changed ==> forall|x: int, k: int|
                        0 <= x < i && 0 <= k < fns@[x].blocks.len() ==> #[trigger] site_closed(
                            fns@,
                            barrier@,
                            warp@,
                            x,
                            k,
                        ),
                decreases n - i,
            {
                let f = &fns[i];
                let nb = f.blocks.len();
                let mut k: usize = 0;
                while k < nb
                    invariant
                        n == fns.len(),
                        summary_callees_in_range(fns@),
                        f == fns@[i as int],
                        nb == f.blocks.len(),
                        barrier.len() == n,
                        warp.len() == n,
                        i < n,
                        k <= nb,
                        b0.len() == n,
                        w0.len() == n,
                        forall|x: int| 0 <= x < n && #[trigger] barrier@[x] ==> may_reach_barrier(fns@, x),
                        forall|x: int| 0 <= x < n && #[trigger] warp@[x] ==> may_reach_warp_op(fns@, x),
                        count_true(barrier@) >= count_true(b0),
                        count_true(warp@) >= count_true(w0),
                        changed ==> count_true(barrier@) + count_true(warp@) > count_true(b0) + count_true(
                            w0,
                        ),
                        !changed ==> barrier@ == b0 && warp@ == w0,
                        !changed ==> forall|x: int, k2: int|
                            (0 <= x < i && 0 <= k2 < fns@[x].blocks.len()) || (x == i && 0 <= k2 < k)
                                ==> #[trigger] site_closed(fns@, barrier@, warp@, x, k2),
                    decreases nb - k,
                {
                    if let TermKind::Call { callee, .. } = &f.blocks[k].term.kind {
                        let (b, w) = match callee.kind {
                            CallKind::Barrier => (true, false),
                            CallKind::WarpCollective { .. } => (false, true),
                            _ => match callee.local_fn {
                                Some(c) => {
                                    assert(local_call_at(fns@[i as int].blocks@[k as int].term.kind, c));
                                    (barrier[c], warp[c])
                                },
                                None => (false, false),
                            },
                        };
                        proof {
                            if b {
                                if callee.kind == CallKind::Barrier {
                                    assert(barrier_call_at(f.blocks@[k as int].term.kind));
                                    lemma_single_chain(fns@, i);
                                    assert(call_chain(fns@, seq![i]));
                                } else {
                                    let c = callee.local_fn.unwrap();
                                    assert(local_call_at(f.blocks@[k as int].term.kind, c));
                                    let p = choose|p: Seq<FnId>|
                                        #[trigger] call_chain(fns@, p) && p[0] == c && calls_barrier(
                                            fns@[p.last() as int],
                                        );
                                    lemma_chain_prepend(fns@, i, p);
                                }
                                assert(may_reach_barrier(fns@, i as int));
                            }
                            if w {
                                if callee.kind is WarpCollective {
                                    assert(warp_call_at(f.blocks@[k as int].term.kind));
                                    lemma_single_chain(fns@, i);
                                    assert(call_chain(fns@, seq![i]));
                                } else {
                                    let c = callee.local_fn.unwrap();
                                    assert(local_call_at(f.blocks@[k as int].term.kind, c));
                                    let p = choose|p: Seq<FnId>|
                                        #[trigger] call_chain(fns@, p) && p[0] == c && calls_warp_op(
                                            fns@[p.last() as int],
                                        );
                                    lemma_chain_prepend(fns@, i, p);
                                }
                                assert(may_reach_warp_op(fns@, i as int));
                            }
                        }
                        if b && !barrier[i] {
                            proof {
                                lemma_count_set(barrier@, i as int);
                            }
                            barrier.set(i, true);
                            changed = true;
                        }
                        if w && !warp[i] {
                            proof {
                                lemma_count_set(warp@, i as int);
                            }
                            warp.set(i, true);
                            changed = true;
                        }
                        assert(!changed ==> site_closed(fns@, barrier@, warp@, i as int, k as int));
                    }
                    k = k + 1;
                }
                i = i + 1;
            }
            proof {
                lemma_count_le(barrier@);
                lemma_count_le(warp@);
            }
        }
        proof {
            assert forall|i: int| 0 <= i < n implies (barrier@[i] <==> may_reach_barrier(fns@, i)) && (
            warp@[i] <==> may_reach_warp_op(fns@, i)) by {
                if may_reach_barrier(fns@, i) {
                    let p = choose|p: Seq<FnId>|
                        #[trigger] call_chain(fns@, p) && p[0] == i && calls_barrier(fns@[p.last() as int]);
                    lemma_closed_chain(fns@, barrier@, warp@, p);
                }
                if may_reach_warp_op(fns@, i) {
                    let p = choose|p: Seq<FnId>|
                        #[trigger] call_chain(fns@, p) && p[0] == i && calls_warp_op(fns@[p.last() as int]);
                    lemma_closed_chain(fns@, barrier@, warp@, p);
                }
            }
        }
        Summaries { may_contain_barrier: barrier, may_contain_warp_op: warp }
    }
}

} // verus!
