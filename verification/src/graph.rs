//! CFG algorithms: reachability, reverse postorder, dominators,
//! post-dominators, reducibility, and divergence regions.
//!
//! Everything is stated over the successor relation as a `Seq<Seq<_>>`:
//! paths, reachability, and dominance in the textbook sense. Post-dominators
//! are dominators of the reversed CFG with a virtual exit fed only by the
//! given exit blocks; blocks that cannot reach an exit have none.
use vstd::prelude::*;

use crate::model::{block_wf, copy_ids, BlockId, FnModel};

verus! {

/// A graph, as each node's successor list.
pub type Graph = Seq<Seq<BlockId>>;

/// The successor lists of a vector of vectors.
pub open spec fn graph_of(v: Seq<Vec<BlockId>>) -> Graph {
    Seq::new(v.len(), |i: int| v[i]@)
}

/// Every edge targets a node of the graph.
pub open spec fn edges_in_range(g: Graph) -> bool {
    forall|b: int, k: int| 0 <= b < g.len() && 0 <= k < g[b].len() ==> 0 <= #[trigger] g[b][k] < g.len()
}

/// `b` is a successor of `a`.
pub open spec fn edge(g: Graph, a: int, b: int) -> bool {
    0 <= a < g.len() && g[a].contains(b as BlockId) && 0 <= b
}

/// `p` is a walk along edges (at least one node).
pub open spec fn is_path(g: Graph, p: Seq<BlockId>) -> bool {
    &&& p.len() >= 1
    &&& forall|i: int| 0 <= i < p.len() ==> #[trigger] p[i] < g.len()
    &&& forall|i: int| 0 <= i < p.len() - 1 ==> edge(g, #[trigger] p[i] as int, p[i + 1] as int)
}

/// A walk that never visits `x` (when one is named).
pub open spec fn avoids(p: Seq<BlockId>, x: Option<BlockId>) -> bool {
    x matches Some(v) ==> forall|i: int| 0 <= i < p.len() ==> #[trigger] p[i] != v
}

/// `b` is reachable from one of `seeds` along a walk that avoids `x`.
pub open spec fn reach_from(g: Graph, seeds: Seq<BlockId>, x: Option<BlockId>, b: int) -> bool {
    exists|p: Seq<BlockId>|
        #![trigger is_path(g, p), p.last()]
        is_path(g, p) && seeds.contains(p[0]) && p.last() == b && avoids(p, x)
}

/// `b` is reachable from `a`.
pub open spec fn reaches(g: Graph, a: BlockId, b: int) -> bool {
    reach_from(g, seq![a], None, b)
}

/// `b` is reachable from `a` along a walk that never visits `x`.
pub open spec fn reaches_avoiding(g: Graph, a: BlockId, b: int, x: BlockId) -> bool {
    reach_from(g, seq![a], Some(x), b)
}

/// `d` dominates `b` (reflexively): `b` is reachable from `entry`, and
/// every walk from `entry` to `b` visits `d`.
pub open spec fn dom(g: Graph, entry: BlockId, d: BlockId, b: BlockId) -> bool {
    reaches(g, entry, b as int) && (d == b || !reaches_avoiding(g, entry, b as int, d))
}

/// `d` strictly dominates `b`.
pub open spec fn sdom(g: Graph, entry: BlockId, d: BlockId, b: BlockId) -> bool {
    d != b && dom(g, entry, d, b)
}

/// `d` is the immediate dominator of `b`: a strict dominator that every
/// other strict dominator of `b` dominates.
pub open spec fn is_idom(g: Graph, entry: BlockId, b: BlockId, d: BlockId) -> bool {
    &&& sdom(g, entry, d, b)
    &&& forall|d2: BlockId| #[trigger] sdom(g, entry, d2, b) ==> dom(g, entry, d2, d)
}

/// What an immediate-dominator table holds for every block: the entry is
/// its own, a block with an immediate dominator has it, and no other block
/// has one.
pub open spec fn is_idom_table(g: Graph, entry: BlockId, idom: Seq<Option<BlockId>>) -> bool {
    &&& idom.len() == g.len()
    &&& idom[entry as int] == Some(entry)
    &&& forall|b: int| 0 <= b < g.len() && b != entry ==> idom_slot(g, entry, b, #[trigger] idom[b])
}

/// What the table holds for a block other than the entry.
pub open spec fn idom_slot(g: Graph, entry: BlockId, b: int, v: Option<BlockId>) -> bool {
    match v {
        Some(d) => is_idom(g, entry, b as BlockId, d),
        None => forall|d: BlockId| !#[trigger] is_idom(g, entry, b as BlockId, d),
    }
}

/// Block `a` once for every occurrence of `c` in `row`, `a`'s successor
/// list.
pub open spec fn edges_into(row: Seq<BlockId>, c: BlockId, a: BlockId) -> Seq<BlockId>
    decreases row.len(),
{
    if row.len() == 0 {
        Seq::empty()
    } else {
        edges_into(row.drop_last(), c, a) + if row.last() == c {
            seq![a]
        } else {
            Seq::empty()
        }
    }
}

/// The predecessor list of `c` among blocks below `n`: one entry per edge
/// into `c`, in increasing order of the source block.
pub open spec fn pred_list(g: Graph, c: BlockId, n: int) -> Seq<BlockId>
    decreases n,
{
    if n <= 0 {
        Seq::empty()
    } else {
        pred_list(g, c, n - 1) + edges_into(g[n - 1], c, (n - 1) as BlockId)
    }
}

proof fn lemma_edges_into_count(row: Seq<BlockId>, c: BlockId, a: BlockId, x: BlockId)
    ensures
        edges_into(row, c, a).to_multiset().count(x) == (if x == a {
            row.to_multiset().count(c)
        } else {
            0
        }),
        forall|i: int| 0 <= i < edges_into(row, c, a).len() ==> #[trigger] edges_into(row, c, a)[i] == a,
    decreases row.len(),
{
    broadcast use vstd::multiset::group_multiset_axioms;

    if row.len() == 0 {
        vstd::seq_lib::to_multiset_contains(edges_into(row, c, a), x);
        vstd::seq_lib::to_multiset_contains(row, c);
    } else {
        let p = row.drop_last();
        lemma_edges_into_count(p, c, a, x);
        let tail: Seq<BlockId> = if row.last() == c {
            seq![a]
        } else {
            Seq::empty()
        };
        vstd::seq_lib::lemma_multiset_commutative(edges_into(p, c, a), tail);
        assert(p.push(row.last()) =~= row);
        vstd::seq_lib::to_multiset_build(p, row.last());
        if row.last() == c {
            assert(tail =~= Seq::<BlockId>::empty().push(a));
            vstd::seq_lib::to_multiset_build(Seq::<BlockId>::empty(), a);
            vstd::seq_lib::to_multiset_contains(Seq::<BlockId>::empty(), x);
        } else {
            vstd::seq_lib::to_multiset_contains(tail, x);
        }
        let e = edges_into(row, c, a);
        assert forall|i: int| 0 <= i < e.len() implies #[trigger] e[i] == a by {
            if i < edges_into(p, c, a).len() {
                assert(e[i] == edges_into(p, c, a)[i]);
            }
        }
    }
}

/// The predecessor list of `c` among blocks below `n` holds each block `b`
/// below `n` once for every edge from `b` to `c`, no other block, and in
/// non-decreasing order.
pub proof fn pred_list_counts_edges(g: Graph, c: BlockId, n: int, b: BlockId)
    requires
        0 <= n <= g.len(),
        g.len() <= usize::MAX,
    ensures
        pred_list(g, c, n).to_multiset().count(b) == (if b < n {
            g[b as int].to_multiset().count(c)
        } else {
            0
        }),
        forall|i: int, j: int| 0 <= i <= j < pred_list(g, c, n).len() ==> #[trigger] pred_list(g, c, n)[i] <= #[trigger] pred_list(g, c, n)[j],
        forall|i: int| 0 <= i < pred_list(g, c, n).len() ==> #[trigger] pred_list(g, c, n)[i] < n,
    decreases n,
{
    broadcast use vstd::multiset::group_multiset_axioms;

    if n <= 0 {
        vstd::seq_lib::to_multiset_contains(pred_list(g, c, n), b);
    } else {
        let a = (n - 1) as BlockId;
        let front = pred_list(g, c, n - 1);
        let e = edges_into(g[n - 1], c, a);
        pred_list_counts_edges(g, c, n - 1, b);
        lemma_edges_into_count(g[n - 1], c, a, b);
        vstd::seq_lib::lemma_multiset_commutative(front, e);
        let all = pred_list(g, c, n);
        assert(all == front + e);
        assert forall|i: int| 0 <= i < all.len() implies #[trigger] all[i] < n by {
            if i < front.len() {
                assert(all[i] == front[i]);
            } else {
                assert(all[i] == e[i - front.len()]);
            }
        }
        assert forall|i: int, j: int| 0 <= i <= j < all.len() implies #[trigger] all[i] <= #[trigger] all[j] by {
            if j < front.len() {
                assert(all[i] == front[i] && all[j] == front[j]);
            } else if i < front.len() {
                assert(all[i] == front[i]);
                assert(front[i] < n - 1);
                assert(all[j] == e[j - front.len()]);
            } else {
                assert(all[i] == e[i - front.len()]);
                assert(all[j] == e[j - front.len()]);
            }
        }
    }
}

/// A control-flow graph as successor and predecessor lists.
pub struct Cfg {
    pub succs: Vec<Vec<BlockId>>,
    pub preds: Vec<Vec<BlockId>>,
}

impl Cfg {
    /// The successor relation.
    pub open spec fn g(&self) -> Graph {
        graph_of(self.succs@)
    }

    /// Both tables cover the same nodes and every successor is a node.
    pub open spec fn wf(&self) -> bool {
        &&& self.succs.len() == self.preds.len()
        &&& edges_in_range(self.g())
    }

    /// The CFG of a function model: block `b`'s successors in order, and
    /// `a` listed among `b`'s predecessors exactly when `b` is among `a`'s
    /// successors.
    pub fn build(f: &FnModel) -> (r: Cfg)
        requires
            f.wf(),
        ensures
            r.wf(),
            r.succs.len() == f.blocks.len(),
            forall|b: int| 0 <= b < f.blocks.len() ==> #[trigger] r.succs@[b]@ == f.succs_of(b),
            forall|a: int, b: int|
                0 <= a < f.blocks.len() && 0 <= b < f.blocks.len() ==> (r.preds@[b]@.contains(
                    a as BlockId,
                ) <==> r.succs@[a]@.contains(b as BlockId)),
            forall|c: int|
                0 <= c < f.blocks.len() ==> #[trigger] r.preds@[c]@ == pred_list(
                    r.g(),
                    c as BlockId,
                    f.blocks.len() as int,
                ),
    {
        let ghost gf: Graph = Seq::new(f.blocks.len() as nat, |x: int| f.succs_of(x));
        let n = f.blocks.len();
        let mut succs: Vec<Vec<BlockId>> = Vec::new();
        let mut preds: Vec<Vec<BlockId>> = Vec::new();
        let mut i: usize = 0;
        while i < n
            invariant
                i <= n,
                n == f.blocks.len(),
                preds.len() == i,
                forall|b: int| 0 <= b < i ==> (#[trigger] preds@[b])@.len() == 0,
            decreases n - i,
        {
            preds.push(Vec::new());
            i = i + 1;
        }
        assert forall|c: int| 0 <= c < n implies #[trigger] preds@[c]@ == pred_list(gf, c as BlockId, 0) by {
            assert(preds@[c]@ =~= Seq::<BlockId>::empty());
        }
        let mut b: usize = 0;
        while b < n
            invariant
                f.wf(),
                b <= n,
                n == f.blocks.len(),
                succs.len() == b,
                preds.len() == n,
                forall|x: int| 0 <= x < b ==> #[trigger] succs@[x]@ == f.succs_of(x),
                forall|a: int, c: int|
                    0 <= a < n && 0 <= c < n ==> (#[trigger] preds@[c]@.contains(a as BlockId)
                        <==> (a < b && f.succs_of(a).contains(c as BlockId))),
                forall|c: int, k: int|
                    0 <= c < n && 0 <= k < preds@[c]@.len() ==> #[trigger] preds@[c]@[k] < b,
                gf == Seq::new(f.blocks.len() as nat, |x: int| f.succs_of(x)),
                forall|c: int| 0 <= c < n ==> #[trigger] preds@[c]@ == pred_list(gf, c as BlockId, b as int),
            decreases n - b,
        {
            let row = f.successors(b);
            let mut k: usize = 0;
            assert forall|c: int| 0 <= c < n implies #[trigger] preds@[c]@ == pred_list(gf, c as BlockId, b as int)
                + edges_into(row@.take(0), c as BlockId, b as BlockId) by {
                assert(preds@[c]@ =~= pred_list(gf, c as BlockId, b as int) + edges_into(
                    row@.take(0),
                    c as BlockId,
                    b as BlockId,
                ));
            }
            while k < row.len()
                invariant
                    f.wf(),
                    b < n,
                    n == f.blocks.len(),
                    preds.len() == n,
                    row@ == f.succs_of(b as int),
                    k <= row.len(),
                    forall|a: int, c: int|
                        0 <= a < n && 0 <= c < n ==> (#[trigger] preds@[c]@.contains(a as BlockId)
                            <==> ((a < b && f.succs_of(a).contains(c as BlockId)) || (a == b
                            && row@.take(k as int).contains(c as BlockId)))),
                    forall|c: int, j: int|
                        0 <= c < n && 0 <= j < preds@[c]@.len() ==> #[trigger] preds@[c]@[j] <= b,
                    gf == Seq::new(f.blocks.len() as nat, |x: int| f.succs_of(x)),
                    forall|c: int|
                        0 <= c < n ==> #[trigger] preds@[c]@ == pred_list(gf, c as BlockId, b as int) + edges_into(
                            row@.take(k as int),
                            c as BlockId,
                            b as BlockId,
                        ),
                decreases row.len() - k,
            {
                let s = row[k];
                proof { block_in_range(f, b as int, k as int); }
                let ghost old_preds = preds@;
                assert forall|a: int, c: int| 0 <= a < n && 0 <= c < n implies (old_preds[c]@.contains(
                    a as BlockId,
                ) <==> ((a < b && f.succs_of(a).contains(c as BlockId)) || (a == b && row@.take(
                    k as int,
                ).contains(c as BlockId)))) by {
                    assert(preds@[c]@.contains(a as BlockId) == old_preds[c]@.contains(a as BlockId));
                }
                push_at(&mut preds, s, b);
                proof {
                    assert forall|a: int, c: int| 0 <= a < n && 0 <= c < n implies (
                    #[trigger] preds@[c]@.contains(a as BlockId) <==> ((a < b && f.succs_of(
                        a,
                    ).contains(c as BlockId)) || (a == b && row@.take(k + 1).contains(
                        c as BlockId,
                    )))) by {
                        let t1 = row@.take(k + 1);
                        let t0 = row@.take(k as int);
                        assert(t1 =~= t0.push(s));
                        assert(t1.contains(c as BlockId) == (t0.contains(c as BlockId) || c == s)) by {
                            if t1.contains(c as BlockId) {
                                let i = t1.index_of(c as BlockId);
                                if i < k {
                                    assert(t0[i] == t1[i]);
                                }
                            }
                            if t0.contains(c as BlockId) {
                                let i = t0.index_of(c as BlockId);
                                assert(t1[i] == t0[i]);
                            }
                            if c == s {
                                assert(t1[k as int] == s);
                            }
                        }
                        if c == s {
                            let np = preds@[c]@;
                            let op = old_preds[c]@;
                            assert(np =~= op.push(b));
                            assert(np.contains(a as BlockId) == (op.contains(a as BlockId) || a == b)) by {
                                if np.contains(a as BlockId) {
                                    let i = np.index_of(a as BlockId);
                                    if i < op.len() {
                                        assert(op[i] == np[i]);
                                    }
                                }
                                if op.contains(a as BlockId) {
                                    let i = op.index_of(a as BlockId);
                                    assert(np[i] == op[i]);
                                }
                                if a == b {
                                    assert(np[op.len() as int] == b);
                                }
                            }
                        } else {
                            assert(preds@[c] == old_preds[c]);
                        }
                    }
                    assert(row@.take(k + 1).drop_last() =~= row@.take(k as int));
                    assert(row@.take(k + 1).last() == s);
                    assert forall|c: int| 0 <= c < n implies #[trigger] preds@[c]@ == pred_list(
                        gf,
                        c as BlockId,
                        b as int,
                    ) + edges_into(row@.take(k + 1), c as BlockId, b as BlockId) by {
                        let e0 = edges_into(row@.take(k as int), c as BlockId, b as BlockId);
                        if c == s {
                            assert(preds@[c]@ =~= old_preds[c]@.push(b));
                            assert(pred_list(gf, c as BlockId, b as int) + e0.push(b) =~= (pred_list(
                                gf,
                                c as BlockId,
                                b as int,
                            ) + e0).push(b));
                            assert(e0 + seq![b] =~= e0.push(b));
                        } else {
                            assert(preds@[c] == old_preds[c]);
                            assert(e0 + Seq::<BlockId>::empty() =~= e0);
                        }
                    }
                    assert forall|c: int, j: int|
                        0 <= c < n && 0 <= j < preds@[c]@.len() implies #[trigger] preds@[c]@[j] <= b by {
                        if c == s {
                            assert(preds@[c]@ =~= old_preds[c]@.push(b));
                            if j < old_preds[c]@.len() {
                                assert(preds@[c]@[j] == old_preds[c]@[j]);
                            }
                        } else {
                            assert(preds@[c] == old_preds[c]);
                        }
                    }
                }
                k = k + 1;
            }
            assert(row@.take(row.len() as int) =~= row@);
            proof {
                assert(gf[b as int] == row@);
                assert forall|c: int| 0 <= c < n implies #[trigger] preds@[c]@ == pred_list(
                    gf,
                    c as BlockId,
                    b + 1,
                ) by {}
            }
            succs.push(row);
            b = b + 1;
        }
        let r = Cfg { succs, preds };
        proof {
            assert(r.g() =~= gf);
            assert forall|x: int, k: int|
                0 <= x < r.g().len() && 0 <= k < r.g()[x].len() implies 0 <= #[trigger] r.g()[x][k]
                < r.g().len() by {
                block_in_range(f, x, k);
            }
        }
        r
    }

    /// Number of blocks.
    pub fn len(&self) -> (r: usize)
        ensures
            r == self.succs.len(),
    {
        self.succs.len()
    }

    /// Whether the graph has no blocks.
    pub fn is_empty(&self) -> (r: bool)
        ensures
            r == (self.succs.len() == 0),
    {
        self.succs.len() == 0
    }
}

/// Append `x` to row `i`.
pub fn push_at(v: &mut Vec<Vec<BlockId>>, i: usize, x: BlockId)
    requires
        i < old(v).len(),
    ensures
        final(v).len() == old(v).len(),
        final(v)@[i as int]@ == old(v)@[i as int]@.push(x),
        forall|j: int| 0 <= j < old(v).len() && j != i ==> final(v)@[j] == old(v)@[j],
{
    let mut row = copy_ids(&v[i]);
    row.push(x);
    v.set(i, row);
}

/// The `k`-th successor of block `b` of a well-formed model is a block.
proof fn block_in_range(f: &FnModel, b: int, k: int) -> (r: bool)
    requires
        f.wf(),
        0 <= b < f.blocks.len(),
        0 <= k < f.succs_of(b).len(),
    ensures
        0 <= f.succs_of(b)[k] < f.blocks.len(),
        r,
{
    assert(block_wf(f.blocks@[b], f.blocks.len() as nat, f.local_count as nat));
    true
}

/// How many entries are `true`.
pub open spec fn count_true(s: Seq<bool>) -> nat
    decreases s.len(),
{
    if s.len() == 0 {
        0
    } else {
        count_true(s.drop_last()) + if s.last() { 1nat } else { 0nat }
    }
}

pub proof fn lemma_count_le(s: Seq<bool>)
    ensures
        count_true(s) <= s.len(),
    decreases s.len(),
{
    if s.len() > 0 {
        lemma_count_le(s.drop_last());
    }
}

pub proof fn lemma_count_set(s: Seq<bool>, i: int)
    requires
        0 <= i < s.len(),
        !s[i],
    ensures
        count_true(s.update(i, true)) == count_true(s) + 1,
    decreases s.len(),
{
    let u = s.update(i, true);
    if i == s.len() - 1 {
        assert(u.drop_last() =~= s.drop_last());
    } else {
        assert(u.drop_last() =~= s.drop_last().update(i, true));
        lemma_count_set(s.drop_last(), i);
    }
}

/// Membership after a push.
pub proof fn lemma_push_contains<A>(s: Seq<A>, v: A, y: A)
    ensures
        s.push(v).contains(y) == (s.contains(y) || y == v),
{
    if s.push(v).contains(y) {
        let i = s.push(v).index_of(y);
        if i < s.len() {
            assert(s[i] == y);
        }
    }
    if s.contains(y) {
        let i = s.index_of(y);
        assert(s.push(v)[i] == y);
    }
    if y == v {
        assert(s.push(v)[s.len() as int] == v);
    }
}

/// A one-node walk.
proof fn lemma_singleton_path(g: Graph, v: BlockId)
    requires
        v < g.len(),
    ensures
        is_path(g, seq![v]),
        seq![v][0] == v,
        seq![v].last() == v,
{
}

/// Extending a walk by one edge.
proof fn lemma_extend_reach(g: Graph, seeds: Seq<BlockId>, x: Option<BlockId>, b: BlockId, s: BlockId)
    requires
        reach_from(g, seeds, x, b as int),
        edge(g, b as int, s as int),
        s < g.len(),
        x != Some(s),
    ensures
        reach_from(g, seeds, x, s as int),
{
    let p = choose|p: Seq<BlockId>|
        #![trigger is_path(g, p), p.last()]
        is_path(g, p) && seeds.contains(p[0]) && p.last() == b && avoids(p, x);
    let q = p.push(s);
    assert(q[q.len() - 2] == b);
    assert(is_path(g, q));
    assert(q[0] == p[0]);
    assert(q.last() == s);
}

/// A set closed under (non-avoided) successors contains every node a walk
/// from one of its members reaches.
proof fn lemma_closed_contains_walk(
    g: Graph,
    seen: Seq<bool>,
    x: Option<BlockId>,
    p: Seq<BlockId>,
)
    requires
        seen.len() == g.len(),
        is_path(g, p),
        avoids(p, x),
        seen[p[0] as int],
        forall|v: int, k: int|
            0 <= v < g.len() && seen[v] && 0 <= k < g[v].len() ==> x == Some(#[trigger] g[v][k])
                || seen[g[v][k] as int],
    ensures
        seen[p.last() as int],
    decreases p.len(),
{
    if p.len() > 1 {
        let q = p.drop_last();
        assert(is_path(g, q)) by {
            assert forall|i: int| 0 <= i < q.len() - 1 implies edge(g, #[trigger] q[i] as int, q[i + 1] as int) by {
                assert(p[i] == q[i] && p[i + 1] == q[i + 1]);
            }
        }
        assert(avoids(q, x));
        lemma_closed_contains_walk(g, seen, x, q);
        let a = q.last();
        assert(a == p[p.len() - 2]);
        assert(edge(g, a as int, p.last() as int));
        let k = g[a as int].index_of(p.last());
        assert(g[a as int][k] == p.last());
        assert(x != Some(p.last())) by {
            if x is Some {
                assert(p[p.len() - 1] != x->0);
            }
        }
    }
}

/// Every node reachable from `seeds` without visiting `x`, as a table.
fn search(cfg: &Cfg, seeds: &Vec<BlockId>, x: Option<BlockId>) -> (r: Vec<bool>)
    requires
        cfg.wf(),
        forall|i: int| 0 <= i < seeds.len() ==> #[trigger] seeds@[i] < cfg.succs.len(),
    ensures
        r.len() == cfg.succs.len(),
        forall|b: int| 0 <= b < r.len() ==> (#[trigger] r@[b] <==> reach_from(cfg.g(), seeds@, x, b)),
{
    let n = cfg.succs.len();
    let ghost g = cfg.g();
    let mut seen: Vec<bool> = Vec::new();
    let mut i: usize = 0;
    while i < n
        invariant
            i <= n,
            seen.len() == i,
            forall|b: int| 0 <= b < i ==> !(#[trigger] seen@[b]),
        decreases n - i,
    {
        seen.push(false);
        i = i + 1;
    }
    let mut stack: Vec<BlockId> = Vec::new();
    let mut j: usize = 0;
    while j < seeds.len()
        invariant
            cfg.wf(),
            g == cfg.g(),
            n == g.len(),
            seen.len() == n,
            j <= seeds.len(),
            forall|i: int| 0 <= i < seeds.len() ==> #[trigger] seeds@[i] < n,
            forall|i: int| 0 <= i < stack.len() ==> #[trigger] stack@[i] < n && seen@[stack@[i] as int],
            forall|b: int| 0 <= b < n && #[trigger] seen@[b] ==> reach_from(g, seeds@, x, b),
            forall|b: int| 0 <= b < n && #[trigger] seen@[b] ==> stack@.contains(b as BlockId),
            forall|i: int| 0 <= i < j ==> x == Some(#[trigger] seeds@[i]) || seen@[seeds@[i] as int],
        decreases seeds.len() - j,
    {
        let s = seeds[j];
        if x != Some(s) && !seen[s] {
            proof {
                lemma_singleton_path(g, s);
                assert(seeds@.contains(s));
                assert(avoids(seq![s], x));
                assert(reach_from(g, seeds@, x, s as int));
            }
            let ghost before = stack@;
            seen.set(s, true);
            stack.push(s);
            proof {
                assert(stack@.last() == s);
                assert forall|v: BlockId| before.contains(v) implies stack@.contains(v) by {
                    let i = before.index_of(v);
                    assert(stack@[i] == v);
                }
            }
        }
        j = j + 1;
    }
    while stack.len() > 0
        invariant
            cfg.wf(),
            g == cfg.g(),
            n == g.len(),
            seen.len() == n,
            forall|i: int| 0 <= i < seeds.len() ==> #[trigger] seeds@[i] < n,
            forall|i: int| 0 <= i < stack.len() ==> #[trigger] stack@[i] < n && seen@[stack@[i] as int],
            forall|b: int| 0 <= b < n && #[trigger] seen@[b] ==> reach_from(g, seeds@, x, b),
            forall|i: int| 0 <= i < seeds.len() ==> x == Some(#[trigger] seeds@[i]) || seen@[seeds@[i] as int],
            forall|v: int, k: int|
                0 <= v < n && seen@[v] && !stack@.contains(v as BlockId) && 0 <= k < g[v].len()
                    ==> x == Some(#[trigger] g[v][k]) || seen@[g[v][k] as int],
        decreases n - count_true(seen@), stack.len(),
    {
        let ghost old_count = count_true(seen@);
        let ghost old_stack = stack@;
        let b = stack.pop().unwrap();
        let ghost old_len = stack.len();
        proof {
            lemma_count_le(seen@);
            assert(old_stack =~= stack@.push(b));
            assert forall|v: BlockId| stack@.contains(v) implies old_stack.contains(v) by {
                let i = stack@.index_of(v);
                assert(old_stack[i] == v);
            }
        }
        let row = &cfg.succs[b];
        let mut k: usize = 0;
        while k < row.len()
            invariant
                cfg.wf(),
                g == cfg.g(),
                n == g.len(),
                seen.len() == n,
                b < n,
                seen@[b as int],
                row@ == g[b as int],
                k <= row.len(),
                forall|i: int| 0 <= i < seeds.len() ==> #[trigger] seeds@[i] < n,
                forall|i: int| 0 <= i < stack.len() ==> #[trigger] stack@[i] < n && seen@[stack@[i] as int],
                forall|v: int| 0 <= v < n && #[trigger] seen@[v] ==> reach_from(g, seeds@, x, v),
                forall|i: int| 0 <= i < seeds.len() ==> x == Some(#[trigger] seeds@[i]) || seen@[seeds@[i] as int],
                forall|i: int| 0 <= i < k ==> x == Some(#[trigger] row@[i]) || seen@[row@[i] as int],
                forall|v: int, k2: int|
                    0 <= v < n && seen@[v] && !stack@.contains(v as BlockId) && v != b && 0 <= k2 < g[v].len()
                        ==> x == Some(#[trigger] g[v][k2]) || seen@[g[v][k2] as int],
                count_true(seen@) >= old_count,
                count_true(seen@) == old_count ==> stack.len() == old_len,
                count_true(seen@) <= n,
            decreases row.len() - k,
        {
            let s = row[k];
            if x != Some(s) && !seen[s] {
                proof {
                    lemma_extend_reach(g, seeds@, x, b, s);
                    lemma_count_set(seen@, s as int);
                    lemma_count_le(seen@.update(s as int, true));
                }
                let ghost before = stack@;
                let ghost seen_before = seen@;
                seen.set(s, true);
                stack.push(s);
                proof {
                    assert(stack@ =~= before.push(s));
                    assert(stack@[stack@.len() - 1] == s);
                    assert(stack@.contains(s));
                    assert forall|v: BlockId| stack@.contains(v) && v != s implies before.contains(v) by {
                        let i = stack@.index_of(v);
                        assert(before[i] == v);
                    }
                    assert forall|v: int, k2: int|
                        0 <= v < n && seen@[v] && !stack@.contains(v as BlockId) && v != b && 0 <= k2
                            < g[v].len() implies x == Some(#[trigger] g[v][k2]) || seen@[g[v][k2] as int] by {
                        assert(v != s);
                        if before.contains(v as BlockId) {
                            let i = before.index_of(v as BlockId);
                            assert(stack@[i] == v as BlockId);
                        }
                        assert(!before.contains(v as BlockId));
                        assert(seen_before[v]);
                        let w = g[v][k2];
                        if !(x == Some(w)) {
                            assert(seen_before[w as int]);
                        }
                    }
                }
            }
            k = k + 1;
        }
    }
    proof {
        assert forall|b: int| 0 <= b < n implies (#[trigger] seen@[b] <==> reach_from(g, seeds@, x, b)) by {
            if reach_from(g, seeds@, x, b) {
                let p = choose|p: Seq<BlockId>|
                    #![trigger is_path(g, p), p.last()]
                    is_path(g, p) && seeds@.contains(p[0]) && p.last() == b && avoids(p, x);
                let i = seeds@.index_of(p[0]);
                assert(seeds@[i] == p[0]);
                assert(x != Some(p[0])) by {
                    if x is Some {
                        assert(p[0] != x->0);
                    }
                }
                lemma_closed_contains_walk(g, seen@, x, p);
            }
        }
    }
    seen
}


/// Blocks reachable from `entry` along normal edges.
pub fn reachable(cfg: &Cfg, entry: BlockId) -> (r: Vec<bool>)
    requires
        cfg.wf(),
        entry < cfg.succs.len(),
    ensures
        r.len() == cfg.succs.len(),
        forall|b: int| 0 <= b < r.len() ==> (#[trigger] r@[b] <==> reaches(cfg.g(), entry, b)),
{
    let mut seeds = Vec::new();
    seeds.push(entry);
    assert(seeds@ =~= seq![entry]);
    search(cfg, &seeds, None)
}

/// `r` executes under the control of the branch at `branch` whose
/// immediate post-dominator is `ipdom`: it is reachable from one of the
/// branch's successors along a walk that never visits `ipdom`.
pub open spec fn in_region(g: Graph, branch: int, ipdom: Option<BlockId>, r: int) -> bool {
    reach_from(g, g[branch], ipdom, r)
}

/// The divergence region of a branch: blocks reachable from a successor
/// without passing through the branch's immediate post-dominator. With no
/// post-dominator, everything reachable from the successors.
pub fn divergence_region(cfg: &Cfg, branch: BlockId, ipdom: Option<BlockId>) -> (r: Vec<bool>)
    requires
        cfg.wf(),
        branch < cfg.succs.len(),
    ensures
        r.len() == cfg.succs.len(),
        forall|b: int| 0 <= b < r.len() ==> (#[trigger] r@[b] <==> in_region(cfg.g(), branch as int, ipdom, b)),
{
    let seeds = copy_ids(&cfg.succs[branch]);
    proof {
        assert forall|i: int| 0 <= i < seeds.len() implies #[trigger] seeds@[i] < cfg.succs.len() by {
            assert(cfg.g()[branch as int][i] == seeds@[i]);
        }
    }
    search(cfg, &seeds, ipdom)
}

/// A walk whose nodes are all in the graph avoids every node outside it.
proof fn lemma_outside_never_visited(g: Graph, e: BlockId, b: int, d: BlockId)
    requires
        d >= g.len(),
        reaches(g, e, b),
    ensures
        reaches_avoiding(g, e, b, d),
{
    let p = choose|p: Seq<BlockId>|
        #![trigger is_path(g, p), p.last()]
        is_path(g, p) && seq![e].contains(p[0]) && p.last() == b && avoids(p, None);
    assert(avoids(p, Some(d)));
}

/// Immediate dominators over the reachable subgraph: the entry is its own,
/// every reachable block's immediate dominator is recorded, and blocks
/// with none (the unreachable ones) get `None`.
pub fn dominators(cfg: &Cfg, entry: BlockId) -> (r: Vec<Option<BlockId>>)
    requires
        cfg.wf(),
        entry < cfg.succs.len(),
    ensures
        is_idom_table(cfg.g(), entry, r@),
{
    let n = cfg.succs.len();
    let ghost g = cfg.g();
    let reach = reachable(cfg, entry);
    let mut seeds = Vec::new();
    seeds.push(entry);
    assert(seeds@ =~= seq![entry]);
    // avoid[d][b]: b is reachable from the entry without visiting d.
    let mut avoid: Vec<Vec<bool>> = Vec::new();
    let mut d: usize = 0;
    while d < n
        invariant
            cfg.wf(),
            g == cfg.g(),
            n == g.len(),
            seeds@ == seq![entry],
            entry < n,
            d <= n,
            avoid.len() == d,
            forall|x: int| 0 <= x < d ==> (#[trigger] avoid@[x]).len() == n,
            forall|x: int, b: int|
                0 <= x < d && 0 <= b < n ==> (#[trigger] avoid@[x]@[b] <==> reaches_avoiding(
                    g,
                    entry,
                    b,
                    x as BlockId,
                )),
        decreases n - d,
    {
        let row = search(cfg, &seeds, Some(d));
        avoid.push(row);
        d = d + 1;
    }
    let mut idom: Vec<Option<BlockId>> = Vec::new();
    let mut b: usize = 0;
    while b < n
        invariant
            cfg.wf(),
            g == cfg.g(),
            n == g.len(),
            entry < n,
            b <= n,
            reach.len() == n,
            forall|x: int| 0 <= x < n ==> (#[trigger] reach@[x] <==> reaches(g, entry, x)),
            avoid.len() == n,
            forall|x: int| 0 <= x < n ==> (#[trigger] avoid@[x]).len() == n,
            forall|x: int, y: int|
                0 <= x < n && 0 <= y < n ==> (#[trigger] avoid@[x]@[y] <==> reaches_avoiding(
                    g,
                    entry,
                    y,
                    x as BlockId,
                )),
            idom.len() == b,
            forall|x: int| 0 <= x < b && x == entry ==> #[trigger] idom@[x] == Some(entry),
            forall|x: int| 0 <= x < b && x != entry ==> idom_slot(g, entry, x, #[trigger] idom@[x]),
        decreases n - b,
    {
        if b == entry {
            idom.push(Some(entry));
        } else if !reach[b] {
            proof {
                assert forall|dd: BlockId| !#[trigger] is_idom(g, entry, b, dd) by {
                }
            }
            idom.push(None);
        } else {
            // The strict dominators of b.
            let mut doms: Vec<BlockId> = Vec::new();
            let mut x: usize = 0;
            while x < n
                invariant
                    n == g.len(),
                    b < n,
                    x <= n,
                    reaches(g, entry, b as int),
                    avoid.len() == n,
                    forall|y: int| 0 <= y < n ==> (#[trigger] avoid@[y]).len() == n,
                    forall|u: int, y: int|
                        0 <= u < n && 0 <= y < n ==> (#[trigger] avoid@[u]@[y] <==> reaches_avoiding(
                            g,
                            entry,
                            y,
                            u as BlockId,
                        )),
                    forall|i: int| 0 <= i < doms.len() ==> #[trigger] doms@[i] < x,
                    forall|y: BlockId|
                        y < x ==> (doms@.contains(y) <==> #[trigger] sdom(g, entry, y, b)),
                decreases n - x,
            {
                let ghost before = doms@;
                if x != b && !avoid[x][b] {
                    doms.push(x);
                }
                proof {
                    assert forall|y: BlockId| y < x + 1 implies (doms@.contains(y) <==> #[trigger] sdom(
                        g,
                        entry,
                        y,
                        b,
                    )) by {
                        if doms@ != before {
                            lemma_push_contains(before, x, y);
                        }
                    }
                }
                x = x + 1;
            }
            proof {
                assert forall|y: BlockId| (doms@.contains(y) <==> #[trigger] sdom(g, entry, y, b)) by {
                    if y >= n {
                        if sdom(g, entry, y, b) {
                            lemma_outside_never_visited(g, entry, b as int, y);
                        }
                        if doms@.contains(y) {
                            let i = doms@.index_of(y);
                        }
                    }
                }
            }
            // The strict dominator that every other one dominates.
            let mut found: Option<BlockId> = None;
            let mut i: usize = 0;
            while i < doms.len()
                invariant_except_break
                    found is None,
                invariant
                    n == g.len(),
                    b < n,
                    i <= doms.len(),
                    reach.len() == n,
                    forall|x: int| 0 <= x < n ==> (#[trigger] reach@[x] <==> reaches(g, entry, x)),
                    avoid.len() == n,
                    forall|y: int| 0 <= y < n ==> (#[trigger] avoid@[y]).len() == n,
                    forall|u: int, y: int|
                        0 <= u < n && 0 <= y < n ==> (#[trigger] avoid@[u]@[y] <==> reaches_avoiding(
                            g,
                            entry,
                            y,
                            u as BlockId,
                        )),
                    forall|k: int| 0 <= k < doms.len() ==> #[trigger] doms@[k] < n,
                    forall|y: BlockId| (doms@.contains(y) <==> #[trigger] sdom(g, entry, y, b)),
                    forall|k: int| 0 <= k < i ==> !is_idom(g, entry, b, #[trigger] doms@[k]),
                ensures
                    found matches Some(dd) ==> is_idom(g, entry, b, dd),
                    found is None ==> forall|k: int| 0 <= k < doms.len() ==> !is_idom(g, entry, b, #[trigger] doms@[k]),
                decreases doms.len() - i,
            {
                let cand = doms[i];
                let mut ok = true;
                let mut j: usize = 0;
                while j < doms.len()
                    invariant
                        n == g.len(),
                        cand < n,
                        j <= doms.len(),
                        reach.len() == n,
                        forall|x: int| 0 <= x < n ==> (#[trigger] reach@[x] <==> reaches(g, entry, x)),
                        avoid.len() == n,
                        forall|y: int| 0 <= y < n ==> (#[trigger] avoid@[y]).len() == n,
                        forall|u: int, y: int|
                            0 <= u < n && 0 <= y < n ==> (#[trigger] avoid@[u]@[y] <==> reaches_avoiding(
                                g,
                                entry,
                                y,
                                u as BlockId,
                            )),
                        forall|k: int| 0 <= k < doms.len() ==> #[trigger] doms@[k] < n,
                        ok <==> forall|k: int| 0 <= k < j ==> dom(g, entry, #[trigger] doms@[k], cand),
                    decreases doms.len() - j,
                {
                    let d2 = doms[j];
                    let dominated = reach[cand] && (d2 == cand || !avoid[d2][cand]);
                    if !dominated {
                        ok = false;
                    }
                    j = j + 1;
                }
                if ok {
                    proof {
                        assert forall|d2: BlockId| #[trigger] sdom(g, entry, d2, b) implies dom(g, entry, d2, cand) by {
                            let k = doms@.index_of(d2);
                        }
                        assert(doms@.contains(cand));
                    }
                    found = Some(cand);
                    break;
                } else {
                    proof {
                        let k = choose|k: int| 0 <= k < doms.len() && !dom(g, entry, #[trigger] doms@[k], cand);
                        assert(sdom(g, entry, doms@[k], b)) by {
                            assert(doms@.contains(doms@[k]));
                        }
                    }
                }
                i = i + 1;
            }
            proof {
                if found is None {
                    assert forall|dd: BlockId| !#[trigger] is_idom(g, entry, b, dd) by {
                        if is_idom(g, entry, b, dd) {
                            assert(doms@.contains(dd));
                            let k = doms@.index_of(dd);
                        }
                    }
                }
            }
            idom.push(found);
        }
        b = b + 1;
    }
    idom
}


/// A prefix of a walk is a walk.
proof fn lemma_prefix(g: Graph, p: Seq<BlockId>, i: int, x: Option<BlockId>)
    requires
        is_path(g, p),
        avoids(p, x),
        0 <= i < p.len(),
    ensures
        is_path(g, p.take(i + 1)),
        avoids(p.take(i + 1), x),
        p.take(i + 1)[0] == p[0],
        p.take(i + 1).last() == p[i],
        p.take(i + 1).len() == i + 1,
{
    let q = p.take(i + 1);
    assert forall|k: int| 0 <= k < q.len() - 1 implies edge(g, #[trigger] q[k] as int, q[k + 1] as int) by {
        assert(q[k] == p[k] && q[k + 1] == p[k + 1]);
    }
    assert forall|k: int| 0 <= k < q.len() implies #[trigger] q[k] < g.len() by {
        assert(q[k] == p[k]);
    }
    if x is Some {
        assert forall|k: int| 0 <= k < q.len() implies #[trigger] q[k] != x->0 by {
            assert(q[k] == p[k]);
        }
    }
}

/// A walk from the entry to `b` that avoids `d` witnesses
/// `reaches_avoiding`.
proof fn lemma_witness_avoiding(g: Graph, e: BlockId, p: Seq<BlockId>, d: BlockId)
    requires
        is_path(g, p),
        p[0] == e,
        avoids(p, Some(d)),
    ensures
        reaches_avoiding(g, e, p.last() as int, d),
        reaches(g, e, p.last() as int),
{
    assert(seq![e].contains(p[0])) by {
        assert(seq![e][0] == e);
    }
    assert(avoids(p, None));
}

/// Dominance is transitive.
pub proof fn lemma_dom_transitive(g: Graph, e: BlockId, d1: BlockId, d2: BlockId, d3: BlockId)
    requires
        dom(g, e, d1, d2),
        dom(g, e, d2, d3),
    ensures
        dom(g, e, d1, d3),
{
    if d1 != d3 && reaches_avoiding(g, e, d3 as int, d1) {
        let p = choose|p: Seq<BlockId>|
            #![trigger is_path(g, p), p.last()]
            is_path(g, p) && seq![e].contains(p[0]) && p.last() == d3 && avoids(p, Some(d1));
        assert(p[0] == e);
        if d2 == d3 {
        } else {
            if avoids(p, Some(d2)) {
                lemma_witness_avoiding(g, e, p, d2);
            }
            let i = choose|i: int| 0 <= i < p.len() && p[i] == d2;
            lemma_prefix(g, p, i, Some(d1));
            if d1 == d2 {
                assert(p[i] != d1);
            } else {
                lemma_witness_avoiding(g, e, p.take(i + 1), d1);
            }
        }
    }
}

proof fn lemma_antisym_walk(g: Graph, e: BlockId, d1: BlockId, d2: BlockId, p: Seq<BlockId>)
    requires
        dom(g, e, d1, d2),
        dom(g, e, d2, d1),
        is_path(g, p),
        p[0] == e,
        p.last() == d2,
    ensures
        d1 == d2,
    decreases p.len(),
{
    if d1 != d2 {
        if avoids(p, Some(d1)) {
            lemma_witness_avoiding(g, e, p, d1);
        }
        let i = choose|i: int| 0 <= i < p.len() && p[i] == d1;
        assert(i < p.len() - 1);
        lemma_prefix(g, p, i, None);
        let q = p.take(i + 1);
        if avoids(q, Some(d2)) {
            lemma_witness_avoiding(g, e, q, d2);
        }
        let j = choose|j: int| 0 <= j < q.len() && q[j] == d2;
        assert(j < i);
        assert(p[j] == d2);
        lemma_prefix(g, p, j, None);
        lemma_antisym_walk(g, e, d1, d2, p.take(j + 1));
    }
}

/// Dominance is antisymmetric.
pub proof fn lemma_dom_antisymmetric(g: Graph, e: BlockId, d1: BlockId, d2: BlockId)
    requires
        dom(g, e, d1, d2),
        dom(g, e, d2, d1),
    ensures
        d1 == d2,
{
    if d1 != d2 {
        let p = choose|p: Seq<BlockId>|
            #![trigger is_path(g, p), p.last()]
            is_path(g, p) && seq![e].contains(p[0]) && p.last() == d2 && avoids(p, None);
        assert(p[0] == e);
        lemma_antisym_walk(g, e, d1, d2, p);
    }
}


/// A graph has one immediate-dominator table.
pub proof fn lemma_idom_table_unique(g: Graph, e: BlockId, t1: Seq<Option<BlockId>>, t2: Seq<Option<BlockId>>)
    requires
        is_idom_table(g, e, t1),
        is_idom_table(g, e, t2),
    ensures
        t1 == t2,
{
    assert forall|b: int| 0 <= b < t1.len() implies t1[b] == t2[b] by {
        if b != e {
            assert(idom_slot(g, e, b, t1[b]));
            assert(idom_slot(g, e, b, t2[b]));
            match (t1[b], t2[b]) {
                (Some(d1), Some(d2)) => {
                    assert(is_idom(g, e, b as BlockId, d1));
                    assert(is_idom(g, e, b as BlockId, d2));
                    assert(sdom(g, e, d1, b as BlockId));
                    assert(sdom(g, e, d2, b as BlockId));
                    lemma_dom_antisymmetric(g, e, d1, d2);
                },
                (Some(d1), None) => {
                    assert(!is_idom(g, e, b as BlockId, d1));
                },
                (None, Some(d2)) => {
                    assert(!is_idom(g, e, b as BlockId, d2));
                },
                (None, None) => {},
            }
        }
    }
    assert(t1 =~= t2);
}

/// Every entry of an immediate-dominator table names a node, and walking
/// up it strictly decreases `rank`: the table is a forest.
pub open spec fn idom_ranked(idom: Seq<Option<BlockId>>, rank: Seq<nat>) -> bool {
    &&& rank.len() == idom.len()
    &&& forall|x: int|
        0 <= x < idom.len() ==> match #[trigger] idom[x] {
            Some(p) => p < idom.len() && (p != x ==> rank[p as int] < rank[x]),
            None => true,
        }
}

/// The table is a forest: some rank decreases along every parent link.
pub open spec fn idom_forest(idom: Seq<Option<BlockId>>) -> bool {
    exists|rank: Seq<nat>| idom_ranked(idom, rank)
}

/// `a` is reached from `b` within `k` parent links of `idom`.
pub open spec fn chain_reaches(idom: Seq<Option<BlockId>>, a: BlockId, b: BlockId, k: nat) -> bool
    decreases k,
{
    b == a || (k > 0 && b < idom.len() && match idom[b as int] {
        Some(p) => p != b && chain_reaches(idom, a, p, (k - 1) as nat),
        None => false,
    })
}

/// `a` is an ancestor of `b` (reflexively) in the idom tree.
pub open spec fn tree_dominates(idom: Seq<Option<BlockId>>, a: BlockId, b: BlockId) -> bool {
    exists|k: nat| chain_reaches(idom, a, b, k)
}

/// The blocks that dominate `x`.
pub open spec fn doms_set(g: Graph, e: BlockId, x: BlockId) -> Set<int> {
    Set::new(|d: int| 0 <= d < g.len() && dom(g, e, d as BlockId, x))
}

proof fn lemma_doms_finite(g: Graph, e: BlockId, x: BlockId)
    ensures
        doms_set(g, e, x).finite(),
        doms_set(g, e, x).len() <= g.len(),
{
    vstd::set_lib::lemma_int_range(0, g.len() as int);
    vstd::set_lib::lemma_len_subset(doms_set(g, e, x), vstd::set_lib::set_int_range(0, g.len() as int));
}

/// An immediate dominator has strictly fewer dominators than its child.
proof fn lemma_idom_fewer_doms(g: Graph, e: BlockId, b: BlockId, d: BlockId)
    requires
        is_idom(g, e, b, d),
        b < g.len(),
    ensures
        d < g.len(),
        doms_set(g, e, d).len() < doms_set(g, e, b).len(),
{
    if d >= g.len() {
        lemma_outside_never_visited(g, e, b as int, d);
    }
    lemma_doms_finite(g, e, b);
    let sb = doms_set(g, e, b);
    let sd = doms_set(g, e, d);
    assert(sb.contains(b as int));
    assert forall|x: int| sd.contains(x) implies sb.remove(b as int).contains(x) by {
        lemma_dom_transitive(g, e, x as BlockId, d, b);
        if x == b as int {
            lemma_dom_antisymmetric(g, e, b, d);
        }
    }
    vstd::set_lib::lemma_len_subset(sd, sb.remove(b as int));
}

/// The table `dominators` produces is a forest.
pub proof fn lemma_idom_table_is_forest(g: Graph, e: BlockId, idom: Seq<Option<BlockId>>)
    requires
        is_idom_table(g, e, idom),
        e < g.len(),
    ensures
        idom_forest(idom),
{
    let rank = Seq::new(idom.len(), |x: int| doms_set(g, e, x as BlockId).len());
    assert forall|x: int| 0 <= x < idom.len() implies match #[trigger] idom[x] {
        Some(p) => p < idom.len() && (p != x ==> rank[p as int] < rank[x]),
        None => true,
    } by {
        if x != e {
            assert(idom_slot(g, e, x, idom[x]));
            if idom[x] is Some {
                lemma_idom_fewer_doms(g, e, x as BlockId, idom[x]->0);
            }
        }
    }
    assert(idom_ranked(idom, rank));
}

/// Whether `a` dominates `b` (reflexively) under the given idom tree: `a`
/// is met walking up the tree from `b`.
pub fn dominates(idom: &[Option<BlockId>], a: BlockId, b: BlockId) -> (r: bool)
    requires
        idom_forest(idom@),
        b < idom.len(),
    ensures
        r == tree_dominates(idom@, a, b),
{
    let ghost rank = choose|rank: Seq<nat>| idom_ranked(idom@, rank);
    let mut cur = b;
    loop
        invariant
            idom_ranked(idom@, rank),
            cur < idom.len(),
            tree_dominates(idom@, a, b) == tree_dominates(idom@, a, cur),
        decreases rank[cur as int],
    {
        if cur == a {
            assert(chain_reaches(idom@, a, cur, 0));
            return true;
        }
        assert(match idom@[cur as int] {
            Some(p) => p < idom.len() && (p != cur ==> rank[p as int] < rank[cur as int]),
            None => true,
        });
        let next = idom[cur];
        let is_parent = match next {
            Some(p) => p != cur,
            None => false,
        };
        if is_parent {
            let parent = next.unwrap();
            {
                proof {
                    assert forall|k: nat| chain_reaches(idom@, a, cur, k) implies chain_reaches(
                        idom@,
                        a,
                        parent,
                        (k - 1) as nat,
                    ) by {
                    }
                    assert forall|k: nat| chain_reaches(idom@, a, parent, k) implies chain_reaches(
                        idom@,
                        a,
                        cur,
                        k + 1,
                    ) by {
                    }
                    if tree_dominates(idom@, a, cur) {
                        let k = choose|k: nat| chain_reaches(idom@, a, cur, k);
                        assert(chain_reaches(idom@, a, parent, (k - 1) as nat));
                    }
                    if tree_dominates(idom@, a, parent) {
                        let k = choose|k: nat| chain_reaches(idom@, a, parent, k);
                        assert(chain_reaches(idom@, a, cur, k + 1));
                    }
                }
                cur = parent;
            }
        } else {
            proof {
                assert forall|k: nat| !chain_reaches(idom@, a, cur, k) by {
                }
            }
            return false;
        }
    }
}


/// Work left on a DFS stack: unexplored successors plus one pop per frame.
pub open spec fn stack_work(g: Graph, s: Seq<(BlockId, usize)>) -> nat
    decreases s.len(),
{
    if s.len() == 0 {
        0
    } else {
        let top = s.last();
        let left = if top.1 <= g[top.0 as int].len() { (g[top.0 as int].len() - top.1) as nat } else { 0nat };
        stack_work(g, s.drop_last()) + left + 1
    }
}

/// The nodes of a DFS stack, bottom to top.
pub open spec fn stack_nodes(s: Seq<(BlockId, usize)>) -> Seq<BlockId> {
    Seq::new(s.len(), |k: int| s[k].0)
}

/// `is_reducible` refused: an edge `u → v` between blocks reachable from
/// the entry, lying on a cycle (`v` reaches `u`), whose target does not
/// dominate its source in the given tree.
pub open spec fn has_bad_back_edge(g: Graph, entry: BlockId, idom: Seq<Option<BlockId>>) -> bool {
    exists|u: BlockId, v: BlockId|
        #![trigger edge(g, u as int, v as int), tree_dominates(idom, v, u)]
        u < g.len() && edge(g, u as int, v as int) && reaches(g, entry, u as int) && reaches(
            g,
            v,
            u as int,
        ) && !tree_dominates(idom, v, u)
}

/// `is_reducible` accepted: the edges between blocks reachable from the
/// entry whose target does not dominate their source (in the given tree)
/// form no cycle. A ranking of the blocks that strictly decreases along
/// every such edge witnesses it; with the back edges removed, the
/// reachable graph is acyclic.
pub open spec fn forward_edges_acyclic(g: Graph, entry: BlockId, idom: Seq<Option<BlockId>>) -> bool {
    exists|rank: Seq<int>|
        rank.len() == g.len() && forall|u: int, v: BlockId|
            reaches(g, entry, u) && #[trigger] edge(g, u, v as int) && !tree_dominates(idom, v, u as BlockId)
                ==> rank[v as int] < rank[u]
}

/// An edge `u → v` examined by the walk: its target was visited, and it
/// either goes back to a dominator of its source or to a finished block
/// that finished first.
spec fn edge_ranked(
    idom: Seq<Option<BlockId>>,
    visited: Seq<bool>,
    on_stack: Seq<bool>,
    post: Seq<int>,
    u: int,
    v: BlockId,
) -> bool {
    &&& v < visited.len()
    &&& visited[v as int]
    &&& tree_dominates(idom, v, u as BlockId) || (!on_stack[v as int] && post[v as int] < post[u])
}

/// Every frame of the stack is in order.
#[verifier::opaque]
spec fn all_frames(
    g: Graph,
    idom: Seq<Option<BlockId>>,
    visited: Seq<bool>,
    on_stack: Seq<bool>,
    stack: Seq<(BlockId, usize)>,
) -> bool {
    forall|k: int| 0 <= k < stack.len() ==> #[trigger] frame_ok(g, idom, visited, on_stack, stack, k)
}

/// Every edge out of finished block `u` is ranked.
#[verifier::opaque]
spec fn done_ok(
    g: Graph,
    idom: Seq<Option<BlockId>>,
    visited: Seq<bool>,
    on_stack: Seq<bool>,
    post: Seq<int>,
    u: int,
) -> bool {
    forall|kk: int| 0 <= kk < g[u].len() ==> edge_ranked(idom, visited, on_stack, post, u, #[trigger] g[u][kk])
}

/// The edges already examined from the frame at stack position `k`: each
/// target is visited and is a dominator of the frame's block, finished, or
/// the block of the frame just above.
#[verifier::opaque]
spec fn frame_ok(
    g: Graph,
    idom: Seq<Option<BlockId>>,
    visited: Seq<bool>,
    on_stack: Seq<bool>,
    stack: Seq<(BlockId, usize)>,
    k: int,
) -> bool {
    forall|kk: int|
        0 <= kk < stack[k].1 ==> {
            let v = #[trigger] g[stack[k].0 as int][kk];
            &&& v < visited.len()
            &&& visited[v as int]
            &&& tree_dominates(idom, v, stack[k].0) || !on_stack[v as int] || (k + 1 < stack.len() && stack[k
                + 1].0 == v)
        }
}

/// A dominator of a reachable block is reachable.
proof fn lemma_dominator_reachable(g: Graph, e: BlockId, d: BlockId, b: BlockId)
    requires
        dom(g, e, d, b),
    ensures
        reaches(g, e, d as int),
{
    if d != b {
        let p = choose|p: Seq<BlockId>|
            #![trigger is_path(g, p), p.last()]
            is_path(g, p) && seq![e].contains(p[0]) && p.last() == b && avoids(p, None);
        assert(p[0] == e);
        if avoids(p, Some(d)) {
            lemma_witness_avoiding(g, e, p, d);
        }
        let i = choose|i: int| 0 <= i < p.len() && p[i] == d;
        lemma_prefix(g, p, i, None);
        let q = p.take(i + 1);
        assert(seq![e].contains(q[0])) by {
            assert(seq![e][0] == e);
        }
        assert(is_path(g, q) && q.last() == d && avoids(q, None));
    }
}

/// In a true immediate-dominator table, an ancestor of a reachable block
/// dominates it.
pub proof fn lemma_tree_dom_is_dom(g: Graph, e: BlockId, idom: Seq<Option<BlockId>>, a: BlockId, b: BlockId, k: nat)
    requires
        is_idom_table(g, e, idom),
        chain_reaches(idom, a, b, k),
        reaches(g, e, b as int),
        b < g.len(),
    ensures
        dom(g, e, a, b),
    decreases k,
{
    if b != a {
        let p = idom[b as int]->Some_0;
        assert(b != e);
        assert(idom_slot(g, e, b as int, idom[b as int]));
        assert(is_idom(g, e, b, p));
        lemma_dominator_reachable(g, e, p, b);
        assert(p < g.len()) by {
            let w = choose|w: Seq<BlockId>|
                #![trigger is_path(g, w), w.last()]
                is_path(g, w) && seq![e].contains(w[0]) && w.last() == p as int && avoids(w, None);
            assert(w[w.len() - 1] < g.len());
        }
        lemma_tree_dom_is_dom(g, e, idom, a, p, (k - 1) as nat);
        lemma_dom_transitive(g, e, a, p, b);
    }
}

/// Only the entry dominates the entry.
proof fn lemma_entry_self_dominated(g: Graph, e: BlockId, a: BlockId)
    requires
        dom(g, e, a, e),
    ensures
        a == e,
{
    if a != e {
        assert(is_path(g, seq![e]));
        assert(seq![e].contains(seq![e][0]));
        assert(avoids(seq![e], Some(a)));
        assert(seq![e].last() == e);
        assert(reaches_avoiding(g, e, e as int, a));
    }
}

/// One step up from `b` towards its strict dominator `a`, given what the
/// table holds for `b`: the parent is a block that `a` still dominates,
/// with fewer dominators.
#[verifier::spinoff_prover]
proof fn lemma_dom_parent(g: Graph, e: BlockId, v: Option<BlockId>, a: BlockId, b: BlockId) -> (p: BlockId)
    requires
        idom_slot(g, e, b as int, v),
        e < g.len(),
        b < g.len(),
        b != e,
        a != b,
        dom(g, e, a, b),
    ensures
        v == Some(p),
        p != b,
        p < g.len(),
        dom(g, e, a, p),
        doms_set(g, e, p).len() < doms_set(g, e, b).len(),
{
    let d = lemma_reachable_has_idom(g, e, b);
    let p = v->Some_0;
    assert(is_idom(g, e, b, p));
    assert(sdom(g, e, a, b));
    lemma_idom_fewer_doms(g, e, b, p);
    p
}

/// In a true immediate-dominator table, every dominator of a block is its
/// ancestor: walking up the table from the block meets it.
pub proof fn lemma_dom_is_tree_dom(g: Graph, e: BlockId, idom: Seq<Option<BlockId>>, a: BlockId, b: BlockId)
    requires
        is_idom_table(g, e, idom),
        e < g.len(),
        b < g.len(),
        dom(g, e, a, b),
    ensures
        tree_dominates(idom, a, b),
    decreases doms_set(g, e, b).len(),
{
    if a == b {
        assert(chain_reaches(idom, a, b, 0));
    } else {
        if b == e {
            lemma_entry_self_dominated(g, e, a);
        }
        assert(idom_slot(g, e, b as int, idom[b as int]));
        let p = lemma_dom_parent(g, e, idom[b as int], a, b);
        lemma_dom_is_tree_dom(g, e, idom, a, p);
        let k = choose|k: nat| chain_reaches(idom, a, p, k);
        assert(chain_reaches(idom, a, b, k + 1));
    }
}

/// For a block reachable from the entry, being an ancestor in a true
/// immediate-dominator table is exactly dominating it.
pub proof fn tree_dominance_is_dominance(g: Graph, e: BlockId, idom: Seq<Option<BlockId>>, a: BlockId, b: BlockId)
    requires
        is_idom_table(g, e, idom),
        e < g.len(),
        b < g.len(),
        reaches(g, e, b as int),
    ensures
        tree_dominates(idom, a, b) <==> dom(g, e, a, b),
{
    lemma_idom_table_covers_reachable(g, e, idom, a, b);
    if dom(g, e, a, b) {
        lemma_dom_is_tree_dom(g, e, idom, a, b);
    }
}

/// Two dominators of a reachable block are ordered: one dominates the
/// other.
pub proof fn lemma_dominators_ordered(g: Graph, e: BlockId, d1: BlockId, d2: BlockId, b: BlockId)
    requires
        dom(g, e, d1, b),
        dom(g, e, d2, b),
    ensures
        dom(g, e, d1, d2) || dom(g, e, d2, d1),
{
    lemma_dominator_reachable(g, e, d1, b);
    lemma_dominator_reachable(g, e, d2, b);
    if !dom(g, e, d1, d2) && !dom(g, e, d2, d1) {
        let w = choose|p: Seq<BlockId>|
            #![trigger is_path(g, p), p.last()]
            is_path(g, p) && seq![e].contains(p[0]) && p.last() == b && avoids(p, None);
        assert(w[0] == e);
        lemma_no_two_last(g, e, w, d1, d2);
    }
}

/// Of two blocks each reachable while avoiding the other, a walk from the
/// entry reaches its end while avoiding one of them.
#[verifier::spinoff_prover]
#[verifier::rlimit(60)]
proof fn lemma_no_two_last(g: Graph, e: BlockId, w: Seq<BlockId>, d1: BlockId, d2: BlockId)
    requires
        is_path(g, w),
        w[0] == e,
        d1 != d2,
        w.last() != d1,
        w.last() != d2,
        reaches_avoiding(g, e, d1 as int, d2),
        reaches_avoiding(g, e, d2 as int, d1),
    ensures
        reaches_avoiding(g, e, w.last() as int, d1) || reaches_avoiding(g, e, w.last() as int, d2),
{
    if avoids(w, Some(d1)) {
        lemma_witness_avoiding(g, e, w, d1);
    } else if avoids(w, Some(d2)) {
        lemma_witness_avoiding(g, e, w, d2);
    } else {
        w.index_of_last_ensures(d1);
        w.index_of_last_ensures(d2);
        assert(w.contains(d1)) by {
            let k = choose|k: int| 0 <= k < w.len() && w[k] == d1;
        }
        assert(w.contains(d2)) by {
            let k = choose|k: int| 0 <= k < w.len() && w[k] == d2;
        }
        let i1 = w.index_of_last(d1)->Some_0;
        let i2 = w.index_of_last(d2)->Some_0;
        assert(w[i1] == d1 && w[i2] == d2);
        assert(w.last() == w[w.len() - 1]);
        if i1 > i2 {
            lemma_splice_avoiding(g, e, w, i1, d1, d2);
        } else {
            assert(i1 != i2);
            lemma_splice_avoiding(g, e, w, i2, d2, d1);
        }
    }
}

/// A walk from the entry to `x` avoiding `y`, followed by the rest of a
/// walk `w` after its last visit to `x`, where `y` no longer occurs,
/// reaches `w`'s end avoiding `y`.
proof fn lemma_splice_avoiding(g: Graph, e: BlockId, w: Seq<BlockId>, i: int, x: BlockId, y: BlockId)
    requires
        is_path(g, w),
        w[0] == e,
        0 <= i < w.len() - 1,
        w[i] == x,
        forall|j: int| i < j < w.len() ==> w[j] != y,
        reaches_avoiding(g, e, x as int, y),
        x != y,
    ensures
        reaches_avoiding(g, e, w.last() as int, y),
{
    let p = choose|p: Seq<BlockId>|
        #![trigger is_path(g, p), p.last()]
        is_path(g, p) && seq![e].contains(p[0]) && p.last() == x as int && avoids(p, Some(y));
    assert(p[0] == e);
    let q = p + w.skip(i + 1);
    assert forall|k: int| 0 <= k < q.len() implies #[trigger] q[k] < g.len() by {
        if k < p.len() {
            assert(q[k] == p[k]);
        } else {
            assert(q[k] == w[k - p.len() + i + 1]);
        }
    }
    assert forall|k: int| 0 <= k < q.len() - 1 implies edge(g, #[trigger] q[k] as int, q[k + 1] as int) by {
        if k < p.len() - 1 {
            assert(q[k] == p[k] && q[k + 1] == p[k + 1]);
        } else if k == p.len() - 1 {
            assert(q[k] == p.last() && p.last() == w[i]);
            assert(q[k + 1] == w[i + 1]);
            assert(edge(g, w[i] as int, w[i + 1] as int));
        } else {
            assert(q[k] == w[k - p.len() + i + 1] && q[k + 1] == w[k - p.len() + i + 2]);
        }
    }
    assert(is_path(g, q));
    assert forall|k: int| 0 <= k < q.len() implies #[trigger] q[k] != y by {
        if k < p.len() {
            assert(q[k] == p[k]);
        } else {
            assert(q[k] == w[k - p.len() + i + 1]);
        }
    }
    assert(q[0] == e);
    assert(q.last() == w.last());
    lemma_witness_avoiding(g, e, q, y);
}

/// A strict dominator of `x` has fewer dominators than `x`.
proof fn lemma_sdom_fewer_doms(g: Graph, e: BlockId, d: BlockId, x: BlockId)
    requires
        sdom(g, e, d, x),
        x < g.len(),
    ensures
        doms_set(g, e, d).len() < doms_set(g, e, x).len(),
{
    lemma_doms_finite(g, e, x);
    lemma_doms_finite(g, e, d);
    let sx = doms_set(g, e, x);
    let sd = doms_set(g, e, d);
    assert(sx.contains(x as int));
    assert(!sd.contains(x as int)) by {
        if sd.contains(x as int) {
            lemma_dom_antisymmetric(g, e, x, d);
        }
    }
    assert forall|z: int| sd.contains(z) implies sx.remove(x as int).contains(z) by {
        lemma_dom_transitive(g, e, z as BlockId, d, x);
    }
    vstd::set_lib::lemma_len_subset(sd, sx.remove(x as int));
}

/// Climbing from a strict dominator `d` of `b` to strict dominators of
/// `b` that `d` strictly dominates ends at the immediate dominator.
proof fn lemma_find_idom(g: Graph, e: BlockId, b: BlockId, d: BlockId) -> (r: BlockId)
    requires
        sdom(g, e, d, b),
        b < g.len(),
        d < g.len(),
    ensures
        is_idom(g, e, b, r),
    decreases doms_set(g, e, b).len() - doms_set(g, e, d).len(),
{
    lemma_doms_finite(g, e, b);
    lemma_doms_finite(g, e, d);
    if exists|d2: BlockId| #[trigger] sdom(g, e, d2, b) && sdom(g, e, d, d2) {
        let d2 = choose|d2: BlockId| #[trigger] sdom(g, e, d2, b) && sdom(g, e, d, d2);
        lemma_sdom_fewer_doms(g, e, d, d2);
        lemma_sdom_fewer_doms(g, e, d2, b);
        assert(d2 < g.len()) by {
            lemma_dominator_reachable(g, e, d2, b);
            let w = choose|w: Seq<BlockId>|
                #![trigger is_path(g, w), w.last()]
                is_path(g, w) && seq![e].contains(w[0]) && w.last() == d2 as int && avoids(w, None);
            assert(w[w.len() - 1] < g.len());
        }
        lemma_find_idom(g, e, b, d2)
    } else {
        assert forall|d2: BlockId| #[trigger] sdom(g, e, d2, b) implies dom(g, e, d2, d) by {
            lemma_dominators_ordered(g, e, d2, d, b);
        }
        d
    }
}

/// A reachable block other than the entry has an immediate dominator.
pub proof fn lemma_reachable_has_idom(g: Graph, e: BlockId, b: BlockId) -> (d: BlockId)
    requires
        e < g.len(),
        b < g.len(),
        b != e,
        reaches(g, e, b as int),
    ensures
        is_idom(g, e, b, d),
{
    assert(dom(g, e, e, b)) by {
        if reaches_avoiding(g, e, b as int, e) {
            let p = choose|p: Seq<BlockId>|
                #![trigger is_path(g, p), p.last()]
                is_path(g, p) && seq![e].contains(p[0]) && p.last() == b as int && avoids(p, Some(e));
            assert(p[0] == e);
        }
    }
    lemma_find_idom(g, e, b, e)
}

/// A true immediate-dominator table has an entry for a block exactly when
/// the block is reachable, and an ancestor of a block in it dominates the
/// block.
#[verifier::spinoff_prover]
#[verifier::rlimit(60)]
pub proof fn lemma_idom_table_covers_reachable(g: Graph, e: BlockId, idom: Seq<Option<BlockId>>, a: BlockId, b: BlockId)
    requires
        is_idom_table(g, e, idom),
        e < g.len(),
        b < g.len(),
    ensures
        idom[b as int] is Some <==> reaches(g, e, b as int),
        reaches(g, e, b as int) && tree_dominates(idom, a, b) ==> dom(g, e, a, b),
{
    if reaches(g, e, b as int) {
        if tree_dominates(idom, a, b) {
            let k = choose|k: nat| chain_reaches(idom, a, b, k);
            lemma_tree_dom_is_dom(g, e, idom, a, b, k);
        }
        if b != e {
            let d = lemma_reachable_has_idom(g, e, b);
            assert(idom_slot(g, e, b as int, idom[b as int]));
        }
    } else {
        if b == e {
            assert(is_path(g, seq![e]));
            assert(seq![e].contains(seq![e][0]));
            assert(avoids(seq![e], None));
            assert(seq![e].last() == e);
            assert(reaches(g, e, e as int));
        }
        assert(idom_slot(g, e, b as int, idom[b as int]));
        if idom[b as int] is Some {
            let d = idom[b as int]->Some_0;
            assert(is_idom(g, e, b, d));
        }
    }
}

/// Along stack positions `m..=k` whose edges all go to a non-dominator,
/// a ranking that decreases along every such edge decreases.
proof fn lemma_rank_along_stack(
    g: Graph,
    entry: BlockId,
    idom: Seq<Option<BlockId>>,
    rank: Seq<int>,
    st: Seq<(BlockId, usize)>,
    m: int,
    k: int,
)
    requires
        0 <= m < k < st.len(),
        st[0].0 == entry,
        rank.len() == g.len(),
        forall|j: int| 0 <= j < st.len() ==> #[trigger] st[j].0 < g.len(),
        forall|j: int| 0 <= j < st.len() - 1 ==> edge(g, #[trigger] st[j].0 as int, st[j + 1].0 as int),
        forall|j: int| 0 <= j < st.len() - 1 ==> !tree_dominates(idom, #[trigger] st[j + 1].0, st[j].0),
        forall|u: int, v: BlockId|
            reaches(g, entry, u) && #[trigger] edge(g, u, v as int) && !tree_dominates(idom, v, u as BlockId)
                ==> rank[v as int] < rank[u],
    ensures
        rank[st[k].0 as int] < rank[st[m].0 as int],
    decreases k - m,
{
    let j = k - 1;
    let pre = st.take(j + 1);
    lemma_stack_path(g, pre, 0);
    assert(pre[0].0 == entry && pre.last().0 == st[j].0);
    assert(edge(g, st[j].0 as int, st[j + 1].0 as int));
    assert(!tree_dominates(idom, st[j + 1].0, st[j].0));
    if m < j {
        lemma_rank_along_stack(g, entry, idom, rank, st, m, j);
    }
}

/// A block reached from the entry along a walk that avoids `s` is not a
/// descendant of `s` in a true immediate-dominator table.
proof fn lemma_walk_not_dominated(g: Graph, entry: BlockId, idom: Seq<Option<BlockId>>, w: Seq<BlockId>, s: BlockId)
    requires
        is_idom_table(g, entry, idom),
        is_path(g, w),
        w[0] == entry,
        avoids(w, Some(s)),
    ensures
        !tree_dominates(idom, s, w.last()),
{
    lemma_witness_avoiding(g, entry, w, s);
    assert(w.last() != s) by {
        assert(w[w.len() - 1] != s);
    }
    assert(w.last() < g.len()) by {
        assert(w[w.len() - 1] < g.len());
    }
    if tree_dominates(idom, s, w.last()) {
        let kk = choose|kk: nat| chain_reaches(idom, s, w.last(), kk);
        lemma_tree_dom_is_dom(g, entry, idom, s, w.last(), kk);
    }
}

/// Under a true immediate-dominator table, every block of the stack is
/// entered by an edge from the one below it that does not go to a
/// dominator.
#[verifier::opaque]
spec fn stack_descends(g: Graph, entry: BlockId, idom: Seq<Option<BlockId>>, st: Seq<(BlockId, usize)>) -> bool {
    is_idom_table(g, entry, idom) ==> forall|k: int|
        0 <= k < st.len() - 1 ==> !tree_dominates(idom, #[trigger] st[k + 1].0, st[k].0)
}

proof fn lemma_descends_keep(
    g: Graph,
    entry: BlockId,
    idom: Seq<Option<BlockId>>,
    st0: Seq<(BlockId, usize)>,
    st1: Seq<(BlockId, usize)>,
)
    requires
        stack_descends(g, entry, idom, st0),
        st0.len() > 0,
        st1.len() <= st0.len() + 1,
        forall|k: int| 0 <= k < st1.len() && k < st0.len() ==> #[trigger] st1[k].0 == st0[k].0,
        st1.len() == st0.len() + 1 && is_idom_table(g, entry, idom) ==> !tree_dominates(
            idom,
            st1.last().0,
            st0.last().0,
        ),
    ensures
        stack_descends(g, entry, idom, st1),
{
    reveal(stack_descends);
    if is_idom_table(g, entry, idom) {
        assert forall|k: int| 0 <= k < st1.len() - 1 implies !tree_dominates(
            idom,
            #[trigger] st1[k + 1].0,
            st1[k].0,
        ) by {
            assert(st1[k].0 == st0[k].0);
            if k + 1 < st0.len() {
                assert(st1[k + 1].0 == st0[k + 1].0);
            } else {
                assert(st0.last() == st0[k]);
            }
        }
    }
}

/// A retreating edge to a non-dominator, closing a walk of the stack whose
/// edges all go to non-dominators, leaves no ranking.
proof fn lemma_bad_edge_refutes(
    g: Graph,
    entry: BlockId,
    idom: Seq<Option<BlockId>>,
    st: Seq<(BlockId, usize)>,
    m: int,
)
    requires
        0 <= m < st.len(),
        st[0].0 == entry,
        forall|j: int| 0 <= j < st.len() ==> #[trigger] st[j].0 < g.len(),
        forall|j: int| 0 <= j < st.len() - 1 ==> edge(g, #[trigger] st[j].0 as int, st[j + 1].0 as int),
        is_idom_table(g, entry, idom),
        stack_descends(g, entry, idom, st),
        edge(g, st.last().0 as int, st[m].0 as int),
        !tree_dominates(idom, st[m].0, st.last().0),
    ensures
        !forward_edges_acyclic(g, entry, idom),
{
    reveal(stack_descends);
    if forward_edges_acyclic(g, entry, idom) {
        let rank = choose|rank: Seq<int>|
            rank.len() == g.len() && forall|u: int, v: BlockId|
                reaches(g, entry, u) && #[trigger] edge(g, u, v as int) && !tree_dominates(idom, v, u as BlockId)
                    ==> rank[v as int] < rank[u];
        lemma_stack_path(g, st, 0);
        let top = st.len() - 1;
        assert(st.last() == st[top]);
        assert(rank[st[m].0 as int] < rank[st[top].0 as int]);
        if m == top {
            assert(chain_reaches(idom, st[m].0, st[top].0, 0));
        } else {
            lemma_rank_along_stack(g, entry, idom, rank, st, m, top);
        }
    }
}

/// Every finished block has its finishing time and its edges ranked.
#[verifier::opaque]
spec fn all_done(
    g: Graph,
    idom: Seq<Option<BlockId>>,
    visited: Seq<bool>,
    on_stack: Seq<bool>,
    post: Seq<int>,
    clock: int,
) -> bool {
    forall|v: int|
        0 <= v < visited.len() && #[trigger] visited[v] && !on_stack[v] ==> post[v] < clock && done_ok(
            g,
            idom,
            visited,
            on_stack,
            post,
            v,
        )
}

proof fn lemma_all_done_keep(
    g: Graph,
    idom: Seq<Option<BlockId>>,
    vis0: Seq<bool>,
    ons0: Seq<bool>,
    vis1: Seq<bool>,
    ons1: Seq<bool>,
    post: Seq<int>,
    clock: int,
)
    requires
        all_done(g, idom, vis0, ons0, post, clock),
        vis0.len() == vis1.len(),
        forall|v: int| 0 <= v < vis0.len() && vis0[v] ==> vis1[v],
        forall|v: int| 0 <= v < vis0.len() && vis0[v] && !ons0[v] ==> !ons1[v],
        forall|v: int| 0 <= v < vis0.len() && vis1[v] && !ons1[v] ==> vis0[v] && !ons0[v],
    ensures
        all_done(g, idom, vis1, ons1, post, clock),
{
    reveal(all_done);
    assert forall|v: int| 0 <= v < vis1.len() && #[trigger] vis1[v] && !ons1[v] implies post[v] < clock && done_ok(
        g,
        idom,
        vis1,
        ons1,
        post,
        v,
    ) by {
        assert(vis0[v] && !ons0[v]);
        lemma_done_keeps(g, idom, vis0, ons0, post, vis1, ons1, post, v);
    }
}

/// The top frame, one edge further: its new edge's target is visited and
/// a dominator of the frame's block, finished, or the block pushed above it.
proof fn lemma_frame_extend(
    g: Graph,
    idom: Seq<Option<BlockId>>,
    vis0: Seq<bool>,
    ons0: Seq<bool>,
    st0: Seq<(BlockId, usize)>,
    vis1: Seq<bool>,
    ons1: Seq<bool>,
    st1: Seq<(BlockId, usize)>,
    top: int,
)
    requires
        top == st0.len() - 1,
        0 <= top < st1.len(),
        frame_ok(g, idom, vis0, ons0, st0, top),
        st1[top].0 == st0[top].0,
        st1[top].1 == st0[top].1 + 1,
        st0[top].1 < g[st0[top].0 as int].len(),
        vis0.len() == vis1.len(),
        ons0.len() == vis0.len(),
        ons1.len() == vis0.len(),
        forall|v: int| 0 <= v < vis0.len() && vis0[v] ==> vis1[v],
        forall|v: int| 0 <= v < vis0.len() && vis0[v] && !ons0[v] ==> !ons1[v],
        ({
            let v = g[st0[top].0 as int][st0[top].1 as int];
            &&& v < vis1.len()
            &&& vis1[v as int]
            &&& tree_dominates(idom, v, st1[top].0) || !ons1[v as int] || (top + 1 < st1.len() && st1[top
                + 1].0 == v)
        }),
    ensures
        frame_ok(g, idom, vis1, ons1, st1, top),
{
    reveal(frame_ok);
    assert forall|kk: int| 0 <= kk < st1[top].1 implies {
        let v = #[trigger] g[st1[top].0 as int][kk];
        &&& v < vis1.len()
        &&& vis1[v as int]
        &&& tree_dominates(idom, v, st1[top].0) || !ons1[v as int] || (top + 1 < st1.len() && st1[top + 1].0 == v)
    } by {
        if kk < st0[top].1 {
            let v = g[st0[top].0 as int][kk];
            assert(v < vis0.len() && vis0[v as int]);
        }
    }
}

/// Popping the top frame finishes its block: every edge out of it is
/// ranked once it takes the next finishing time.
proof fn lemma_finish(
    g: Graph,
    idom: Seq<Option<BlockId>>,
    vis0: Seq<bool>,
    ons0: Seq<bool>,
    st0: Seq<(BlockId, usize)>,
    post0: Seq<int>,
    clock: int,
    b: BlockId,
)
    requires
        st0.len() > 0,
        st0.last().0 == b,
        st0.last().1 == g[b as int].len(),
        b < vis0.len(),
        ons0[b as int],
        vis0.len() == ons0.len(),
        post0.len() == vis0.len(),
        frame_ok(g, idom, vis0, ons0, st0, st0.len() - 1),
        vis0[b as int],
        all_done(g, idom, vis0, ons0, post0, clock),
    ensures
        all_done(g, idom, vis0, ons0.update(b as int, false), post0.update(b as int, clock), clock + 1),
{
    reveal(all_done);
    lemma_finish_edges(g, idom, vis0, ons0, st0, post0, clock, b);
    let ons1 = ons0.update(b as int, false);
    let post1 = post0.update(b as int, clock);
    assert forall|v: int|
        0 <= v < vis0.len() && #[trigger] vis0[v] && !ons1[v] implies post1[v] < clock + 1 && done_ok(
        g,
        idom,
        vis0,
        ons1,
        post1,
        v,
    ) by {
        if v != b {
            lemma_done_keeps(g, idom, vis0, ons0, post0, vis0, ons1, post1, v);
        }
    }
}

proof fn lemma_finish_edges(
    g: Graph,
    idom: Seq<Option<BlockId>>,
    vis0: Seq<bool>,
    ons0: Seq<bool>,
    st0: Seq<(BlockId, usize)>,
    post0: Seq<int>,
    clock: int,
    b: BlockId,
)
    requires
        st0.len() > 0,
        st0.last().0 == b,
        st0.last().1 == g[b as int].len(),
        b < vis0.len(),
        ons0[b as int],
        vis0.len() == ons0.len(),
        post0.len() == vis0.len(),
        frame_ok(g, idom, vis0, ons0, st0, st0.len() - 1),
        all_done(g, idom, vis0, ons0, post0, clock),
    ensures
        done_ok(g, idom, vis0, ons0.update(b as int, false), post0.update(b as int, clock), b as int),
{
    reveal(frame_ok);
    reveal(done_ok);
    reveal(all_done);
    let top = st0.len() - 1;
    let ons1 = ons0.update(b as int, false);
    let post1 = post0.update(b as int, clock);
    assert(st0[top] == st0.last());
    assert forall|kk: int| 0 <= kk < g[b as int].len() implies edge_ranked(
        idom,
        vis0,
        ons1,
        post1,
        b as int,
        #[trigger] g[b as int][kk],
    ) by {
        let v = g[b as int][kk];
        assert(v == g[st0[top].0 as int][kk]);
        if !tree_dominates(idom, v, b) {
            assert(v != b) by {
                if v == b {
                    assert(chain_reaches(idom, b, b, 0));
                }
            }
            assert(!ons0[v as int]);
        }
    }
}

proof fn lemma_frame_keeps(
    g: Graph,
    idom: Seq<Option<BlockId>>,
    vis0: Seq<bool>,
    ons0: Seq<bool>,
    st0: Seq<(BlockId, usize)>,
    k0: int,
    vis1: Seq<bool>,
    ons1: Seq<bool>,
    st1: Seq<(BlockId, usize)>,
    k: int,
)
    requires
        0 <= k0 < st0.len(),
        0 <= k < st1.len(),
        frame_ok(g, idom, vis0, ons0, st0, k0),
        st1[k].0 == st0[k0].0,
        st1[k].1 <= st0[k0].1,
        vis0.len() == vis1.len(),
        ons0.len() == vis0.len(),
        ons1.len() == vis0.len(),
        forall|v: int| 0 <= v < vis0.len() && vis0[v] ==> vis1[v],
        forall|v: int| 0 <= v < vis0.len() && vis0[v] && !ons0[v] ==> !ons1[v],
        k0 + 1 < st0.len() ==> (st0[k0 + 1].0 < vis0.len() && !ons1[st0[k0 + 1].0 as int]) || (k + 1 < st1.len()
            && st1[k + 1].0 == st0[k0 + 1].0),
    ensures
        frame_ok(g, idom, vis1, ons1, st1, k),
{
    reveal(frame_ok);
    assert forall|kk: int| 0 <= kk < st1[k].1 implies {
        let v = #[trigger] g[st1[k].0 as int][kk];
        &&& v < vis1.len()
        &&& vis1[v as int]
        &&& tree_dominates(idom, v, st1[k].0) || !ons1[v as int] || (k + 1 < st1.len() && st1[k + 1].0 == v)
    } by {
        let v = g[st0[k0].0 as int][kk];
        assert(v < vis0.len() && vis0[v as int]);
    }
}

proof fn lemma_done_keeps(
    g: Graph,
    idom: Seq<Option<BlockId>>,
    vis0: Seq<bool>,
    ons0: Seq<bool>,
    post0: Seq<int>,
    vis1: Seq<bool>,
    ons1: Seq<bool>,
    post1: Seq<int>,
    u: int,
)
    requires
        done_ok(g, idom, vis0, ons0, post0, u),
        vis0.len() == vis1.len(),
        forall|v: int| 0 <= v < vis0.len() && vis0[v] ==> vis1[v],
        forall|v: int| 0 <= v < vis0.len() && vis0[v] && !ons0[v] ==> !ons1[v] && post1[v] == post0[v],
        post1[u] == post0[u],
    ensures
        done_ok(g, idom, vis1, ons1, post1, u),
{
    reveal(done_ok);
    assert forall|kk: int| 0 <= kk < g[u].len() implies edge_ranked(
        idom,
        vis1,
        ons1,
        post1,
        u,
        #[trigger] g[u][kk],
    ) by {
        assert(edge_ranked(idom, vis0, ons0, post0, u, g[u][kk]));
    }
}

proof fn lemma_stack_path(g: Graph, s: Seq<(BlockId, usize)>, m: int)
    requires
        0 <= m < s.len(),
        forall|k: int| 0 <= k < s.len() ==> #[trigger] s[k].0 < g.len(),
        forall|k: int| 0 <= k < s.len() - 1 ==> edge(g, #[trigger] s[k].0 as int, s[k + 1].0 as int),
    ensures
        reaches(g, s[m].0, s.last().0 as int),
{
    let p = stack_nodes(s).subrange(m, s.len() as int);
    assert forall|i: int| 0 <= i < p.len() - 1 implies edge(g, #[trigger] p[i] as int, p[i + 1] as int) by {
        assert(p[i] == s[m + i].0 && p[i + 1] == s[m + i + 1].0);
    }
    assert forall|i: int| 0 <= i < p.len() implies #[trigger] p[i] < g.len() by {
        assert(p[i] == s[m + i].0);
    }
    assert(is_path(g, p));
    assert(seq![s[m].0].contains(p[0])) by {
        assert(seq![s[m].0][0] == p[0]);
    }
    assert(avoids(p, None));
    assert(p.last() == s.last().0);
}

/// Reducibility test: every retreating edge `u → v` of a depth-first walk
/// from the entry must target a dominator of its source. A refusal names
/// such an edge: on a cycle, between reachable blocks, with a target that
/// does not dominate its source. An acceptance means that, once the edges
/// to a dominator are set aside, the reachable graph has no cycle.
#[verifier::spinoff_prover]
#[verifier::rlimit(100)]
pub fn is_reducible(cfg: &Cfg, entry: BlockId, idom: &[Option<BlockId>]) -> (r: bool)
    requires
        cfg.wf(),
        entry < cfg.succs.len(),
        idom.len() == cfg.succs.len(),
        idom_forest(idom@),
    ensures
        !r ==> has_bad_back_edge(cfg.g(), entry, idom@),
        r ==> forward_edges_acyclic(cfg.g(), entry, idom@),
        is_idom_table(cfg.g(), entry, idom@) ==> (r <==> forward_edges_acyclic(cfg.g(), entry, idom@)),
{
    let n = cfg.succs.len();
    let ghost g = cfg.g();
    let mut visited: Vec<bool> = Vec::new();
    let mut on_stack: Vec<bool> = Vec::new();
    let mut i: usize = 0;
    while i < n
        invariant
            i <= n,
            visited.len() == i,
            on_stack.len() == i,
            forall|b: int| 0 <= b < i ==> !(#[trigger] visited@[b]) && !on_stack@[b],
        decreases n - i,
    {
        visited.push(false);
        on_stack.push(false);
        i = i + 1;
    }
    let mut stack: Vec<(BlockId, usize)> = Vec::new();
    proof {
        lemma_count_set(visited@, entry as int);
        lemma_count_le(visited@.update(entry as int, true));
    }
    let ghost vis_init = visited@;
    stack.push((entry, 0));
    visited.set(entry, true);
    on_stack.set(entry, true);
    assert(stack_nodes(stack@)[0] == entry);
    assert forall|v: int| 0 <= v < n && #[trigger] on_stack@[v] implies visited@[v] && stack_nodes(
        stack@,
    ).contains(v as BlockId) by {
        if v != entry {
            assert(!vis_init[v]);
        }
    }
    let ghost mut post: Seq<int> = Seq::new(n as nat, |v: int| 0int);
    let ghost mut clock: int = 0;
    assert(all_frames(g, idom@, visited@, on_stack@, stack@)) by {
        reveal(all_frames);
        assert(frame_ok(g, idom@, visited@, on_stack@, stack@, 0)) by {
            reveal(frame_ok);
        }
    }
    assert(stack_descends(g, entry, idom@, stack@)) by {
        reveal(stack_descends);
    }
    assert(all_done(g, idom@, visited@, on_stack@, post, clock)) by {
        reveal(all_done);
        assert forall|v: int| 0 <= v < n && visited@[v] implies on_stack@[v] by {
            if v != entry {
                assert(!vis_init[v]);
            }
        }
    }
    while stack.len() > 0
        invariant
            cfg.wf(),
            g == cfg.g(),
            n == g.len(),
            entry < n,
            idom.len() == n,
            idom_forest(idom@),
            visited.len() == n,
            on_stack.len() == n,
            count_true(visited@) <= n,
            forall|k: int|
                0 <= k < stack.len() ==> #[trigger] stack@[k].0 < n && on_stack@[stack@[k].0 as int]
                    && stack@[k].1 <= g[stack@[k].0 as int].len(),
            forall|v: int| 0 <= v < n && #[trigger] on_stack@[v] ==> visited@[v] && stack_nodes(
                stack@,
            ).contains(v as BlockId),
            stack.len() > 0 ==> stack@[0].0 == entry,
            forall|k: int| 0 <= k < stack.len() - 1 ==> edge(g, #[trigger] stack@[k].0 as int, stack@[k + 1].0 as int),
            forall|k1: int, k2: int|
                0 <= k1 < k2 < stack.len() ==> #[trigger] stack@[k1].0 != #[trigger] stack@[k2].0,
            visited@[entry as int],
            post.len() == n,
            all_done(g, idom@, visited@, on_stack@, post, clock),
            all_frames(g, idom@, visited@, on_stack@, stack@),
            stack_descends(g, entry, idom@, stack@),
        decreases n - count_true(visited@), stack_work(g, stack@),
    {
        let top = stack.len() - 1;
        let (b, i) = stack[top];
        let ghost vis0 = visited@;
        let ghost ons0 = on_stack@;
        let ghost st0 = stack@;
        let row = &cfg.succs[b];
        if i < row.len() {
            let s = row[i];
            assert(g[b as int][i as int] == s);
            assert(s < n);
            let ghost before = stack@;
            stack.set(top, (b, i + 1));
            proof {
                assert(stack@.drop_last() =~= before.drop_last());
                assert forall|v: BlockId| stack_nodes(before).contains(v) implies stack_nodes(stack@).contains(v) by {
                    let k = stack_nodes(before).index_of(v);
                    assert(stack_nodes(stack@)[k] == v);
                }
            }
            if !visited[s] {
                let ghost mid = stack@;
                proof {
                    lemma_count_set(visited@, s as int);
                    lemma_count_le(visited@.update(s as int, true));
                    assert(!on_stack@[s as int]);
                    assert forall|k: int| 0 <= k < mid.len() implies mid[k].0 != s by {
                        if mid[k].0 == s {
                            assert(on_stack@[mid[k].0 as int]);
                        }
                    }
                }
                visited.set(s, true);
                on_stack.set(s, true);
                stack.push((s, 0));
                proof {
                    assert(stack@.drop_last() =~= mid);
                    assert forall|v: BlockId| stack_nodes(mid).contains(v) implies stack_nodes(stack@).contains(v) by {
                        let k = stack_nodes(mid).index_of(v);
                        assert(stack_nodes(stack@)[k] == v);
                    }
                    assert(stack_nodes(stack@)[stack.len() - 1] == s);
                    assert(edge(g, b as int, s as int)) by {
                        assert(g[b as int].contains(s));
                    }
                    lemma_descends_keep(g, entry, idom@, st0, mid);
                    if is_idom_table(g, entry, idom@) {
                        let w = stack_nodes(mid);
                        assert forall|k: int| 0 <= k < w.len() - 1 implies edge(
                            g,
                            #[trigger] w[k] as int,
                            w[k + 1] as int,
                        ) by {
                            assert(w[k] == st0[k].0 && w[k + 1] == st0[k + 1].0);
                        }
                        assert forall|k: int| 0 <= k < w.len() implies #[trigger] w[k] < g.len() by {
                            assert(w[k] == mid[k].0);
                        }
                        assert(w.last() == b);
                        lemma_walk_not_dominated(g, entry, idom@, w, s);
                        assert(mid.last() == mid[top as int]);
                    }
                    lemma_descends_keep(g, entry, idom@, mid, stack@);
                    lemma_all_done_keep(g, idom@, vis0, ons0, visited@, on_stack@, post, clock);
                    assert(all_frames(g, idom@, visited@, on_stack@, stack@)) by {
                        reveal(all_frames);
                        assert forall|k: int| 0 <= k < stack.len() implies #[trigger] frame_ok(
                            g,
                            idom@,
                            visited@,
                            on_stack@,
                            stack@,
                            k,
                        ) by {
                            if k < top {
                                assert(frame_ok(g, idom@, vis0, ons0, st0, k));
                                lemma_frame_keeps(g, idom@, vis0, ons0, st0, k, visited@, on_stack@, stack@, k);
                            } else if k == top {
                                lemma_frame_extend(g, idom@, vis0, ons0, st0, visited@, on_stack@, stack@, k);
                            } else {
                                reveal(frame_ok);
                            }
                        }
                    }
                }
            } else if on_stack[s] {
                if !dominates(idom, s, b) {
                    proof {
                        let m = stack_nodes(stack@).index_of(s);
                        assert(stack@[m].0 == s);
                        lemma_stack_path(g, stack@, m);
                        lemma_stack_path(g, stack@, 0);
                        assert(edge(g, b as int, s as int)) by {
                            assert(g[b as int].contains(s));
                        }
                        assert(has_bad_back_edge(g, entry, idom@));
                        if is_idom_table(g, entry, idom@) {
                            lemma_descends_keep(g, entry, idom@, st0, stack@);
                            assert(stack@.last().0 == b);
                            lemma_bad_edge_refutes(g, entry, idom@, stack@, m);
                        }
                    }
                    return false;
                }
                proof {
                    assert(tree_dominates(idom@, s, b));
                }
            }
            proof {
                if vis0[s as int] {
                    lemma_descends_keep(g, entry, idom@, st0, stack@);
                }
                assert(all_frames(g, idom@, visited@, on_stack@, stack@)) by {
                    reveal(all_frames);
                    assert forall|k: int| 0 <= k < stack.len() implies #[trigger] frame_ok(
                        g,
                        idom@,
                        visited@,
                        on_stack@,
                        stack@,
                        k,
                    ) by {
                        if k < top {
                            assert(frame_ok(g, idom@, vis0, ons0, st0, k));
                            lemma_frame_keeps(g, idom@, vis0, ons0, st0, k, visited@, on_stack@, stack@, k);
                        } else if k == top && vis0[s as int] {
                            lemma_frame_extend(g, idom@, vis0, ons0, st0, visited@, on_stack@, stack@, k);
                        }
                    }
                }
            }
        } else {
            let ghost before = stack@;
            on_stack.set(b, false);
            stack.pop();
            proof {
                assert(stack@ =~= before.drop_last());
                assert forall|v: int| 0 <= v < n && #[trigger] on_stack@[v] implies visited@[v] && stack_nodes(
                    stack@,
                ).contains(v as BlockId) by {
                    assert(v != b);
                    let k = stack_nodes(before).index_of(v as BlockId);
                    assert(before[k].0 == v);
                    assert(k != top);
                    assert(stack_nodes(stack@)[k] == v);
                }
                let post0 = post;
                assert(frame_ok(g, idom@, vis0, ons0, st0, top as int)) by {
                    reveal(all_frames);
                }
                assert(st0.last() == st0[top as int]);
                lemma_finish(g, idom@, vis0, ons0, st0, post0, clock, b);
                post = post.update(b as int, clock);
                clock = clock + 1;
                assert(on_stack@ == ons0.update(b as int, false));
                lemma_descends_keep(g, entry, idom@, st0, stack@);
                assert(all_frames(g, idom@, visited@, on_stack@, stack@)) by {
                    reveal(all_frames);
                    assert forall|k: int| 0 <= k < stack.len() implies #[trigger] frame_ok(
                        g,
                        idom@,
                        visited@,
                        on_stack@,
                        stack@,
                        k,
                    ) by {
                        assert(frame_ok(g, idom@, vis0, ons0, st0, k));
                        lemma_frame_keeps(g, idom@, vis0, ons0, st0, k, visited@, on_stack@, stack@, k);
                    }
                }
            }
        }
    }
    proof {
        assert forall|v: int, k: int|
            0 <= v < g.len() && visited@[v] && 0 <= k < g[v].len() implies None::<BlockId> == Some(
            #[trigger] g[v][k],
        ) || visited@[g[v][k] as int] by {
            assert(!on_stack@[v]) by {
                if on_stack@[v] {
                    assert(stack_nodes(stack@).contains(v as BlockId));
                }
            }
            reveal(all_done);
            assert(done_ok(g, idom@, visited@, on_stack@, post, v));
            reveal(done_ok);
            assert(edge_ranked(idom@, visited@, on_stack@, post, v, g[v][k]));
        }
        assert forall|u: int, v: BlockId|
            reaches(g, entry, u) && #[trigger] edge(g, u, v as int) && !tree_dominates(idom@, v, u as BlockId)
                implies post[v as int] < post[u] by {
            let p = choose|p: Seq<BlockId>| #![trigger is_path(g, p), p.last()]
                is_path(g, p) && seq![entry].contains(p[0]) && p.last() == u && avoids(p, None);
            assert(p[0] == entry) by {
                assert(seq![entry][0] == entry);
            }
            lemma_closed_contains_walk(g, visited@, None, p);
            assert(!on_stack@[u]) by {
                if on_stack@[u] {
                    assert(stack_nodes(stack@).contains(u as BlockId));
                }
            }
            reveal(all_done);
            assert(done_ok(g, idom@, visited@, on_stack@, post, u));
            reveal(done_ok);
            let kk = g[u].index_of(v);
            assert(u < g.len() && p.last() == u);
            assert(edge_ranked(idom@, visited@, on_stack@, post, u, g[u][kk]));
        }
        assert(forward_edges_acyclic(g, entry, idom@));
    }
    true
}


/// The reversed CFG with a virtual exit node `g.len()`: an edge `v → u`
/// for every edge `u → v` of `g`, and an edge from the exit to every exit
/// block.
pub open spec fn reverse_with_exit(g: Graph, is_exit: Seq<bool>) -> Graph {
    Seq::new(
        g.len() + 1,
        |v: int|
            Seq::new(g.len(), |u: int| u as BlockId).filter(
                |u: BlockId|
                    if v < g.len() {
                        g[u as int].contains(v as BlockId)
                    } else {
                        is_exit[u as int]
                    },
            ),
    )
}

/// The reversed-graph edge relation, spelled out.
pub open spec fn rev_edge(g: Graph, is_exit: Seq<bool>, v: int, u: int) -> bool {
    &&& 0 <= u < g.len()
    &&& 0 <= v <= g.len()
    &&& if v < g.len() {
        g[u].contains(v as BlockId)
    } else {
        is_exit[u]
    }
}

proof fn lemma_reverse_edges(g: Graph, is_exit: Seq<bool>, v: int, w: BlockId)
    requires
        0 <= v <= g.len(),
        g.len() < usize::MAX,
    ensures
        reverse_with_exit(g, is_exit)[v].contains(w) <==> (w < g.len() && rev_edge(
            g,
            is_exit,
            v,
            w as int,
        )),
{
    let all = Seq::new(g.len(), |x: int| x as BlockId);
    let pred = |x: BlockId|
        if v < g.len() {
            g[x as int].contains(v as BlockId)
        } else {
            is_exit[x as int]
        };
    let f = all.filter(pred);
    assert(reverse_with_exit(g, is_exit)[v] == f);
    if w < g.len() && pred(w) {
        assert(all[w as int] == w);
        all.lemma_filter_contains(pred, w as int);
    }
    if f.contains(w) {
        all.lemma_filter_contains_rev(pred, w);
        let j = choose|j: int| 0 <= j < all.len() && all[j] == w;
        assert(all[j] == j as BlockId);
        let i = choose|i: int| 0 <= i < f.len() && f[i] == w;
        all.lemma_filter_pred(pred, i);
    }
}

proof fn lemma_same_paths(g1: Graph, g2: Graph, p: Seq<BlockId>)
    requires
        g1.len() == g2.len(),
        forall|a: int, b: int| edge(g1, a, b) == edge(g2, a, b),
    ensures
        is_path(g1, p) == is_path(g2, p),
{
    if is_path(g1, p) {
        assert forall|i: int| 0 <= i < p.len() - 1 implies edge(g2, #[trigger] p[i] as int, p[i + 1] as int) by {
            assert(edge(g1, p[i] as int, p[i + 1] as int));
        }
    }
    if is_path(g2, p) {
        assert forall|i: int| 0 <= i < p.len() - 1 implies edge(g1, #[trigger] p[i] as int, p[i + 1] as int) by {
            assert(edge(g2, p[i] as int, p[i + 1] as int));
        }
    }
}

/// Two graphs with the same edges have the same immediate dominators.
proof fn lemma_same_edges_same_idom(g1: Graph, g2: Graph, e: BlockId)
    requires
        g1.len() == g2.len(),
        forall|a: int, b: int| edge(g1, a, b) == edge(g2, a, b),
    ensures
        forall|b: BlockId, d: BlockId| #[trigger] is_idom(g1, e, b, d) == is_idom(g2, e, b, d),
{
    assert forall|seeds: Seq<BlockId>, x: Option<BlockId>, b: int|
        #[trigger] reach_from(g1, seeds, x, b) == reach_from(g2, seeds, x, b) by {
        if reach_from(g1, seeds, x, b) {
            let p = choose|p: Seq<BlockId>|
                #![trigger is_path(g1, p), p.last()]
                is_path(g1, p) && seeds.contains(p[0]) && p.last() == b && avoids(p, x);
            lemma_same_paths(g1, g2, p);
        }
        if reach_from(g2, seeds, x, b) {
            let p = choose|p: Seq<BlockId>|
                #![trigger is_path(g2, p), p.last()]
                is_path(g2, p) && seeds.contains(p[0]) && p.last() == b && avoids(p, x);
            lemma_same_paths(g1, g2, p);
        }
    }
    assert forall|d: BlockId, b: BlockId| #[trigger] dom(g1, e, d, b) == dom(g2, e, d, b) by {
        assert(reach_from(g1, seq![e], None, b as int) == reach_from(g2, seq![e], None, b as int));
        assert(reach_from(g1, seq![e], Some(d), b as int) == reach_from(g2, seq![e], Some(d), b as int));
    }
    assert forall|b: BlockId, d: BlockId| #[trigger] is_idom(g1, e, b, d) == is_idom(g2, e, b, d) by {
        assert(sdom(g1, e, d, b) == sdom(g2, e, d, b));
        if is_idom(g1, e, b, d) {
            assert forall|d2: BlockId| #[trigger] sdom(g2, e, d2, b) implies dom(g2, e, d2, d) by {
                assert(sdom(g1, e, d2, b));
            }
        }
        if is_idom(g2, e, b, d) {
            assert forall|d2: BlockId| #[trigger] sdom(g1, e, d2, b) implies dom(g1, e, d2, d) by {
                assert(sdom(g2, e, d2, b));
            }
        }
    }
}

/// What `post_dominators` holds for block `b`: its immediate dominator in
/// the reversed graph rooted at the virtual exit, when that is a real block.
pub open spec fn ipdom_slot(g: Graph, is_exit: Seq<bool>, b: int, v: Option<BlockId>) -> bool {
    let rg = reverse_with_exit(g, is_exit);
    match v {
        Some(p) => p < g.len() && is_idom(rg, g.len() as BlockId, b as BlockId, p),
        None => forall|p: BlockId| p < g.len() ==> !#[trigger] is_idom(rg, g.len() as BlockId, b as BlockId, p),
    }
}

/// Immediate post-dominators: dominators of the reversed CFG with a
/// virtual exit fed only by the given exit blocks. A block whose immediate
/// post-dominator is the virtual exit, or that reaches no exit, has `None`.
#[verifier::spinoff_prover]
pub fn post_dominators(cfg: &Cfg, is_exit: &[bool]) -> (r: Vec<Option<BlockId>>)
    requires
        cfg.wf(),
        is_exit.len() == cfg.succs.len(),
        cfg.succs.len() < usize::MAX,
    ensures
        r.len() == cfg.succs.len(),
        forall|b: int| 0 <= b < r.len() ==> ipdom_slot(cfg.g(), is_exit@, b, #[trigger] r@[b]),
{
    let n = cfg.succs.len();
    let exit = n;
    let ghost g = cfg.g();
    let mut rsuccs: Vec<Vec<BlockId>> = Vec::new();
    let mut rpreds: Vec<Vec<BlockId>> = Vec::new();
    let mut i: usize = 0;
    while i <= n
        invariant
            n < usize::MAX,
            i <= n + 1,
            rsuccs.len() == i,
            rpreds.len() == i,
            forall|v: int| 0 <= v < i ==> (#[trigger] rsuccs@[v])@.len() == 0,
        decreases n + 1 - i,
    {
        rsuccs.push(Vec::new());
        rpreds.push(Vec::new());
        i = i + 1;
    }
    let mut b: usize = 0;
    while b < n
        invariant
            cfg.wf(),
            g == cfg.g(),
            n == g.len(),
            n < usize::MAX,
            exit == n,
            is_exit.len() == n,
            b <= n,
            rsuccs.len() == n + 1,
            rpreds.len() == n + 1,
            forall|v: int, u: int|
                0 <= v <= n && 0 <= u < n ==> (#[trigger] rsuccs@[v]@.contains(u as BlockId) <==> (u
                    < b && rev_edge(g, is_exit@, v, u))),
            forall|v: int, k: int|
                0 <= v <= n && 0 <= k < rsuccs@[v]@.len() ==> #[trigger] rsuccs@[v]@[k] < b,
        decreases n - b,
    {
        let row = &cfg.succs[b];
        let mut k: usize = 0;
        while k < row.len()
            invariant
                cfg.wf(),
                g == cfg.g(),
                n == g.len(),
                n < usize::MAX,
                is_exit.len() == n,
                b < n,
                row@ == g[b as int],
                k <= row.len(),
                rsuccs.len() == n + 1,
                rpreds.len() == n + 1,
                forall|v: int, u: int|
                    0 <= v <= n && 0 <= u < n ==> (#[trigger] rsuccs@[v]@.contains(u as BlockId) <==> ((u
                        < b && rev_edge(g, is_exit@, v, u)) || (u == b && v < n && row@.take(
                        k as int,
                    ).contains(v as BlockId)))),
                forall|v: int, j: int|
                    0 <= v <= n && 0 <= j < rsuccs@[v]@.len() ==> #[trigger] rsuccs@[v]@[j] <= b,
            decreases row.len() - k,
        {
            let s = row[k];
            assert(s < n);
            let ghost old_r = rsuccs@;
            assert forall|v: int, u: int| 0 <= v <= n && 0 <= u < n implies (old_r[v]@.contains(
                u as BlockId,
            ) <==> ((u < b && rev_edge(g, is_exit@, v, u)) || (u == b && v < n && row@.take(
                k as int,
            ).contains(v as BlockId)))) by {
                assert(rsuccs@[v]@.contains(u as BlockId) == old_r[v]@.contains(u as BlockId));
            }
            push_at(&mut rsuccs, s, b);
            push_at(&mut rpreds, b, s);
            proof {
                assert forall|v: int, u: int| 0 <= v <= n && 0 <= u < n implies (
                #[trigger] rsuccs@[v]@.contains(u as BlockId) <==> ((u < b && rev_edge(
                    g,
                    is_exit@,
                    v,
                    u,
                )) || (u == b && v < n && row@.take(k + 1).contains(v as BlockId)))) by {
                    let t1 = row@.take(k + 1);
                    let t0 = row@.take(k as int);
                    assert(t1 =~= t0.push(s));
                    lemma_push_contains(t0, s, v as BlockId);
                    if v == s {
                        assert(rsuccs@[v]@ =~= old_r[v]@.push(b));
                        lemma_push_contains(old_r[v]@, b, u as BlockId);
                    } else {
                        assert(rsuccs@[v] == old_r[v]);
                    }
                }
                assert forall|v: int, j: int|
                    0 <= v <= n && 0 <= j < rsuccs@[v]@.len() implies #[trigger] rsuccs@[v]@[j] <= b by {
                    if v == s {
                        assert(rsuccs@[v]@ =~= old_r[v]@.push(b));
                        if j < old_r[v]@.len() {
                            assert(rsuccs@[v]@[j] == old_r[v]@[j]);
                        }
                    } else {
                        assert(rsuccs@[v] == old_r[v]);
                    }
                }
            }
            k = k + 1;
        }
        assert(row@.take(row.len() as int) =~= row@);
        let ghost mid = rsuccs@;
        if is_exit[b] {
            push_at(&mut rsuccs, exit, b);
            push_at(&mut rpreds, b, exit);
        }
        proof {
            assert forall|v: int, u: int| 0 <= v <= n && 0 <= u < n implies (
            #[trigger] rsuccs@[v]@.contains(u as BlockId) <==> (u < b + 1 && rev_edge(g, is_exit@, v, u))) by {
                assert(mid[v]@.contains(u as BlockId) <==> ((u < b && rev_edge(g, is_exit@, v, u)) || (u
                    == b && v < n && row@.contains(v as BlockId))));
                if is_exit@[b as int] && v == n {
                    assert(rsuccs@[v]@ =~= mid[v]@.push(b));
                    lemma_push_contains(mid[v]@, b, u as BlockId);
                } else {
                    assert(rsuccs@[v] == mid[v]);
                }
            }
            assert forall|v: int, j: int|
                0 <= v <= n && 0 <= j < rsuccs@[v]@.len() implies #[trigger] rsuccs@[v]@[j] < b + 1 by {
                if is_exit@[b as int] && v == n {
                    assert(rsuccs@[v]@ =~= mid[v]@.push(b));
                    if j < mid[v]@.len() {
                        assert(rsuccs@[v]@[j] == mid[v]@[j]);
                    }
                } else {
                    assert(rsuccs@[v] == mid[v]);
                }
            }
        }
        b = b + 1;
    }
    let rcfg = Cfg { succs: rsuccs, preds: rpreds };
    let ghost rg = reverse_with_exit(g, is_exit@);
    proof {
        assert(rcfg.g().len() == n + 1);
        assert forall|x: int, k: int|
            0 <= x < rcfg.g().len() && 0 <= k < rcfg.g()[x].len() implies 0 <= #[trigger] rcfg.g()[x][k]
            < rcfg.g().len() by {
            assert(rcfg.g()[x][k] == rcfg.succs@[x]@[k]);
        }
        assert forall|a: int, c: int| edge(rcfg.g(), a, c) == edge(rg, a, c) by {
            if 0 <= a <= n && 0 <= c {
                let w = c as BlockId;
                lemma_reverse_edges(g, is_exit@, a, w);
                if rcfg.g()[a].contains(w) {
                    let k = rcfg.g()[a].index_of(w);
                    assert(rcfg.succs@[a]@[k] < n);
                    assert(rsuccs@[a]@.contains((w as int) as BlockId));
                }
                if w < n && rev_edge(g, is_exit@, a, w as int) {
                    assert(rsuccs@[a]@.contains((w as int) as BlockId));
                    assert(rcfg.g()[a] == rsuccs@[a]@);
                }
            }
        }
        lemma_same_edges_same_idom(rcfg.g(), rg, exit);
    }
    let ipdom_with_exit = dominators(&rcfg, exit);
    let mut out: Vec<Option<BlockId>> = Vec::new();
    let mut x: usize = 0;
    while x < n
        invariant
            x <= n,
            n == g.len(),
            exit == n,
            rg == reverse_with_exit(g, is_exit@),
            is_idom_table(rcfg.g(), exit, ipdom_with_exit@),
            forall|b: BlockId, d: BlockId| #[trigger] is_idom(rcfg.g(), exit, b, d) == is_idom(rg, exit, b, d),
            rcfg.g().len() == n + 1,
            out.len() == x,
            forall|b: int| 0 <= b < x ==> ipdom_slot(g, is_exit@, b, #[trigger] out@[b]),
        decreases n - x,
    {
        let v = match ipdom_with_exit[x] {
            Some(p) => if p != exit { Some(p) } else { None },
            None => None,
        };
        proof {
            assert(idom_slot(rcfg.g(), exit, x as int, ipdom_with_exit@[x as int]));
            match ipdom_with_exit@[x as int] {
                Some(p) => {
                    if p != exit {
                        lemma_idom_fewer_doms(rcfg.g(), exit, x, p);
                    } else {
                        assert forall|q: BlockId| q < n implies !#[trigger] is_idom(rg, n as BlockId, x, q) by {
                            if is_idom(rg, n as BlockId, x, q) {
                                assert(is_idom(rcfg.g(), exit, x, q));
                                assert(dom(rcfg.g(), exit, q, exit));
                                assert(dom(rcfg.g(), exit, exit, q)) by {
                                    assert(sdom(rcfg.g(), exit, exit, x));
                                }
                                lemma_dom_antisymmetric(rcfg.g(), exit, q, exit);
                            }
                        }
                    }
                },
                None => {
                    assert forall|q: BlockId| q < n implies !#[trigger] is_idom(rg, n as BlockId, x, q) by {
                        assert(!is_idom(rcfg.g(), exit, x, q));
                    }
                },
            }
        }
        out.push(v);
        x = x + 1;
    }
    out
}


/// Reverse postorder of a depth-first walk from `entry`: every block
/// reachable from the entry exactly once, the entry first. An edge that
/// runs from a later block to an earlier one closes a cycle: its target
/// reaches its source.
#[verifier::rlimit(60)]
#[verifier::spinoff_prover]
pub fn reverse_postorder(cfg: &Cfg, entry: BlockId) -> (r: Vec<BlockId>)
    requires
        cfg.wf(),
        entry < cfg.succs.len(),
    ensures
        r.len() > 0,
        r@[0] == entry,
        r@.no_duplicates(),
        forall|b: BlockId|
            #[trigger] r@.contains(b) <==> (b < cfg.succs.len() && reaches(cfg.g(), entry, b as int)),
        forall|i: int, j: int|
            0 <= j < i < r.len() && #[trigger] edge(cfg.g(), r@[i] as int, r@[j] as int) ==> reaches(
                cfg.g(),
                r@[j],
                r@[i] as int,
            ),
{
    let n = cfg.succs.len();
    let ghost g = cfg.g();
    let mut visited: Vec<bool> = Vec::new();
    let mut i: usize = 0;
    while i < n
        invariant
            i <= n,
            visited.len() == i,
            forall|b: int| 0 <= b < i ==> !(#[trigger] visited@[b]),
        decreases n - i,
    {
        visited.push(false);
        i = i + 1;
    }
    let mut order: Vec<BlockId> = Vec::new();
    let mut stack: Vec<(BlockId, usize)> = Vec::new();
    proof {
        lemma_count_set(visited@, entry as int);
        lemma_count_le(visited@.update(entry as int, true));
        lemma_singleton_path(g, entry);
        assert(seq![entry].contains(seq![entry][0]));
        assert(reaches(g, entry, entry as int));
    }
    stack.push((entry, 0));
    visited.set(entry, true);
    assert(stack_nodes(stack@)[0] == entry);
    while stack.len() > 0
        invariant
            cfg.wf(),
            g == cfg.g(),
            n == g.len(),
            entry < n,
            visited.len() == n,
            count_true(visited@) <= n,
            forall|k: int|
                0 <= k < stack.len() ==> #[trigger] stack@[k].0 < n && visited@[stack@[k].0 as int]
                    && stack@[k].1 <= g[stack@[k].0 as int].len(),
            forall|k1: int, k2: int|
                0 <= k1 < k2 < stack.len() ==> #[trigger] stack@[k1].0 != #[trigger] stack@[k2].0,
            stack.len() > 0 ==> stack@[0].0 == entry,
            stack.len() == 0 ==> order.len() > 0 && order@.last() == entry,
            forall|k: int| 0 <= k < stack.len() - 1 ==> edge(g, #[trigger] stack@[k].0 as int, stack@[k + 1].0 as int),
            forall|k: int|
                0 <= k < order.len() ==> #[trigger] order@[k] < n && visited@[order@[k] as int]
                    && !stack_nodes(stack@).contains(order@[k]),
            order@.no_duplicates(),
            forall|v: int|
                0 <= v < n && #[trigger] visited@[v] ==> order@.contains(v as BlockId) || stack_nodes(
                    stack@,
                ).contains(v as BlockId),
            forall|v: int| 0 <= v < n && #[trigger] visited@[v] ==> reaches(g, entry, v),
            forall|k: int, j: int|
                0 <= k < stack.len() && 0 <= j < stack@[k].1 ==> visited@[#[trigger] g[stack@[k].0 as int][j] as int],
            forall|p: int, j: int|
                0 <= p < order.len() && 0 <= j < g[order@[p] as int].len() ==> visited@[#[trigger] g[order@[p] as int][j] as int]
                    && (order@.take(p).contains(g[order@[p] as int][j]) || reaches(
                    g,
                    g[order@[p] as int][j],
                    order@[p] as int,
                )),
        decreases n - count_true(visited@), stack_work(g, stack@),
    {
        let top = stack.len() - 1;
        let (b, i) = stack[top];
        let row = &cfg.succs[b];
        if i < row.len() {
            let s = row[i];
            assert(g[b as int][i as int] == s);
            assert(s < n);
            let ghost before = stack@;
            stack.set(top, (b, i + 1));
            proof {
                assert(stack@.drop_last() =~= before.drop_last());
                assert(stack_nodes(stack@) =~= stack_nodes(before));
            }
            if !visited[s] {
                let ghost mid = stack@;
                proof {
                    lemma_count_set(visited@, s as int);
                    lemma_count_le(visited@.update(s as int, true));
                    assert forall|k: int| 0 <= k < mid.len() implies mid[k].0 != s by {
                        if mid[k].0 == s {
                            assert(visited@[mid[k].0 as int]);
                        }
                    }
                    assert(edge(g, b as int, s as int)) by {
                        assert(g[b as int].contains(s));
                    }
                    lemma_extend_reach(g, seq![entry], None, b, s);
                    assert(!order@.contains(s)) by {
                        if order@.contains(s) {
                            let q = order@.index_of(s);
                            assert(visited@[order@[q] as int]);
                        }
                    }
                }
                visited.set(s, true);
                stack.push((s, 0));
                proof {
                    assert(stack@.drop_last() =~= mid);
                    assert(stack_nodes(stack@) =~= stack_nodes(mid).push(s));
                    assert forall|v: BlockId| stack_nodes(mid).contains(v) implies stack_nodes(stack@).contains(v) by {
                        lemma_push_contains(stack_nodes(mid), s, v);
                    }
                    lemma_push_contains(stack_nodes(mid), s, s);
                    assert forall|k: int| 0 <= k < order.len() implies !stack_nodes(stack@).contains(
                        #[trigger] order@[k],
                    ) by {
                        lemma_push_contains(stack_nodes(mid), s, order@[k]);
                    }
                    assert(stack@[stack.len() - 2].0 == b);
                }
            }
        } else {
            let ghost before = stack@;
            let ghost old_order = order@;
            proof {
                assert forall|j: int| 0 <= j < g[b as int].len() implies (old_order.contains(
                    #[trigger] g[b as int][j],
                ) || reaches(g, g[b as int][j], b as int)) by {
                    let s = g[b as int][j];
                    assert(visited@[s as int]);
                    if !old_order.contains(s) {
                        assert(stack_nodes(before).contains(s));
                        let m = stack_nodes(before).index_of(s);
                        assert(before[m].0 == s);
                        lemma_stack_path(g, before, m);
                    }
                }
            }
            order.push(b);
            stack.pop();
            proof {
                assert(stack@ =~= before.drop_last());
                assert(stack_nodes(before) =~= stack_nodes(stack@).push(b));
                assert(order@.take(old_order.len() as int) =~= old_order);
                assert forall|v: BlockId| stack_nodes(stack@).contains(v) implies v != b by {
                    let k = stack_nodes(stack@).index_of(v);
                    assert(before[k].0 == v);
                }
                assert forall|k: int| 0 <= k < order.len() implies #[trigger] order@[k] < n && visited@[order@[k] as int]
                    && !stack_nodes(stack@).contains(order@[k]) by {
                    if k < old_order.len() {
                        assert(order@[k] == old_order[k]);
                        lemma_push_contains(stack_nodes(stack@), b, order@[k]);
                    }
                }
                assert(!old_order.contains(b)) by {
                    if old_order.contains(b) {
                        let q = old_order.index_of(b);
                        lemma_push_contains(stack_nodes(stack@), b, b);
                        assert(!stack_nodes(before).contains(old_order[q]));
                    }
                }
                assert(order@.no_duplicates()) by {
                    assert forall|x: int, y: int| 0 <= x < y < order.len() implies order@[x] != order@[y] by {
                        if y == old_order.len() {
                            assert(old_order.contains(order@[x]) ==> order@[x] != b);
                            assert(old_order[x] == order@[x]);
                        } else {
                            assert(old_order[x] == order@[x] && old_order[y] == order@[y]);
                        }
                    }
                }
                assert forall|v: int| 0 <= v < n && #[trigger] visited@[v] implies order@.contains(v as BlockId)
                    || stack_nodes(stack@).contains(v as BlockId) by {
                    lemma_push_contains(old_order, b, v as BlockId);
                    lemma_push_contains(stack_nodes(stack@), b, v as BlockId);
                }
                assert forall|p: int, j: int|
                    0 <= p < order.len() && 0 <= j < g[order@[p] as int].len() implies visited@[#[trigger] g[order@[p] as int][j] as int]
                        && (order@.take(p).contains(g[order@[p] as int][j]) || reaches(
                        g,
                        g[order@[p] as int][j],
                        order@[p] as int,
                    )) by {
                    if p < old_order.len() {
                        assert(order@[p] == old_order[p]);
                        assert(order@.take(p) =~= old_order.take(p));
                    } else {
                        assert(order@[p] == b);
                        assert(order@.take(p) =~= old_order);
                        assert(visited@[g[b as int][j] as int]) by {
                            assert(before[top as int].1 == g[b as int].len());
                        }
                    }
                }
                if stack.len() == 0 {
                    assert(b == entry);
                }
            }
        }
    }
    proof {
        assert forall|v: int, k: int|
            0 <= v < g.len() && visited@[v] && 0 <= k < g[v].len() implies None::<BlockId> == Some(
                #[trigger] g[v][k],
            ) || visited@[g[v][k] as int] by {
            assert(order@.contains(v as BlockId));
            let p = order@.index_of(v as BlockId);
            assert(order@[p] == v);
        }
    }
    let len = order.len();
    let mut r: Vec<BlockId> = Vec::new();
    let mut k: usize = len;
    while k > 0
        invariant
            len == order.len(),
            k <= len,
            r.len() == len - k,
            forall|j: int| 0 <= j < r.len() ==> #[trigger] r@[j] == order@[len - 1 - j],
        decreases k,
    {
        k = k - 1;
        r.push(order[k]);
    }
    proof {
        assert(r@[0] == order@.last());
        assert(r@.no_duplicates()) by {
            assert forall|x: int, y: int| 0 <= x < y < r.len() implies r@[x] != r@[y] by {
                assert(r@[x] == order@[len - 1 - x] && r@[y] == order@[len - 1 - y]);
            }
        }
        assert forall|b: BlockId| #[trigger] r@.contains(b) <==> (b < n && reaches(g, entry, b as int)) by {
            if r@.contains(b) {
                let j = r@.index_of(b);
                assert(r@[j] == order@[len - 1 - j]);
            }
            if b < n && reaches(g, entry, b as int) {
                let p = choose|p: Seq<BlockId>|
                    #![trigger is_path(g, p), p.last()]
                    is_path(g, p) && seq![entry].contains(p[0]) && p.last() == b as int && avoids(p, None);
                assert(p[0] == entry);
                lemma_closed_contains_walk(g, visited@, None, p);
                assert(order@.contains(b));
                let q = order@.index_of(b);
                assert(r@[len - 1 - q] == order@[q]);
            }
        }
        assert forall|i: int, j: int|
            0 <= j < i < r.len() && #[trigger] edge(g, r@[i] as int, r@[j] as int) implies reaches(
                g,
                r@[j],
                r@[i] as int,
            ) by {
            let pi = len - 1 - i;
            let pj = len - 1 - j;
            assert(r@[i] == order@[pi] && r@[j] == order@[pj]);
            let x = order@[pi];
            let kk = g[x as int].index_of(r@[j]);
            assert(g[x as int][kk] == r@[j]);
            if order@.take(pi).contains(r@[j]) {
                let q = order@.take(pi).index_of(r@[j]);
                assert(order@[q] == order@[pj]);
            }
        }
    }
    r
}

} // verus!
