//! Turning the mutation sites of one source file into mutants: each mutant
//! is the whole file with one labeled edit. Positions are character
//! offsets into the source, reached from the parser's line and column
//! pairs; walking the syntax tree to find the sites stays with the
//! toolkit's binary.
use vstd::prelude::*;
use vstd::string::StringSliceAdditionalSpecFns;

use super::corpus::{FileMutants, Mutant, SkipCounts};
use super::Class;
use crate::text::{owned, push_str};

verus! {

/// The index-derived guard every wrap operator injects: the canonical
/// RC001/RC002 shape.
pub const GUARD: &'static str = "cuda_device::thread::threadIdx_x() % 2 == 0";

/// A source position as the parser reports it: a 1-based line and a
/// 0-based column counted in characters.
#[derive(Debug, Clone, Copy, PartialEq, Eq, Structural)]
pub struct LineColumn {
    pub line: usize,
    pub column: usize,
}

/// The character offsets at which the lines of `s` start.
pub open spec fn char_line_starts(s: Seq<char>) -> Seq<usize>
    decreases s.len(),
{
    if s.len() == 0 {
        seq![0usize]
    } else if s.last() == '\n' {
        char_line_starts(s.drop_last()).push(s.len() as usize)
    } else {
        char_line_starts(s.drop_last())
    }
}

proof fn lemma_line_starts_bounded(s: Seq<char>)
    ensures
        char_line_starts(s).len() >= 1,
        char_line_starts(s)[0] == 0,
        forall|k: int| 0 <= k < char_line_starts(s).len() ==> #[trigger] char_line_starts(s)[k] <= s.len(),
    decreases s.len(),
{
    if s.len() > 0 {
        lemma_line_starts_bounded(s.drop_last());
    }
}

/// Where the lines of `source` start, in characters.
pub fn line_starts(source: &str) -> (r: Vec<usize>)
    requires
        source@.len() < usize::MAX,
    ensures
        r@ == char_line_starts(source@),
{
    let n = source.unicode_len();
    let mut offsets: Vec<usize> = vec![0];
    let mut i: usize = 0;
    assert(source@.take(0) =~= Seq::<char>::empty());
    while i < n
        invariant
            n == source@.len(),
            n < usize::MAX,
            i <= n,
            offsets@ == char_line_starts(source@.take(i as int)),
        decreases n - i,
    {
        assert(source@.take(i + 1).drop_last() =~= source@.take(i as int));
        if source.get_char(i) == '\n' {
            offsets.push(i + 1);
        }
        i = i + 1;
    }
    assert(source@.take(n as int) =~= source@);
    offsets
}

/// The character offset of `pos` in a text of `len` characters whose
/// lines start at `starts`: the line's start plus the column, or the end
/// of the text when the column runs past it.
pub open spec fn spec_char_of(starts: Seq<usize>, len: nat, pos: LineColumn) -> int {
    let at = starts[pos.line - 1] + pos.column;
    if at <= len {
        at
    } else {
        len as int
    }
}

/// The character offset of `pos` in `source`.
pub fn char_of(starts: &Vec<usize>, source: &str, pos: LineColumn) -> (r: usize)
    requires
        starts@ == char_line_starts(source@),
        1 <= pos.line <= starts.len(),
    ensures
        r == spec_char_of(starts@, source@.len(), pos),
{
    proof {
        lemma_line_starts_bounded(source@);
    }
    let len = source.unicode_len();
    let start = starts[pos.line - 1];
    if pos.column <= len - start {
        start + pos.column
    } else {
        len
    }
}

/// The text between two positions of `source`.
pub fn slice(starts: &Vec<usize>, source: &str, start: LineColumn, end: LineColumn) -> (r: String)
    requires
        starts@ == char_line_starts(source@),
        1 <= start.line <= starts.len(),
        1 <= end.line <= starts.len(),
        spec_char_of(starts@, source@.len(), start) <= spec_char_of(starts@, source@.len(), end),
    ensures
        r@ == source@.subrange(
            spec_char_of(starts@, source@.len(), start),
            spec_char_of(starts@, source@.len(), end),
        ),
{
    let a = char_of(starts, source, start);
    let b = char_of(starts, source, end);
    owned(source.substring_char(a, b))
}

/// An edit as plain values: replace characters `start..end` with `text`.
pub open spec fn edit_view(e: (usize, usize, String)) -> (usize, usize, Seq<char>) {
    (e.0, e.1, e.2@)
}

/// The views of a list of edits.
pub open spec fn edits_view(edits: Seq<(usize, usize, String)>) -> Seq<(usize, usize, Seq<char>)> {
    edits.map_values(|e: (usize, usize, String)| edit_view(e))
}

/// The edits lie within a text of `len` characters, in order, without
/// overlapping.
pub open spec fn edits_ok(len: nat, edits: Seq<(usize, usize, Seq<char>)>) -> bool {
    &&& forall|i: int| 0 <= i < edits.len() ==> #[trigger] edits[i].0 <= edits[i].1 <= len
    &&& forall|i: int, j: int| 0 <= i < j < edits.len() ==> #[trigger] edits[i].1 <= #[trigger] edits[j].0
}

/// `s` with every edit applied: the text before each edit, its
/// replacement, and the text after the last.
pub open spec fn spliced(s: Seq<char>, edits: Seq<(usize, usize, Seq<char>)>) -> Seq<char>
    decreases edits.len(),
{
    if edits.len() == 0 {
        s
    } else {
        let e = edits.last();
        spliced(s.take(e.0 as int), edits.drop_last()) + e.2 + s.skip(e.1 as int)
    }
}

proof fn lemma_spliced_extend(s: Seq<char>, edits: Seq<(usize, usize, Seq<char>)>, c: int, d: int)
    requires
        0 <= c <= d <= s.len(),
        edits_ok(c as nat, edits),
    ensures
        spliced(s.take(d), edits) == spliced(s.take(c), edits) + s.subrange(c, d),
{
    if edits.len() == 0 {
        assert(s.take(d) =~= s.take(c) + s.subrange(c, d));
    } else {
        let e = edits.last();
        assert(e == edits[edits.len() - 1]);
        assert(s.take(d).take(e.0 as int) =~= s.take(c).take(e.0 as int));
        assert(s.take(d).skip(e.1 as int) =~= s.take(c).skip(e.1 as int) + s.subrange(c, d));
        let p = spliced(s.take(c).take(e.0 as int), edits.drop_last());
        assert(p + e.2 + (s.take(c).skip(e.1 as int) + s.subrange(c, d)) =~= (p + e.2 + s.take(c).skip(
            e.1 as int,
        )) + s.subrange(c, d));
    }
}

/// Apply in-order, non-overlapping character-range edits to `source`.
pub fn apply_edits(source: &str, edits: &Vec<(usize, usize, String)>) -> (r: String)
    requires
        edits_ok(source@.len(), edits_view(edits@)),
    ensures
        r@ == spliced(source@, edits_view(edits@)),
{
    let ghost s = source@;
    let ghost ev = edits_view(edits@);
    let n = source.unicode_len();
    let mut out = String::new();
    let mut cursor: usize = 0;
    let mut i: usize = 0;
    assert(ev.take(0) =~= Seq::<(usize, usize, Seq<char>)>::empty());
    while i < edits.len()
        invariant
            s == source@,
            n == s.len(),
            ev == edits_view(edits@),
            ev.len() == edits.len(),
            edits_ok(n as nat, ev),
            i <= edits.len(),
            cursor <= n,
            i > 0 ==> cursor == ev[i - 1].1,
            i == 0 ==> cursor == 0,
            edits_ok(cursor as nat, ev.take(i as int)),
            out@ == spliced(s.take(cursor as int), ev.take(i as int)),
        decreases edits.len() - i,
    {
        let (start, end, text) = (edits[i].0, edits[i].1, &edits[i].2);
        assert(ev[i as int] == edit_view(edits@[i as int]));
        assert(ev[i as int].0 <= ev[i as int].1 <= n);
        assert(start <= end <= n);
        assert(cursor <= start) by {
            if i > 0 {
                assert(ev[i - 1].1 <= ev[i as int].0);
            }
        }
        push_str(&mut out, source.substring_char(cursor, start));
        push_str(&mut out, text.as_str());
        proof {
            let pre = ev.take(i as int);
            let cur = ev.take(i + 1);
            assert(cur.drop_last() =~= pre);
            assert(cur.last() == ev[i as int]);
            lemma_spliced_extend(s, pre, cursor as int, start as int);
            assert(s.take(end as int).take(start as int) =~= s.take(start as int));
            assert(s.take(end as int).skip(end as int) =~= Seq::<char>::empty());
            assert(spliced(s.take(end as int), cur) == spliced(s.take(start as int), pre) + ev[i as int].2
                + Seq::<char>::empty());
            assert(s.take(start as int) == s.take(start as int));
            assert(s.subrange(cursor as int, start as int) == source@.subrange(cursor as int, start as int));
            assert(spliced(s.take(end as int), cur) =~= out@);
            assert forall|a: int| 0 <= a < cur.len() implies #[trigger] cur[a].0 <= cur[a].1 <= end by {
                if a < i {
                    assert(cur[a] == ev[a]);
                    assert(ev[a].1 <= ev[i as int].0);
                }
            }
            assert forall|a: int, b: int| 0 <= a < b < cur.len() implies #[trigger] cur[a].1 <= #[trigger] cur[b].0 by {
                assert(cur[a] == ev[a] && cur[b] == ev[b]);
            }
        }
        cursor = end;
        i = i + 1;
    }
    push_str(&mut out, source.substring_char(cursor, n));
    proof {
        assert(ev.take(i as int) =~= ev);
        lemma_spliced_extend(s, ev, cursor as int, n as int);
        assert(s.take(n as int) =~= s);
    }
    out
}

/// `s` with characters `a..b` replaced by `t`.
pub open spec fn replaced(s: Seq<char>, a: int, b: int, t: Seq<char>) -> Seq<char> {
    s.take(a) + t + s.skip(b)
}

/// A barrier call statement inside a kernel.
#[derive(Debug, PartialEq, Eq)]
pub struct BarrierSite {
    pub kernel: String,
    pub line: usize,
    /// The statement's character range.
    pub stmt: (usize, usize),
}

/// How a statement holding a warp collective is wrapped.
#[derive(Debug, Clone, Copy, PartialEq, Eq)]
pub enum WrapShape {
    /// `let pat = EXPR;`: the initializer's range, wrapped with a default
    /// for the lanes that skip it, so later uses of the binding stand.
    InitExpr(usize, usize),
    /// A statement ending in `;`: its whole range, wrapped.
    WholeStmt(usize, usize),
}

/// A statement inside a kernel holding a classified warp collective.
#[derive(Debug, PartialEq, Eq)]
pub struct CollectiveSite {
    pub kernel: String,
    pub line: usize,
    pub callee: String,
    pub shape: WrapShape,
}

/// A classified collective whose mask argument names the full mask.
#[derive(Debug, PartialEq, Eq)]
pub struct MaskSite {
    pub kernel: String,
    pub line: usize,
    pub callee: String,
    /// The mask argument's character range.
    pub arg: (usize, usize),
    /// How the full mask is written.
    pub mask_text: String,
}

/// The kernel's `DisjointSlice<T>` parameter, with every `get`/`get_mut`
/// argument on it.
#[derive(Debug, PartialEq, Eq)]
pub struct SwapSite {
    pub kernel: String,
    pub line: usize,
    pub param: String,
    pub elem_ty: String,
    /// The parameter type's character range.
    pub ty_range: (usize, usize),
    /// The argument ranges of `param.get(..)` / `param.get_mut(..)`.
    pub arg_ranges: Vec<(usize, usize)>,
}

/// The mutation sites of one file, and the sites skipped.
#[derive(Debug, PartialEq, Eq)]
pub struct Sites {
    pub barriers: Vec<BarrierSite>,
    pub collectives: Vec<CollectiveSite>,
    pub masks: Vec<MaskSite>,
    pub swaps: Vec<SwapSite>,
    pub skips: SkipCounts,
}

/// A mutant as plain values: class, kernel, line, detail and source.
pub open spec fn mutant_view(m: Mutant) -> (Class, Seq<char>, usize, Seq<char>, Seq<char>) {
    (m.class, m.kernel@, m.line, m.detail@, m.source@)
}

/// The views of a list of mutants.
pub open spec fn mutants_view(ms: Seq<Mutant>) -> Seq<(Class, Seq<char>, usize, Seq<char>, Seq<char>)> {
    ms.map_values(|m: Mutant| mutant_view(m))
}

/// `"if GUARD { " + t + " }"`.
pub open spec fn guarded(t: Seq<char>) -> Seq<char> {
    "if "@ + GUARD@ + " { "@ + t + " }"@
}

/// The wrap and the deletion of a barrier statement.
pub open spec fn barrier_mutants(s: Seq<char>, b: BarrierSite) -> Seq<(Class, Seq<char>, usize, Seq<char>, Seq<char>)> {
    let st = s.subrange(b.stmt.0 as int, b.stmt.1 as int);
    seq![
        (Class::WrapBarrier, b.kernel@, b.line, "barrier wrapped in an index-derived if"@, replaced(s, b.stmt.0 as int, b.stmt.1 as int, guarded(st))),
        (Class::DeleteBarrier, b.kernel@, b.line, "barrier deleted (data race; no static diagnostic by design)"@, replaced(s, b.stmt.0 as int, b.stmt.1 as int, Seq::empty())),
    ]
}

/// The wrap of a collective's statement or initializer.
pub open spec fn collective_mutant(s: Seq<char>, c: CollectiveSite) -> (Class, Seq<char>, usize, Seq<char>, Seq<char>) {
    let src = match c.shape {
        WrapShape::InitExpr(a, b) => replaced(s, a as int, b as int, "if "@ + GUARD@ + " { "@ + s.subrange(a as int, b as int)
            + " } else { Default::default() }"@),
        WrapShape::WholeStmt(a, b) => replaced(s, a as int, b as int, guarded(s.subrange(a as int, b as int))),
    };
    (Class::WrapCollective, c.kernel@, c.line, c.callee@ + " wrapped in an index-derived if"@, src)
}

/// The shrinking of a full mask to the low half-warp.
pub open spec fn mask_mutant(s: Seq<char>, m: MaskSite) -> (Class, Seq<char>, usize, Seq<char>, Seq<char>) {
    (Class::ShrinkMask, m.kernel@, m.line, m.callee@ + ": "@ + m.mask_text@ + " -> 0x0000_ffff"@, replaced(
        s,
        m.arg.0 as int,
        m.arg.1 as int,
        "0x0000_ffff"@,
    ))
}

/// The edits of a slice swap: the parameter type, then each checked index
/// made a plain one.
pub open spec fn swap_edits(s: Seq<char>, w: SwapSite) -> Seq<(usize, usize, Seq<char>)> {
    seq![(w.ty_range.0, w.ty_range.1, "&mut ["@ + w.elem_ty@ + "]"@)] + w.arg_ranges@.map_values(
        |r: (usize, usize)| (r.0, r.1, "("@ + s.subrange(r.0 as int, r.1 as int) + ").get()"@),
    )
}

/// The swap of a `DisjointSlice<T>` parameter for `&mut [T]`.
pub open spec fn swap_mutant(s: Seq<char>, w: SwapSite) -> (Class, Seq<char>, usize, Seq<char>, Seq<char>) {
    (Class::SwapMutSlice, w.kernel@, w.line, "param `"@ + w.param@ + "`: DisjointSlice<"@ + w.elem_ty@
        + "> -> &mut ["@ + w.elem_ty@ + "]"@, spliced(s, swap_edits(s, w)))
}

/// The mutants of the barriers, in order.
pub open spec fn barrier_part(s: Seq<char>, bs: Seq<BarrierSite>) -> Seq<(Class, Seq<char>, usize, Seq<char>, Seq<char>)>
    decreases bs.len(),
{
    if bs.len() == 0 {
        Seq::empty()
    } else {
        barrier_part(s, bs.drop_last()) + barrier_mutants(s, bs.last())
    }
}

/// Every range of the sites lies in a text of `len` characters, and each
/// swap's edits are in order without overlapping.
pub open spec fn sites_ok(s: Seq<char>, sites: Sites) -> bool {
    &&& forall|i: int|
        0 <= i < sites.barriers.len() ==> #[trigger] sites.barriers@[i].stmt.0 <= sites.barriers@[i].stmt.1 <= s.len()
    &&& forall|i: int|
        0 <= i < sites.collectives.len() ==> match #[trigger] sites.collectives@[i].shape {
            WrapShape::InitExpr(a, b) => a <= b <= s.len(),
            WrapShape::WholeStmt(a, b) => a <= b <= s.len(),
        }
    &&& forall|i: int| 0 <= i < sites.masks.len() ==> #[trigger] sites.masks@[i].arg.0 <= sites.masks@[i].arg.1 <= s.len()
    &&& forall|i: int| 0 <= i < sites.swaps.len() ==> edits_ok(s.len(), swap_edits(s, #[trigger] sites.swaps@[i]))
}

/// Every mutant of a file: both barrier operators at each barrier, then a
/// wrap per collective, a shrink per full mask, and a swap per slice
/// parameter.
pub open spec fn file_mutants(s: Seq<char>, sites: Sites) -> Seq<(Class, Seq<char>, usize, Seq<char>, Seq<char>)> {
    barrier_part(s, sites.barriers@) + sites.collectives@.map_values(|c: CollectiveSite| collective_mutant(s, c))
        + sites.masks@.map_values(|m: MaskSite| mask_mutant(s, m)) + sites.swaps@.map_values(
        |w: SwapSite| swap_mutant(s, w),
    )
}

/// `source` with one range replaced.
fn replace_range(source: &str, a: usize, b: usize, t: String) -> (r: String)
    requires
        a <= b <= source@.len(),
    ensures
        r@ == replaced(source@, a as int, b as int, t@),
{
    let ghost tv = t@;
    let mut edits: Vec<(usize, usize, String)> = Vec::new();
    edits.push((a, b, t));
    proof {
        let ev = edits_view(edits@);
        assert(ev =~= seq![(a, b, tv)]);
        assert(ev.drop_last() =~= Seq::<(usize, usize, Seq<char>)>::empty());
        assert(spliced(source@.take(a as int), ev.drop_last()) == source@.take(a as int));
    }
    apply_edits(source, &edits)
}

fn guarded_text(t: &str) -> (r: String)
    ensures
        r@ == guarded(t@),
{
    let mut g = owned("if ");
    push_str(&mut g, GUARD);
    push_str(&mut g, " { ");
    push_str(&mut g, t);
    push_str(&mut g, " }");
    g
}

fn new_mutant(class: Class, kernel: &String, line: usize, detail: String, source: String) -> (r: Mutant)
    ensures
        mutant_view(r) == (class, kernel@, line, detail@, source@),
{
    Mutant { class, kernel: kernel.clone(), line, detail, source }
}

/// Every mutant of one file from its sites, in the order [`file_mutants`]
/// gives, with the file's skipped sites.
pub fn mutants_of(source: &str, sites: &Sites) -> (r: FileMutants)
    requires
        sites_ok(source@, *sites),
    ensures
        mutants_view(r.mutants@) == file_mutants(source@, *sites),
        r.skips == sites.skips,
{
    let ghost s = source@;
    let mut out: Vec<Mutant> = Vec::new();
    let mut i: usize = 0;
    assert(sites.barriers@.take(0) =~= Seq::<BarrierSite>::empty());
    assert(mutants_view(out@) =~= barrier_part(s, sites.barriers@.take(0)));
    while i < sites.barriers.len()
        invariant
            s == source@,
            sites_ok(s, *sites),
            i <= sites.barriers.len(),
            mutants_view(out@) == barrier_part(s, sites.barriers@.take(i as int)),
        decreases sites.barriers.len() - i,
    {
        let b = &sites.barriers[i];
        assert(sites.barriers@[i as int].stmt.0 <= sites.barriers@[i as int].stmt.1 <= s.len());
        let st = source.substring_char(b.stmt.0, b.stmt.1);
        let wrapped = replace_range(source, b.stmt.0, b.stmt.1, guarded_text(st));
        let deleted = replace_range(source, b.stmt.0, b.stmt.1, String::new());
        let ghost before = out@;
        out.push(new_mutant(Class::WrapBarrier, &b.kernel, b.line, owned("barrier wrapped in an index-derived if"), wrapped));
        out.push(
            new_mutant(
                Class::DeleteBarrier,
                &b.kernel,
                b.line,
                owned("barrier deleted (data race; no static diagnostic by design)"),
                deleted,
            ),
        );
        proof {
            let cur = sites.barriers@.take(i + 1);
            assert(cur.drop_last() =~= sites.barriers@.take(i as int));
            assert(cur.last() == sites.barriers@[i as int]);
            assert(mutants_view(out@) =~= mutants_view(before) + barrier_mutants(s, sites.barriers@[i as int]));
        }
        i = i + 1;
    }
    assert(sites.barriers@.take(sites.barriers.len() as int) =~= sites.barriers@);
    let ghost p1 = mutants_view(out@);
    let mut j: usize = 0;
    while j < sites.collectives.len()
        invariant
            s == source@,
            sites_ok(s, *sites),
            j <= sites.collectives.len(),
            mutants_view(out@) == p1 + sites.collectives@.take(j as int).map_values(
                |c: CollectiveSite| collective_mutant(s, c),
            ),
        decreases sites.collectives.len() - j,
    {
        let c = &sites.collectives[j];
        let ghost cv = sites.collectives@[j as int];
        let src = match c.shape {
            WrapShape::InitExpr(a, b) => {
                let e = source.substring_char(a, b);
                let mut t = owned("if ");
                push_str(&mut t, GUARD);
                push_str(&mut t, " { ");
                push_str(&mut t, e);
                push_str(&mut t, " } else { Default::default() }");
                replace_range(source, a, b, t)
            },
            WrapShape::WholeStmt(a, b) => {
                let e = source.substring_char(a, b);
                replace_range(source, a, b, guarded_text(e))
            },
        };
        let mut detail = c.callee.clone();
        push_str(&mut detail, " wrapped in an index-derived if");
        let ghost before = out@;
        out.push(new_mutant(Class::WrapCollective, &c.kernel, c.line, detail, src));
        proof {
            assert(mutants_view(out@) =~= mutants_view(before).push(collective_mutant(s, cv)));
            assert(sites.collectives@.take(j + 1).map_values(|c: CollectiveSite| collective_mutant(s, c))
                =~= sites.collectives@.take(j as int).map_values(|c: CollectiveSite| collective_mutant(s, c)).push(
                collective_mutant(s, cv),
            ));
        }
        j = j + 1;
    }
    assert(sites.collectives@.take(sites.collectives.len() as int) =~= sites.collectives@);
    let ghost p2 = mutants_view(out@);
    let mut k: usize = 0;
    while k < sites.masks.len()
        invariant
            s == source@,
            sites_ok(s, *sites),
            k <= sites.masks.len(),
            mutants_view(out@) == p2 + sites.masks@.take(k as int).map_values(|m: MaskSite| mask_mutant(s, m)),
        decreases sites.masks.len() - k,
    {
        let m = &sites.masks[k];
        let ghost mv = sites.masks@[k as int];
        assert(sites.masks@[k as int].arg.0 <= sites.masks@[k as int].arg.1 <= s.len());
        let src = replace_range(source, m.arg.0, m.arg.1, owned("0x0000_ffff"));
        let mut detail = m.callee.clone();
        push_str(&mut detail, ": ");
        push_str(&mut detail, m.mask_text.as_str());
        push_str(&mut detail, " -> 0x0000_ffff");
        let ghost before = out@;
        out.push(new_mutant(Class::ShrinkMask, &m.kernel, m.line, detail, src));
        proof {
            assert(mutants_view(out@) =~= mutants_view(before).push(mask_mutant(s, mv)));
            assert(sites.masks@.take(k + 1).map_values(|m: MaskSite| mask_mutant(s, m)) =~= sites.masks@.take(
                k as int,
            ).map_values(|m: MaskSite| mask_mutant(s, m)).push(mask_mutant(s, mv)));
        }
        k = k + 1;
    }
    assert(sites.masks@.take(sites.masks.len() as int) =~= sites.masks@);
    let ghost p3 = mutants_view(out@);
    let mut w: usize = 0;
    while w < sites.swaps.len()
        invariant
            s == source@,
            sites_ok(s, *sites),
            w <= sites.swaps.len(),
            mutants_view(out@) == p3 + sites.swaps@.take(w as int).map_values(|x: SwapSite| swap_mutant(s, x)),
        decreases sites.swaps.len() - w,
    {
        let site = &sites.swaps[w];
        let ghost sv = sites.swaps@[w as int];
        let edits = swap_edit_list(source, site);
        let src = apply_edits(source, &edits);
        let mut detail = owned("param `");
        push_str(&mut detail, site.param.as_str());
        push_str(&mut detail, "`: DisjointSlice<");
        push_str(&mut detail, site.elem_ty.as_str());
        push_str(&mut detail, "> -> &mut [");
        push_str(&mut detail, site.elem_ty.as_str());
        push_str(&mut detail, "]");
        let ghost before = out@;
        out.push(new_mutant(Class::SwapMutSlice, &site.kernel, site.line, detail, src));
        proof {
            assert(mutants_view(out@) =~= mutants_view(before).push(swap_mutant(s, sv)));
            assert(sites.swaps@.take(w + 1).map_values(|x: SwapSite| swap_mutant(s, x)) =~= sites.swaps@.take(
                w as int,
            ).map_values(|x: SwapSite| swap_mutant(s, x)).push(swap_mutant(s, sv)));
        }
        w = w + 1;
    }
    assert(sites.swaps@.take(sites.swaps.len() as int) =~= sites.swaps@);
    FileMutants { mutants: out, skips: sites.skips }
}

/// The edits of a slice swap, as [`swap_edits`] gives them.
fn swap_edit_list(source: &str, site: &SwapSite) -> (r: Vec<(usize, usize, String)>)
    requires
        edits_ok(source@.len(), swap_edits(source@, *site)),
    ensures
        edits_view(r@) == swap_edits(source@, *site),
{
    let ghost s = source@;
    let ghost full = swap_edits(s, *site);
    let mut edits: Vec<(usize, usize, String)> = Vec::new();
    let mut ty = owned("&mut [");
    push_str(&mut ty, site.elem_ty.as_str());
    push_str(&mut ty, "]");
    edits.push((site.ty_range.0, site.ty_range.1, ty));
    let mut q: usize = 0;
    assert(edits_view(edits@) =~= full.take(1));
    while q < site.arg_ranges.len()
        invariant
            s == source@,
            full == swap_edits(s, *site),
            full.len() == site.arg_ranges.len() + 1,
            edits_ok(s.len(), full),
            q <= site.arg_ranges.len(),
            edits_view(edits@) == full.take(q + 1),
        decreases site.arg_ranges.len() - q,
    {
        let (a, b) = site.arg_ranges[q];
        assert(full[q + 1] == (a, b, "("@ + s.subrange(a as int, b as int) + ").get()"@));
        assert(full[q + 1].0 <= full[q + 1].1 <= s.len());
        let mut t = owned("(");
        push_str(&mut t, source.substring_char(a, b));
        push_str(&mut t, ").get()");
        let ghost before = edits@;
        let ghost tv = t@;
        edits.push((a, b, t));
        assert(tv == "("@ + s.subrange(a as int, b as int) + ").get()"@);
        assert(edits_view(edits@) =~= edits_view(before).push((a, b, tv)));
        assert(full.take(q + 2) =~= full.take(q + 1).push(full[q + 1]));
        assert(edits_view(edits@) =~= full.take(q + 2));
        q = q + 1;
    }
    assert(full.take(q + 1) =~= full);
    edits
}

} // verus!
