//! Finding the mutation sites of a source file, from the parser's walk of
//! its syntax tree. The walk is reported as a stream of events, in the
//! order the tree is visited: a function entered and left, a statement
//! entered and left, a call, a method call. Positions are character
//! offsets into the source. What counts as a site, and what is skipped and
//! counted, is decided here.
use vstd::prelude::*;
use vstd::string::StringSliceAdditionalSpecFns;

use super::corpus::{FileMutants, SkipCounts};
use super::mutate::{edits_ok, mutants_of, sites_ok, swap_edits, BarrierSite, CollectiveSite, MaskSite, Sites, SwapSite, WrapShape};
use super::{is_classified_collective, is_unclassified_collective, spec_is_unclassified_collective};
use crate::dialect::CallKind;
use crate::oxide::simt::spec_classify_call;
use crate::text::{owned, str_eq, str_views};

verus! {

/// A function parameter as the walk sees it.
#[derive(Debug, PartialEq, Eq)]
pub struct ParamSyntax {
    /// A typed parameter (not `self`).
    pub typed: bool,
    /// The last segment of the type's path, when the type is a path.
    pub ty_last: Option<String>,
    /// How many generic arguments that segment takes in angle brackets,
    /// when it takes them so.
    pub generic_args: Option<usize>,
    /// The ranges of those generic arguments that are types.
    pub type_args: Vec<(usize, usize)>,
    /// The bound name, when the pattern is a plain identifier.
    pub ident: Option<String>,
    /// The type's range.
    pub ty_range: (usize, usize),
    /// The line the type starts on.
    pub line: usize,
}

/// What kind of statement the walk entered.
#[derive(Debug, PartialEq, Eq)]
pub enum StmtShape {
    /// `let`, with its initializer's range if it has one.
    Local { init: Option<(usize, usize)> },
    /// An expression statement: whether a `;` ends it, and the last path
    /// segment of the callee when the expression is a call of a path.
    Expr { semi: bool, call: Option<String> },
    /// An item or a macro statement.
    Other,
}

/// The first argument of a call, as far as a full mask is concerned.
#[derive(Debug, PartialEq, Eq)]
pub enum MaskArg {
    /// A path, by its segments.
    Path(Vec<String>),
    /// An integer literal: its text and its value, when it fits a `u64`.
    Int { token: String, value: Option<u64> },
    /// Anything else.
    Other,
}

/// One step of the walk.
#[derive(Debug, PartialEq, Eq)]
pub enum SyntaxEvent {
    /// A function entered: its name, the last segments of its attributes'
    /// paths, and its parameters.
    FnStart { name: String, attrs: Vec<String>, params: Vec<ParamSyntax> },
    /// The function entered last is left.
    FnEnd,
    /// A statement entered.
    StmtStart { range: (usize, usize), line: usize, shape: StmtShape },
    /// The statement entered last is left.
    StmtEnd,
    /// A call: the callee's last path segment when the callee is a path,
    /// its line, and its first argument.
    Call { name: Option<String>, line: usize, first_arg: Option<((usize, usize), MaskArg)> },
    /// A method call: the receiver when it is a plain identifier, the
    /// method, the number of arguments and the first argument's range.
    MethodCall { receiver: Option<String>, method: String, arg_count: usize, first_arg: (usize, usize) },
}

/// A statement being walked: its range, whether `;` ends it, its
/// initializer, and the first classified collective called while it is
/// the innermost statement.
pub struct StmtCtx {
    pub range: (usize, usize),
    pub has_semi: bool,
    pub local_init: Option<(usize, usize)>,
    pub collective: Option<(String, usize)>,
}

/// The state of the walk as plain values.
#[verifier::ext_equal]
pub struct ScanView {
    pub kernel: Option<Seq<char>>,
    /// For each function entered and not left: whether it is the kernel.
    pub frames: Seq<bool>,
    /// How deep the walk is inside a barrier statement, whose inside holds
    /// nothing to mutate.
    pub skip: nat,
    pub swap: Option<(Seq<char>, usize, Seq<char>, Seq<char>, (usize, usize), Seq<(usize, usize)>)>,
    pub stmts: Seq<((usize, usize), bool, Option<(usize, usize)>, Option<(Seq<char>, usize)>)>,
    pub barriers: Seq<(Seq<char>, usize, (usize, usize))>,
    pub collectives: Seq<(Seq<char>, usize, Seq<char>, WrapShape)>,
    pub masks: Seq<(Seq<char>, usize, Seq<char>, (usize, usize), Seq<char>)>,
    pub swaps: Seq<(Seq<char>, usize, Seq<char>, Seq<char>, (usize, usize), Seq<(usize, usize)>)>,
    pub outside: nat,
    pub unclassified: nat,
    pub tail: nat,
    pub extra: nat,
}

/// The walk before its first event.
pub open spec fn scan_start() -> ScanView {
    ScanView {
        kernel: None,
        frames: Seq::empty(),
        skip: 0,
        swap: None,
        stmts: Seq::empty(),
        barriers: Seq::empty(),
        collectives: Seq::empty(),
        masks: Seq::empty(),
        swaps: Seq::empty(),
        outside: 0,
        unclassified: 0,
        tail: 0,
        extra: 0,
    }
}

/// Some attribute's path ends in `name`.
pub open spec fn spec_has_attr(attrs: Seq<Seq<char>>, name: Seq<char>) -> bool {
    exists|i: int| 0 <= i < attrs.len() && attrs[i] == name
}

/// Whether an attribute list names `name` by its last path segment.
pub fn has_attr(attrs: &Vec<String>, name: &str) -> (r: bool)
    ensures
        r == spec_has_attr(str_views(attrs@), name@),
{
    let mut i: usize = 0;
    while i < attrs.len()
        invariant
            i <= attrs.len(),
            forall|j: int| 0 <= j < i ==> attrs@[j]@ != name@,
        decreases attrs.len() - i,
    {
        if str_eq(attrs[i].as_str(), name) {
            assert(str_views(attrs@)[i as int] == name@);
            return true;
        }
        i = i + 1;
    }
    assert forall|j: int| 0 <= j < attrs.len() implies str_views(attrs@)[j] != name@ by {
        assert(str_views(attrs@)[j] == attrs@[j]@);
    }
    false
}

/// How a full mask is written, when the argument is one: a path ending in
/// `FULL_MASK`, a path ending in `u32::MAX`, or a literal worth
/// `0xffff_ffff`.
pub open spec fn spec_full_mask_text(arg: MaskArg) -> Option<Seq<char>> {
    match arg {
        MaskArg::Path(segs) => if segs.len() > 0 && segs@.last()@ == "FULL_MASK"@ {
            Some("FULL_MASK"@)
        } else if segs.len() >= 2 && segs@[segs.len() - 2]@ == "u32"@ && segs@.last()@ == "MAX"@ {
            Some("u32::MAX"@)
        } else {
            None
        },
        MaskArg::Int { token, value } => if value == Some(0xffff_ffffu64) {
            Some(token@)
        } else {
            None
        },
        MaskArg::Other => None,
    }
}

/// The text of a full mask argument, if it is one.
pub fn full_mask_text(arg: &MaskArg) -> (r: Option<String>)
    ensures
        match r {
            Some(t) => spec_full_mask_text(*arg) == Some(t@),
            None => spec_full_mask_text(*arg) is None,
        },
{
    match arg {
        MaskArg::Path(segs) => {
            let n = segs.len();
            if n > 0 && str_eq(segs[n - 1].as_str(), "FULL_MASK") {
                Some(owned("FULL_MASK"))
            } else if n >= 2 && str_eq(segs[n - 2].as_str(), "u32") && str_eq(segs[n - 1].as_str(), "MAX") {
                Some(owned("u32::MAX"))
            } else {
                None
            }
        },
        MaskArg::Int { token, value } => match value {
            Some(v) => if *v == 0xffff_ffffu64 {
                Some(token.clone())
            } else {
                None
            },
            None => None,
        },
        MaskArg::Other => None,
    }
}

/// A parameter that can be swapped: `name: DisjointSlice<T>` with a single
/// type argument.
pub open spec fn swap_candidate(p: ParamSyntax) -> bool {
    &&& p.typed
    &&& p.ty_last matches Some(t) && t@ == "DisjointSlice"@
    &&& p.generic_args == Some(1usize)
    &&& p.type_args.len() == 1
    &&& p.ident is Some
}

/// The parameters of a kernel `name` seen in order: the first swap
/// candidate becomes the swap site (unless one is open), the rest are
/// counted.
pub open spec fn param_scan(
    s: Seq<char>,
    name: Seq<char>,
    ps: Seq<ParamSyntax>,
    sw: Option<(Seq<char>, usize, Seq<char>, Seq<char>, (usize, usize), Seq<(usize, usize)>)>,
    extra: nat,
) -> (Option<(Seq<char>, usize, Seq<char>, Seq<char>, (usize, usize), Seq<(usize, usize)>)>, nat)
    decreases ps.len(),
{
    if ps.len() == 0 {
        (sw, extra)
    } else {
        let acc = param_scan(s, name, ps.drop_last(), sw, extra);
        let p = ps.last();
        if !swap_candidate(p) {
            acc
        } else if acc.0 is Some {
            (acc.0, acc.1 + 1)
        } else {
            let a = p.type_args@[0];
            (
                Some(
                    (
                        name,
                        p.line,
                        p.ident->Some_0@,
                        s.subrange(a.0 as int, a.1 as int),
                        p.ty_range,
                        Seq::<(usize, usize)>::empty(),
                    ),
                ),
                acc.1,
            )
        }
    }
}

/// What a statement entered puts on the stack.
pub open spec fn ctx_of(range: (usize, usize), shape: StmtShape) -> (
    (usize, usize),
    bool,
    Option<(usize, usize)>,
    Option<(Seq<char>, usize)>,
) {
    match shape {
        StmtShape::Local { init } => (range, true, init, None),
        StmtShape::Expr { semi, .. } => (range, semi, None, None),
        StmtShape::Other => (range, true, None, None),
    }
}

/// A statement that is a barrier call.
pub open spec fn is_barrier_stmt(shape: StmtShape) -> bool {
    match shape {
        StmtShape::Expr { semi, call } => semi && match call {
            Some(c) => c@ == "sync_threads"@,
            None => false,
        },
        _ => false,
    }
}

/// A name the dialect classifies as a warp collective.
pub open spec fn classified(name: Seq<char>) -> bool {
    spec_classify_call("cuda_device::warp::"@ + name) is WarpCollective
}

/// One event of the walk applied to its state.
pub open spec fn scan_step(s: Seq<char>, st: ScanView, ev: SyntaxEvent) -> ScanView {
    if st.skip > 0 {
        match ev {
            SyntaxEvent::FnStart { .. } | SyntaxEvent::StmtStart { .. } => ScanView { skip: st.skip + 1, ..st },
            SyntaxEvent::FnEnd | SyntaxEvent::StmtEnd => ScanView { skip: (st.skip - 1) as nat, ..st },
            _ => st,
        }
    } else {
        match ev {
            SyntaxEvent::FnStart { name, attrs, params } => if !spec_has_attr(str_views(attrs@), "kernel"@)
                || st.kernel is Some {
                ScanView { frames: st.frames.push(false), ..st }
            } else {
                let scanned = param_scan(s, name@, params@, st.swap, st.extra);
                ScanView {
                    kernel: Some(name@),
                    frames: st.frames.push(true),
                    swap: scanned.0,
                    extra: scanned.1,
                    ..st
                }
            },
            SyntaxEvent::FnEnd => if st.frames.len() > 0 && st.frames.last() {
                ScanView {
                    kernel: None,
                    frames: st.frames.drop_last(),
                    swap: None,
                    swaps: match st.swap {
                        Some(w) => st.swaps.push(w),
                        None => st.swaps,
                    },
                    ..st
                }
            } else if st.frames.len() > 0 {
                ScanView { frames: st.frames.drop_last(), ..st }
            } else {
                st
            },
            SyntaxEvent::StmtStart { range, line, shape } => if is_barrier_stmt(shape) {
                match st.kernel {
                    Some(k) => ScanView { skip: 1, barriers: st.barriers.push((k, line, range)), ..st },
                    None => ScanView { skip: 1, outside: st.outside + 1, ..st },
                }
            } else {
                ScanView { stmts: st.stmts.push(ctx_of(range, shape)), ..st }
            },
            SyntaxEvent::StmtEnd => if st.stmts.len() == 0 {
                st
            } else {
                let ctx = st.stmts.last();
                let popped = ScanView { stmts: st.stmts.drop_last(), ..st };
                match ctx.3 {
                    None => popped,
                    Some(c) => match ctx.2 {
                        Some(init) => match st.kernel {
                            Some(k) => ScanView {
                                collectives: st.collectives.push((k, c.1, c.0, WrapShape::InitExpr(init.0, init.1))),
                                ..popped
                            },
                            None => popped,
                        },
                        None => if ctx.1 {
                            match st.kernel {
                                Some(k) => ScanView {
                                    collectives: st.collectives.push(
                                        (k, c.1, c.0, WrapShape::WholeStmt(ctx.0.0, ctx.0.1)),
                                    ),
                                    ..popped
                                },
                                None => popped,
                            }
                        } else {
                            ScanView { tail: st.tail + 1, ..popped }
                        },
                    },
                }
            },
            SyntaxEvent::Call { name, line, first_arg } => match name {
                None => st,
                Some(n) => if classified(n@) {
                    match st.kernel {
                        None => ScanView { outside: st.outside + 1, ..st },
                        Some(k) => {
                            let stmts = if st.stmts.len() > 0 && st.stmts.last().3 is None {
                                let t = st.stmts.last();
                                st.stmts.drop_last().push((t.0, t.1, t.2, Some((n@, line))))
                            } else {
                                st.stmts
                            };
                            let masks = match first_arg {
                                Some((r, m)) => match spec_full_mask_text(m) {
                                    Some(text) => st.masks.push((k, line, n@, r, text)),
                                    None => st.masks,
                                },
                                None => st.masks,
                            };
                            ScanView { stmts, masks, ..st }
                        },
                    }
                } else if spec_is_unclassified_collective(n@) && st.kernel is Some {
                    ScanView { unclassified: st.unclassified + 1, ..st }
                } else {
                    st
                },
            },
            SyntaxEvent::MethodCall { receiver, method, arg_count, first_arg } => match st.swap {
                Some(w) => if receiver matches Some(rv) && rv@ == w.2 && (method@ == "get"@ || method@
                    == "get_mut"@) && arg_count == 1 {
                    ScanView { swap: Some((w.0, w.1, w.2, w.3, w.4, w.5.push(first_arg))), ..st }
                } else {
                    st
                },
                None => st,
            },
        }
    }
}

/// The state after every event of `evs`.
pub open spec fn scan_events(s: Seq<char>, evs: Seq<SyntaxEvent>) -> ScanView
    decreases evs.len(),
{
    if evs.len() == 0 {
        scan_start()
    } else {
        scan_step(s, scan_events(s, evs.drop_last()), evs.last())
    }
}

/// A range within a text of `len` characters.
pub open spec fn range_in(r: (usize, usize), len: nat) -> bool {
    r.0 <= r.1 <= len
}

/// Every range an event names lies within a text of `len` characters.
pub open spec fn event_in_range(ev: SyntaxEvent, len: nat) -> bool {
    match ev {
        SyntaxEvent::FnStart { params, .. } => forall|i: int|
            0 <= i < params.len() ==> {
                let p = #[trigger] params@[i];
                &&& range_in(p.ty_range, len)
                &&& forall|j: int| 0 <= j < p.type_args.len() ==> range_in(#[trigger] p.type_args@[j], len)
            },
        SyntaxEvent::StmtStart { range, shape, .. } => range_in(range, len) && match shape {
            StmtShape::Local { init } => init matches Some(r) ==> range_in(r, len),
            _ => true,
        },
        SyntaxEvent::Call { first_arg, .. } => first_arg matches Some(a) ==> range_in(a.0, len),
        SyntaxEvent::MethodCall { first_arg, .. } => range_in(first_arg, len),
        _ => true,
    }
}

/// How much one event can add to the walk's counters.
pub open spec fn event_weight(ev: SyntaxEvent) -> nat {
    match ev {
        SyntaxEvent::FnStart { params, .. } => (params.len() + 1) as nat,
        SyntaxEvent::StmtStart { .. } => 2,
        _ => 1,
    }
}

/// How much a list of events can add to the walk's counters.
pub open spec fn events_weight(evs: Seq<SyntaxEvent>) -> nat
    decreases evs.len(),
{
    if evs.len() == 0 {
        0
    } else {
        events_weight(evs.drop_last()) + event_weight(evs.last())
    }
}

/// The walk's counters, together.
pub open spec fn counters(v: ScanView) -> nat {
    v.skip + v.outside + v.unclassified + v.tail + v.extra
}

/// The walk's state.
pub struct Scan {
    pub kernel: Option<String>,
    pub frames: Vec<bool>,
    pub skip: usize,
    pub swap: Option<SwapSite>,
    pub stmts: Vec<StmtCtx>,
    pub sites: Sites,
}

/// A barrier site as plain values.
pub open spec fn barrier_view(b: BarrierSite) -> (Seq<char>, usize, (usize, usize)) {
    (b.kernel@, b.line, b.stmt)
}

/// A collective site as plain values.
pub open spec fn collective_view(c: CollectiveSite) -> (Seq<char>, usize, Seq<char>, WrapShape) {
    (c.kernel@, c.line, c.callee@, c.shape)
}

/// A mask site as plain values.
pub open spec fn mask_view(m: MaskSite) -> (Seq<char>, usize, Seq<char>, (usize, usize), Seq<char>) {
    (m.kernel@, m.line, m.callee@, m.arg, m.mask_text@)
}

/// A swap site as plain values.
pub open spec fn swap_view(w: SwapSite) -> (Seq<char>, usize, Seq<char>, Seq<char>, (usize, usize), Seq<(usize, usize)>) {
    (w.kernel@, w.line, w.param@, w.elem_ty@, w.ty_range, w.arg_ranges@)
}

/// A statement context as plain values.
pub open spec fn ctx_view(c: StmtCtx) -> ((usize, usize), bool, Option<(usize, usize)>, Option<(Seq<char>, usize)>) {
    (c.range, c.has_semi, c.local_init, match c.collective {
        Some(x) => Some((x.0@, x.1)),
        None => None,
    })
}

/// The sites of a file as plain values.
pub open spec fn sites_view(s: Sites) -> (
    Seq<(Seq<char>, usize, (usize, usize))>,
    Seq<(Seq<char>, usize, Seq<char>, WrapShape)>,
    Seq<(Seq<char>, usize, Seq<char>, (usize, usize), Seq<char>)>,
    Seq<(Seq<char>, usize, Seq<char>, Seq<char>, (usize, usize), Seq<(usize, usize)>)>,
    (nat, nat, nat, nat),
) {
    (
        s.barriers@.map_values(|b: BarrierSite| barrier_view(b)),
        s.collectives@.map_values(|c: CollectiveSite| collective_view(c)),
        s.masks@.map_values(|m: MaskSite| mask_view(m)),
        s.swaps@.map_values(|w: SwapSite| swap_view(w)),
        (
            s.skips.sites_outside_kernels as nat,
            s.skips.unclassified_collectives as nat,
            s.skips.tail_expression_collectives as nat,
            s.skips.extra_disjoint_params as nat,
        ),
    )
}

impl Scan {
    /// The state as plain values.
    pub open spec fn view(&self) -> ScanView {
        ScanView {
            kernel: match self.kernel {
                Some(k) => Some(k@),
                None => None,
            },
            frames: self.frames@,
            skip: self.skip as nat,
            swap: match self.swap {
                Some(w) => Some(swap_view(w)),
                None => None,
            },
            stmts: self.stmts@.map_values(|c: StmtCtx| ctx_view(c)),
            barriers: sites_view(self.sites).0,
            collectives: sites_view(self.sites).1,
            masks: sites_view(self.sites).2,
            swaps: sites_view(self.sites).3,
            outside: sites_view(self.sites).4.0,
            unclassified: sites_view(self.sites).4.1,
            tail: sites_view(self.sites).4.2,
            extra: sites_view(self.sites).4.3,
        }
    }
}

fn copy_range(r: (usize, usize)) -> (c: (usize, usize))
    ensures
        c == r,
{
    (r.0, r.1)
}

impl Scan {
    /// The walk before its first event.
    pub fn new() -> (r: Scan)
        ensures
            r.view() == scan_start(),
    {
        let r = Scan {
            kernel: None,
            frames: Vec::new(),
            skip: 0,
            swap: None,
            stmts: Vec::new(),
            sites: Sites {
                barriers: Vec::new(),
                collectives: Vec::new(),
                masks: Vec::new(),
                swaps: Vec::new(),
                skips: SkipCounts {
                    sites_outside_kernels: 0,
                    unclassified_collectives: 0,
                    tail_expression_collectives: 0,
                    extra_disjoint_params: 0,
                },
            },
        };
        assert(r.view() =~= scan_start());
        r
    }

    /// Enter a kernel: read its parameters for the swap site.
    fn enter_kernel(&mut self, source: &str, name: &String, params: &Vec<ParamSyntax>)
        requires
            forall|i: int|
                0 <= i < params.len() ==> {
                    let p = #[trigger] params@[i];
                    &&& range_in(p.ty_range, source@.len())
                    &&& forall|j: int| 0 <= j < p.type_args.len() ==> range_in(#[trigger] p.type_args@[j], source@.len())
                },
            counters(old(self).view()) + params.len() < usize::MAX,
        ensures
            ({
                let scanned = param_scan(source@, name@, params@, old(self).view().swap, old(self).view().extra);
                final(self).view() == (ScanView {
                    kernel: Some(name@),
                    frames: old(self).view().frames.push(true),
                    swap: scanned.0,
                    extra: scanned.1,
                    ..old(self).view()
                })
            }),
            counters(final(self).view()) <= counters(old(self).view()) + params.len(),
    {
        let ghost v0 = self.view();
        let mut i: usize = 0;
        assert(params@.take(0) =~= Seq::<ParamSyntax>::empty());
        while i < params.len()
            invariant
                i <= params.len(),
                forall|k: int|
                    0 <= k < params.len() ==> {
                        let p = #[trigger] params@[k];
                        &&& range_in(p.ty_range, source@.len())
                        &&& forall|j: int| 0 <= j < p.type_args.len() ==> range_in(#[trigger] p.type_args@[j], source@.len())
                    },
                counters(v0) + params.len() < usize::MAX,
                (self.view().swap, self.view().extra) == param_scan(source@, name@, params@.take(i as int), v0.swap, v0.extra),
                self.view().extra <= v0.extra + i,
                self.view() == (ScanView { swap: self.view().swap, extra: self.view().extra, ..v0 }),
            decreases params.len() - i,
        {
            let p = &params[i];
            let ghost before = self.view();
            proof {
                assert(params@.take(i + 1).drop_last() =~= params@.take(i as int));
                assert(params@.take(i + 1).last() == params@[i as int]);
            }
            let candidate = p.typed && match &p.ty_last {
                Some(t) => str_eq(t.as_str(), "DisjointSlice"),
                None => false,
            } && match p.generic_args {
                Some(n) => n == 1,
                None => false,
            } && p.type_args.len() == 1 && p.ident.is_some();
            if candidate {
                if self.swap.is_some() {
                    self.sites.skips.extra_disjoint_params = self.sites.skips.extra_disjoint_params + 1;
                } else {
                    let a = p.type_args[0];
                    assert(range_in(p.type_args@[0], source@.len()));
                    let elem = owned(source.substring_char(a.0, a.1));
                    let param = match &p.ident {
                        Some(x) => x.clone(),
                        None => String::new(),
                    };
                    self.swap = Some(
                        SwapSite {
                            kernel: name.clone(),
                            line: p.line,
                            param,
                            elem_ty: elem,
                            ty_range: copy_range(p.ty_range),
                            arg_ranges: Vec::new(),
                        },
                    );
                }
            }
            proof {
                assert(self.view() =~= ScanView { swap: self.view().swap, extra: self.view().extra, ..v0 });
            }
            i = i + 1;
        }
        assert(params@.take(params.len() as int) =~= params@);
        self.kernel = Some(name.clone());
        self.frames.push(true);
        proof {
            let scanned = param_scan(source@, name@, params@, v0.swap, v0.extra);
            assert(self.view() =~= ScanView {
                kernel: Some(name@),
                frames: v0.frames.push(true),
                swap: scanned.0,
                extra: scanned.1,
                ..v0
            });
        }
    }
}

fn opt_string(o: &Option<String>) -> (r: Option<String>)
    ensures
        match (o, r) {
            (Some(a), Some(b)) => a@ == b@,
            (None, None) => true,
            _ => false,
        },
{
    match o {
        Some(x) => Some(x.clone()),
        None => None,
    }
}

impl Scan {
    /// Apply one event of the walk.
    #[verifier::rlimit(60)]
    pub fn step(&mut self, source: &str, ev: &SyntaxEvent)
        requires
            event_in_range(*ev, source@.len()),
            counters(old(self).view()) + event_weight(*ev) < usize::MAX,
        ensures
            final(self).view() == scan_step(source@, old(self).view(), *ev),
            counters(final(self).view()) <= counters(old(self).view()) + event_weight(*ev),
    {
        let ghost v0 = self.view();
        let ghost s = source@;
        if self.skip > 0 {
            match ev {
                SyntaxEvent::FnStart { .. } | SyntaxEvent::StmtStart { .. } => {
                    self.skip = self.skip + 1;
                },
                SyntaxEvent::FnEnd | SyntaxEvent::StmtEnd => {
                    self.skip = self.skip - 1;
                },
                _ => {},
            }
            assert(self.view() =~= scan_step(s, v0, *ev));
            return;
        }
        match ev {
            SyntaxEvent::FnStart { name, attrs, params } => {
                assert(event_weight(*ev) == params.len() + 1);
                if !has_attr(attrs, "kernel") || self.kernel.is_some() {
                    self.frames.push(false);
                    assert(self.view() =~= scan_step(s, v0, *ev));
                    assert(self.view().extra == v0.extra && self.view().skip == v0.skip);
                    assert(counters(self.view()) == counters(v0));
                } else {
                    self.enter_kernel(source, name, params);
                    assert(counters(self.view()) <= counters(v0) + params.len());
                }
                assert(counters(self.view()) <= counters(v0) + event_weight(*ev));
                assert(self.view() == scan_step(s, v0, *ev));
            },
            SyntaxEvent::FnEnd => {
                let n = self.frames.len();
                if n > 0 && self.frames[n - 1] {
                    self.frames.pop();
                    self.kernel = None;
                    let sw = self.swap.take();
                    match sw {
                        Some(w) => {
                            self.sites.swaps.push(w);
                        },
                        None => {},
                    }
                } else if n > 0 {
                    self.frames.pop();
                }
                assert(self.view() =~= scan_step(s, v0, *ev));
                assert(counters(self.view()) <= counters(v0) + event_weight(*ev));
            },
            SyntaxEvent::StmtStart { range, line, shape } => {
                let barrier = match shape {
                    StmtShape::Expr { semi, call } => *semi && match call {
                        Some(c) => str_eq(c.as_str(), "sync_threads"),
                        None => false,
                    },
                    _ => false,
                };
                if barrier {
                    match &self.kernel {
                        Some(k) => {
                            let b = BarrierSite { kernel: k.clone(), line: *line, stmt: copy_range(*range) };
                            self.sites.barriers.push(b);
                        },
                        None => {
                            self.sites.skips.sites_outside_kernels = self.sites.skips.sites_outside_kernels + 1;
                        },
                    }
                    self.skip = 1;
                } else {
                    let ctx = match shape {
                        StmtShape::Local { init } => StmtCtx {
                            range: copy_range(*range),
                            has_semi: true,
                            local_init: match init {
                                Some(r) => Some(copy_range(*r)),
                                None => None,
                            },
                            collective: None,
                        },
                        StmtShape::Expr { semi, .. } => StmtCtx {
                            range: copy_range(*range),
                            has_semi: *semi,
                            local_init: None,
                            collective: None,
                        },
                        StmtShape::Other => StmtCtx {
                            range: copy_range(*range),
                            has_semi: true,
                            local_init: None,
                            collective: None,
                        },
                    };
                    assert(ctx_view(ctx) == ctx_of(*range, *shape));
                    self.stmts.push(ctx);
                }
                assert(self.view() =~= scan_step(s, v0, *ev));
                assert(counters(self.view()) <= counters(v0) + event_weight(*ev));
            },
            SyntaxEvent::StmtEnd => {
                self.leave_stmt();
                assert(self.view() =~= scan_step(s, v0, *ev));
                assert(counters(self.view()) <= counters(v0) + event_weight(*ev));
            },
            SyntaxEvent::Call { name, line, first_arg } => {
                self.call(name, *line, first_arg);
                assert(self.view() =~= scan_step(s, v0, *ev));
                assert(counters(self.view()) <= counters(v0) + event_weight(*ev));
            },
            SyntaxEvent::MethodCall { receiver, method, arg_count, first_arg } => {
                let take = match &self.swap {
                    Some(w) => match receiver {
                        Some(rv) => str_eq(rv.as_str(), w.param.as_str()) && (str_eq(method.as_str(), "get")
                            || str_eq(method.as_str(), "get_mut")) && *arg_count == 1,
                        None => false,
                    },
                    None => false,
                };
                if take {
                    let mut w = self.swap.take().unwrap();
                    let ghost wv = swap_view(w);
                    w.arg_ranges.push(copy_range(*first_arg));
                    assert(swap_view(w) =~= (wv.0, wv.1, wv.2, wv.3, wv.4, wv.5.push(*first_arg)));
                    self.swap = Some(w);
                }
                assert(self.view() =~= scan_step(s, v0, *ev));
                assert(counters(self.view()) <= counters(v0) + event_weight(*ev));
            },
        }
    }

    /// Leave a statement: a collective called inside it becomes a wrap
    /// site, or, in a tail expression, a skipped one.
    fn leave_stmt(&mut self)
        requires
            old(self).skip == 0,
            counters(old(self).view()) + 1 < usize::MAX,
        ensures
            final(self).view() == scan_step(arbitrary(), old(self).view(), SyntaxEvent::StmtEnd),
            counters(final(self).view()) <= counters(old(self).view()) + 1,
    {
        let ghost v0 = self.view();
        match self.stmts.pop() {
            None => {},
            Some(ctx) => {
                proof {
                    assert(self.stmts@ =~= old(self).stmts@.drop_last());
                    assert(v0.stmts.last() == ctx_view(ctx));
                }
                match ctx.collective {
                    None => {},
                    Some((callee, line)) => match ctx.local_init {
                        Some(init) => match &self.kernel {
                            Some(k) => {
                                self.sites.collectives.push(
                                    CollectiveSite {
                                        kernel: k.clone(),
                                        line,
                                        callee,
                                        shape: WrapShape::InitExpr(init.0, init.1),
                                    },
                                );
                            },
                            None => {},
                        },
                        None => if ctx.has_semi {
                            match &self.kernel {
                                Some(k) => {
                                    self.sites.collectives.push(
                                        CollectiveSite {
                                            kernel: k.clone(),
                                            line,
                                            callee,
                                            shape: WrapShape::WholeStmt(ctx.range.0, ctx.range.1),
                                        },
                                    );
                                },
                                None => {},
                            }
                        } else {
                            self.sites.skips.tail_expression_collectives = self.sites.skips.tail_expression_collectives
                                + 1;
                        },
                    },
                }
            },
        }
        assert(self.view() =~= scan_step(arbitrary(), v0, SyntaxEvent::StmtEnd));
    }

    /// A call: a classified collective marks the innermost statement and,
    /// with a full mask, is a mask site; an unclassified one is counted.
    fn call(&mut self, name: &Option<String>, line: usize, first_arg: &Option<((usize, usize), MaskArg)>)
        requires
            old(self).skip == 0,
            counters(old(self).view()) + 1 < usize::MAX,
        ensures
            final(self).view() == scan_step(
                arbitrary(),
                old(self).view(),
                SyntaxEvent::Call { name: *name, line, first_arg: *first_arg },
            ),
            counters(final(self).view()) <= counters(old(self).view()) + 1,
    {
        let ghost v0 = self.view();
        match name {
            None => {},
            Some(n) => {
                if is_classified_collective(n.as_str()) {
                    match &self.kernel {
                        None => {
                            self.sites.skips.sites_outside_kernels = self.sites.skips.sites_outside_kernels + 1;
                        },
                        Some(k) => {
                            let k = k.clone();
                            let sl = self.stmts.len();
                            if sl > 0 && self.stmts[sl - 1].collective.is_none() {
                                let mut top = self.stmts.pop().unwrap();
                                top.collective = Some((n.clone(), line));
                                self.stmts.push(top);
                            }
                            match first_arg {
                                Some((r, m)) => match full_mask_text(m) {
                                    Some(text) => {
                                        self.sites.masks.push(
                                            MaskSite {
                                                kernel: k,
                                                line,
                                                callee: n.clone(),
                                                arg: copy_range(*r),
                                                mask_text: text,
                                            },
                                        );
                                    },
                                    None => {},
                                },
                                None => {},
                            }
                        },
                    }
                } else if is_unclassified_collective(n.as_str()) && self.kernel.is_some() {
                    self.sites.skips.unclassified_collectives = self.sites.skips.unclassified_collectives + 1;
                }
            },
        }
        assert(self.view() =~= scan_step(
            arbitrary(),
            v0,
            SyntaxEvent::Call { name: *name, line, first_arg: *first_arg },
        ));
    }
}

/// The sites the walk `evs` of `s` finds, as plain values.
pub open spec fn spec_sites(s: Seq<char>, evs: Seq<SyntaxEvent>) -> (
    Seq<(Seq<char>, usize, (usize, usize))>,
    Seq<(Seq<char>, usize, Seq<char>, WrapShape)>,
    Seq<(Seq<char>, usize, Seq<char>, (usize, usize), Seq<char>)>,
    Seq<(Seq<char>, usize, Seq<char>, Seq<char>, (usize, usize), Seq<(usize, usize)>)>,
    (nat, nat, nat, nat),
) {
    let v = scan_events(s, evs);
    (v.barriers, v.collectives, v.masks, v.swaps, (v.outside, v.unclassified, v.tail, v.extra))
}

/// Every event of the walk lies within a text of `len` characters.
pub open spec fn events_in_range(evs: Seq<SyntaxEvent>, len: nat) -> bool {
    forall|i: int| 0 <= i < evs.len() ==> event_in_range(#[trigger] evs[i], len)
}

/// The mutation sites of `source`, from the walk of its syntax tree.
pub fn collect_sites(source: &str, events: &Vec<SyntaxEvent>) -> (r: Sites)
    requires
        events_in_range(events@, source@.len()),
        events_weight(events@) < usize::MAX,
    ensures
        sites_view(r) == spec_sites(source@, events@),
{
    let mut scan = Scan::new();
    let mut i: usize = 0;
    assert(events@.take(0) =~= Seq::<SyntaxEvent>::empty());
    while i < events.len()
        invariant
            i <= events.len(),
            events_in_range(events@, source@.len()),
            events_weight(events@) < usize::MAX,
            scan.view() == scan_events(source@, events@.take(i as int)),
            counters(scan.view()) <= events_weight(events@.take(i as int)),
        decreases events.len() - i,
    {
        proof {
            let cur = events@.take(i + 1);
            assert(cur.drop_last() =~= events@.take(i as int));
            assert(cur.last() == events@[i as int]);
            lemma_weight_prefix(events@, i + 1);
        }
        scan.step(source, &events[i]);
        i = i + 1;
    }
    assert(events@.take(events.len() as int) =~= events@);
    scan.sites
}

proof fn lemma_weight_prefix(evs: Seq<SyntaxEvent>, k: int)
    requires
        0 <= k <= evs.len(),
    ensures
        events_weight(evs.take(k)) <= events_weight(evs),
    decreases evs.len() - k,
{
    if k < evs.len() {
        lemma_weight_prefix(evs, k + 1);
        assert(evs.take(k + 1).drop_last() =~= evs.take(k));
    } else {
        assert(evs.take(k) =~= evs);
    }
}

fn range_ok(r: (usize, usize), n: usize) -> (b: bool)
    ensures
        b == (r.0 <= r.1 <= n),
{
    r.0 <= r.1 && r.1 <= n
}

/// Whether the sites can be applied to `source`: every range within it,
/// and each swap's edits in order without overlapping.
pub fn check_sites(source: &str, sites: &Sites) -> (r: bool)
    ensures
        r == sites_ok(source@, *sites),
{
    let n = source.unicode_len();
    let mut i: usize = 0;
    while i < sites.barriers.len()
        invariant
            n == source@.len(),
            i <= sites.barriers.len(),
            forall|j: int| 0 <= j < i ==> #[trigger] sites.barriers@[j].stmt.0 <= sites.barriers@[j].stmt.1 <= n,
        decreases sites.barriers.len() - i,
    {
        if !range_ok(sites.barriers[i].stmt, n) {
            return false;
        }
        i = i + 1;
    }
    let mut i: usize = 0;
    while i < sites.collectives.len()
        invariant
            n == source@.len(),
            i <= sites.collectives.len(),
            forall|j: int|
                0 <= j < i ==> match #[trigger] sites.collectives@[j].shape {
                    WrapShape::InitExpr(a, b) => a <= b <= n,
                    WrapShape::WholeStmt(a, b) => a <= b <= n,
                },
        decreases sites.collectives.len() - i,
    {
        let ok = match sites.collectives[i].shape {
            WrapShape::InitExpr(a, b) => a <= b && b <= n,
            WrapShape::WholeStmt(a, b) => a <= b && b <= n,
        };
        if !ok {
            return false;
        }
        i = i + 1;
    }
    let mut i: usize = 0;
    while i < sites.masks.len()
        invariant
            n == source@.len(),
            i <= sites.masks.len(),
            forall|j: int| 0 <= j < i ==> #[trigger] sites.masks@[j].arg.0 <= sites.masks@[j].arg.1 <= n,
        decreases sites.masks.len() - i,
    {
        if !range_ok(sites.masks[i].arg, n) {
            return false;
        }
        i = i + 1;
    }
    let mut i: usize = 0;
    while i < sites.swaps.len()
        invariant
            n == source@.len(),
            i <= sites.swaps.len(),
            forall|j: int| 0 <= j < i ==> edits_ok(n as nat, swap_edits(source@, #[trigger] sites.swaps@[j])),
        decreases sites.swaps.len() - i,
    {
        if !swap_ok(source, &sites.swaps[i]) {
            return false;
        }
        i = i + 1;
    }
    true
}

/// Whether a swap's edits lie in `source` in order without overlapping.
fn swap_ok(source: &str, w: &SwapSite) -> (r: bool)
    ensures
        r == edits_ok(source@.len(), swap_edits(source@, *w)),
{
    let n = source.unicode_len();
    let ghost e = swap_edits(source@, *w);
    assert(e.len() == w.arg_ranges.len() + 1);
    assert(e[0] == (w.ty_range.0, w.ty_range.1, "&mut ["@ + w.elem_ty@ + "]"@));
    assert forall|k: int| 0 <= k < w.arg_ranges.len() implies #[trigger] e[k + 1].0 == w.arg_ranges@[k].0
        && e[k + 1].1 == w.arg_ranges@[k].1 by {}
    if !range_ok(w.ty_range, n) {
        assert(!(e[0].0 <= e[0].1 <= n));
        return false;
    }
    let mut prev_end = w.ty_range.1;
    let mut q: usize = 0;
    while q < w.arg_ranges.len()
        invariant
            n == source@.len(),
            e == swap_edits(source@, *w),
            e.len() == w.arg_ranges.len() + 1,
            forall|k: int| 0 <= k < w.arg_ranges.len() ==> #[trigger] e[k + 1].0 == w.arg_ranges@[k].0
                && e[k + 1].1 == w.arg_ranges@[k].1,
            q <= w.arg_ranges.len(),
            prev_end == e[q as int].1,
            edits_ok(n as nat, e.take(q + 1)),
        decreases w.arg_ranges.len() - q,
    {
        let r = w.arg_ranges[q];
        assert(e[q + 1].0 == r.0 && e[q + 1].1 == r.1);
        if !(prev_end <= r.0 && range_ok(r, n)) {
            proof {
                if edits_ok(n as nat, e) {
                    assert(e[q as int].1 <= e[q + 1].0);
                    assert(e[q + 1].0 <= e[q + 1].1 <= n);
                }
            }
            return false;
        }
        proof {
            let t = e.take(q + 2);
            let p = e.take(q + 1);
            assert forall|a: int| 0 <= a < t.len() implies #[trigger] t[a].0 <= t[a].1 <= n by {
                if a < q + 1 {
                    assert(t[a] == p[a]);
                }
            }
            assert forall|a: int, b: int| 0 <= a < b < t.len() implies #[trigger] t[a].1 <= #[trigger] t[b].0 by {
                if b < q + 1 {
                    assert(t[a] == p[a] && t[b] == p[b]);
                } else {
                    assert(t[a] == p[a]);
                    assert(p[a].1 <= p[q as int].1 || a == q) by {
                        if a < q {
                            assert(p[a].1 <= p[q as int].0);
                            assert(p[q as int].0 <= p[q as int].1);
                        }
                    }
                }
            }
        }
        prev_end = r.1;
        q = q + 1;
    }
    assert(e.take(q + 1) =~= e);
    true
}

/// Every mutant of one source file, from the walk of its syntax tree:
/// the sites it finds, each made into its mutants. Refused when the sites'
/// edits would reach outside the source or overlap.
pub fn mutate_source(source: &str, events: &Vec<SyntaxEvent>) -> (r: Result<FileMutants, String>)
    requires
        events_in_range(events@, source@.len()),
        events_weight(events@) < usize::MAX,
    ensures
        match r {
            Ok(fm) => forall|sites: Sites|
                sites_view(sites) == spec_sites(source@, events@) ==> sites_ok(source@, sites)
                    && super::mutate::mutants_view(fm.mutants@) == super::mutate::file_mutants(source@, sites)
                    && fm.skips == sites.skips,
            Err(m) => m@ == "a mutation site reaches outside the source or overlaps another"@ && forall|sites: Sites|
                sites_view(sites) == spec_sites(source@, events@) ==> !sites_ok(source@, sites),
        },
{
    let sites = collect_sites(source, events);
    if !check_sites(source, &sites) {
        proof {
            assert forall|other: Sites| sites_view(other) == spec_sites(source@, events@) implies !sites_ok(
                source@,
                other,
            ) by {
                lemma_sites_ok_by_view(source@, sites, other);
            }
        }
        return Err(owned("a mutation site reaches outside the source or overlaps another"));
    }
    let fm = mutants_of(source, &sites);
    proof {
        assert forall|other: Sites| sites_view(other) == spec_sites(source@, events@) implies sites_ok(source@, other)
            && super::mutate::mutants_view(fm.mutants@) == super::mutate::file_mutants(source@, other)
            && fm.skips == other.skips by {
            lemma_sites_ok_by_view(source@, sites, other);
        }
    }
    Ok(fm)
}

proof fn lemma_barrier_part_by_view(s: Seq<char>, a: Seq<BarrierSite>, b: Seq<BarrierSite>)
    requires
        a.map_values(|x: BarrierSite| barrier_view(x)) == b.map_values(|x: BarrierSite| barrier_view(x)),
    ensures
        super::mutate::barrier_part(s, a) == super::mutate::barrier_part(s, b),
    decreases a.len(),
{
    assert(a.len() == b.len()) by {
        assert(a.map_values(|x: BarrierSite| barrier_view(x)).len() == a.len());
    }
    if a.len() > 0 {
        let n = a.len() - 1;
        assert(a.drop_last().map_values(|x: BarrierSite| barrier_view(x)) =~= b.drop_last().map_values(
            |x: BarrierSite| barrier_view(x),
        )) by {
            assert forall|i: int| 0 <= i < n implies barrier_view(a.drop_last()[i]) == barrier_view(b.drop_last()[i]) by {
                assert(a.map_values(|x: BarrierSite| barrier_view(x))[i] == b.map_values(|x: BarrierSite| barrier_view(x))[i]);
            }
        }
        lemma_barrier_part_by_view(s, a.drop_last(), b.drop_last());
        assert(a.map_values(|x: BarrierSite| barrier_view(x))[n] == b.map_values(|x: BarrierSite| barrier_view(x))[n]);
        assert(super::mutate::barrier_mutants(s, a.last()) == super::mutate::barrier_mutants(s, b.last()));
    }
}

/// Sites with the same plain values apply and mutate alike.
proof fn lemma_sites_ok_by_view(s: Seq<char>, a: Sites, b: Sites)
    requires
        sites_view(a) == sites_view(b),
    ensures
        sites_ok(s, a) == sites_ok(s, b),
        super::mutate::file_mutants(s, a) == super::mutate::file_mutants(s, b),
        a.skips == b.skips,
{
    let (va, vb) = (sites_view(a), sites_view(b));
    assert(a.barriers.len() == b.barriers.len()) by {
        assert(va.0.len() == a.barriers.len() && vb.0.len() == b.barriers.len());
    }
    assert(a.collectives.len() == b.collectives.len()) by {
        assert(va.1.len() == a.collectives.len() && vb.1.len() == b.collectives.len());
    }
    assert(a.masks.len() == b.masks.len()) by {
        assert(va.2.len() == a.masks.len() && vb.2.len() == b.masks.len());
    }
    assert(a.swaps.len() == b.swaps.len()) by {
        assert(va.3.len() == a.swaps.len() && vb.3.len() == b.swaps.len());
    }
    assert forall|i: int| 0 <= i < a.barriers.len() implies barrier_view(a.barriers@[i]) == barrier_view(
        #[trigger] b.barriers@[i],
    ) by {
        assert(va.0[i] == vb.0[i]);
    }
    assert forall|i: int| 0 <= i < a.collectives.len() implies collective_view(a.collectives@[i])
        == collective_view(#[trigger] b.collectives@[i]) by {
        assert(va.1[i] == vb.1[i]);
    }
    assert forall|i: int| 0 <= i < a.masks.len() implies mask_view(a.masks@[i]) == mask_view(
        #[trigger] b.masks@[i],
    ) by {
        assert(va.2[i] == vb.2[i]);
    }
    assert forall|i: int| 0 <= i < a.swaps.len() implies swap_view(a.swaps@[i]) == swap_view(
        #[trigger] b.swaps@[i],
    ) by {
        assert(va.3[i] == vb.3[i]);
    }
    assert forall|i: int| 0 <= i < a.swaps.len() implies super::mutate::swap_edits(s, a.swaps@[i])
        == super::mutate::swap_edits(s, #[trigger] b.swaps@[i]) by {
        assert(swap_view(a.swaps@[i]) == swap_view(b.swaps@[i]));
        assert(super::mutate::swap_edits(s, a.swaps@[i]) =~= super::mutate::swap_edits(s, b.swaps@[i]));
    }
    lemma_barrier_part_by_view(s, a.barriers@, b.barriers@);
    assert(sites_ok(s, a) == sites_ok(s, b)) by {
        assert forall|i: int| 0 <= i < a.barriers.len() implies #[trigger] a.barriers@[i].stmt == b.barriers@[i].stmt by {
            assert(barrier_view(a.barriers@[i]) == barrier_view(b.barriers@[i]));
        }
        assert forall|i: int| 0 <= i < a.collectives.len() implies #[trigger] a.collectives@[i].shape
            == b.collectives@[i].shape by {
            assert(collective_view(a.collectives@[i]) == collective_view(b.collectives@[i]));
        }
        assert forall|i: int| 0 <= i < a.masks.len() implies #[trigger] a.masks@[i].arg == b.masks@[i].arg by {
            assert(mask_view(a.masks@[i]) == mask_view(b.masks@[i]));
        }
        if sites_ok(s, a) {
            assert forall|i: int| 0 <= i < b.barriers.len() implies #[trigger] b.barriers@[i].stmt.0
                <= b.barriers@[i].stmt.1 <= s.len() by {
                assert(a.barriers@[i].stmt == b.barriers@[i].stmt);
                assert(a.barriers@[i].stmt.0 <= a.barriers@[i].stmt.1 <= s.len());
            }
            assert forall|i: int| 0 <= i < b.collectives.len() implies match #[trigger] b.collectives@[i].shape {
                WrapShape::InitExpr(x, y) => x <= y <= s.len(),
                WrapShape::WholeStmt(x, y) => x <= y <= s.len(),
            } by {
                assert(a.collectives@[i].shape == b.collectives@[i].shape);
                assert(match a.collectives@[i].shape {
                    WrapShape::InitExpr(x, y) => x <= y <= s.len(),
                    WrapShape::WholeStmt(x, y) => x <= y <= s.len(),
                });
            }
            assert forall|i: int| 0 <= i < b.masks.len() implies #[trigger] b.masks@[i].arg.0 <= b.masks@[i].arg.1
                <= s.len() by {
                assert(a.masks@[i].arg == b.masks@[i].arg);
                assert(a.masks@[i].arg.0 <= a.masks@[i].arg.1 <= s.len());
            }
            assert forall|i: int| 0 <= i < b.swaps.len() implies edits_ok(s.len(), swap_edits(s, #[trigger] b.swaps@[i])) by {
                assert(swap_edits(s, a.swaps@[i]) == swap_edits(s, b.swaps@[i]));
                assert(edits_ok(s.len(), swap_edits(s, a.swaps@[i])));
            }
        }
        if sites_ok(s, b) {
            assert forall|i: int| 0 <= i < a.barriers.len() implies #[trigger] a.barriers@[i].stmt.0
                <= a.barriers@[i].stmt.1 <= s.len() by {
                assert(a.barriers@[i].stmt == b.barriers@[i].stmt);
                assert(b.barriers@[i].stmt.0 <= b.barriers@[i].stmt.1 <= s.len());
            }
            assert forall|i: int| 0 <= i < a.collectives.len() implies match #[trigger] a.collectives@[i].shape {
                WrapShape::InitExpr(x, y) => x <= y <= s.len(),
                WrapShape::WholeStmt(x, y) => x <= y <= s.len(),
            } by {
                assert(a.collectives@[i].shape == b.collectives@[i].shape);
                assert(match b.collectives@[i].shape {
                    WrapShape::InitExpr(x, y) => x <= y <= s.len(),
                    WrapShape::WholeStmt(x, y) => x <= y <= s.len(),
                });
            }
            assert forall|i: int| 0 <= i < a.masks.len() implies #[trigger] a.masks@[i].arg.0 <= a.masks@[i].arg.1
                <= s.len() by {
                assert(a.masks@[i].arg == b.masks@[i].arg);
                assert(b.masks@[i].arg.0 <= b.masks@[i].arg.1 <= s.len());
            }
            assert forall|i: int| 0 <= i < a.swaps.len() implies edits_ok(s.len(), swap_edits(s, #[trigger] a.swaps@[i])) by {
                assert(swap_edits(s, a.swaps@[i]) == swap_edits(s, b.swaps@[i]));
                assert(edits_ok(s.len(), swap_edits(s, b.swaps@[i])));
            }
        }
    }
    assert(a.collectives@.map_values(|c: CollectiveSite| super::mutate::collective_mutant(s, c))
        =~= b.collectives@.map_values(|c: CollectiveSite| super::mutate::collective_mutant(s, c)));
    assert(a.masks@.map_values(|m: MaskSite| super::mutate::mask_mutant(s, m)) =~= b.masks@.map_values(
        |m: MaskSite| super::mutate::mask_mutant(s, m),
    ));
    assert(a.swaps@.map_values(|w: SwapSite| super::mutate::swap_mutant(s, w)) =~= b.swaps@.map_values(
        |w: SwapSite| super::mutate::swap_mutant(s, w),
    ));
    assert(a.skips == b.skips);
}

fn params_fit(params: &Vec<ParamSyntax>, n: usize) -> (r: bool)
    ensures
        r == forall|i: int|
            0 <= i < params.len() ==> {
                let p = #[trigger] params@[i];
                &&& range_in(p.ty_range, n as nat)
                &&& forall|j: int| 0 <= j < p.type_args.len() ==> range_in(#[trigger] p.type_args@[j], n as nat)
            },
{
    let mut i: usize = 0;
    while i < params.len()
        invariant
            i <= params.len(),
            forall|k: int|
                0 <= k < i ==> {
                    let p = #[trigger] params@[k];
                    &&& range_in(p.ty_range, n as nat)
                    &&& forall|j: int| 0 <= j < p.type_args.len() ==> range_in(#[trigger] p.type_args@[j], n as nat)
                },
        decreases params.len() - i,
    {
        let p = &params[i];
        assert(params@[i as int] == *p);
        if !range_ok(p.ty_range, n) {
            assert(!range_in(params@[i as int].ty_range, n as nat));
            return false;
        }
        let mut j: usize = 0;
        while j < p.type_args.len()
            invariant
                i < params.len(),
                *p == params@[i as int],
                j <= p.type_args.len(),
                forall|q: int| 0 <= q < j ==> range_in(#[trigger] p.type_args@[q], n as nat),
            decreases p.type_args.len() - j,
        {
            if !range_ok(p.type_args[j], n) {
                assert(!range_in(params@[i as int].type_args@[j as int], n as nat));
                return false;
            }
            j = j + 1;
        }
        i = i + 1;
    }
    true
}

fn event_fits(ev: &SyntaxEvent, n: usize) -> (r: bool)
    ensures
        r == event_in_range(*ev, n as nat),
{
    match ev {
        SyntaxEvent::FnStart { params, .. } => params_fit(params, n),
        SyntaxEvent::StmtStart { range, shape, .. } => range_ok(*range, n) && match shape {
            StmtShape::Local { init } => match init {
                Some(r) => range_ok(*r, n),
                None => true,
            },
            _ => true,
        },
        SyntaxEvent::Call { first_arg, .. } => match first_arg {
            Some(a) => range_ok(a.0, n),
            None => true,
        },
        SyntaxEvent::MethodCall { first_arg, .. } => range_ok(*first_arg, n),
        _ => true,
    }
}

/// Whether a walk can be read for `source`: every position within it, and
/// its counters within the machine's.
pub fn events_fit(source: &str, events: &Vec<SyntaxEvent>) -> (r: bool)
    ensures
        r == (events_in_range(events@, source@.len()) && events_weight(events@) < usize::MAX),
{
    let n = source.unicode_len();
    let mut weight: usize = 0;
    let mut i: usize = 0;
    assert(events@.take(0) =~= Seq::<SyntaxEvent>::empty());
    while i < events.len()
        invariant
            n == source@.len(),
            i <= events.len(),
            forall|k: int| 0 <= k < i ==> event_in_range(#[trigger] events@[k], n as nat),
            weight == events_weight(events@.take(i as int)),
            weight < usize::MAX,
        decreases events.len() - i,
    {
        proof {
            let cur = events@.take(i + 1);
            assert(cur.drop_last() =~= events@.take(i as int));
            assert(cur.last() == events@[i as int]);
        }
        if !event_fits(&events[i], n) {
            return false;
        }
        let w: usize = match &events[i] {
            SyntaxEvent::FnStart { params, .. } => {
                if params.len() >= usize::MAX - 1 {
                    proof {
                        lemma_weight_prefix(events@, i + 1);
                    }
                    return false;
                }
                params.len() + 1
            },
            SyntaxEvent::StmtStart { .. } => 2,
            _ => 1,
        };
        if w >= usize::MAX - weight {
            proof {
                lemma_weight_prefix(events@, i + 1);
            }
            return false;
        }
        weight = weight + w;
        i = i + 1;
    }
    assert(events@.take(events.len() as int) =~= events@);
    true
}

} // verus!
