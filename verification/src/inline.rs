//! Bounded inlining of local callees, so a barrier behind a helper can be
//! replayed.
//!
//! Interprocedural findings stay at `warning` because the summary bit says
//! a callee *may* reach a barrier. This module removes the call instead,
//! splicing the callee's own blocks into the caller so the barrier becomes
//! a site on a concrete path.
//!
//! Deliberately bounded, because the fallback is already correct:
//! non-recursive callees, at most [`MAX_DEPTH`] frames, at most
//! [`MAX_BLOCKS`] blocks in the result. Anything outside those bounds
//! yields `None` and the caller keeps the summary tier.
use vstd::prelude::*;

use crate::dialect::CallKind;
use crate::model::{
    block_same, block_wf, callee_same, copy_block, copy_callee, copy_ids, copy_stmts, eval_below,
    lemma_block_same_wf, lemma_block_wf_grows, names_view, operand_below, option_operand_below,
    stmt_below, stmt_same, term_locals_below, term_succs, Block, BlockId, Eval, FnId, FnModel, Local,
    Operand, Stmt, Term, TermKind,
};

verus! {

/// Frames of inlining. Two covers a helper calling a helper.
pub const MAX_DEPTH: u32 = 2;

/// A ceiling on the spliced result.
pub const MAX_BLOCKS: usize = 4096;

/// A model with its local calls spliced in, and the sites that exposed.
pub struct Inlined {
    pub model: FnModel,
    /// Barrier and collective blocks that only exist because a call was
    /// inlined, paired with the caller block whose call produced them.
    pub exposed: Vec<(BlockId, Vec<BlockId>)>,
}

/// A block that ends in a barrier or warp-collective call.
pub open spec fn spec_is_site(b: Block) -> bool {
    b.term.kind matches TermKind::Call { callee, .. } && (callee.kind == CallKind::Barrier
        || callee.kind is WarpCollective)
}

/// A model whose ids are in range and whose parameters are among its
/// locals.
pub open spec fn model_ok(f: FnModel) -> bool {
    f.wf() && f.arg_count < f.local_count
}

/// Every model of the set is [`model_ok`].
pub open spec fn models_ok(fns: Seq<FnModel>) -> bool {
    forall|i: int| 0 <= i < fns.len() ==> model_ok(#[trigger] fns[i])
}

/// Every exposed entry names a block of the original caller (below `n0`)
/// and a nonempty list of site blocks of `m` spliced in after it.
pub open spec fn exposed_ok(m: FnModel, ex: Seq<(BlockId, Vec<BlockId>)>, n0: nat) -> bool {
    forall|i: int|
        0 <= i < ex.len() ==> {
            let e = #[trigger] ex[i];
            &&& e.0 < n0
            &&& e.1.len() > 0
            &&& forall|k: int|
                0 <= k < e.1.len() ==> n0 <= #[trigger] e.1@[k] < m.blocks.len() && spec_is_site(
                    m.blocks@[e.1@[k] as int],
                )
        }
}

/// A local moved up by `k`.
pub open spec fn shift(x: usize, k: usize) -> usize {
    (x + k) as usize
}

/// An operand with its local moved up by `k`.
pub open spec fn shift_operand(o: Operand, k: usize) -> Operand {
    match o {
        Operand::Local(x) => Operand::Local(shift(x, k)),
        Operand::Const(c) => Operand::Const(c),
    }
}

/// An optional operand with its local moved up by `k`.
pub open spec fn shift_opt_operand(o: Option<Operand>, k: usize) -> Option<Operand> {
    match o {
        Some(x) => Some(shift_operand(x, k)),
        None => None,
    }
}

/// An optional id moved up by `k`.
pub open spec fn shift_opt(o: Option<usize>, k: usize) -> Option<usize> {
    match o {
        Some(x) => Some(shift(x, k)),
        None => None,
    }
}

/// An evaluable right-hand side with its locals moved up by `k`.
pub open spec fn shift_eval(e: Eval, k: usize) -> Eval {
    match e {
        Eval::Use(a) => Eval::Use(shift_operand(a, k)),
        Eval::Binary(op, a, b) => Eval::Binary(op, shift_operand(a, k), shift_operand(b, k)),
        Eval::Unary(op, a, w) => Eval::Unary(op, shift_operand(a, k), w),
        Eval::Cast(a, w) => Eval::Cast(shift_operand(a, k), w),
        Eval::CheckedBinary(op, a, b, w) => Eval::CheckedBinary(op, shift_operand(a, k), shift_operand(b, k), w),
    }
}

/// Ids moved up by `k`.
pub open spec fn shift_all(v: Seq<usize>, k: usize) -> Seq<usize> {
    v.map_values(|x: usize| shift(x, k))
}

/// `r` is statement `s` with its locals moved up by `k`.
pub open spec fn stmt_shifted(r: Stmt, s: Stmt, k: usize) -> bool {
    &&& r.dest == shift_opt(s.dest, k)
    &&& r.uses@ == shift_all(s.uses@, k)
    &&& r.eval == match s.eval {
        Some(e) => Some(shift_eval(e, k)),
        None => None,
    }
    &&& r.opaque == s.opaque
    &&& r.span == s.span
}

/// `r` is terminator `t` with locals moved up by `k`, blocks moved up by
/// `bb`, and a return turned into a jump to `ret`.
pub open spec fn term_shifted(r: TermKind, t: TermKind, k: usize, bb: usize, ret: usize) -> bool {
    match t {
        TermKind::Goto { target } => r == TermKind::Goto { target: shift(target, bb) },
        TermKind::Branch { cond, targets, values } => r matches TermKind::Branch {
            cond: c2,
            targets: t2,
            values: v2,
        } && c2 == shift(cond, k) && t2@ == shift_all(targets@, bb) && v2@ == values@,
        TermKind::Jump { targets } => r matches TermKind::Jump { targets: t2 } && t2@ == shift_all(targets@, bb),
        TermKind::Call { callee, args, const_args, arg_operands, dest, target } => r matches TermKind::Call {
            callee: e2,
            args: a2,
            const_args: k2,
            arg_operands: o2,
            dest: d2,
            target: g2,
        } && callee_same(e2, callee) && a2@ == shift_all(args@, k) && k2@ == const_args@ && o2@
            == arg_operands@.map_values(|o: Option<Operand>| shift_opt_operand(o, k)) && d2 == shift_opt(
            dest,
            k,
        ) && g2 == shift_opt(target, bb),
        TermKind::Opaque { uses, dest, target } => r matches TermKind::Opaque {
            uses: u2,
            dest: d2,
            target: g2,
        } && u2@ == shift_all(uses@, k) && d2 == shift_opt(dest, k) && g2 == shift_opt(target, bb),
        TermKind::Return => r == TermKind::Goto { target: ret },
        TermKind::Halt => r is Halt,
    }
}

/// `r` is block `b` moved into a caller: locals up by `k`, blocks up by
/// `bb`, returns jumping to `ret`.
pub open spec fn block_shifted(r: Block, b: Block, k: usize, bb: usize, ret: usize) -> bool {
    &&& r.stmts.len() == b.stmts.len()
    &&& forall|i: int| 0 <= i < b.stmts.len() ==> stmt_shifted(#[trigger] r.stmts@[i], b.stmts@[i], k)
    &&& term_shifted(r.term.kind, b.term.kind, k, bb, ret)
    &&& r.term.span == b.term.span
}

fn shift_ids(v: &Vec<usize>, k: usize, Ghost(bound): Ghost<nat>) -> (r: Vec<usize>)
    requires
        forall|i: int| 0 <= i < v.len() ==> #[trigger] v@[i] < bound,
        k + bound <= usize::MAX,
    ensures
        r@ == shift_all(v@, k),
        forall|i: int| 0 <= i < r.len() ==> #[trigger] r@[i] < k + bound,
{
    let mut out: Vec<usize> = Vec::new();
    let mut i: usize = 0;
    while i < v.len()
        invariant
            i <= v.len(),
            forall|j: int| 0 <= j < v.len() ==> #[trigger] v@[j] < bound,
            k + bound <= usize::MAX,
            out@ == shift_all(v@.take(i as int), k),
        decreases v.len() - i,
    {
        out.push(v[i] + k);
        assert(shift_all(v@.take(i + 1), k) =~= shift_all(v@.take(i as int), k).push(shift(v@[i as int], k)));
        i = i + 1;
    }
    assert(v@.take(v.len() as int) =~= v@);
    out
}

fn shift_operand_exec(o: Operand, k: usize, Ghost(bound): Ghost<nat>) -> (r: Operand)
    requires
        operand_below(o, bound),
        k + bound <= usize::MAX,
    ensures
        r == shift_operand(o, k),
        operand_below(r, (k + bound) as nat),
{
    match o {
        Operand::Local(x) => Operand::Local(x + k),
        Operand::Const(c) => Operand::Const(c),
    }
}

fn shift_operands(v: &Vec<Option<Operand>>, k: usize, Ghost(bound): Ghost<nat>) -> (r: Vec<Option<Operand>>)
    requires
        forall|i: int| 0 <= i < v.len() ==> option_operand_below(#[trigger] v@[i], bound),
        k + bound <= usize::MAX,
    ensures
        r@ == v@.map_values(|o: Option<Operand>| shift_opt_operand(o, k)),
        forall|i: int| 0 <= i < r.len() ==> option_operand_below(#[trigger] r@[i], (k + bound) as nat),
{
    let mut out: Vec<Option<Operand>> = Vec::new();
    let mut i: usize = 0;
    while i < v.len()
        invariant
            i <= v.len(),
            forall|j: int| 0 <= j < v.len() ==> option_operand_below(#[trigger] v@[j], bound),
            k + bound <= usize::MAX,
            out@ == v@.take(i as int).map_values(|o: Option<Operand>| shift_opt_operand(o, k)),
            forall|j: int| 0 <= j < out.len() ==> option_operand_below(#[trigger] out@[j], (k + bound) as nat),
        decreases v.len() - i,
    {
        let x = match v[i] {
            Some(o) => Some(shift_operand_exec(o, k, Ghost(bound))),
            None => None,
        };
        out.push(x);
        assert(v@.take(i + 1).map_values(|o: Option<Operand>| shift_opt_operand(o, k)) =~= v@.take(
            i as int,
        ).map_values(|o: Option<Operand>| shift_opt_operand(o, k)).push(shift_opt_operand(v@[i as int], k)));
        i = i + 1;
    }
    assert(v@.take(v.len() as int) =~= v@);
    out
}

fn shift_eval_exec(e: Eval, k: usize, Ghost(bound): Ghost<nat>) -> (r: Eval)
    requires
        eval_below(e, bound),
        k + bound <= usize::MAX,
    ensures
        r == shift_eval(e, k),
        eval_below(r, (k + bound) as nat),
{
    match e {
        Eval::Use(a) => Eval::Use(shift_operand_exec(a, k, Ghost(bound))),
        Eval::Binary(op, a, b) => Eval::Binary(
            op,
            shift_operand_exec(a, k, Ghost(bound)),
            shift_operand_exec(b, k, Ghost(bound)),
        ),
        Eval::Unary(op, a, w) => Eval::Unary(op, shift_operand_exec(a, k, Ghost(bound)), w),
        Eval::Cast(a, w) => Eval::Cast(shift_operand_exec(a, k, Ghost(bound)), w),
        Eval::CheckedBinary(op, a, b, w) => Eval::CheckedBinary(
            op,
            shift_operand_exec(a, k, Ghost(bound)),
            shift_operand_exec(b, k, Ghost(bound)),
            w,
        ),
    }
}

fn shift_stmt(s: &Stmt, k: usize, Ghost(bound): Ghost<nat>) -> (r: Stmt)
    requires
        stmt_below(*s, bound),
        k + bound <= usize::MAX,
    ensures
        stmt_shifted(r, *s, k),
        stmt_below(r, (k + bound) as nat),
{
    let dest = match s.dest {
        Some(d) => Some(d + k),
        None => None,
    };
    let eval = match s.eval {
        Some(e) => Some(shift_eval_exec(e, k, Ghost(bound))),
        None => None,
    };
    Stmt { dest, uses: shift_ids(&s.uses, k, Ghost(bound)), eval, opaque: s.opaque, span: s.span }
}

/// Shift a spliced block's locals and block ids into the caller's space:
/// locals up by `local_base`, blocks up by `block_base`, and a return
/// becomes a jump to `ret_id`, the caller's continuation.
fn remap_block(
    block: &Block,
    local_base: Local,
    block_base: BlockId,
    ret_id: BlockId,
    Ghost(nb): Ghost<nat>,
    Ghost(nl): Ghost<nat>,
) -> (r: Block)
    requires
        block_wf(*block, nb, nl),
        local_base + nl <= usize::MAX,
        block_base + nb <= ret_id,
    ensures
        block_shifted(r, *block, local_base, block_base, ret_id),
        block_wf(r, (ret_id + 1) as nat, (local_base + nl) as nat),
        spec_is_site(r) == spec_is_site(*block),
{
    let mut stmts: Vec<Stmt> = Vec::new();
    let mut i: usize = 0;
    while i < block.stmts.len()
        invariant
            block_wf(*block, nb, nl),
            local_base + nl <= usize::MAX,
            i <= block.stmts.len(),
            stmts.len() == i,
            forall|j: int| 0 <= j < i ==> stmt_shifted(#[trigger] stmts@[j], block.stmts@[j], local_base),
            forall|j: int| 0 <= j < i ==> stmt_below(#[trigger] stmts@[j], (local_base + nl) as nat),
        decreases block.stmts.len() - i,
    {
        assert(stmt_below(block.stmts@[i as int], nl));
        stmts.push(shift_stmt(&block.stmts[i], local_base, Ghost(nl)));
        i = i + 1;
    }
    let ghost succs = term_succs(block.term.kind);
    assert(forall|j: int| 0 <= j < succs.len() ==> succs[j] < nb);
    let kind = match &block.term.kind {
        TermKind::Goto { target } => {
            assert(succs[0] == *target);
            TermKind::Goto { target: *target + block_base }
        },
        TermKind::Branch { cond, targets, values } => {
            let mut vals: Vec<Option<u128>> = Vec::new();
            let mut j: usize = 0;
            while j < values.len()
                invariant
                    j <= values.len(),
                    vals@ == values@.take(j as int),
                decreases values.len() - j,
            {
                vals.push(values[j]);
                j = j + 1;
            }
            assert(values@.take(values.len() as int) =~= values@);
            TermKind::Branch {
                cond: *cond + local_base,
                targets: shift_ids(targets, block_base, Ghost(nb)),
                values: vals,
            }
        },
        TermKind::Jump { targets } => TermKind::Jump { targets: shift_ids(targets, block_base, Ghost(nb)) },
        TermKind::Call { callee, args, const_args, arg_operands, dest, target } => {
            let mut consts: Vec<Option<u64>> = Vec::new();
            let mut j: usize = 0;
            while j < const_args.len()
                invariant
                    j <= const_args.len(),
                    consts@ == const_args@.take(j as int),
                decreases const_args.len() - j,
            {
                consts.push(const_args[j]);
                j = j + 1;
            }
            assert(const_args@.take(const_args.len() as int) =~= const_args@);
            let t = match target {
                Some(x) => {
                    assert(succs[0] == *x);
                    Some(*x + block_base)
                },
                None => None,
            };
            TermKind::Call {
                callee: copy_callee(callee),
                args: shift_ids(args, local_base, Ghost(nl)),
                const_args: consts,
                arg_operands: shift_operands(arg_operands, local_base, Ghost(nl)),
                dest: match dest {
                    Some(d) => Some(*d + local_base),
                    None => None,
                },
                target: t,
            }
        },
        TermKind::Opaque { uses, dest, target } => {
            let t = match target {
                Some(x) => {
                    assert(succs[0] == *x);
                    Some(*x + block_base)
                },
                None => None,
            };
            TermKind::Opaque {
                uses: shift_ids(uses, local_base, Ghost(nl)),
                dest: match dest {
                    Some(d) => Some(*d + local_base),
                    None => None,
                },
                target: t,
            }
        },
        TermKind::Return => TermKind::Goto { target: ret_id },
        TermKind::Halt => TermKind::Halt,
    };
    let r = Block { stmts, term: Term { kind, span: block.term.span } };
    proof {
        let rs = term_succs(r.term.kind);
        assert forall|j: int| 0 <= j < rs.len() implies rs[j] < ret_id + 1 by {
            match block.term.kind {
                TermKind::Branch { targets, .. } => {
                    assert(succs[j] == targets@[j]);
                },
                TermKind::Jump { targets } => {
                    assert(succs[j] == targets@[j]);
                },
                _ => {},
            }
        }
        assert forall|j: int| 0 <= j < r.stmts.len() implies stmt_below(
            #[trigger] r.stmts@[j],
            (local_base + nl) as nat,
        ) by {}
    }
    r
}

/// `r` copies the callee's return slot `local_base` to `dest`, if any, and
/// jumps to `target`.
pub open spec fn return_block_ok(r: Block, span: usize, local_base: Local, dest: Option<Local>, target: BlockId) -> bool {
    &&& r.term.kind == (TermKind::Goto { target })
    &&& r.term.span == span
    &&& r.stmts.len() == (if dest is Some {
        1int
    } else {
        0int
    })
    &&& dest matches Some(d) ==> {
        &&& r.stmts@[0].dest == Some(d)
        &&& r.stmts@[0].uses@ == seq![local_base]
        &&& r.stmts@[0].eval == Some(Eval::Use(Operand::Local(local_base)))
        &&& !r.stmts@[0].opaque
        &&& r.stmts@[0].span == span
    }
}

/// `dest = <callee return slot>; goto <call successor>`.
fn caller_return_block(body: &FnModel, local_base: Local, dest: Option<Local>, target: BlockId) -> (r: Block)
    ensures
        return_block_ok(r, body.span, local_base, dest, target),
{
    let mut stmts: Vec<Stmt> = Vec::new();
    if let Some(d) = dest {
        let mut uses: Vec<Local> = Vec::new();
        uses.push(local_base);
        stmts.push(
            Stmt {
                dest: Some(d),
                uses,
                eval: Some(Eval::Use(Operand::Local(local_base))),
                opaque: false,
                span: body.span,
            },
        );
    }
    Block { stmts, term: Term { kind: TermKind::Goto { target }, span: body.span } }
}

/// The binding of parameter `i` from the caller's `i`-th argument operand,
/// when it has one.
pub open spec fn bind_of(body: FnModel, local_base: Local, arg_operands: Seq<Option<Operand>>, i: int) -> Option<
    (Local, Operand),
> {
    if i < arg_operands.len() && arg_operands[i] is Some {
        Some(((local_base + 1 + i) as Local, arg_operands[i]->Some_0))
    } else {
        None
    }
}

/// A parameter binding: a plain copy into a local above `local_base`.
pub open spec fn is_bind(s: Stmt, local_base: Local, span: usize) -> bool {
    &&& s.dest is Some
    &&& s.dest->Some_0 > local_base
    &&& s.eval matches Some(e) && e is Use
    &&& !s.opaque
    &&& s.span == span
}

/// The parameters below `k` that the caller's argument operands bind, in
/// order: those whose argument is an operand.
pub open spec fn bound_params(arg_operands: Seq<Option<Operand>>, k: int) -> Seq<int>
    decreases k,
{
    if k <= 0 {
        Seq::empty()
    } else if k - 1 < arg_operands.len() && arg_operands[k - 1] is Some {
        bound_params(arg_operands, k - 1).push(k - 1)
    } else {
        bound_params(arg_operands, k - 1)
    }
}

/// The locals an operand reads.
pub open spec fn operand_uses(o: Operand) -> Seq<Local> {
    match o {
        Operand::Local(l) => seq![l],
        Operand::Const(_) => Seq::empty(),
    }
}

/// `s` binds parameter `i` (local `local_base + 1 + i`) to the operand `o`.
pub open spec fn binds_param(s: Stmt, local_base: Local, i: int, o: Operand, span: usize) -> bool {
    &&& s.dest == Some((local_base + 1 + i) as Local)
    &&& s.uses@ == operand_uses(o)
    &&& s.eval == Some(Eval::Use(o))
    &&& !s.opaque
    &&& s.span == span
}

/// `param_i = <the caller's i-th argument>`, where the argument is simple
/// enough to be an operand. An argument that is not stays unknown, exactly
/// as it would have been across the call.
fn param_binds(
    body: &FnModel,
    local_base: Local,
    arg_operands: &Vec<Option<Operand>>,
    Ghost(nl): Ghost<nat>,
) -> (r: Vec<Stmt>)
    requires
        body.arg_count < body.local_count,
        local_base + body.local_count <= usize::MAX,
        forall|i: int| 0 <= i < arg_operands.len() ==> option_operand_below(#[trigger] arg_operands@[i], nl),
        nl <= local_base,
    ensures
        forall|j: int| 0 <= j < r.len() ==> stmt_below(#[trigger] r@[j], (local_base + body.local_count) as nat),
        forall|j: int| 0 <= j < r.len() ==> is_bind(#[trigger] r@[j], local_base, body.span),
        r.len() == bound_params(arg_operands@, body.arg_count as int).len(),
        forall|j: int|
            0 <= j < r.len() ==> binds_param(
                #[trigger] r@[j],
                local_base,
                bound_params(arg_operands@, body.arg_count as int)[j],
                arg_operands@[bound_params(arg_operands@, body.arg_count as int)[j]]->Some_0,
                body.span,
            ),
{
    let mut out: Vec<Stmt> = Vec::new();
    let mut i: usize = 0;
    while i < body.arg_count
        invariant
            body.arg_count < body.local_count,
            local_base + body.local_count <= usize::MAX,
            forall|k: int| 0 <= k < arg_operands.len() ==> option_operand_below(#[trigger] arg_operands@[k], nl),
            nl <= local_base,
            i <= body.arg_count,
            forall|j: int| 0 <= j < out.len() ==> stmt_below(#[trigger] out@[j], (local_base + body.local_count) as nat),
            forall|j: int| 0 <= j < out.len() ==> is_bind(#[trigger] out@[j], local_base, body.span),
            out.len() == bound_params(arg_operands@, i as int).len(),
            forall|j: int|
                0 <= j < out.len() ==> binds_param(
                    #[trigger] out@[j],
                    local_base,
                    bound_params(arg_operands@, i as int)[j],
                    arg_operands@[bound_params(arg_operands@, i as int)[j]]->Some_0,
                    body.span,
                ),
        decreases body.arg_count - i,
    {
        let ghost before = out@;
        if i < arg_operands.len() {
            if let Some(operand) = arg_operands[i] {
                assert(option_operand_below(arg_operands@[i as int], nl));
                let param = local_base + 1 + i;
                let mut uses: Vec<Local> = Vec::new();
                match operand {
                    Operand::Local(l) => {
                        uses.push(l);
                    },
                    Operand::Const(_) => {},
                }
                out.push(
                    Stmt {
                        dest: Some(param),
                        uses,
                        eval: Some(Eval::Use(operand)),
                        opaque: false,
                        span: body.span,
                    },
                );
                assert(uses@ =~= operand_uses(operand));
            }
        }
        proof {
            let bp = bound_params(arg_operands@, i as int);
            let bq = bound_params(arg_operands@, i + 1);
            assert forall|j: int| 0 <= j < bp.len() implies bq[j] == bp[j] && #[trigger] out@[j] == before[j] by {}
        }
        i = i + 1;
    }
    out
}

fn is_site(block: &Block) -> (r: bool)
    ensures
        r == spec_is_site(*block),
{
    match &block.term.kind {
        TermKind::Call { callee, .. } => match callee.kind {
            CallKind::Barrier | CallKind::WarpCollective { .. } => true,
            _ => false,
        },
        _ => false,
    }
}

fn contains_id(v: &Vec<FnId>, id: FnId) -> (r: bool)
    ensures
        r == v@.contains(id),
{
    let mut i: usize = 0;
    while i < v.len()
        invariant
            i <= v.len(),
            forall|j: int| 0 <= j < i ==> v@[j] != id,
        decreases v.len() - i,
    {
        if v[i] == id {
            return true;
        }
        i = i + 1;
    }
    false
}


/// Every exposed entry names a block of the original caller (below `n0`)
/// and a nonempty list of sites among the blocks spliced in after it,
/// `spliced` holding blocks `n0..`.
pub open spec fn exposed_into(spliced: Seq<Block>, ex: Seq<(BlockId, Vec<BlockId>)>, n0: nat) -> bool {
    forall|i: int|
        0 <= i < ex.len() ==> {
            let e = #[trigger] ex[i];
            &&& e.0 < n0
            &&& e.1.len() > 0
            &&& forall|k: int|
                0 <= k < e.1.len() ==> n0 <= #[trigger] e.1@[k] < n0 + spliced.len() && spec_is_site(
                    spliced[e.1@[k] - n0],
                )
        }
}

/// What a successful splice of `caller` gives: a model that is still
/// [`model_ok`], with the caller's blocks first and the exposed sites among
/// the blocks after them.
pub open spec fn spliced_ok(caller: FnModel, m: FnModel, ex: Seq<(BlockId, Vec<BlockId>)>) -> bool {
    &&& model_ok(m)
    &&& m.arg_count == caller.arg_count
    &&& m.blocks.len() >= caller.blocks.len()
    &&& exposed_into(m.blocks@.skip(caller.blocks.len() as int), ex, caller.blocks.len() as nat)
}

fn names_with_unknown(v: &Vec<Option<String>>, extra: usize) -> (r: Vec<Option<String>>)
    requires
        v.len() + extra <= usize::MAX,
    ensures
        r.len() == v.len() + extra,
        names_view(r@.take(v.len() as int)) == names_view(v@),
        forall|i: int| v.len() <= i < r.len() ==> #[trigger] r@[i] is None,
{
    let mut out: Vec<Option<String>> = Vec::new();
    let mut i: usize = 0;
    while i < v.len()
        invariant
            i <= v.len(),
            names_view(out@) == names_view(v@.take(i as int)),
        decreases v.len() - i,
    {
        let n = match &v[i] {
            Some(s) => Some(s.clone()),
            None => None,
        };
        out.push(n);
        assert(names_view(v@.take(i + 1)) =~= names_view(v@.take(i as int)).push(
            match n {
                Some(s) => Some(s@),
                None => None,
            },
        ));
        assert(names_view(out@) =~= names_view(v@.take(i + 1)));
        i = i + 1;
    }
    assert(v@.take(v.len() as int) =~= v@);
    let ghost front = out@;
    let mut k: usize = 0;
    while k < extra
        invariant
            k <= extra,
            v.len() + extra <= usize::MAX,
            out.len() == v.len() + k,
            out@.take(v.len() as int) == front,
            front.len() == v.len(),
            forall|i: int| v.len() <= i < out.len() ==> #[trigger] out@[i] is None,
        decreases extra - k,
    {
        out.push(None);
        assert(out@.take(v.len() as int) =~= front);
        k = k + 1;
    }
    out
}

fn spans_with_unknown(v: &Vec<Option<usize>>, extra: usize) -> (r: Vec<Option<usize>>)
    requires
        v.len() + extra <= usize::MAX,
    ensures
        r.len() == v.len() + extra,
        r@.take(v.len() as int) == v@,
        forall|i: int| v.len() <= i < r.len() ==> #[trigger] r@[i] is None,
{
    let mut out: Vec<Option<usize>> = Vec::new();
    let mut i: usize = 0;
    while i < v.len()
        invariant
            i <= v.len(),
            out@ == v@.take(i as int),
        decreases v.len() - i,
    {
        out.push(v[i]);
        i = i + 1;
    }
    let mut k: usize = 0;
    while k < extra
        invariant
            k <= extra,
            v.len() + extra <= usize::MAX,
            out.len() == v.len() + k,
            out@.take(v.len() as int) =~= v@,
            forall|j: int| v.len() <= j < out.len() ==> #[trigger] out@[j] is None,
        decreases extra - k,
    {
        out.push(None);
        k = k + 1;
    }
    out
}

/// `front` before the statements of `b`.
fn prepend_stmts(front: Vec<Stmt>, b: Block) -> (r: Block)
    ensures
        r.stmts@ == front@ + b.stmts@,
        r.term == b.term,
{
    let Block { stmts, term } = b;
    let mut all = front;
    let mut rest = stmts;
    all.append(&mut rest);
    Block { stmts: all, term }
}


proof fn lemma_prepend_wf(front: Seq<Stmt>, b: Block, r: Block, nb: nat, nl: nat)
    requires
        r.stmts@ == front + b.stmts@,
        r.term == b.term,
        block_wf(b, nb, nl),
        forall|j: int| 0 <= j < front.len() ==> stmt_below(#[trigger] front[j], nl),
    ensures
        block_wf(r, nb, nl),
{
    assert forall|j: int| 0 <= j < r.stmts.len() implies stmt_below(#[trigger] r.stmts@[j], nl) by {
        if j < front.len() {
            assert(r.stmts@[j] == front[j]);
        } else {
            assert(r.stmts@[j] == b.stmts@[j - front.len()]);
        }
    }
}

proof fn lemma_exposed_push(spliced: Seq<Block>, ex: Seq<(BlockId, Vec<BlockId>)>, n0: nat, x: Block)
    requires
        exposed_into(spliced, ex, n0),
    ensures
        exposed_into(spliced.push(x), ex, n0),
{
    assert forall|i: int| 0 <= i < ex.len() implies {
        let e = #[trigger] ex[i];
        &&& e.0 < n0
        &&& e.1.len() > 0
        &&& forall|k: int|
            0 <= k < e.1.len() ==> n0 <= #[trigger] e.1@[k] < n0 + spliced.push(x).len() && spec_is_site(
                spliced.push(x)[e.1@[k] - n0],
            )
    } by {
        let e = ex[i];
        assert forall|k: int| 0 <= k < e.1.len() implies n0 <= #[trigger] e.1@[k] < n0 + spliced.push(x).len()
            && spec_is_site(spliced.push(x)[e.1@[k] - n0]) by {
            assert(spliced.push(x)[e.1@[k] - n0] == spliced[e.1@[k] - n0]);
        }
    }
}

/// Some block of `bs` is a barrier or collective site.
pub open spec fn any_site(bs: Seq<Block>) -> bool {
    exists|i: int| 0 <= i < bs.len() && #[trigger] spec_is_site(bs[i])
}

/// The local callee the call ending `blk` is replaced by, if `splice`
/// inlines it: an ordinary call with a successor, to a modeled function of
/// the set that is not already being inlined.
pub open spec fn inlinable(fns: Seq<FnModel>, blk: Block, active: Seq<FnId>) -> Option<FnId> {
    match blk.term.kind {
        TermKind::Call { callee, target, .. } => match callee.local_fn {
            Some(id) => if target is Some && callee.kind is Other && id < fns.len() && !active.contains(id) {
                Some(id)
            } else {
                None
            },
            None => None,
        },
        _ => None,
    }
}

/// What splicing `caller` to `depth` frames gives, summarized: `None` when
/// a bound is hit (too many blocks or locals); otherwise the number of
/// blocks and locals of the result, whether the result holds a barrier or
/// collective block, and whether an inlined callee brought one in (an
/// exposed site).
pub open spec fn splice_summary(fns: Seq<FnModel>, caller: FnModel, depth: nat, active: Seq<FnId>) -> Option<
    (nat, nat, bool, bool),
>
    decreases depth, 1nat, 0int,
{
    if depth == 0 {
        Some((caller.blocks.len() as nat, caller.local_count as nat, any_site(caller.blocks@), false))
    } else {
        match splice_scan(fns, caller, depth, active, caller.blocks.len() as int) {
            Some(x) => Some(((caller.blocks.len() + x.0) as nat, x.1, x.2, x.3)),
            None => None,
        }
    }
}

/// The splice of `caller`'s first `b` blocks: `None` when a bound is hit,
/// otherwise the number of blocks appended after the caller's own, the
/// local count, whether a site is among the blocks so far, and whether a
/// site was exposed.
pub open spec fn splice_scan(fns: Seq<FnModel>, caller: FnModel, depth: nat, active: Seq<FnId>, b: int) -> Option<
    (nat, nat, bool, bool),
>
    decreases depth, 0nat, b,
{
    if b <= 0 || depth == 0 {
        Some((0nat, caller.local_count as nat, false, false))
    } else {
        match splice_scan(fns, caller, depth, active, b - 1) {
            None => None,
            Some(x) => {
                let blk = caller.blocks[b - 1];
                match inlinable(fns, blk, active) {
                    None => Some((x.0, x.1, x.2 || spec_is_site(blk), x.3)),
                    Some(id) => match splice_summary(fns, fns[id as int], (depth - 1) as nat, active.push(id)) {
                        None => None,
                        Some(y) => if caller.blocks.len() + x.0 + y.0 > MAX_BLOCKS || x.1 + y.1 > usize::MAX {
                            None
                        } else {
                            Some(((x.0 + y.0 + 1) as nat, (x.1 + y.1) as nat, x.2 || y.2, x.3 || y.2))
                        },
                    },
                }
            },
        }
    }
}

proof fn lemma_scan_none_stays(fns: Seq<FnModel>, caller: FnModel, depth: nat, active: Seq<FnId>, b: int, k: int)
    requires
        b <= k,
        splice_scan(fns, caller, depth, active, b) is None,
    ensures
        splice_scan(fns, caller, depth, active, k) is None,
    decreases k - b,
{
    if b < k {
        lemma_scan_none_stays(fns, caller, depth, active, b, k - 1);
    }
}

proof fn lemma_any_site_push(bs: Seq<Block>, x: Block)
    ensures
        any_site(bs.push(x)) == (any_site(bs) || spec_is_site(x)),
{
    if any_site(bs) {
        let i = choose|i: int| 0 <= i < bs.len() && #[trigger] spec_is_site(bs[i]);
        assert(bs.push(x)[i] == bs[i]);
    }
    if spec_is_site(x) {
        assert(bs.push(x)[bs.len() as int] == x);
    }
    if any_site(bs.push(x)) {
        let i = choose|i: int| 0 <= i < bs.push(x).len() && #[trigger] spec_is_site(bs.push(x)[i]);
        if i < bs.len() {
            assert(bs.push(x)[i] == bs[i]);
        }
    }
}

proof fn lemma_any_site_concat(a: Seq<Block>, b: Seq<Block>)
    ensures
        any_site(a + b) == (any_site(a) || any_site(b)),
{
    if any_site(a) {
        let i = choose|i: int| 0 <= i < a.len() && #[trigger] spec_is_site(a[i]);
        assert((a + b)[i] == a[i]);
    }
    if any_site(b) {
        let i = choose|i: int| 0 <= i < b.len() && #[trigger] spec_is_site(b[i]);
        assert((a + b)[a.len() + i] == b[i]);
    }
    if any_site(a + b) {
        let i = choose|i: int| 0 <= i < (a + b).len() && #[trigger] spec_is_site((a + b)[i]);
        if i < a.len() {
            assert((a + b)[i] == a[i]);
        } else {
            assert((a + b)[i] == b[i - a.len()]);
        }
    }
}

proof fn lemma_any_site_take(bs: Seq<Block>, i: int)
    requires
        0 <= i < bs.len(),
    ensures
        any_site(bs.take(i + 1)) == (any_site(bs.take(i)) || spec_is_site(bs[i])),
{
    assert(bs.take(i + 1) =~= bs.take(i).push(bs[i]));
    lemma_any_site_push(bs.take(i), bs[i]);
}

proof fn lemma_same_site(a: Block, b: Block)
    requires
        block_same(a, b),
    ensures
        spec_is_site(a) == spec_is_site(b),
{
}

/// Ids of the barrier and collective blocks among the first `n` of `bs`,
/// in order, moved up by `base`.
pub open spec fn site_ids(bs: Seq<Block>, n: int, base: usize) -> Seq<BlockId>
    decreases n,
{
    if n <= 0 {
        Seq::empty()
    } else if spec_is_site(bs[n - 1]) {
        site_ids(bs, n - 1, base).push((base + n - 1) as usize)
    } else {
        site_ids(bs, n - 1, base)
    }
}

/// The site lists of the first `n` entries of `ex`, one after another,
/// moved up by `base`.
pub open spec fn nested_ids(ex: Seq<(BlockId, Vec<BlockId>)>, n: int, base: usize) -> Seq<BlockId>
    decreases n,
{
    if n <= 0 {
        Seq::empty()
    } else {
        nested_ids(ex, n - 1, base) + shift_all(ex[n - 1].1@, base)
    }
}

/// The sites a copy of `body` placed at `base` exposes: the copy's own
/// barrier and collective blocks in order, then again the sites that the
/// splicing of `body` exposed (`nested`).
pub open spec fn copy_sites(body: FnModel, nested: Seq<(BlockId, Vec<BlockId>)>, base: usize) -> Seq<BlockId> {
    site_ids(body.blocks@, body.blocks.len() as int, base) + nested_ids(nested, nested.len() as int, base)
}

/// `e` is the entry block of a copy of `body`: the bindings of the
/// parameters that the call's argument operands `args` give, then the
/// statements and terminator of `body`'s block 0 moved in (locals up by
/// `lb`, blocks up by `base`, a return jumping to `ret`).
pub open spec fn entry_spliced(e: Block, body: FnModel, lb: usize, args: Seq<Option<Operand>>, base: usize, ret: usize) -> bool {
    let bp = bound_params(args, body.arg_count as int);
    let b0 = body.blocks@[0];
    &&& e.stmts.len() == bp.len() + b0.stmts.len()
    &&& forall|j: int| 0 <= j < bp.len() ==> binds_param(e.stmts@[j], lb, #[trigger] bp[j], args[bp[j]]->Some_0, body.span)
    &&& forall|j: int| 0 <= j < b0.stmts.len() ==> stmt_shifted(e.stmts@[bp.len() + j], #[trigger] b0.stmts@[j], lb)
    &&& term_shifted(e.term.kind, b0.term.kind, lb, base, ret)
    &&& e.term.span == b0.term.span
}

/// `post`, the blocks after the caller's `n0` own, holds from position `o`
/// a copy of `body` for the call that ends `blk`: its locals moved up by
/// `lb` and its blocks by `n0 + o`, the parameter bindings at its entry,
/// and right after it the block that hands the callee's return slot to
/// the call's destination and jumps to the call's successor.
pub open spec fn copy_at(post: Seq<Block>, o: int, n0: int, blk: Block, lb: usize, body: FnModel) -> bool {
    let nbody = body.blocks.len() as int;
    let base = (n0 + o) as usize;
    let ret = (n0 + o + nbody) as usize;
    match blk.term.kind {
        TermKind::Call { arg_operands, dest, target, .. } => {
            &&& 0 <= o
            &&& 0 < nbody
            &&& o + nbody < post.len()
            &&& target is Some
            &&& entry_spliced(post[o], body, lb, arg_operands@, base, ret)
            &&& forall|j: int| 1 <= j < nbody ==> block_shifted(post[o + j], #[trigger] body.blocks@[j], lb, base, ret)
            &&& return_block_ok(post[o + nbody], body.span, lb, dest, target->Some_0)
        },
        _ => false,
    }
}

/// `r` is caller block `blk` with its call replaced by a jump to `base`.
pub open spec fn call_replaced(r: Block, blk: Block, base: usize) -> bool {
    &&& r.term.kind == (TermKind::Goto { target: base })
    &&& r.term.span == blk.term.span
    &&& r.stmts.len() == blk.stmts.len()
    &&& forall|i: int| 0 <= i < blk.stmts.len() ==> stmt_same(#[trigger] r.stmts@[i], blk.stmts@[i])
}

/// What splicing made of `caller`'s block `b`, `pre` holding the result's
/// first blocks and `post` those after them: the block itself when its
/// call is not inlined; otherwise a jump to a copy of the spliced callee
/// `ws[b].0`, placed after the copies for the earlier blocks.
pub open spec fn block_spliced(
    fns: Seq<FnModel>,
    caller: FnModel,
    depth: nat,
    active: Seq<FnId>,
    pre: Seq<Block>,
    post: Seq<Block>,
    ws: Seq<(FnModel, Seq<(BlockId, Vec<BlockId>)>)>,
    b: int,
) -> bool {
    let blk = caller.blocks@[b];
    match inlinable(fns, blk, active) {
        None => block_same(pre[b], blk),
        Some(_) => {
            let x = splice_scan(fns, caller, depth, active, b)->Some_0;
            &&& call_replaced(pre[b], blk, (caller.blocks.len() + x.0) as usize)
            &&& copy_at(post, x.0 as int, caller.blocks.len() as int, blk, x.1 as usize, ws[b].0)
        }
    }
}

/// Exposed entries without their vectors.
pub open spec fn exposed_view(ex: Seq<(BlockId, Vec<BlockId>)>) -> Seq<(BlockId, Seq<BlockId>)> {
    ex.map_values(|e: (BlockId, Vec<BlockId>)| (e.0, e.1@))
}

/// The exposed entries of `caller`'s first `b` blocks, in block order: for
/// each inlined call whose copy exposes sites, the call's block and those
/// sites.
pub open spec fn exposed_list(
    fns: Seq<FnModel>,
    caller: FnModel,
    depth: nat,
    active: Seq<FnId>,
    ws: Seq<(FnModel, Seq<(BlockId, Vec<BlockId>)>)>,
    b: int,
) -> Seq<(BlockId, Seq<BlockId>)>
    decreases b,
{
    if b <= 0 {
        Seq::empty()
    } else {
        let prev = exposed_list(fns, caller, depth, active, ws, b - 1);
        match inlinable(fns, caller.blocks@[b - 1], active) {
            None => prev,
            Some(_) => {
                let base = (caller.blocks.len() + splice_scan(fns, caller, depth, active, b - 1)->Some_0.0) as usize;
                let s = copy_sites(ws[b - 1].0, ws[b - 1].1, base);
                if s.len() > 0 {
                    prev.push(((b - 1) as usize, s))
                } else {
                    prev
                }
            },
        }
    }
}

/// One level of splicing, with `ws[b]` the spliced callee (and what its
/// splicing exposed) for each inlined block `b`.
pub open spec fn level_spliced(
    fns: Seq<FnModel>,
    caller: FnModel,
    depth: nat,
    active: Seq<FnId>,
    pre: Seq<Block>,
    post: Seq<Block>,
    ex: Seq<(BlockId, Vec<BlockId>)>,
    ws: Seq<(FnModel, Seq<(BlockId, Vec<BlockId>)>)>,
) -> bool {
    &&& ws.len() == caller.blocks.len()
    &&& pre.len() == caller.blocks.len()
    &&& forall|b: int| 0 <= b < caller.blocks.len() ==> #[trigger] block_spliced(fns, caller, depth, active, pre, post, ws, b)
    &&& exposed_view(ex) == exposed_list(fns, caller, depth, active, ws, caller.blocks.len() as int)
}

/// `m` keeps `caller`'s name, path, span, launch declarations and locals,
/// the locals added after them unnamed and without a declaration site.
pub open spec fn header_kept(caller: FnModel, m: FnModel) -> bool {
    let n = caller.local_count as int;
    &&& m.name@ == caller.name@
    &&& m.item_path@ == caller.item_path@
    &&& m.span == caller.span
    &&& m.declared_block == caller.declared_block
    &&& m.declared_cluster == caller.declared_cluster
    &&& caller.local_count <= m.local_count
    &&& names_view(m.local_names@.take(n)) == names_view(caller.local_names@)
    &&& m.local_spans@.take(n) == caller.local_spans@
    &&& forall|l: int| n <= l < m.local_count ==> #[trigger] m.local_names@[l] is None && m.local_spans@[l] is None
}

/// `m` and `ex` are what splicing `caller` to `depth` frames gives, the
/// functions in `active` not inlined again: the caller's blocks first, in
/// place, except that each inlinable call becomes a jump to a copy of its
/// callee (itself spliced one frame less deep) appended after them in block
/// order; `ex` lists, for each inlined call whose copy holds barrier or
/// collective blocks, the call's block and those sites.
pub open spec fn spliced(
    fns: Seq<FnModel>,
    caller: FnModel,
    depth: nat,
    active: Seq<FnId>,
    m: FnModel,
    ex: Seq<(BlockId, Vec<BlockId>)>,
) -> bool
    decreases depth,
{
    let n0 = caller.blocks.len() as int;
    &&& model_ok(m)
    &&& m.arg_count == caller.arg_count
    &&& header_kept(caller, m)
    &&& n0 <= m.blocks.len()
    &&& splice_summary(fns, caller, depth, active) == Some(
        (m.blocks.len() as nat, m.local_count as nat, any_site(m.blocks@), ex.len() > 0),
    )
    &&& if depth == 0 {
        &&& ex.len() == 0
        &&& forall|b: int| 0 <= b < n0 ==> block_same(#[trigger] m.blocks@[b], caller.blocks@[b])
    } else {
        exists|ws: Seq<(FnModel, Seq<(BlockId, Vec<BlockId>)>)>|
            {
                &&& #[trigger] level_spliced(fns, caller, depth, active, m.blocks@.take(n0), m.blocks@.skip(n0), ex, ws)
                &&& forall|b: int|
                    0 <= b < n0 ==> (inlinable(fns, caller.blocks@[b], active) matches Some(id) ==> spliced(
                        fns,
                        fns[id as int],
                        (depth - 1) as nat,
                        active.push(id),
                        #[trigger] ws[b].0,
                        ws[b].1,
                    ))
            }
    }
}

proof fn lemma_copy_at_grow(post: Seq<Block>, post2: Seq<Block>, o: int, n0: int, blk: Block, lb: usize, body: FnModel)
    requires
        copy_at(post, o, n0, blk, lb, body),
        post.len() <= post2.len(),
        post2.take(post.len() as int) == post,
    ensures
        copy_at(post2, o, n0, blk, lb, body),
{
    let nbody = body.blocks.len() as int;
    assert forall|k: int| 0 <= k < post.len() implies post2[k] == post[k] by {
        assert(post2.take(post.len() as int)[k] == post2[k]);
    }
    assert(post2[o] == post[o]);
    assert(post2[o + nbody] == post[o + nbody]);
    assert forall|j: int| 1 <= j < nbody implies block_shifted(post2[o + j], #[trigger] body.blocks@[j], lb, (n0 + o) as usize, (n0 + o + nbody) as usize) by {
        assert(post2[o + j] == post[o + j]);
    }
}

proof fn lemma_block_spliced_grow(
    fns: Seq<FnModel>,
    caller: FnModel,
    depth: nat,
    active: Seq<FnId>,
    pre: Seq<Block>,
    post: Seq<Block>,
    ws: Seq<(FnModel, Seq<(BlockId, Vec<BlockId>)>)>,
    pre2: Seq<Block>,
    post2: Seq<Block>,
    ws2: Seq<(FnModel, Seq<(BlockId, Vec<BlockId>)>)>,
    b: int,
)
    requires
        block_spliced(fns, caller, depth, active, pre, post, ws, b),
        pre2[b] == pre[b],
        ws2[b] == ws[b],
        post.len() <= post2.len(),
        post2.take(post.len() as int) == post,
    ensures
        block_spliced(fns, caller, depth, active, pre2, post2, ws2, b),
{
    let blk = caller.blocks@[b];
    if inlinable(fns, blk, active) is Some {
        let x = splice_scan(fns, caller, depth, active, b)->Some_0;
        lemma_copy_at_grow(post, post2, x.0 as int, caller.blocks.len() as int, blk, x.1 as usize, ws[b].0);
    }
}

proof fn lemma_exposed_list_ws(
    fns: Seq<FnModel>,
    caller: FnModel,
    depth: nat,
    active: Seq<FnId>,
    ws: Seq<(FnModel, Seq<(BlockId, Vec<BlockId>)>)>,
    ws2: Seq<(FnModel, Seq<(BlockId, Vec<BlockId>)>)>,
    b: int,
)
    requires
        forall|j: int| 0 <= j < b ==> ws2[j] == ws[j],
    ensures
        exposed_list(fns, caller, depth, active, ws2, b) == exposed_list(fns, caller, depth, active, ws, b),
    decreases b,
{
    if b > 0 {
        lemma_exposed_list_ws(fns, caller, depth, active, ws, ws2, b - 1);
        assert(ws2[b - 1] == ws[b - 1]);
    }
}


/// The call kind a block ends in, if it ends in a call.
pub open spec fn call_kind_of(b: Block) -> Option<CallKind> {
    match b.term.kind {
        TermKind::Call { callee, .. } => Some(callee.kind),
        _ => None,
    }
}

proof fn lemma_site_ids_has(bs: Seq<Block>, n: int, base: usize, j: int)
    requires
        0 <= j < n <= bs.len(),
        spec_is_site(bs[j]),
    ensures
        site_ids(bs, n, base).contains((base + j) as usize),
    decreases n,
{
    if j == n - 1 {
        let s = site_ids(bs, n, base);
        assert(s[s.len() - 1] == (base + n - 1) as usize);
    } else {
        lemma_site_ids_has(bs, n - 1, base, j);
        let p = site_ids(bs, n - 1, base);
        let k = choose|k: int| 0 <= k < p.len() && p[k] == (base + j) as usize;
        if spec_is_site(bs[n - 1]) {
            assert(site_ids(bs, n, base)[k] == p[k]);
        }
    }
}

proof fn lemma_exposed_list_has(
    fns: Seq<FnModel>,
    caller: FnModel,
    depth: nat,
    active: Seq<FnId>,
    ws: Seq<(FnModel, Seq<(BlockId, Vec<BlockId>)>)>,
    n: int,
    b: int,
)
    requires
        0 <= b < n,
        inlinable(fns, caller.blocks@[b], active) is Some,
        copy_sites(
            ws[b].0,
            ws[b].1,
            (caller.blocks.len() + splice_scan(fns, caller, depth, active, b)->Some_0.0) as usize,
        ).len() > 0,
    ensures
        exists|i: int|
            0 <= i < exposed_list(fns, caller, depth, active, ws, n).len() && #[trigger] exposed_list(
                fns,
                caller,
                depth,
                active,
                ws,
                n,
            )[i] == (b as usize, copy_sites(
                ws[b].0,
                ws[b].1,
                (caller.blocks.len() + splice_scan(fns, caller, depth, active, b)->Some_0.0) as usize,
            )),
    decreases n,
{
    let l = exposed_list(fns, caller, depth, active, ws, n);
    if b == n - 1 {
        assert(l[l.len() - 1] == (b as usize, copy_sites(
            ws[b].0,
            ws[b].1,
            (caller.blocks.len() + splice_scan(fns, caller, depth, active, b)->Some_0.0) as usize,
        )));
    } else {
        lemma_exposed_list_has(fns, caller, depth, active, ws, n - 1, b);
        let p = exposed_list(fns, caller, depth, active, ws, n - 1);
        let i = choose|i: int| 0 <= i < p.len() && #[trigger] p[i] == (b as usize, copy_sites(
            ws[b].0,
            ws[b].1,
            (caller.blocks.len() + splice_scan(fns, caller, depth, active, b)->Some_0.0) as usize,
        ));
        assert(l[i] == p[i]);
    }
}

/// A block of a spliced callee is the callee's own block, when that block
/// ends in a barrier or a collective (no call of that kind is inlined).
proof fn lemma_callee_site_kept(
    fns: Seq<FnModel>,
    g: FnModel,
    depth: nat,
    active: Seq<FnId>,
    body: FnModel,
    nested: Seq<(BlockId, Vec<BlockId>)>,
    j: int,
)
    requires
        spliced(fns, g, depth, active, body, nested),
        0 <= j < g.blocks.len(),
        call_kind_of(g.blocks@[j]) matches Some(k) && (k == CallKind::Barrier || k is WarpCollective),
    ensures
        j < body.blocks.len(),
        call_kind_of(body.blocks@[j]) == call_kind_of(g.blocks@[j]),
{
    let n = g.blocks.len() as int;
    if depth == 0 {
        assert(block_same(body.blocks@[j], g.blocks@[j]));
    } else {
        let ws = choose|ws: Seq<(FnModel, Seq<(BlockId, Vec<BlockId>)>)>|
            #[trigger] level_spliced(fns, g, depth, active, body.blocks@.take(n), body.blocks@.skip(n), nested, ws)
                && forall|b: int|
                0 <= b < n ==> (inlinable(fns, g.blocks@[b], active) matches Some(id) ==> spliced(
                    fns,
                    fns[id as int],
                    (depth - 1) as nat,
                    active.push(id),
                    #[trigger] ws[b].0,
                    ws[b].1,
                ));
        assert(block_spliced(fns, g, depth, active, body.blocks@.take(n), body.blocks@.skip(n), ws, j));
        assert(inlinable(fns, g.blocks@[j], active) is None);
        assert(body.blocks@.take(n)[j] == body.blocks@[j]);
        assert(block_same(body.blocks@[j], g.blocks@[j]));
    }
}

/// Inlining exposes every barrier and collective of a helper: when the
/// call ending caller block `b` is inlined, it becomes a jump to the copy
/// of its callee, and the copy of each of the callee's blocks that ends in
/// a barrier or a warp-collective call ends in a call of the same kind and
/// is among the sites exposed for `b`.
pub proof fn inlined_helper_sites_are_exposed(
    fns: Seq<FnModel>,
    f: FnModel,
    depth: nat,
    active: Seq<FnId>,
    m: FnModel,
    ex: Seq<(BlockId, Vec<BlockId>)>,
    b: int,
    j: int,
)
    requires
        spliced(fns, f, depth, active, m, ex),
        depth > 0,
        0 <= b < f.blocks.len(),
        inlinable(fns, f.blocks@[b], active) matches Some(id) && (0 <= j < fns[id as int].blocks.len() && (call_kind_of(
            fns[id as int].blocks@[j],
        ) matches Some(k) && (k == CallKind::Barrier || k is WarpCollective))),
    ensures
        m.blocks@[b].term.kind matches TermKind::Goto { target } && target + j < m.blocks.len()
            && call_kind_of(m.blocks@[target + j]) == call_kind_of(
            fns[inlinable(fns, f.blocks@[b], active)->Some_0 as int].blocks@[j],
        ) && exists|i: int| 0 <= i < ex.len() && ex[i].0 == b && (#[trigger] ex[i].1)@.contains((target + j) as usize),
{
    let n0 = f.blocks.len() as int;
    let id = inlinable(fns, f.blocks@[b], active)->Some_0;
    let pre = m.blocks@.take(n0);
    let post = m.blocks@.skip(n0);
    let ws = choose|ws: Seq<(FnModel, Seq<(BlockId, Vec<BlockId>)>)>|
        #[trigger] level_spliced(fns, f, depth, active, pre, post, ex, ws) && forall|b2: int|
            0 <= b2 < n0 ==> (inlinable(fns, f.blocks@[b2], active) matches Some(id2) ==> spliced(
                fns,
                fns[id2 as int],
                (depth - 1) as nat,
                active.push(id2),
                #[trigger] ws[b2].0,
                ws[b2].1,
            ));
    assert(block_spliced(fns, f, depth, active, pre, post, ws, b));
    let x = splice_scan(fns, f, depth, active, b)->Some_0;
    let base = (n0 + x.0) as usize;
    let body = ws[b].0;
    let nested = ws[b].1;
    assert(pre[b] == m.blocks@[b]);
    assert(call_replaced(m.blocks@[b], f.blocks@[b], base));
    assert(copy_at(post, x.0 as int, n0, f.blocks@[b], x.1 as usize, body));
    assert(spliced(fns, fns[id as int], (depth - 1) as nat, active.push(id), body, nested));
    lemma_callee_site_kept(fns, fns[id as int], (depth - 1) as nat, active.push(id), body, nested, j);
    let nbody = body.blocks.len() as int;
    let ret = (n0 + x.0 + nbody) as usize;
    assert(post[x.0 + j] == m.blocks@[base + j]);
    if j == 0 {
        assert(entry_spliced(post[x.0 as int], body, x.1 as usize, f.blocks@[b].term.kind->Call_arg_operands@, base, ret));
    } else {
        assert(block_shifted(post[x.0 + j], body.blocks@[j], x.1 as usize, base, ret));
    }
    assert(call_kind_of(m.blocks@[base + j]) == call_kind_of(body.blocks@[j]));
    assert(spec_is_site(body.blocks@[j]));
    lemma_site_ids_has(body.blocks@, nbody, base, j);
    let cs = copy_sites(body, nested, base);
    assert(cs.contains((base + j) as usize)) by {
        let k = choose|k: int|
            0 <= k < site_ids(body.blocks@, nbody, base).len() && site_ids(body.blocks@, nbody, base)[k] == (base
                + j) as usize;
        assert(cs[k] == site_ids(body.blocks@, nbody, base)[k]);
    }
    lemma_exposed_list_has(fns, f, depth, active, ws, n0, b);
    let el = exposed_list(fns, f, depth, active, ws, n0);
    let i = choose|i: int| 0 <= i < el.len() && #[trigger] el[i] == (b as usize, cs);
    assert(exposed_view(ex)[i] == (ex[i].0, ex[i].1@));
    assert(ex[i].1@ == cs);
}

/// Every site that inlining exposes ends in a barrier or a warp-collective
/// call: nothing else is offered for replay.
pub proof fn exposed_sites_are_barriers_or_collectives(blocks: Seq<Block>, ex: Seq<(BlockId, Vec<BlockId>)>, n0: nat)
    requires
        exposed_into(blocks.skip(n0 as int), ex, n0),
        n0 <= blocks.len(),
    ensures
        forall|i: int, k: int|
            0 <= i < ex.len() && 0 <= k < ex[i].1.len() ==> (call_kind_of(blocks[(#[trigger] ex[i].1@[k]) as int]) matches Some(
                c,
            ) && (c == CallKind::Barrier || c is WarpCollective)),
{
    assert forall|i: int, k: int| 0 <= i < ex.len() && 0 <= k < ex[i].1.len() implies (call_kind_of(
        blocks[(#[trigger] ex[i].1@[k]) as int],
    ) matches Some(c) && (c == CallKind::Barrier || c is WarpCollective)) by {
        let e = ex[i];
        assert(n0 <= e.1@[k] < n0 + blocks.skip(n0 as int).len());
        assert(spec_is_site(blocks.skip(n0 as int)[e.1@[k] - n0]));
        assert(blocks.skip(n0 as int)[e.1@[k] - n0] == blocks[e.1@[k] as int]);
    }
}

/// Splice one level of calls in `caller`, recursing into each callee.
/// `None` when a bound is hit and the result must be discarded.
#[verifier::spinoff_prover]
#[verifier::rlimit(80)]
fn splice(fns: &[FnModel], caller: &FnModel, depth: u32, active: &mut Vec<FnId>) -> (r: Option<
    (FnModel, Vec<(BlockId, Vec<BlockId>)>),
>)
    requires
        models_ok(fns@),
        model_ok(*caller),
    ensures
        final(active)@ == old(active)@,
        r is Some ==> spliced_ok(*caller, r->Some_0.0, r->Some_0.1@),
        depth == 0 ==> r is Some && r->Some_0.1@.len() == 0,
        r is None <==> splice_summary(fns@, *caller, depth as nat, old(active)@) is None,
        r matches Some(x) ==> splice_summary(fns@, *caller, depth as nat, old(active)@) == Some(
            (x.0.blocks.len() as nat, x.0.local_count as nat, any_site(x.0.blocks@), x.1.len() > 0),
        ),
        r matches Some(x) ==> spliced(fns@, *caller, depth as nat, old(active)@, x.0, x.1@),
    decreases depth,
{
    let n0 = caller.blocks.len();
    if depth == 0 {
        let m = crate::model::copy_fn_model(caller);
        proof {
            assert forall|x: int| 0 <= x < m.blocks.len() implies block_wf(
                #[trigger] m.blocks@[x],
                m.blocks.len() as nat,
                m.local_count as nat,
            ) by {
                assert(block_same(m.blocks@[x], caller.blocks@[x]));
                lemma_block_same_wf(m.blocks@[x], caller.blocks@[x], n0 as nat, caller.local_count as nat);
            }
            assert(m.local_names.len() == names_view(m.local_names@).len());
            assert(caller.local_names.len() == names_view(caller.local_names@).len());
            assert(m.local_names@.take(caller.local_count as int) =~= m.local_names@);
            assert(m.local_spans@.take(caller.local_count as int) =~= m.local_spans@);
            assert(header_kept(*caller, m));
            let ex: Seq<(BlockId, Vec<BlockId>)> = Seq::empty();
            assert(exposed_into(m.blocks@.skip(n0 as int), ex, n0 as nat));
            assert(any_site(m.blocks@) == any_site(caller.blocks@)) by {
                if any_site(m.blocks@) {
                    let x = choose|x: int| 0 <= x < m.blocks.len() && #[trigger] spec_is_site(m.blocks@[x]);
                    lemma_same_site(m.blocks@[x], caller.blocks@[x]);
                }
                if any_site(caller.blocks@) {
                    let x = choose|x: int| 0 <= x < caller.blocks.len() && #[trigger] spec_is_site(caller.blocks@[x]);
                    assert(block_same(m.blocks@[x], caller.blocks@[x]));
                    lemma_same_site(m.blocks@[x], caller.blocks@[x]);
                }
            }
        }
        let ex: Vec<(BlockId, Vec<BlockId>)> = Vec::new();
        assert(ex@.len() == 0);
        return Some((m, ex));
    }
    let ghost a0 = active@;
    let mut prefix: Vec<Block> = Vec::new();
    let mut suffix: Vec<Block> = Vec::new();
    let mut local_count: usize = caller.local_count;
    let mut exposed: Vec<(BlockId, Vec<BlockId>)> = Vec::new();
    let ghost mut ws: Seq<(FnModel, Seq<(BlockId, Vec<BlockId>)>)> = Seq::empty();
    let mut b: usize = 0;
    while b < n0
        invariant
            ws.len() == b,
            forall|j: int| 0 <= j < b ==> #[trigger] block_spliced(fns@, *caller, depth as nat, a0, prefix@, suffix@, ws, j),
            forall|j: int|
                0 <= j < b ==> (inlinable(fns@, caller.blocks@[j], a0) matches Some(id) ==> spliced(
                    fns@,
                    fns@[id as int],
                    (depth - 1) as nat,
                    a0.push(id),
                    #[trigger] ws[j].0,
                    ws[j].1,
                )),
            exposed_view(exposed@) == exposed_list(fns@, *caller, depth as nat, a0, ws, b as int),
            models_ok(fns@),
            model_ok(*caller),
            n0 == caller.blocks.len(),
            depth > 0,
            b <= n0,
            active@ == a0,
            a0 == old(active)@,
            prefix.len() == b,
            splice_scan(fns@, *caller, depth as nat, a0, b as int) == Some(
                (
                    suffix.len() as nat,
                    local_count as nat,
                    any_site(prefix@) || any_site(suffix@),
                    exposed.len() > 0,
                ),
            ),
            suffix.len() == 0 || n0 + suffix.len() <= MAX_BLOCKS + 1,
            caller.local_count <= local_count,
            forall|j: int|
                0 <= j < prefix.len() ==> block_wf(
                    #[trigger] prefix@[j],
                    (n0 + suffix.len()) as nat,
                    local_count as nat,
                ),
            forall|j: int|
                0 <= j < suffix.len() ==> block_wf(
                    #[trigger] suffix@[j],
                    (n0 + suffix.len()) as nat,
                    local_count as nat,
                ),
            exposed_into(suffix@, exposed@, n0 as nat),
        decreases n0 - b,
    {
        let blk = &caller.blocks[b];
        proof {
            assert(block_wf(caller.blocks@[b as int], n0 as nat, caller.local_count as nat));
        }
        let ghost pre0 = prefix@;
        let ghost post0 = suffix@;
        let ghost ws0 = ws;
        let ghost exv0 = exposed@;
        let ghost lc0 = local_count;
        let ghost ex0 = exposed.len() > 0;
        let ghost inl = inlinable(fns@, caller.blocks@[b as int], a0);
        let mut did = false;
        if let TermKind::Call { callee, arg_operands, dest, target: Some(target), .. } = &blk.term.kind {
            let plain = match callee.kind {
                CallKind::Other => true,
                _ => false,
            };
            if let Some(id) = callee.local_fn {
                if plain && id < fns.len() && !contains_id(active, id) {
                    assert(inl == Some(id));
                    active.push(id);
                    proof {
                        assert(model_ok(fns@[id as int]));
                    }
                    let res = splice(fns, &fns[id], depth - 1, active);
                    active.pop();
                    assert(active@ =~= a0);
                    let (body, nested) = match res {
                        Some(x) => x,
                        None => {
                            proof {
                                lemma_scan_none_stays(fns@, *caller, depth as nat, a0, b + 1, n0 as int);
                            }
                            return None;
                        },
                    };
                    let base = n0 + suffix.len();
                    let nbody = body.blocks.len();
                    if base > MAX_BLOCKS || nbody > MAX_BLOCKS - base {
                        proof {
                            lemma_scan_none_stays(fns@, *caller, depth as nat, a0, b + 1, n0 as int);
                        }
                        return None;
                    }
                    let local_base = local_count;
                    let new_count = match local_count.checked_add(body.local_count) {
                        Some(c) => c,
                        None => {
                            proof {
                                lemma_scan_none_stays(fns@, *caller, depth as nat, a0, b + 1, n0 as int);
                            }
                            return None;
                        },
                    };
                    let ret_id = base + nbody;
                    let ghost total = (ret_id + 1) as nat;
                    let ghost sfx0 = suffix@;
                    let ghost n1 = fns@[id as int].blocks.len();
                    proof {
                        assert(term_succs(blk.term.kind)[0] == *target);
                        assert forall|j: int| 0 <= j < prefix.len() implies block_wf(
                            #[trigger] prefix@[j],
                            total,
                            new_count as nat,
                        ) by {
                            lemma_block_wf_grows(
                                prefix@[j],
                                (n0 + suffix.len()) as nat,
                                local_count as nat,
                                total,
                                new_count as nat,
                            );
                        }
                        assert forall|j: int| 0 <= j < suffix.len() implies block_wf(
                            #[trigger] suffix@[j],
                            total,
                            new_count as nat,
                        ) by {
                            lemma_block_wf_grows(
                                suffix@[j],
                                (n0 + suffix.len()) as nat,
                                local_count as nat,
                                total,
                                new_count as nat,
                            );
                        }
                    }
                    let mut ret_block = caller_return_block(&body, local_base, *dest, *target);
                    let binds = param_binds(&body, local_base, arg_operands, Ghost(caller.local_count as nat));
                    proof {
                        assert forall|j: int| 0 <= j < ret_block.stmts.len() implies stmt_below(
                            #[trigger] ret_block.stmts@[j],
                            new_count as nat,
                        ) by {}
                        assert(block_wf(ret_block, total, new_count as nat));
                    }
                    let mut sites: Vec<BlockId> = Vec::new();
                    proof {
                        assert(nbody > 0);
                        assert(block_wf(body.blocks@[0], nbody as nat, body.local_count as nat));
                    }
                    let first = remap_block(
                        &body.blocks[0],
                        local_base,
                        base,
                        ret_id,
                        Ghost(nbody as nat),
                        Ghost(body.local_count as nat),
                    );
                    let ghost bs = binds@;
                    let ghost remapped = first;
                    let first = prepend_stmts(binds, first);
                    let ghost entry = first;
                    proof {
                        lemma_prepend_wf(bs, remapped, first, total, new_count as nat);
                        let bp = bound_params(arg_operands@, body.arg_count as int);
                        let b0 = body.blocks@[0];
                        assert forall|j: int| 0 <= j < bp.len() implies binds_param(
                            first.stmts@[j],
                            local_base,
                            #[trigger] bp[j],
                            arg_operands@[bp[j]]->Some_0,
                            body.span,
                        ) by {
                            assert(first.stmts@[j] == bs[j]);
                        }
                        assert forall|j: int| 0 <= j < b0.stmts.len() implies stmt_shifted(
                            first.stmts@[bp.len() + j],
                            #[trigger] b0.stmts@[j],
                            local_base,
                        ) by {
                            assert(first.stmts@[bp.len() + j] == remapped.stmts@[j]);
                        }
                        assert(entry_spliced(first, body, local_base, arg_operands@, base, ret_id));
                    }
                    if is_site(&first) {
                        sites.push(base);
                    }
                    proof {
                        lemma_exposed_push(suffix@, exposed@, n0 as nat, first);
                        lemma_any_site_push(suffix@, first);
                        lemma_any_site_take(body.blocks@, 0);
                        assert(!any_site(body.blocks@.take(0)));
                        assert(site_ids(body.blocks@, 0, base) =~= Seq::<BlockId>::empty());
                        assert(spec_is_site(first) == spec_is_site(body.blocks@[0]));
                        assert(sites@ =~= site_ids(body.blocks@, 1, base));
                    }
                    suffix.push(first);
                    let mut i: usize = 1;
                    while i < nbody
                        invariant
                            model_ok(body),
                            nbody == body.blocks.len(),
                            0 < nbody,
                            1 <= i <= nbody,
                            base == n0 + sfx0.len(),
                            ret_id == base + nbody,
                            ret_id <= MAX_BLOCKS,
                            total == ret_id + 1,
                            local_base + body.local_count == new_count,
                            suffix.len() == sfx0.len() + i,
                            suffix@.take(sfx0.len() as int) == sfx0,
                            forall|j: int| 0 <= j < suffix.len() ==> block_wf(#[trigger] suffix@[j], total, new_count as nat),
                            forall|j: int|
                                1 <= j < i ==> spec_is_site(#[trigger] suffix@[sfx0.len() + j]) == spec_is_site(
                                    body.blocks@[j],
                                ),
                            spec_is_site(suffix@[sfx0.len() as int]) == spec_is_site(body.blocks@[0]),
                            any_site(suffix@) == (any_site(sfx0) || any_site(body.blocks@.take(i as int))),
                            (sites.len() > 0) == any_site(body.blocks@.take(i as int)),
                            suffix@[sfx0.len() as int] == entry,
                            forall|j: int|
                                1 <= j < i ==> block_shifted(
                                    suffix@[sfx0.len() + j],
                                    #[trigger] body.blocks@[j],
                                    local_base,
                                    base,
                                    ret_id,
                                ),
                            sites@ == site_ids(body.blocks@, i as int, base),
                            forall|k: int|
                                0 <= k < sites.len() ==> base <= #[trigger] sites@[k] < base + i && spec_is_site(
                                    suffix@[sites@[k] - n0],
                                ),
                            exposed_into(suffix@, exposed@, n0 as nat),
                        decreases nbody - i,
                    {
                        proof {
                            assert(block_wf(body.blocks@[i as int], nbody as nat, body.local_count as nat));
                        }
                        let nb = remap_block(
                            &body.blocks[i],
                            local_base,
                            base,
                            ret_id,
                            Ghost(nbody as nat),
                            Ghost(body.local_count as nat),
                        );
                        let ghost before = suffix@;
                        proof {
                            lemma_exposed_push(suffix@, exposed@, n0 as nat, nb);
                            lemma_any_site_push(suffix@, nb);
                            lemma_any_site_take(body.blocks@, i as int);
                        }
                        if is_site(&nb) {
                            sites.push(base + i);
                        }
                        suffix.push(nb);
                        proof {
                            assert(sites@ =~= site_ids(body.blocks@, i + 1, base));
                            assert(suffix@[sfx0.len() as int] == before[sfx0.len() as int]);
                            assert forall|j: int| 1 <= j < i + 1 implies block_shifted(
                                suffix@[sfx0.len() + j],
                                #[trigger] body.blocks@[j],
                                local_base,
                                base,
                                ret_id,
                            ) by {
                                if j < i {
                                    assert(suffix@[sfx0.len() + j] == before[sfx0.len() + j]);
                                }
                            }
                            assert(suffix@.take(sfx0.len() as int) =~= before.take(sfx0.len() as int));
                            assert forall|k: int| 0 <= k < sites.len() implies base <= #[trigger] sites@[k] < base + i
                                + 1 && spec_is_site(suffix@[sites@[k] - n0]) by {
                                if sites@[k] < base + i {
                                    assert(suffix@[sites@[k] - n0] == before[sites@[k] - n0]);
                                }
                            }
                            assert(suffix@[sfx0.len() as int] == before[sfx0.len() as int]);
                            assert forall|j: int| 1 <= j < i + 1 implies spec_is_site(
                                #[trigger] suffix@[sfx0.len() + j],
                            ) == spec_is_site(body.blocks@[j]) by {
                                if j < i {
                                    assert(suffix@[sfx0.len() + j] == before[sfx0.len() + j]);
                                }
                            }
                        }
                        i = i + 1;
                    }
                    proof {
                        lemma_exposed_push(suffix@, exposed@, n0 as nat, ret_block);
                        lemma_any_site_push(suffix@, ret_block);
                        assert(body.blocks@.take(nbody as int) =~= body.blocks@);
                        assert(!spec_is_site(ret_block));
                    }
                    let ghost before_ret = suffix@;
                    suffix.push(ret_block);
                    proof {
                        assert forall|k: int| 0 <= k < sites.len() implies base <= #[trigger] sites@[k] < base + nbody
                            && spec_is_site(suffix@[sites@[k] - n0]) by {
                            assert(suffix@[sites@[k] - n0] == before_ret[sites@[k] - n0]);
                        }
                        assert(suffix@.take(sfx0.len() as int) =~= before_ret.take(sfx0.len() as int));
                        assert(suffix@[sfx0.len() as int] == before_ret[sfx0.len() as int]);
                        assert(suffix@[sfx0.len() + nbody] == ret_block);
                        assert forall|j: int| 1 <= j < nbody implies block_shifted(
                            suffix@[sfx0.len() + j],
                            #[trigger] body.blocks@[j],
                            local_base,
                            base,
                            ret_id,
                        ) by {
                            assert(suffix@[sfx0.len() + j] == before_ret[sfx0.len() + j]);
                        }
                        assert(copy_at(suffix@, sfx0.len() as int, n0 as int, caller.blocks@[b as int], local_base, body));
                        assert(sites@ =~= site_ids(body.blocks@, nbody as int, base) + nested_ids(nested@, 0, base));
                    }
                    let mut e: usize = 0;
                    while e < nested.len()
                        invariant
                            model_ok(body),
                            nbody == body.blocks.len(),
                            base == n0 + sfx0.len(),
                            ret_id == base + nbody,
                            ret_id <= MAX_BLOCKS,
                            suffix.len() == sfx0.len() + nbody + 1,
                            exposed_into(body.blocks@.skip(n1 as int), nested@, n1 as nat),
                            n1 <= nbody,
                            any_site(suffix@) == (any_site(sfx0) || any_site(body.blocks@)),
                            (sites.len() > 0) == any_site(body.blocks@),
                            forall|j: int|
                                0 <= j < nbody ==> spec_is_site(#[trigger] suffix@[sfx0.len() + j]) == spec_is_site(
                                    body.blocks@[j],
                                ),
                            forall|k: int|
                                0 <= k < sites.len() ==> base <= #[trigger] sites@[k] < base + nbody && spec_is_site(
                                    suffix@[sites@[k] - n0],
                                ),
                            e <= nested.len(),
                            sites@ == site_ids(body.blocks@, nbody as int, base) + nested_ids(nested@, e as int, base),
                        decreases nested.len() - e,
                    {
                        let inner = &nested[e].1;
                        let mut q: usize = 0;
                        proof {
                            assert(shift_all(inner@.take(0), base) =~= Seq::<BlockId>::empty());
                            assert(sites@ =~= site_ids(body.blocks@, nbody as int, base) + nested_ids(nested@, e as int, base)
                                + shift_all(inner@.take(0), base));
                        }
                        while q < inner.len()
                            invariant
                                *inner == nested@[e as int].1,
                                e < nested.len(),
                                model_ok(body),
                                nbody == body.blocks.len(),
                                base == n0 + sfx0.len(),
                                ret_id == base + nbody,
                                ret_id <= MAX_BLOCKS,
                                suffix.len() == sfx0.len() + nbody + 1,
                                exposed_into(body.blocks@.skip(n1 as int), nested@, n1 as nat),
                                n1 <= nbody,
                                any_site(suffix@) == (any_site(sfx0) || any_site(body.blocks@)),
                                (sites.len() > 0) == any_site(body.blocks@),
                                forall|j: int|
                                    0 <= j < nbody ==> spec_is_site(#[trigger] suffix@[sfx0.len() + j])
                                        == spec_is_site(body.blocks@[j]),
                                forall|k: int|
                                    0 <= k < sites.len() ==> base <= #[trigger] sites@[k] < base + nbody
                                        && spec_is_site(suffix@[sites@[k] - n0]),
                                q <= inner.len(),
                                sites@ == site_ids(body.blocks@, nbody as int, base) + nested_ids(nested@, e as int, base)
                                    + shift_all(inner@.take(q as int), base),
                            decreases inner.len() - q,
                        {
                            let s = inner[q];
                            proof {
                                let en = nested@[e as int];
                                assert(n1 <= en.1@[q as int] < n1 + body.blocks@.skip(n1 as int).len());
                                assert(spec_is_site(body.blocks@.skip(n1 as int)[en.1@[q as int] - n1]));
                                assert(body.blocks@.skip(n1 as int)[en.1@[q as int] - n1] == body.blocks@[s as int]);
                                assert(spec_is_site(suffix@[sfx0.len() + s]));
                                assert(spec_is_site(body.blocks@[s as int]));
                            }
                            let ghost sv0 = sites@;
                            sites.push(s + base);
                            proof {
                                assert(inner@.take(q + 1) =~= inner@.take(q as int).push(s));
                                assert(shift_all(inner@.take(q + 1), base) =~= shift_all(inner@.take(q as int), base).push(
                                    (s + base) as usize,
                                ));
                                assert(sites@ =~= site_ids(body.blocks@, nbody as int, base) + nested_ids(nested@, e as int, base)
                                    + shift_all(inner@.take(q + 1), base));
                            }
                            q = q + 1;
                        }
                        proof {
                            assert(inner@.take(inner.len() as int) =~= inner@);
                            assert(sites@ =~= site_ids(body.blocks@, nbody as int, base) + nested_ids(nested@, e + 1, base));
                        }
                        e = e + 1;
                    }
                    let goto = Block {
                        stmts: copy_stmts(&blk.stmts),
                        term: Term { kind: TermKind::Goto { target: base }, span: blk.term.span },
                    };
                    proof {
                        assert forall|j: int| 0 <= j < goto.stmts.len() implies stmt_below(
                            #[trigger] goto.stmts@[j],
                            new_count as nat,
                        ) by {
                            assert(stmt_same(goto.stmts@[j], blk.stmts@[j]));
                            assert(stmt_below(blk.stmts@[j], caller.local_count as nat));
                        }
                        assert(block_wf(goto, total, new_count as nat));
                    }
                    proof {
                        lemma_any_site_push(prefix@, goto);
                    }
                    prefix.push(goto);
                    let ghost sv = sites@;
                    proof {
                        assert(sv == copy_sites(body, nested@, base));
                    }
                    if sites.len() > 0 {
                        proof {
                            let entry = (b, sites);
                            assert forall|k: int| 0 <= k < entry.1.len() implies n0 <= #[trigger] entry.1@[k]
                                < n0 + suffix.len() && spec_is_site(suffix@[entry.1@[k] - n0]) by {}
                        }
                        exposed.push((b, sites));
                        proof {
                            assert forall|x: int| 0 <= x < exposed.len() implies {
                                let en = #[trigger] exposed@[x];
                                &&& en.0 < n0
                                &&& en.1.len() > 0
                                &&& forall|k: int|
                                    0 <= k < en.1.len() ==> n0 <= #[trigger] en.1@[k] < n0 + suffix.len()
                                        && spec_is_site(suffix@[en.1@[k] - n0])
                            } by {
                                if x < exposed.len() - 1 {
                                    assert(exposed@[x] == exposed@.drop_last()[x]);
                                }
                            }
                        }
                    }
                    local_count = new_count;
                    did = true;
                    proof {
                        assert(splice_scan(fns@, *caller, depth as nat, a0, b + 1) == Some(
                            (
                                suffix.len() as nat,
                                local_count as nat,
                                any_site(prefix@) || any_site(suffix@),
                                exposed.len() > 0,
                            ),
                        ));
                        if sv.len() > 0 {
                            assert(exposed_view(exposed@) =~= exposed_view(exv0).push((b, sv)));
                        } else {
                            assert(exposed@ == exv0);
                        }
                        ws = ws0.push((body, nested@));
                        assert(prefix@ == pre0.push(goto));
                        assert(sfx0 == post0);
                        assert forall|j: int| 0 <= j < b implies #[trigger] block_spliced(
                            fns@,
                            *caller,
                            depth as nat,
                            a0,
                            prefix@,
                            suffix@,
                            ws,
                            j,
                        ) by {
                            lemma_block_spliced_grow(fns@, *caller, depth as nat, a0, pre0, post0, ws0, prefix@, suffix@, ws, j);
                        }
                        assert(prefix@[b as int] == goto);
                        assert(call_replaced(goto, caller.blocks@[b as int], base));
                        assert(block_spliced(fns@, *caller, depth as nat, a0, prefix@, suffix@, ws, b as int));
                        lemma_exposed_list_ws(fns@, *caller, depth as nat, a0, ws0, ws, b as int);
                        assert(exposed_view(exposed@) == exposed_list(fns@, *caller, depth as nat, a0, ws, b + 1));
                    }
                }
            }
        }
        if !did {
            let c = copy_block(blk);
            proof {
                lemma_block_same_wf(c, caller.blocks@[b as int], n0 as nat, caller.local_count as nat);
                lemma_block_wf_grows(
                    c,
                    n0 as nat,
                    caller.local_count as nat,
                    (n0 + suffix.len()) as nat,
                    local_count as nat,
                );
            }
            proof {
                assert(inl is None);
                lemma_any_site_push(prefix@, c);
                lemma_same_site(c, caller.blocks@[b as int]);
            }
            prefix.push(c);
            proof {
                ws = ws0.push((*caller, Seq::empty()));
                assert(prefix@ == pre0.push(c));
                assert(suffix@ == post0);
                assert(suffix@.take(post0.len() as int) =~= post0);
                assert forall|j: int| 0 <= j < b implies #[trigger] block_spliced(
                    fns@,
                    *caller,
                    depth as nat,
                    a0,
                    prefix@,
                    suffix@,
                    ws,
                    j,
                ) by {
                    lemma_block_spliced_grow(fns@, *caller, depth as nat, a0, pre0, post0, ws0, prefix@, suffix@, ws, j);
                }
                assert(prefix@[b as int] == c);
                assert(block_spliced(fns@, *caller, depth as nat, a0, prefix@, suffix@, ws, b as int));
                lemma_exposed_list_ws(fns@, *caller, depth as nat, a0, ws0, ws, b as int);
                assert(exposed@ == exv0);
                assert(exposed_view(exposed@) == exposed_list(fns@, *caller, depth as nat, a0, ws, b + 1));
            }
        }
        b = b + 1;
    }
    let extra = local_count - caller.local_count;
    let names = names_with_unknown(&caller.local_names, extra);
    let spans = spans_with_unknown(&caller.local_spans, extra);
    let ghost sfx = suffix@;
    let mut blocks = prefix;
    blocks.append(&mut suffix);
    let m = FnModel {
        name: caller.name.clone(),
        item_path: caller.item_path.clone(),
        span: caller.span,
        local_count,
        arg_count: caller.arg_count,
        local_names: names,
        local_spans: spans,
        blocks,
        declared_block: caller.declared_block,
        declared_cluster: caller.declared_cluster,
    };
    proof {
        assert(m.blocks@ =~= prefix@ + sfx);
        lemma_any_site_concat(prefix@, sfx);
        assert(m.blocks@.skip(n0 as int) =~= sfx);
        assert forall|x: int| 0 <= x < m.blocks.len() implies block_wf(
            #[trigger] m.blocks@[x],
            m.blocks.len() as nat,
            m.local_count as nat,
        ) by {
            if x >= n0 {
                assert(m.blocks@[x] == sfx[x - n0]);
            }
        }
        assert(m.blocks@.take(n0 as int) =~= prefix@);
        assert(level_spliced(fns@, *caller, depth as nat, a0, m.blocks@.take(n0 as int), m.blocks@.skip(n0 as int), exposed@, ws));
    }
    Some((m, exposed))
}

/// Splice non-recursive local callees of `f` into it, up to `depth`
/// frames. `None` when nothing was inlined, or when a bound is exceeded —
/// in both cases the caller should keep its existing behaviour. A result
/// is a well-formed model of at most [`MAX_BLOCKS`] blocks and exactly
/// what [`spliced`] describes: `f`'s blocks first, each inlined call
/// replaced by a jump to a copy of its (spliced) callee appended after
/// them, whose returns continue at the call's successor, with at least one
/// exposed site, every one a barrier or collective block spliced in behind
/// a call of the caller.
pub fn inline_calls(fns: &[FnModel], f: &FnModel, depth: u32) -> (r: Option<Inlined>)
    requires
        models_ok(fns@),
        model_ok(*f),
    ensures
        depth == 0 ==> r is None,
        r is Some <==> (splice_summary(fns@, *f, depth as nat, Seq::empty()) matches Some(x) && x.3 && x.0
            <= MAX_BLOCKS),
        r matches Some(inl) ==> splice_summary(fns@, *f, depth as nat, Seq::empty()) == Some(
            (inl.model.blocks.len() as nat, inl.model.local_count as nat, true, true),
        ),
        r matches Some(inl) ==> {
            &&& model_ok(inl.model)
            &&& inl.model.arg_count == f.arg_count
            &&& f.blocks.len() <= inl.model.blocks.len() <= MAX_BLOCKS
            &&& inl.exposed.len() > 0
            &&& exposed_into(inl.model.blocks@.skip(f.blocks.len() as int), inl.exposed@, f.blocks.len() as nat)
        },
        r matches Some(inl) ==> spliced(fns@, *f, depth as nat, Seq::empty(), inl.model, inl.exposed@),
{
    let mut active: Vec<FnId> = Vec::new();
    assert(active@ =~= Seq::<FnId>::empty());
    let (out, exposed) = match splice(fns, f, depth, &mut active) {
        Some(x) => x,
        None => {
            return None;
        },
    };
    if exposed.len() == 0 || out.blocks.len() > MAX_BLOCKS {
        return None;
    }
    proof {
        let n0 = f.blocks.len() as int;
        let e = exposed@[0];
        assert(e.1.len() > 0);
        let k = e.1@[0] as int;
        assert(spec_is_site(out.blocks@.skip(n0)[k - n0]));
        assert(out.blocks@.skip(n0)[k - n0] == out.blocks@[k]);
        assert(spec_is_site(out.blocks@[k]));
    }
    Some(Inlined { model: out, exposed })
}

} // verus!
