//! The engine's function model: a small, dialect-agnostic mirror of MIR.
//!
//! Spans are opaque handles: the engine records where things happened and
//! the driver owns the table that maps handles back to source spans.
use vstd::prelude::*;

use crate::dialect::CallKind;
use crate::text::{decimal, push_char, push_decimal, push_str};
use crate::LaunchScope;

verus! {

/// A local slot: `0` is the return slot, `1..=arg_count` the parameters.
pub type Local = usize;

/// Basic-block index within one function.
pub type BlockId = usize;

/// Index of a function within the crate's model set.
pub type FnId = usize;

/// Opaque span handle.
pub type SpanRef = usize;

/// An interpreter operand: a local slot or an integer literal.
#[derive(Debug, Clone, Copy, PartialEq, Eq, Structural)]
pub enum Operand {
    Local(Local),
    Const(u128),
}

/// Integer/boolean operators the witness interpreter evaluates.
#[derive(Debug, Clone, Copy, PartialEq, Eq, Structural)]
pub enum BinOp {
    Add,
    Sub,
    Mul,
    Div,
    Rem,
    BitAnd,
    BitOr,
    BitXor,
    Shl,
    Shr,
    Eq,
    Ne,
    Lt,
    Le,
    Gt,
    Ge,
}

/// Unary operators the witness interpreter evaluates.
#[derive(Debug, Clone, Copy, PartialEq, Eq, Structural)]
pub enum UnOp {
    Not,
    Neg,
}

/// Evaluable right-hand sides.
#[derive(Debug, Clone, Copy, PartialEq, Eq, Structural)]
pub enum Eval {
    /// Plain copy, reference-to-scalar, or literal.
    Use(Operand),
    /// A binary operation wrapping at 128 bits.
    Binary(BinOp, Operand, Operand),
    /// A unary operation at the operand's width in bits.
    Unary(UnOp, Operand, u32),
    /// An integer cast to a target of the given width.
    Cast(Operand, u32),
    /// Overflow-checked arithmetic on an unsigned integer of the width.
    CheckedBinary(BinOp, Operand, Operand, u32),
}

/// A statement, reduced to def/use structure.
#[derive(Debug, Clone)]
pub struct Stmt {
    /// The local written, when the destination is (part of) a local.
    pub dest: Option<Local>,
    /// Every local read.
    pub uses: Vec<Local>,
    /// Computable semantics, when simple enough for the interpreter.
    pub eval: Option<Eval>,
    /// The statement could not be modeled (inline asm, …).
    pub opaque: bool,
    /// Where the statement is.
    pub span: SpanRef,
}

/// A classified call target.
#[derive(Debug, Clone)]
pub struct Callee {
    /// The dialect's classification.
    pub kind: CallKind,
    /// How far a barrier's participant set reaches (barriers only).
    pub scope: LaunchScope,
    /// Human-facing name for diagnostics.
    pub display: String,
    /// The callee's index in the crate model set, when its body is modeled.
    pub local_fn: Option<FnId>,
}

/// The terminators the model distinguishes.
#[allow(inconsistent_fields)]
#[derive(Debug, Clone)]
pub enum TermKind {
    /// An unconditional jump.
    Goto { target: BlockId },
    /// A multi-way branch on a local's value.
    Branch { cond: Local, targets: Vec<BlockId>, values: Vec<Option<u128>> },
    /// A multi-way jump on a constant: never divergent.
    Jump { targets: Vec<BlockId> },
    /// A call.
    Call {
        callee: Callee,
        args: Vec<Local>,
        const_args: Vec<Option<u64>>,
        arg_operands: Vec<Option<Operand>>,
        dest: Option<Local>,
        target: Option<BlockId>,
    },
    /// Inline asm or similar.
    Opaque { uses: Vec<Local>, dest: Option<Local>, target: Option<BlockId> },
    /// A normal return.
    Return,
    /// No successors and no normal return.
    Halt,
}

/// A block terminator.
#[derive(Debug, Clone)]
pub struct Term {
    pub kind: TermKind,
    pub span: SpanRef,
}

/// One basic block: statements, then a terminator.
#[derive(Debug, Clone)]
pub struct Block {
    pub stmts: Vec<Stmt>,
    pub term: Term,
}

/// One function, ready for analysis.
#[derive(Debug, Clone)]
pub struct FnModel {
    /// User-facing name.
    pub name: String,
    /// Fully qualified item path.
    pub item_path: String,
    /// Where the function is defined.
    pub span: SpanRef,
    /// Number of locals, including the return place and the arguments.
    pub local_count: usize,
    /// Locals `1..=arg_count` are parameters.
    pub arg_count: usize,
    /// Source-level names, where debug info provides them.
    pub local_names: Vec<Option<String>>,
    /// Where each local is declared, where debug info provides it.
    pub local_spans: Vec<Option<SpanRef>>,
    /// Basic blocks; block 0 is the entry.
    pub blocks: Vec<Block>,
    /// Block dimensions declared by the kernel's launch contract.
    pub declared_block: Option<[u32; 3]>,
    /// Cluster dimensions declared by the kernel, when present.
    pub declared_cluster: Option<[u32; 3]>,
}

/// Successors of a terminator along normal edges.
pub open spec fn term_succs(k: TermKind) -> Seq<BlockId> {
    match k {
        TermKind::Goto { target } => seq![target],
        TermKind::Branch { targets, .. } => targets@,
        TermKind::Jump { targets } => targets@,
        TermKind::Call { target, .. } => match target {
            Some(t) => seq![t],
            None => Seq::empty(),
        },
        TermKind::Opaque { target, .. } => match target {
            Some(t) => seq![t],
            None => Seq::empty(),
        },
        TermKind::Return => Seq::empty(),
        TermKind::Halt => Seq::empty(),
    }
}

/// Every local a terminator names, as a predicate.
pub open spec fn term_locals_below(k: TermKind, n: nat) -> bool {
    match k {
        TermKind::Branch { cond, .. } => cond < n,
        TermKind::Call { args, dest, arg_operands, .. } => {
            &&& forall|i: int| 0 <= i < args.len() ==> args@[i] < n
            &&& (dest matches Some(d) ==> d < n)
            &&& forall|i: int|
                0 <= i < arg_operands.len() ==> option_operand_below(#[trigger] arg_operands@[i], n)
        },
        TermKind::Opaque { uses, dest, .. } => {
            &&& forall|i: int| 0 <= i < uses.len() ==> uses@[i] < n
            &&& (dest matches Some(d) ==> d < n)
        },
        _ => true,
    }
}

/// An optional operand names a local below `n`, if it names one.
pub open spec fn option_operand_below(o: Option<Operand>, n: nat) -> bool {
    o matches Some(Operand::Local(l)) ==> l < n
}

/// An operand names a local below `n`, if it names one.
pub open spec fn operand_below(o: Operand, n: nat) -> bool {
    o matches Operand::Local(l) ==> l < n
}

/// Every local an evaluable right-hand side names is below `n`.
pub open spec fn eval_below(e: Eval, n: nat) -> bool {
    match e {
        Eval::Use(a) => operand_below(a, n),
        Eval::Unary(_, a, _) => operand_below(a, n),
        Eval::Cast(a, _) => operand_below(a, n),
        Eval::Binary(_, a, b) => operand_below(a, n) && operand_below(b, n),
        Eval::CheckedBinary(_, a, b, _) => operand_below(a, n) && operand_below(b, n),
    }
}

/// Every local a statement names is below `n`.
pub open spec fn stmt_below(s: Stmt, n: nat) -> bool {
    &&& (s.dest matches Some(d) ==> d < n)
    &&& forall|i: int| 0 <= i < s.uses.len() ==> s.uses@[i] < n
    &&& (s.eval matches Some(e) ==> eval_below(e, n))
}

/// A block's successors and locals are in range.
pub open spec fn block_wf(b: Block, nblocks: nat, nlocals: nat) -> bool {
    &&& forall|i: int| 0 <= i < term_succs(b.term.kind).len() ==> term_succs(b.term.kind)[i] < nblocks
    &&& term_locals_below(b.term.kind, nlocals)
    &&& forall|i: int| 0 <= i < b.stmts.len() ==> stmt_below(#[trigger] b.stmts@[i], nlocals)
}

/// Every span a function names (its own, its locals', its statements' and
/// its terminators') is in a table of `n` spans.
pub open spec fn spans_below(f: FnModel, n: nat) -> bool {
    &&& f.span < n
    &&& forall|l: int| 0 <= l < f.local_spans.len() ==> (#[trigger] f.local_spans@[l] matches Some(s) ==> s < n)
    &&& forall|b: int| 0 <= b < f.blocks.len() ==> #[trigger] f.blocks@[b].term.span < n
    &&& forall|b: int, j: int|
        0 <= b < f.blocks.len() && 0 <= j < f.blocks@[b].stmts.len() ==> #[trigger] f.blocks@[b].stmts@[j].span < n
}

impl FnModel {
    /// The model is internally consistent: every block id and local it
    /// names exists, and the per-local tables cover every local.
    pub open spec fn wf(&self) -> bool {
        &&& self.blocks.len() > 0
        &&& self.local_names.len() == self.local_count
        &&& self.local_spans.len() == self.local_count
        &&& forall|b: int|
            0 <= b < self.blocks.len() ==> block_wf(
                #[trigger] self.blocks@[b],
                self.blocks.len() as nat,
                self.local_count as nat,
            )
    }

    /// The successor list of block `b`.
    pub open spec fn succs_of(&self, b: int) -> Seq<BlockId> {
        term_succs(self.blocks@[b].term.kind)
    }

    /// How a local is named in a diagnostic: its debug name in backquotes,
    /// or `_N`.
    pub open spec fn spec_local_display(&self, local: int) -> Seq<char> {
        if 0 <= local < self.local_names.len() && self.local_names@[local] is Some {
            seq!['`'] + self.local_names@[local].unwrap()@ + seq!['`']
        } else {
            seq!['_'] + decimal(local as nat)
        }
    }

    /// Successor blocks along normal (non-unwind) edges.
    pub fn successors(&self, block: BlockId) -> (r: Vec<BlockId>)
        requires
            block < self.blocks.len(),
        ensures
            r@ == self.succs_of(block as int),
    {
        match &self.blocks[block].term.kind {
            TermKind::Goto { target } => {
                let mut v = Vec::new();
                v.push(*target);
                v
            },
            TermKind::Branch { targets, .. } => copy_ids(targets),
            TermKind::Jump { targets } => copy_ids(targets),
            TermKind::Call { target, .. } | TermKind::Opaque { target, .. } => {
                let mut v = Vec::new();
                if let Some(t) = target {
                    v.push(*t);
                }
                v
            },
            TermKind::Return | TermKind::Halt => Vec::new(),
        }
    }

    /// A display name for a local: its debug name in backquotes, or `_N`.
    pub fn local_display(&self, local: Local) -> (r: String)
        ensures
            r@ == self.spec_local_display(local as int),
    {
        let mut out = String::new();
        if local < self.local_names.len() {
            if let Some(name) = &self.local_names[local] {
                push_char(&mut out, '`');
                push_str(&mut out, name.as_str());
                push_char(&mut out, '`');
                assert(out@ =~= seq!['`'] + name@ + seq!['`']);
                return out;
            }
        }
        push_char(&mut out, '_');
        push_decimal(&mut out, local);
        assert(out@ =~= seq!['_'] + decimal(local as nat));
        out
    }
}

/// A copy of a list of ids.
pub fn copy_ids(v: &Vec<usize>) -> (r: Vec<usize>)
    ensures
        r@ == v@,
{
    let mut out = Vec::new();
    let mut i: usize = 0;
    while i < v.len()
        invariant
            i <= v.len(),
            out@ == v@.take(i as int),
        decreases v.len() - i,
    {
        out.push(v[i]);
        i = i + 1;
    }
    assert(v@.take(v.len() as int) =~= v@);
    out
}


/// The same statement, field by field.
pub open spec fn stmt_same(a: Stmt, b: Stmt) -> bool {
    &&& a.dest == b.dest
    &&& a.uses@ == b.uses@
    &&& a.eval == b.eval
    &&& a.opaque == b.opaque
    &&& a.span == b.span
}

/// The same callee, field by field.
pub open spec fn callee_same(a: Callee, b: Callee) -> bool {
    &&& a.kind == b.kind
    &&& a.scope == b.scope
    &&& a.display@ == b.display@
    &&& a.local_fn == b.local_fn
}

/// The same terminator kind, field by field.
pub open spec fn term_same(a: TermKind, b: TermKind) -> bool {
    match (a, b) {
        (TermKind::Goto { target: x }, TermKind::Goto { target: y }) => x == y,
        (
            TermKind::Branch { cond: c1, targets: t1, values: v1 },
            TermKind::Branch { cond: c2, targets: t2, values: v2 },
        ) => c1 == c2 && t1@ == t2@ && v1@ == v2@,
        (TermKind::Jump { targets: t1 }, TermKind::Jump { targets: t2 }) => t1@ == t2@,
        (
            TermKind::Call {
                callee: e1,
                args: a1,
                const_args: k1,
                arg_operands: o1,
                dest: d1,
                target: g1,
            },
            TermKind::Call { callee: e2, args: a2, const_args: k2, arg_operands: o2, dest: d2, target: g2 },
        ) => callee_same(e1, e2) && a1@ == a2@ && k1@ == k2@ && o1@ == o2@ && d1 == d2 && g1 == g2,
        (
            TermKind::Opaque { uses: u1, dest: d1, target: g1 },
            TermKind::Opaque { uses: u2, dest: d2, target: g2 },
        ) => u1@ == u2@ && d1 == d2 && g1 == g2,
        (TermKind::Return, TermKind::Return) => true,
        (TermKind::Halt, TermKind::Halt) => true,
        _ => false,
    }
}

/// The same block, field by field.
pub open spec fn block_same(a: Block, b: Block) -> bool {
    &&& a.stmts.len() == b.stmts.len()
    &&& forall|i: int| 0 <= i < a.stmts.len() ==> stmt_same(#[trigger] a.stmts@[i], b.stmts@[i])
    &&& term_same(a.term.kind, b.term.kind)
    &&& a.term.span == b.term.span
}

/// Debug names, as character sequences.
pub open spec fn names_view(v: Seq<Option<String>>) -> Seq<Option<Seq<char>>> {
    v.map_values(|o: Option<String>| match o {
        Some(s) => Some(s@),
        None => None,
    })
}

/// The same function model, field by field.
pub open spec fn fn_same(a: FnModel, b: FnModel) -> bool {
    &&& a.name@ == b.name@
    &&& a.item_path@ == b.item_path@
    &&& a.span == b.span
    &&& a.local_count == b.local_count
    &&& a.arg_count == b.arg_count
    &&& names_view(a.local_names@) == names_view(b.local_names@)
    &&& a.local_spans@ == b.local_spans@
    &&& a.blocks.len() == b.blocks.len()
    &&& forall|i: int| 0 <= i < a.blocks.len() ==> block_same(#[trigger] a.blocks@[i], b.blocks@[i])
    &&& a.declared_block == b.declared_block
    &&& a.declared_cluster == b.declared_cluster
}

/// Identical blocks are well-formed alike.
pub proof fn lemma_block_same_wf(a: Block, b: Block, nb: nat, nl: nat)
    requires
        block_same(a, b),
    ensures
        block_wf(a, nb, nl) == block_wf(b, nb, nl),
{
    assert(term_succs(a.term.kind) == term_succs(b.term.kind));
    assert(term_locals_below(a.term.kind, nl) == term_locals_below(b.term.kind, nl));
    assert forall|i: int| 0 <= i < a.stmts.len() implies stmt_below(#[trigger] a.stmts@[i], nl) == stmt_below(
        b.stmts@[i],
        nl,
    ) by {
        assert(stmt_same(a.stmts@[i], b.stmts@[i]));
    }
    if block_wf(a, nb, nl) {
        assert forall|i: int| 0 <= i < b.stmts.len() implies stmt_below(#[trigger] b.stmts@[i], nl) by {
            assert(stmt_below(a.stmts@[i], nl));
        }
    }
    if block_wf(b, nb, nl) {
        assert forall|i: int| 0 <= i < a.stmts.len() implies stmt_below(#[trigger] a.stmts@[i], nl) by {
            assert(stmt_below(b.stmts@[i], nl));
        }
    }
}

/// A well-formed block stays well-formed in a larger function.
pub proof fn lemma_block_wf_grows(b: Block, nb: nat, nl: nat, nb2: nat, nl2: nat)
    requires
        block_wf(b, nb, nl),
        nb <= nb2,
        nl <= nl2,
    ensures
        block_wf(b, nb2, nl2),
{
    match b.term.kind {
        TermKind::Call { arg_operands, .. } => {
            assert forall|i: int| 0 <= i < arg_operands.len() implies option_operand_below(
                #[trigger] arg_operands@[i],
                nl2,
            ) by {
                assert(option_operand_below(arg_operands@[i], nl));
            }
        },
        _ => {},
    }
    assert forall|i: int| 0 <= i < b.stmts.len() implies stmt_below(#[trigger] b.stmts@[i], nl2) by {
        assert(stmt_below(b.stmts@[i], nl));
        let s = b.stmts@[i];
        if s.eval is Some {
            assert(eval_below(s.eval->Some_0, nl));
        }
    }
}

fn copy_option_ops(v: &Vec<Option<Operand>>) -> (r: Vec<Option<Operand>>)
    ensures
        r@ == v@,
{
    let mut out = Vec::new();
    let mut i: usize = 0;
    while i < v.len()
        invariant
            i <= v.len(),
            out@ == v@.take(i as int),
        decreases v.len() - i,
    {
        out.push(v[i]);
        i = i + 1;
    }
    assert(v@.take(v.len() as int) =~= v@);
    out
}

fn copy_option_u64(v: &Vec<Option<u64>>) -> (r: Vec<Option<u64>>)
    ensures
        r@ == v@,
{
    let mut out = Vec::new();
    let mut i: usize = 0;
    while i < v.len()
        invariant
            i <= v.len(),
            out@ == v@.take(i as int),
        decreases v.len() - i,
    {
        out.push(v[i]);
        i = i + 1;
    }
    assert(v@.take(v.len() as int) =~= v@);
    out
}

fn copy_option_u128(v: &Vec<Option<u128>>) -> (r: Vec<Option<u128>>)
    ensures
        r@ == v@,
{
    let mut out = Vec::new();
    let mut i: usize = 0;
    while i < v.len()
        invariant
            i <= v.len(),
            out@ == v@.take(i as int),
        decreases v.len() - i,
    {
        out.push(v[i]);
        i = i + 1;
    }
    assert(v@.take(v.len() as int) =~= v@);
    out
}

/// A copy of a statement.
pub fn copy_stmt(s: &Stmt) -> (r: Stmt)
    ensures
        stmt_same(r, *s),
{
    Stmt { dest: s.dest, uses: copy_ids(&s.uses), eval: s.eval, opaque: s.opaque, span: s.span }
}

/// A copy of a callee.
pub fn copy_callee(c: &Callee) -> (r: Callee)
    ensures
        callee_same(r, *c),
{
    Callee { kind: c.kind, scope: c.scope, display: c.display.clone(), local_fn: c.local_fn }
}

/// A copy of a terminator kind.
pub fn copy_term_kind(k: &TermKind) -> (r: TermKind)
    ensures
        term_same(r, *k),
{
    match k {
        TermKind::Goto { target } => TermKind::Goto { target: *target },
        TermKind::Branch { cond, targets, values } => TermKind::Branch {
            cond: *cond,
            targets: copy_ids(targets),
            values: copy_option_u128(values),
        },
        TermKind::Jump { targets } => TermKind::Jump { targets: copy_ids(targets) },
        TermKind::Call { callee, args, const_args, arg_operands, dest, target } => TermKind::Call {
            callee: copy_callee(callee),
            args: copy_ids(args),
            const_args: copy_option_u64(const_args),
            arg_operands: copy_option_ops(arg_operands),
            dest: *dest,
            target: *target,
        },
        TermKind::Opaque { uses, dest, target } => TermKind::Opaque {
            uses: copy_ids(uses),
            dest: *dest,
            target: *target,
        },
        TermKind::Return => TermKind::Return,
        TermKind::Halt => TermKind::Halt,
    }
}

/// A copy of a list of statements.
pub fn copy_stmts(v: &Vec<Stmt>) -> (r: Vec<Stmt>)
    ensures
        r.len() == v.len(),
        forall|i: int| 0 <= i < v.len() ==> stmt_same(#[trigger] r@[i], v@[i]),
{
    let mut out: Vec<Stmt> = Vec::new();
    let mut i: usize = 0;
    while i < v.len()
        invariant
            i <= v.len(),
            out.len() == i,
            forall|j: int| 0 <= j < i ==> stmt_same(#[trigger] out@[j], v@[j]),
        decreases v.len() - i,
    {
        out.push(copy_stmt(&v[i]));
        i = i + 1;
    }
    out
}

/// A copy of a block.
pub fn copy_block(b: &Block) -> (r: Block)
    ensures
        block_same(r, *b),
{
    Block { stmts: copy_stmts(&b.stmts), term: Term { kind: copy_term_kind(&b.term.kind), span: b.term.span } }
}

/// A copy of a function model.
pub fn copy_fn_model(f: &FnModel) -> (r: FnModel)
    ensures
        fn_same(r, *f),
{
    let mut names: Vec<Option<String>> = Vec::new();
    let mut i: usize = 0;
    while i < f.local_names.len()
        invariant
            i <= f.local_names.len(),
            names_view(names@) == names_view(f.local_names@.take(i as int)),
        decreases f.local_names.len() - i,
    {
        let n = match &f.local_names[i] {
            Some(s) => Some(s.clone()),
            None => None,
        };
        names.push(n);
        assert(names_view(f.local_names@.take(i + 1)) =~= names_view(f.local_names@.take(i as int)).push(
            match n {
                Some(s) => Some(s@),
                None => None,
            },
        ));
        assert(names_view(names@) =~= names_view(f.local_names@.take(i + 1)));
        i = i + 1;
    }
    assert(f.local_names@.take(f.local_names.len() as int) =~= f.local_names@);
    let mut spans: Vec<Option<SpanRef>> = Vec::new();
    let mut k: usize = 0;
    while k < f.local_spans.len()
        invariant
            k <= f.local_spans.len(),
            spans@ == f.local_spans@.take(k as int),
        decreases f.local_spans.len() - k,
    {
        spans.push(f.local_spans[k]);
        k = k + 1;
    }
    assert(f.local_spans@.take(f.local_spans.len() as int) =~= f.local_spans@);
    let mut blocks: Vec<Block> = Vec::new();
    let mut b: usize = 0;
    while b < f.blocks.len()
        invariant
            b <= f.blocks.len(),
            blocks.len() == b,
            forall|j: int| 0 <= j < b ==> block_same(#[trigger] blocks@[j], f.blocks@[j]),
        decreases f.blocks.len() - b,
    {
        blocks.push(copy_block(&f.blocks[b]));
        b = b + 1;
    }
    FnModel {
        name: f.name.clone(),
        item_path: f.item_path.clone(),
        span: f.span,
        local_count: f.local_count,
        arg_count: f.arg_count,
        local_names: names,
        local_spans: spans,
        blocks,
        declared_block: f.declared_block,
        declared_cluster: f.declared_cluster,
    }
}

} // verus!
