//! RC003 and RC004: what a kernel's signature and its shared statics say
//! before any dataflow runs.
//!
//! RC003 is a parameter of type `&mut [T]`: every thread of the launch
//! receives the same slice, so writes through it alias across threads.
//! RC004 is statically sized shared memory over the 48 KiB that every
//! supported architecture caps it at; a target compute capability adds
//! what that target offers even with the dynamic opt-in.
use vstd::prelude::*;

use super::launch::{copy_span, rc005_finding, rc005_findings, reported_pairs};
use super::{sort_findings, stable_sorted};
use crate::oxide::paths::{IndexFn, LaunchDomain};
use crate::artifacts::findings::{Confidence, Finding, SourceSpan};
use crate::oxide::cc::{cc_text, find_limits, limits_table, shared_memory_limits, ComputeCapability, STATIC_SHARED_LIMIT_BYTES};
use crate::text::{decimal, owned, push_decimal, push_decimal_u64, push_str, sort_strings, sorted_strs, str_views};

verus! {

/// A kernel parameter as the type checker sees it: where it is declared,
/// and, when its type is a mutable slice reference `&mut [T]`, the element
/// type `T` as written.
pub struct KernelParam {
    pub span: SourceSpan,
    pub mut_slice_of: Option<String>,
}

/// The first note of an RC003 finding.
pub const ALIAS_NOTE: &'static str = "every thread of the launch receives the same slice, so writes through it alias the same memory across threads";

/// The second note of an RC003 finding.
pub const UNSAFE_NOTE: &'static str = "upstream's safety model treats a kernel taking `&mut [T]` as if every line of it were unsafe";

/// `fd` is the RC003 error for a parameter of `kernel` declared at `span`
/// as `&mut [element]`.
pub open spec fn rc003_finding(kernel: Seq<char>, span: SourceSpan, element: Seq<char>, fd: Finding) -> bool {
    &&& fd.code@ == "RC003"@
    &&& fd.confidence == Confidence::Deny
    &&& fd.message@ == "kernel `"@ + kernel + "` takes `&mut ["@ + element + "]` as a parameter"@
    &&& fd.kernel matches Some(k) && k@ == kernel
    &&& fd.span == span
    &&& fd.notes.len() == 2
    &&& fd.notes@[0]@ == ALIAS_NOTE@
    &&& fd.notes@[1]@ == UNSAFE_NOTE@
    &&& fd.help matches Some(h) && h@ == "pass `DisjointSlice<"@ + element + ">` and index it with a thread-index witness"@
    &&& fd.explain@ == "RC003"@
    &&& fd.provenance.len() == 0
}

/// The parameters among the first `n` of `params` that are `&mut [T]`, in
/// order.
pub open spec fn mut_slice_params(params: Seq<KernelParam>, n: int) -> Seq<KernelParam>
    decreases n,
{
    if n <= 0 {
        Seq::empty()
    } else if params[n - 1].mut_slice_of is Some {
        mut_slice_params(params, n - 1).push(params[n - 1])
    } else {
        mut_slice_params(params, n - 1)
    }
}

fn rc003_one(kernel: &str, span: &SourceSpan, element: &str) -> (r: Finding)
    ensures
        rc003_finding(kernel@, *span, element@, r),
{
    let mut message = owned("kernel `");
    push_str(&mut message, kernel);
    push_str(&mut message, "` takes `&mut [");
    push_str(&mut message, element);
    push_str(&mut message, "]` as a parameter");
    let mut help = owned("pass `DisjointSlice<");
    push_str(&mut help, element);
    push_str(&mut help, ">` and index it with a thread-index witness");
    let mut notes: Vec<String> = Vec::new();
    notes.push(owned(ALIAS_NOTE));
    notes.push(owned(UNSAFE_NOTE));
    Finding {
        code: owned("RC003"),
        confidence: Confidence::Deny,
        message,
        kernel: Some(owned(kernel)),
        span: copy_span(span),
        notes,
        help: Some(help),
        explain: owned("RC003"),
        provenance: Vec::new(),
    }
}

/// RC003 for one kernel: an error for each parameter of type `&mut [T]`,
/// in parameter order, at the parameter.
pub fn rc003_findings(kernel: &str, params: &Vec<KernelParam>) -> (r: Vec<Finding>)
    ensures
        r.len() == mut_slice_params(params@, params.len() as int).len(),
        forall|k: int|
            0 <= k < r.len() ==> {
                let p = #[trigger] mut_slice_params(params@, params.len() as int)[k];
                rc003_finding(kernel@, p.span, p.mut_slice_of->Some_0@, r@[k])
            },
{
    let mut out: Vec<Finding> = Vec::new();
    let mut i: usize = 0;
    while i < params.len()
        invariant
            i <= params.len(),
            out.len() == mut_slice_params(params@, i as int).len(),
            forall|k: int|
                0 <= k < out.len() ==> {
                    let p = #[trigger] mut_slice_params(params@, i as int)[k];
                    rc003_finding(kernel@, p.span, p.mut_slice_of->Some_0@, out@[k])
                },
        decreases params.len() - i,
    {
        let ghost before = out@;
        if let Some(element) = &params[i].mut_slice_of {
            let fd = rc003_one(kernel, &params[i].span, element);
            out.push(fd);
        }
        proof {
            let prev = mut_slice_params(params@, i as int);
            let next = mut_slice_params(params@, i + 1);
            assert forall|k: int| 0 <= k < out.len() implies {
                let p = #[trigger] next[k];
                rc003_finding(kernel@, p.span, p.mut_slice_of->Some_0@, out@[k])
            } by {
                if k < prev.len() {
                    assert(next[k] == prev[k]);
                    assert(out@[k] == before[k]);
                }
            }
        }
        i = i + 1;
    }
    out
}

/// One shared-memory static a kernel references: its name, its device
/// size in bytes, and its kind (`SharedArray` or `Barrier`).
pub struct SharedStatic {
    pub name: String,
    pub size: u64,
    pub kind: String,
}

/// The bytes the first `n` statics take together.
pub open spec fn statics_total(statics: Seq<SharedStatic>, n: int) -> nat
    decreases n,
{
    if n <= 0 {
        0
    } else {
        statics_total(statics, n - 1) + statics[n - 1].size as nat
    }
}

/// The note naming one static.
pub open spec fn static_note(s: SharedStatic) -> Seq<char> {
    "`"@ + s.name@ + "`: "@ + decimal(s.size as nat) + " bytes ("@ + s.kind@ + ")"@
}

/// The notes naming each static, in the order given.
pub open spec fn static_notes(statics: Seq<SharedStatic>) -> Seq<Seq<char>> {
    statics.map_values(|s: SharedStatic| static_note(s))
}

/// Why static shared memory over the limit cannot load.
pub const LIMIT_NOTE: &'static str = "statically sized shared memory above 48 KiB cannot load on any supported architecture; larger regions must be dynamic shared memory with a launch-time opt-in";

/// The help of an RC004 finding.
pub const RC004_HELP: &'static str = "shrink the shared arrays, or move the excess to dynamic shared memory sized at launch";

/// The note on a target compute capability, when the table knows it.
pub open spec fn target_note(cc: Option<ComputeCapability>) -> Seq<Seq<char>> {
    match cc {
        Some(c) => match find_limits(limits_table(), c) {
            Some(l) => seq![
                "target compute capability "@ + cc_text(l.cc) + " offers at most "@ + decimal(l.max_per_block as nat)
                    + " bytes per block even with the dynamic opt-in"@,
            ],
            None => Seq::empty(),
        },
        None => Seq::empty(),
    }
}

/// `fd` is the RC004 error for `kernel`, at `span`, whose shared statics
/// are `statics` (together over the static limit), with target `cc`.
pub open spec fn rc004_spec(kernel: Seq<char>, span: SourceSpan, statics: Seq<SharedStatic>, cc: Option<ComputeCapability>, fd: Finding) -> bool {
    let n = statics.len() as int;
    let notes = str_views(fd.notes@);
    &&& fd.code@ == "RC004"@
    &&& fd.confidence == Confidence::Deny
    &&& fd.message@ == "kernel `"@ + kernel + "` declares "@ + decimal(statics_total(statics, n))
        + " bytes of static shared memory, over the 49152-byte static limit"@
    &&& fd.kernel matches Some(k) && k@ == kernel
    &&& fd.span == span
    &&& fd.notes.len() == n + 1 + target_note(cc).len()
    &&& sorted_strs(notes.take(n))
    &&& notes.take(n).to_multiset() == static_notes(statics).to_multiset()
    &&& notes[n] == LIMIT_NOTE@
    &&& notes.skip(n + 1) == target_note(cc)
    &&& fd.help matches Some(h) && h@ == RC004_HELP@
    &&& fd.explain@ == "RC004"@
    &&& fd.provenance.len() == 0
}

/// RC004 for one kernel, from the shared-memory statics its body
/// references (each once): an error when they take more than the static
/// limit together, nothing otherwise. The notes name each static in text
/// order, then the limit, then what target `cc` offers when the table
/// knows it.
pub fn rc004_finding(kernel: &str, span: &SourceSpan, statics: &Vec<SharedStatic>, cc: Option<ComputeCapability>) -> (r: Option<Finding>)
    requires
        statics_total(statics@, statics.len() as int) <= u64::MAX,
    ensures
        r is None <==> statics_total(statics@, statics.len() as int) <= STATIC_SHARED_LIMIT_BYTES,
        r matches Some(fd) ==> rc004_spec(kernel@, *span, statics@, cc, fd),
{
    let mut total: u64 = 0;
    let mut notes: Vec<String> = Vec::new();
    let mut i: usize = 0;
    while i < statics.len()
        invariant
            i <= statics.len(),
            statics_total(statics@, statics.len() as int) <= u64::MAX,
            total == statics_total(statics@, i as int),
            str_views(notes@) == static_notes(statics@.take(i as int)),
        decreases statics.len() - i,
    {
        proof {
            lemma_total_grows(statics@, i + 1, statics.len() as int);
        }
        total = total + statics[i].size;
        let mut note = owned("`");
        push_str(&mut note, &statics[i].name);
        push_str(&mut note, "`: ");
        push_decimal_u64(&mut note, statics[i].size);
        push_str(&mut note, " bytes (");
        push_str(&mut note, &statics[i].kind);
        push_str(&mut note, ")");
        let ghost before = notes@;
        notes.push(note);
        proof {
            assert(statics@.take(i + 1) =~= statics@.take(i as int).push(statics@[i as int]));
            assert(str_views(notes@) =~= str_views(before).push(note@));
            assert(static_notes(statics@.take(i + 1)) =~= static_notes(statics@.take(i as int)).push(
                static_note(statics@[i as int]),
            ));
        }
        i = i + 1;
    }
    if total <= STATIC_SHARED_LIMIT_BYTES {
        return None;
    }
    proof {
        assert(statics@.take(statics.len() as int) =~= statics@);
    }
    let ghost unsorted = str_views(notes@);
    let mut notes = sort_strings(notes);
    let n = notes.len();
    let ghost sorted = str_views(notes@);
    notes.push(owned(LIMIT_NOTE));
    let ghost with_limit = str_views(notes@);
    if let Some(c) = cc {
        if let Some(limits) = shared_memory_limits(c) {
            let mut t = owned("target compute capability ");
            push_decimal(&mut t, limits.cc.0 as usize);
            push_str(&mut t, ".");
            push_decimal(&mut t, limits.cc.1 as usize);
            push_str(&mut t, " offers at most ");
            push_decimal_u64(&mut t, limits.max_per_block);
            push_str(&mut t, " bytes per block even with the dynamic opt-in");
            proof {
                reveal_strlit(".");
                assert(cc_text(limits.cc) =~= decimal(limits.cc.0 as nat) + "."@ + decimal(limits.cc.1 as nat));
                assert(t@ =~= "target compute capability "@ + cc_text(limits.cc) + " offers at most "@ + decimal(
                    limits.max_per_block as nat,
                ) + " bytes per block even with the dynamic opt-in"@);
                assert(target_note(cc) =~= seq![t@]);
            }
            notes.push(t);
            proof {
                assert(str_views(notes@) =~= with_limit.push(t@));
            }
        } else {
            assert(target_note(cc) =~= Seq::<Seq<char>>::empty());
        }
    } else {
        assert(target_note(cc) =~= Seq::<Seq<char>>::empty());
    }
    proof {
        assert(str_views(notes@) =~= with_limit + target_note(cc));
    }
    let mut message = owned("kernel `");
    push_str(&mut message, kernel);
    push_str(&mut message, "` declares ");
    push_decimal_u64(&mut message, total);
    push_str(&mut message, " bytes of static shared memory, over the 49152-byte static limit");
    proof {
        let views = str_views(notes@);
        assert(unsorted == static_notes(statics@));
        unsorted.to_multiset_ensures();
        sorted.to_multiset_ensures();
        assert(n == statics.len());
        assert(views.take(n as int) =~= sorted);
        assert(views[n as int] == LIMIT_NOTE@);
        assert(views.skip(n + 1) =~= target_note(cc));
    }
    Some(Finding {
        code: owned("RC004"),
        confidence: Confidence::Deny,
        message,
        kernel: Some(owned(kernel)),
        span: copy_span(span),
        notes,
        help: Some(owned(RC004_HELP)),
        explain: owned("RC004"),
        provenance: Vec::new(),
    })
}

proof fn lemma_total_grows(statics: Seq<SharedStatic>, i: int, n: int)
    requires
        0 <= i <= n,
    ensures
        statics_total(statics, i) <= statics_total(statics, n),
    decreases n - i,
{
    if i < n {
        lemma_total_grows(statics, i, n - 1);
    }
}


/// The lints of one kernel, before sorting: its RC003 errors, its RC004
/// error if any, then its RC005 warnings.
pub open spec fn kernel_lints_ok(
    kernel: Seq<char>,
    item_span: SourceSpan,
    params: Seq<KernelParam>,
    statics: Seq<SharedStatic>,
    cc: Option<ComputeCapability>,
    calls: Seq<(IndexFn, LaunchDomain)>,
    r: Seq<Finding>,
) -> bool {
    let p3 = mut_slice_params(params, params.len() as int);
    let n3 = p3.len() as int;
    let over = statics_total(statics, statics.len() as int) > STATIC_SHARED_LIMIT_BYTES;
    let n4: int = if over { 1 } else { 0 };
    let p5 = reported_pairs(calls);
    &&& r.len() == n3 + n4 + p5.len()
    &&& forall|k: int| 0 <= k < n3 ==> rc003_finding(kernel, (#[trigger] p3[k]).span, p3[k].mut_slice_of->Some_0@, r[k])
    &&& over ==> rc004_spec(kernel, item_span, statics, cc, r[n3])
    &&& forall|k: int| 0 <= k < p5.len() ==> rc005_finding(kernel, item_span, #[trigger] p5[k], r[n3 + n4 + k])
}

/// The syntactic lints (RC003, RC004, RC005) of one kernel declared at
/// `item_span`, in that order: its parameters, the shared statics its body
/// references, the target compute capability, and its index-witness calls.
pub fn kernel_lints(
    kernel: &str,
    item_span: &SourceSpan,
    params: &Vec<KernelParam>,
    statics: &Vec<SharedStatic>,
    cc: Option<ComputeCapability>,
    calls: &Vec<(IndexFn, LaunchDomain)>,
) -> (r: Vec<Finding>)
    requires
        statics_total(statics@, statics.len() as int) <= u64::MAX,
    ensures
        kernel_lints_ok(kernel@, *item_span, params@, statics@, cc, calls@, r@),
{
    let mut out = rc003_findings(kernel, params);
    let ghost o3 = out@;
    match rc004_finding(kernel, item_span, statics, cc) {
        Some(f) => out.push(f),
        None => {},
    }
    let ghost o4 = out@;
    let mut five = rc005_findings(kernel, item_span, calls);
    let ghost o5 = five@;
    out.append(&mut five);
    proof {
        let p3 = mut_slice_params(params@, params.len() as int);
        assert forall|k: int| 0 <= k < p3.len() implies rc003_finding(
            kernel@,
            (#[trigger] p3[k]).span,
            p3[k].mut_slice_of->Some_0@,
            out@[k],
        ) by {
            assert(out@[k] == o4[k]);
            assert(o4[k] == o3[k]);
        }
        let p5 = reported_pairs(calls@);
        assert forall|k: int| 0 <= k < p5.len() implies rc005_finding(kernel@, *item_span, #[trigger] p5[k], out@[o4.len() + k]) by {
            assert(out@[o4.len() + k] == o5[k]);
        }
    }
    out
}

/// The syntactic lints of a crate's kernels, each given as its name, item
/// span, parameters, shared statics and index-witness calls, in the order
/// findings are written: by file, line, column and code, ties kept in
/// kernel order.
pub fn run_lints(
    kernels: &Vec<(String, SourceSpan, Vec<KernelParam>, Vec<SharedStatic>, Vec<(IndexFn, LaunchDomain)>)>,
    cc: Option<ComputeCapability>,
) -> (r: Vec<Finding>)
    requires
        forall|i: int| 0 <= i < kernels.len() ==> statics_total((#[trigger] kernels@[i]).3@, kernels@[i].3.len() as int) <= u64::MAX,
    ensures
        exists|all: Seq<Finding>|
            #[trigger] lints_of(kernels@, cc, all) && r@ == stable_sorted(all),
{
    let mut all: Vec<Finding> = Vec::new();
    let ghost mut parts: Seq<Seq<Finding>> = Seq::empty();
    let mut i: usize = 0;
    while i < kernels.len()
        invariant
            i <= kernels.len(),
            forall|j: int| 0 <= j < kernels.len() ==> statics_total((#[trigger] kernels@[j]).3@, kernels@[j].3.len() as int) <= u64::MAX,
            parts.len() == i,
            all@ == flat(parts),
            forall|j: int|
                0 <= j < i ==> {
                    let k = #[trigger] kernels@[j];
                    kernel_lints_ok(k.0@, k.1, k.2@, k.3@, cc, k.4@, parts[j])
                },
        decreases kernels.len() - i,
    {
        let k = &kernels[i];
        let mut found = kernel_lints(k.0.as_str(), &k.1, &k.2, &k.3, cc, &k.4);
        let ghost fv = found@;
        let ghost before = all@;
        all.append(&mut found);
        proof {
            let p0 = parts;
            parts = parts.push(fv);
            assert(flat(parts.drop_last()) == flat(p0)) by {
                assert(parts.drop_last() =~= p0);
            }
            assert forall|j: int| 0 <= j < i + 1 implies {
                let k = #[trigger] kernels@[j];
                kernel_lints_ok(k.0@, k.1, k.2@, k.3@, cc, k.4@, parts[j])
            } by {
                if j < i {
                    assert(parts[j] == p0[j]);
                }
            }
        }
        i = i + 1;
    }
    let ghost unsorted = all@;
    sort_findings(&mut all);
    proof {
        assert(lints_of(kernels@, cc, unsorted)) by {
            assert(parts.len() == kernels.len());
        }
    }
    all
}

/// The pieces of a list, one after another.
pub open spec fn flat(parts: Seq<Seq<Finding>>) -> Seq<Finding>
    decreases parts.len(),
{
    if parts.len() == 0 {
        Seq::empty()
    } else {
        flat(parts.drop_last()) + parts.last()
    }
}

/// `all` is each kernel's lints, kernel after kernel.
pub open spec fn lints_of(
    kernels: Seq<(String, SourceSpan, Vec<KernelParam>, Vec<SharedStatic>, Vec<(IndexFn, LaunchDomain)>)>,
    cc: Option<ComputeCapability>,
    all: Seq<Finding>,
) -> bool {
    exists|parts: Seq<Seq<Finding>>|
        {
            &&& parts.len() == kernels.len()
            &&& #[trigger] flat(parts) == all
            &&& forall|j: int|
                0 <= j < kernels.len() ==> {
                    let k = #[trigger] kernels[j];
                    kernel_lints_ok(k.0@, k.1, k.2@, k.3@, cc, k.4@, parts[j])
                }
        }
}

} // verus!
