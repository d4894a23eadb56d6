//! RC005: a kernel's launch contract against the index formulas it calls.
//!
//! A formula that is thread-unique only for launches of a few axes is
//! checked against the domain the kernel declares: a wider declared domain
//! is a mismatch, and no declared domain leaves uniqueness to the runtime
//! fallback. The macro rewrites every call site, so one finding stands for
//! each distinct (formula, domain) pair, and all of them point at the
//! kernel item.
use vstd::prelude::*;

use super::axes;
use crate::artifacts::findings::{Confidence, Finding, SourceSpan};
use crate::oxide::paths::{spec_contract_syntax, spec_user_name, IndexFn, LaunchDomain};
use crate::text::{decimal, owned, push_decimal, push_str};

verus! {

/// The launch axes a formula is proven for, when it depends on the shape.
pub open spec fn proven_axes(f: IndexFn) -> Option<u8> {
    match f {
        IndexFn::Index1d => Some(1u8),
        IndexFn::Index2d => Some(2u8),
        IndexFn::Index2dRuntime | IndexFn::WarpIndex => None,
    }
}

/// The axes a domain declares, when it declares any.
pub open spec fn declared_axes(d: LaunchDomain) -> Option<u8> {
    match d {
        LaunchDomain::Unknown => None,
        LaunchDomain::D1 => Some(1u8),
        LaunchDomain::D2 => Some(2u8),
        LaunchDomain::D3 => Some(3u8),
    }
}

/// A call pair RC005 reports: a shape-dependent formula under no contract,
/// or under a contract wider than the formula is proven for.
pub open spec fn reported(c: (IndexFn, LaunchDomain)) -> bool {
    match proven_axes(c.0) {
        None => false,
        Some(max) => match declared_axes(c.1) {
            None => true,
            Some(declared) => declared > max,
        },
    }
}

/// The pairs reported, in call order: each the first of its kind.
pub open spec fn reported_pairs(calls: Seq<(IndexFn, LaunchDomain)>) -> Seq<(IndexFn, LaunchDomain)>
    decreases calls.len(),
{
    if calls.len() == 0 {
        Seq::empty()
    } else {
        let rest = reported_pairs(calls.drop_last());
        let c = calls.last();
        if !calls.drop_last().contains(c) && reported(c) {
            rest.push(c)
        } else {
            rest
        }
    }
}

/// The axis words of the finding's text.
pub open spec fn axes_text(n: u8) -> Seq<char> {
    if n == 1 {
        "one axis"@
    } else {
        "two axes"@
    }
}

/// Why a missing contract leaves the witness unchecked.
pub const MISSING_CONTRACT_NOTE: &'static str = "without `#[launch_contract]` the launch shape is unknown, so the witness is only validated at runtime and is silently invalid on a mismatched launch — guarded writes are skipped with no error";

/// The message of an RC005 finding for `c` in `kernel`.
pub open spec fn rc005_message(kernel: Seq<char>, c: (IndexFn, LaunchDomain)) -> Seq<char> {
    match declared_axes(c.1) {
        Some(_) => "kernel `"@ + kernel + "` declares `"@ + spec_contract_syntax(c.1) + "` but calls `"@
            + spec_user_name(c.0) + "()`, which is thread-unique only for launches of at most "@ + axes_text(
            proven_axes(c.0)->Some_0,
        ),
        None => "kernel `"@ + kernel + "` calls `"@ + spec_user_name(c.0) + "()` without a launch contract"@,
    }
}

/// The note of an RC005 finding for `c`.
pub open spec fn rc005_note(c: (IndexFn, LaunchDomain)) -> Seq<char> {
    match declared_axes(c.1) {
        Some(d) => "on a launch that uses all "@ + decimal(d as nat)
            + " contracted axes the witness fails its runtime shape check and is silently invalid — guarded writes are skipped with no error"@,
        None => MISSING_CONTRACT_NOTE@,
    }
}

/// The help of an RC005 finding for `c`.
pub open spec fn rc005_help(c: (IndexFn, LaunchDomain)) -> Seq<char> {
    match declared_axes(c.1) {
        Some(d) => if d <= 2 {
            "use an index formula that covers "@ + axes_text(d) + ", or narrow the contract"@
        } else {
            "narrow the contract; no recognized index formula covers three axes"@
        },
        None => "declare `#[launch_contract(domain = "@ + decimal(proven_axes(c.0)->Some_0 as nat)
            + ", coordinates = u32, block = (…))]` on the kernel"@,
    }
}

/// `fd` is the RC005 warning for pair `c` of `kernel`, at the kernel item.
pub open spec fn rc005_finding(kernel: Seq<char>, span: SourceSpan, c: (IndexFn, LaunchDomain), fd: Finding) -> bool {
    &&& fd.code@ == "RC005"@
    &&& fd.confidence == Confidence::Warning
    &&& fd.message@ == rc005_message(kernel, c)
    &&& fd.kernel matches Some(k) && k@ == kernel
    &&& fd.span == span
    &&& fd.notes.len() == 1
    &&& fd.notes@[0]@ == rc005_note(c)
    &&& fd.help matches Some(h) && h@ == rc005_help(c)
    &&& fd.explain@ == "RC005"@
    &&& fd.provenance.len() == 0
}

fn same_pair(a: (IndexFn, LaunchDomain), b: (IndexFn, LaunchDomain)) -> (r: bool)
    ensures
        r == (a == b),
{
    let f = match (a.0, b.0) {
        (IndexFn::Index1d, IndexFn::Index1d) => true,
        (IndexFn::Index2d, IndexFn::Index2d) => true,
        (IndexFn::Index2dRuntime, IndexFn::Index2dRuntime) => true,
        (IndexFn::WarpIndex, IndexFn::WarpIndex) => true,
        _ => false,
    };
    let d = match (a.1, b.1) {
        (LaunchDomain::Unknown, LaunchDomain::Unknown) => true,
        (LaunchDomain::D1, LaunchDomain::D1) => true,
        (LaunchDomain::D2, LaunchDomain::D2) => true,
        (LaunchDomain::D3, LaunchDomain::D3) => true,
        _ => false,
    };
    f && d
}

/// Whether the pair at `i` occurs before it.
fn seen_before(calls: &Vec<(IndexFn, LaunchDomain)>, i: usize) -> (r: bool)
    requires
        i < calls.len(),
    ensures
        r == calls@.take(i as int).contains(calls@[i as int]),
{
    let mut j: usize = 0;
    while j < i
        invariant
            j <= i < calls.len(),
            forall|k: int| 0 <= k < j ==> calls@[k] != calls@[i as int],
        decreases i - j,
    {
        if same_pair(calls[j], calls[i]) {
            assert(calls@.take(i as int)[j as int] == calls@[i as int]);
            return true;
        }
        j = j + 1;
    }
    assert forall|k: int| 0 <= k < i implies calls@.take(i as int)[k] != calls@[i as int] by {}
    false
}

pub(crate) fn copy_span(s: &SourceSpan) -> (r: SourceSpan)
    ensures
        r == *s,
{
    SourceSpan {
        file: s.file.clone(),
        line_start: s.line_start,
        column_start: s.column_start,
        line_end: s.line_end,
        column_end: s.column_end,
    }
}

/// The RC005 finding for a reported pair.
fn rc005_one(kernel: &str, span: &SourceSpan, c: (IndexFn, LaunchDomain)) -> (r: Finding)
    requires
        reported(c),
    ensures
        rc005_finding(kernel@, *span, c, r),
{
    let user = c.0.user_name();
    let max = match c.0.max_proven_dimensions() {
        Some(m) => m,
        None => 1,
    };
    let mut message = owned("kernel `");
    push_str(&mut message, kernel);
    let mut note = String::new();
    let mut help = String::new();
    match c.1.dimensions() {
        Some(declared) => {
            push_str(&mut message, "` declares `");
            push_str(&mut message, c.1.contract_syntax());
            push_str(&mut message, "` but calls `");
            push_str(&mut message, user);
            push_str(&mut message, "()`, which is thread-unique only for launches of at most ");
            push_str(&mut message, axes(max));
            push_str(&mut note, "on a launch that uses all ");
            push_decimal(&mut note, declared as usize);
            push_str(
                &mut note,
                " contracted axes the witness fails its runtime shape check and is silently invalid — guarded writes are skipped with no error",
            );
            if declared <= 2 {
                push_str(&mut help, "use an index formula that covers ");
                push_str(&mut help, axes(declared));
                push_str(&mut help, ", or narrow the contract");
            } else {
                push_str(&mut help, "narrow the contract; no recognized index formula covers three axes");
            }
        },
        None => {
            push_str(&mut message, "` calls `");
            push_str(&mut message, user);
            push_str(&mut message, "()` without a launch contract");
            push_str(&mut note, MISSING_CONTRACT_NOTE);
            push_str(&mut help, "declare `#[launch_contract(domain = ");
            push_decimal(&mut help, max as usize);
            push_str(&mut help, ", coordinates = u32, block = (…))]` on the kernel");
        },
    }
    let mut notes: Vec<String> = Vec::new();
    notes.push(note);
    Finding {
        code: owned("RC005"),
        confidence: Confidence::Warning,
        message,
        kernel: Some(owned(kernel)),
        span: copy_span(span),
        notes,
        help: Some(help),
        explain: owned("RC005"),
        provenance: Vec::new(),
    }
}

/// RC005 for one kernel, from the (index formula, launch domain) pairs of
/// its index-witness calls in call order: one warning for the first of
/// each distinct pair whose formula depends on the launch shape and whose
/// domain is missing or wider than the formula is proven for.
pub fn rc005_findings(kernel: &str, span: &SourceSpan, calls: &Vec<(IndexFn, LaunchDomain)>) -> (r: Vec<Finding>)
    ensures
        r.len() == reported_pairs(calls@).len(),
        forall|k: int|
            0 <= k < r.len() ==> rc005_finding(kernel@, *span, #[trigger] reported_pairs(calls@)[k], r@[k]),
{
    let mut out: Vec<Finding> = Vec::new();
    let mut i: usize = 0;
    assert(calls@.take(0) =~= Seq::<(IndexFn, LaunchDomain)>::empty());
    while i < calls.len()
        invariant
            i <= calls.len(),
            out.len() == reported_pairs(calls@.take(i as int)).len(),
            forall|k: int|
                0 <= k < out.len() ==> rc005_finding(
                    kernel@,
                    *span,
                    #[trigger] reported_pairs(calls@.take(i as int))[k],
                    out@[k],
                ),
        decreases calls.len() - i,
    {
        let c = calls[i];
        let ghost pre = calls@.take(i as int);
        let ghost cur = calls@.take(i + 1);
        assert(cur.drop_last() =~= pre);
        assert(cur.last() == c);
        let seen = seen_before(calls, i);
        let shaped = match c.0.max_proven_dimensions() {
            None => false,
            Some(max) => match c.1.dimensions() {
                None => true,
                Some(declared) => declared > max,
            },
        };
        if !seen && shaped {
            let fd = rc005_one(kernel, span, c);
            out.push(fd);
            proof {
                assert(reported_pairs(cur) == reported_pairs(pre).push(c));
                assert forall|k: int| 0 <= k < out.len() implies rc005_finding(
                    kernel@,
                    *span,
                    #[trigger] reported_pairs(cur)[k],
                    out@[k],
                ) by {
                    if k < out.len() - 1 {
                        assert(reported_pairs(cur)[k] == reported_pairs(pre)[k]);
                    }
                }
            }
        } else {
            assert(reported_pairs(cur) == reported_pairs(pre));
        }
        i = i + 1;
    }
    assert(calls@.take(calls.len() as int) =~= calls@);
    out
}

} // verus!
