//! The conformance toolkit's rules: the mutation classes and the
//! diagnostic each injected bug is, which warp helpers the dialect does and
//! does not classify, the manifests of the extracted corpus, and how a
//! detection rate is printed; how a mutation run is scored; and what an
//! example's device side is. Walking the parser's tree for mutation and
//! running the corpus stay with the toolkit's binary.
use vstd::prelude::*;

pub mod corpus;
pub mod extract;
pub mod parse;
pub mod mutate;
pub mod score;
pub mod sites;

use crate::dialect::CallKind;
use crate::oxide::simt::{classify_call, spec_classify_call};
use crate::text::{decimal, ends_with, owned, push_decimal, push_str, starts_with, str_eq, str_views};

verus! {

/// The mutation operators.
#[derive(Debug, Clone, Copy, PartialEq, Eq, Structural)]
pub enum Class {
    WrapBarrier,
    DeleteBarrier,
    WrapCollective,
    ShrinkMask,
    SwapMutSlice,
}

/// The class's short name.
pub open spec fn class_slug(c: Class) -> Seq<char> {
    match c {
        Class::WrapBarrier => "wrapbar"@,
        Class::DeleteBarrier => "delbar"@,
        Class::WrapCollective => "wrapcol"@,
        Class::ShrinkMask => "shrinkmask"@,
        Class::SwapMutSlice => "mutslice"@,
    }
}

/// The diagnostic the class's injected bug is, `-` for none.
pub open spec fn class_code(c: Class) -> Seq<char> {
    match c {
        Class::WrapBarrier => "RC001"@,
        Class::DeleteBarrier => "-"@,
        Class::WrapCollective | Class::ShrinkMask => "RC002"@,
        Class::SwapMutSlice => "RC003"@,
    }
}

impl Class {
    /// The class's short name in mutant file names.
    pub fn slug(self) -> (r: &'static str)
        ensures
            r@ == class_slug(self),
    {
        match self {
            Class::WrapBarrier => "wrapbar",
            Class::DeleteBarrier => "delbar",
            Class::WrapCollective => "wrapcol",
            Class::ShrinkMask => "shrinkmask",
            Class::SwapMutSlice => "mutslice",
        }
    }

    /// The diagnostic the injected bug is; `-` where no static diagnostic
    /// exists by design (a deleted barrier is a data race, observable only
    /// dynamically).
    pub fn expected_code(self) -> (r: &'static str)
        ensures
            r@ == class_code(self),
    {
        match self {
            Class::WrapBarrier => "RC001",
            Class::DeleteBarrier => "-",
            Class::WrapCollective | Class::ShrinkMask => "RC002",
            Class::SwapMutSlice => "RC003",
        }
    }
}

/// The classes in table order.
pub open spec fn class_at(k: int) -> Class {
    if k == 0 {
        Class::WrapBarrier
    } else if k == 1 {
        Class::DeleteBarrier
    } else if k == 2 {
        Class::WrapCollective
    } else if k == 3 {
        Class::ShrinkMask
    } else {
        Class::SwapMutSlice
    }
}

/// The position of a class in table order.
pub(crate) fn class_index(c: Class) -> (r: usize)
    ensures
        r < 5,
        class_at(r as int) == c,
{
    match c {
        Class::WrapBarrier => 0,
        Class::DeleteBarrier => 1,
        Class::WrapCollective => 2,
        Class::ShrinkMask => 3,
        Class::SwapMutSlice => 4,
    }
}

/// A collective the shipped dialect classifies, asked of the dialect
/// itself so the two cannot drift.
pub fn is_classified_collective(name: &str) -> (r: bool)
    ensures
        r == (spec_classify_call("cuda_device::warp::"@ + name@) is WarpCollective),
{
    let mut path = owned("cuda_device::warp::");
    push_str(&mut path, name);
    match classify_call(path.as_str()) {
        CallKind::WarpCollective { .. } => true,
        _ => false,
    }
}

/// A collective-backed helper the dialect does not classify as a masked
/// collective site: the unmasked wrappers and the partial reducers.
pub open spec fn spec_is_unclassified_collective(name: Seq<char>) -> bool {
    ||| name == "shuffle"@
    ||| name == "ballot"@
    ||| name == "all"@
    ||| name == "any"@
    ||| name == "live_lanes_1d"@
    ||| ("shuffle_"@.is_prefix_of(name) && !"_sync"@.is_suffix_of(name))
    ||| "reduce_"@.is_prefix_of(name)
}

/// Whether a site using `name` is skipped, and counted, as unclassified.
pub fn is_unclassified_collective(name: &str) -> (r: bool)
    ensures
        r == spec_is_unclassified_collective(name@),
{
    str_eq(name, "shuffle") || str_eq(name, "ballot") || str_eq(name, "all") || str_eq(name, "any") || str_eq(
        name,
        "live_lanes_1d",
    ) || (starts_with(name, "shuffle_") && !ends_with(name, "_sync")) || starts_with(name, "reduce_")
}

/// The manifest of one extracted example crate.
pub open spec fn member_manifest_text(example: Seq<char>, cuda_device: Seq<char>) -> Seq<char> {
    "[package]\nname = \"conformance_"@ + example
        + "\"\nversion = \"0.0.0\"\nedition = \"2024\"\npublish = false\n\n[lib]\npath = \"lib.rs\"\n\n[dependencies]\ncuda-device = { path = \""@
        + cuda_device + "\" }\n"@
}

/// The manifest of one extracted example, depending on `cuda_device` (a
/// path, as displayed).
pub fn member_manifest(example: &str, cuda_device: &str) -> (r: String)
    ensures
        r@ == member_manifest_text(example@, cuda_device@),
{
    let mut s = owned("[package]\nname = \"conformance_");
    push_str(&mut s, example);
    push_str(
        &mut s,
        "\"\nversion = \"0.0.0\"\nedition = \"2024\"\npublish = false\n\n[lib]\npath = \"lib.rs\"\n\n[dependencies]\ncuda-device = { path = \"",
    );
    push_str(&mut s, cuda_device);
    push_str(&mut s, "\" }\n");
    s
}

/// One member line of the corpus workspace manifest per crate.
pub open spec fn member_lines(members: Seq<Seq<char>>) -> Seq<char>
    decreases members.len(),
{
    if members.len() == 0 {
        Seq::empty()
    } else {
        member_lines(members.drop_last()) + "    \"crates/"@ + members.last() + "\",\n"@
    }
}

/// The corpus workspace manifest.
pub open spec fn workspace_manifest_text(members: Seq<Seq<char>>) -> Seq<char> {
    "[workspace]\nresolver = \"3\"\nmembers = [\n"@ + member_lines(members) + "]\n"@
}

/// The workspace manifest listing every extracted crate.
pub fn workspace_manifest(members: &[String]) -> (r: String)
    ensures
        r@ == workspace_manifest_text(str_views(members@)),
{
    let mut manifest = owned("[workspace]\nresolver = \"3\"\nmembers = [\n");
    let ghost head = manifest@;
    let mut i: usize = 0;
    while i < members.len()
        invariant
            i <= members.len(),
            manifest@ == head + member_lines(str_views(members@).take(i as int)),
        decreases members.len() - i,
    {
        assert(str_views(members@).take(i + 1).drop_last() =~= str_views(members@).take(i as int));
        push_str(&mut manifest, "    \"crates/");
        push_str(&mut manifest, members[i].as_str());
        push_str(&mut manifest, "\",\n");
        assert(manifest@ =~= head + member_lines(str_views(members@).take(i + 1)));
        i = i + 1;
    }
    assert(str_views(members@).take(members.len() as int) =~= str_views(members@));
    push_str(&mut manifest, "]\n");
    manifest
}

/// A detection rate as the score table prints it: `n/d (p%)`, or `-`
/// when nothing was measured.
pub open spec fn percent_text(n: nat, d: nat) -> Seq<char> {
    if d == 0 {
        "-"@
    } else {
        decimal(n) + "/"@ + decimal(d) + " ("@ + decimal((n * 100) / d) + "%)"@
    }
}

/// `n` out of `d`, with the whole percentage rounded down.
pub fn percent(n: usize, d: usize) -> (r: String)
    requires
        n * 100 <= usize::MAX,
    ensures
        r@ == percent_text(n as nat, d as nat),
{
    if d == 0 {
        return owned("-");
    }
    let p = (n * 100) / d;
    let mut s = String::new();
    push_decimal(&mut s, n);
    push_str(&mut s, "/");
    push_decimal(&mut s, d);
    push_str(&mut s, " (");
    push_decimal(&mut s, p);
    push_str(&mut s, "%)");
    assert(s@ =~= percent_text(n as nat, d as nat));
    s
}

} // verus!
