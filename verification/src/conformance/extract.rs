//! Extraction: the kernel side of an upstream example as a kernel-only
//! library.
//!
//! The library keeps the example's license header (its leading comment
//! lines), its inner attributes, the top-level items its kernel modules
//! reach through `use super::*` (`use` items rooted at `core`, `std` or
//! `cuda_device`; type-and-value items; `#[device]` functions), and each
//! `#[cuda_module]` module with inline content, from its `mod` keyword on.
//! Plain host functions stay behind. The parser reports the file's top
//! level as [`TopItem`]s, positions in characters.
use vstd::prelude::*;

use super::sites::{has_attr, spec_has_attr};
use crate::text::{lines_of, owned, push_str, starts_with, str_eq, str_views, text_lines, trim_str, trimmed};

verus! {

/// What kind of top-level item the parser found.
pub enum TopItemKind {
    /// A `use` item; `root` is the first path segment, when the tree starts
    /// with one (`use core::…`).
    Use { root: Option<String> },
    /// A `const`, `static`, `type`, `struct`, `enum`, `union`, `trait`,
    /// `impl`, macro item or `extern` block.
    Definition,
    /// A function, with the last path segment of each outer attribute.
    Fn { attrs: Vec<String> },
    /// A module, with the last path segment of each outer attribute and,
    /// when it has inline content, where its `mod` keyword starts.
    Mod { attrs: Vec<String>, inline_from: Option<usize> },
    /// Anything else.
    Other,
}

/// One top-level item: its kind and the characters it spans.
pub struct TopItem {
    pub kind: TopItemKind,
    pub range: (usize, usize),
}

/// A range of characters of a text of `len` characters.
pub open spec fn range_fits(r: (usize, usize), len: nat) -> bool {
    r.0 <= r.1 <= len
}

/// Every range the parser reported lies in a text of `len` characters, a
/// module's `mod` keyword inside the module.
pub open spec fn parts_fit(len: nat, inner_attrs: Seq<(usize, usize)>, items: Seq<TopItem>) -> bool {
    &&& forall|i: int| 0 <= i < inner_attrs.len() ==> range_fits(#[trigger] inner_attrs[i], len)
    &&& forall|i: int|
        0 <= i < items.len() ==> {
            &&& range_fits((#[trigger] items[i]).range, len)
            &&& items[i].kind matches TopItemKind::Mod { inline_from: Some(a), .. } ==> items[i].range.0 <= a <= items[i].range.1
        }
}

/// Whether the parser's ranges fit `source`.
pub fn check_parts(source: &str, inner_attrs: &Vec<(usize, usize)>, items: &Vec<TopItem>) -> (r: bool)
    ensures
        r == parts_fit(source@.len(), inner_attrs@, items@),
{
    let len = source.unicode_len();
    let mut i: usize = 0;
    while i < inner_attrs.len()
        invariant
            len == source@.len(),
            i <= inner_attrs.len(),
            forall|j: int| 0 <= j < i ==> range_fits(#[trigger] inner_attrs@[j], len as nat),
        decreases inner_attrs.len() - i,
    {
        if !(inner_attrs[i].0 <= inner_attrs[i].1 && inner_attrs[i].1 <= len) {
            return false;
        }
        i = i + 1;
    }
    let mut k: usize = 0;
    while k < items.len()
        invariant
            len == source@.len(),
            k <= items.len(),
            forall|j: int| 0 <= j < inner_attrs.len() ==> range_fits(#[trigger] inner_attrs@[j], len as nat),
            forall|j: int|
                0 <= j < k ==> {
                    &&& range_fits((#[trigger] items@[j]).range, len as nat)
                    &&& items@[j].kind matches TopItemKind::Mod { inline_from: Some(a), .. } ==> items@[j].range.0 <= a
                        <= items@[j].range.1
                },
        decreases items.len() - k,
    {
        let r = items[k].range;
        if !(r.0 <= r.1 && r.1 <= len) {
            return false;
        }
        if let TopItemKind::Mod { inline_from: Some(a), .. } = &items[k].kind {
            if !(r.0 <= *a && *a <= r.1) {
                return false;
            }
        }
        k = k + 1;
    }
    true
}

/// A line of the license header: a comment line of a block comment.
pub open spec fn is_header_line(l: Seq<char>) -> bool {
    let t = trimmed(l);
    "/*"@.is_prefix_of(t) || "*"@.is_prefix_of(t) || "*/"@.is_prefix_of(t)
}

/// How many of the first lines of `ls` are header lines, up to `n`.
pub open spec fn header_count(ls: Seq<Seq<char>>, n: int) -> int
    decreases n,
{
    if n <= 0 {
        0
    } else if header_count(ls, n - 1) == n - 1 && is_header_line(ls[n - 1]) {
        n
    } else {
        header_count(ls, n - 1)
    }
}

/// The header lines, each ended by a newline.
pub open spec fn header_text(ls: Seq<Seq<char>>, k: int) -> Seq<char>
    decreases k,
{
    if k <= 0 {
        Seq::empty()
    } else {
        header_text(ls, k - 1) + ls[k - 1] + "\n"@
    }
}

/// Whether a `use` item's root is one the kernels may rely on.
pub open spec fn allowed_root(root: Option<String>) -> bool {
    root matches Some(r) && (r@ == "core"@ || r@ == "std"@ || r@ == "cuda_device"@)
}

/// Whether an item is carried into the library as it stands.
pub open spec fn carried(item: TopItem) -> bool {
    match item.kind {
        TopItemKind::Use { root } => allowed_root(root),
        TopItemKind::Definition => true,
        TopItemKind::Fn { attrs } => spec_has_attr(str_views(attrs@), "device"@),
        _ => false,
    }
}

/// Whether an item is a kernel module to carry, from its `mod` keyword.
pub open spec fn kernel_module(item: TopItem) -> bool {
    item.kind matches TopItemKind::Mod { attrs, inline_from } && spec_has_attr(str_views(attrs@), "cuda_module"@)
        && inline_from is Some
}

/// The texts of the first `n` ranges, each followed by a newline.
pub open spec fn ranges_text(source: Seq<char>, rs: Seq<(usize, usize)>, n: int) -> Seq<char>
    decreases n,
{
    if n <= 0 {
        Seq::empty()
    } else {
        ranges_text(source, rs, n - 1) + source.subrange(rs[n - 1].0 as int, rs[n - 1].1 as int) + "\n"@
    }
}

/// The carried items among the first `n`, each followed by a newline.
pub open spec fn carried_text(source: Seq<char>, items: Seq<TopItem>, n: int) -> Seq<char>
    decreases n,
{
    if n <= 0 {
        Seq::empty()
    } else if carried(items[n - 1]) {
        carried_text(source, items, n - 1) + source.subrange(items[n - 1].range.0 as int, items[n - 1].range.1 as int)
            + "\n"@
    } else {
        carried_text(source, items, n - 1)
    }
}

/// The kernel modules among the first `n`, each from its `mod` keyword
/// and followed by a newline.
pub open spec fn modules_text(source: Seq<char>, items: Seq<TopItem>, n: int) -> Seq<char>
    decreases n,
{
    if n <= 0 {
        Seq::empty()
    } else if kernel_module(items[n - 1]) {
        modules_text(source, items, n - 1) + source.subrange(
            items[n - 1].kind->Mod_inline_from->Some_0 as int,
            items[n - 1].range.1 as int,
        ) + "\n"@
    } else {
        modules_text(source, items, n - 1)
    }
}

/// Whether one of the first `n` items is a kernel module.
pub open spec fn has_module(items: Seq<TopItem>, n: int) -> bool {
    exists|i: int| 0 <= i < n && kernel_module(#[trigger] items[i])
}

/// The first line of every extracted library.
pub const MARK_LINE: &'static str = "// Extracted by reconverge's conformance-extractor; device side only.\n";

/// The lint allowance every extracted library carries.
pub const ALLOW_LINE: &'static str = "#![allow(dead_code, unused_imports)]\n\n";

/// Why an example yields no library.
pub const NO_MODULE: &'static str = "no #[cuda_module] mod with inline content";

/// The library extracted from `source`, whose inner attributes span
/// `inner_attrs` and whose top-level items are `items`, in file order.
pub open spec fn spec_extract(source: Seq<char>, inner_attrs: Seq<(usize, usize)>, items: Seq<TopItem>) -> Result<Seq<char>, Seq<char>> {
    let ls = text_lines(source);
    let n = items.len() as int;
    if !has_module(items, n) {
        Err(NO_MODULE@)
    } else {
        Ok(header_text(ls, header_count(ls, ls.len() as int)) + MARK_LINE@ + ranges_text(
            source,
            inner_attrs,
            inner_attrs.len() as int,
        ) + ALLOW_LINE@ + carried_text(source, items, n) + "\n"@ + modules_text(source, items, n))
    }
}

fn is_header(line: &str) -> (r: bool)
    ensures
        r == is_header_line(line@),
{
    let t = trim_str(line);
    starts_with(t, "/*") || starts_with(t, "*") || starts_with(t, "*/")
}

fn is_carried(item: &TopItem) -> (r: bool)
    ensures
        r == carried(*item),
{
    match &item.kind {
        TopItemKind::Use { root } => match root {
            Some(r) => str_eq(r.as_str(), "core") || str_eq(r.as_str(), "std") || str_eq(r.as_str(), "cuda_device"),
            None => false,
        },
        TopItemKind::Definition => true,
        TopItemKind::Fn { attrs } => has_attr(attrs, "device"),
        _ => false,
    }
}

/// Build the conformance crate's `lib.rs` from an example's `main.rs`, given
/// what the parser reported of its top level: the example's header, a
/// marker line, its inner attributes, a lint allowance, the carried items,
/// and its kernel modules, each on its own line; an error when it has no
/// kernel module.
pub fn lib_rs_from_parts(source: &str, inner_attrs: &Vec<(usize, usize)>, items: &Vec<TopItem>) -> (r: Result<String, String>)
    requires
        parts_fit(source@.len(), inner_attrs@, items@),
    ensures
        r matches Ok(s) ==> spec_extract(source@, inner_attrs@, items@) == Ok::<Seq<char>, Seq<char>>(s@),
        r matches Err(e) ==> spec_extract(source@, inner_attrs@, items@) == Err::<Seq<char>, Seq<char>>(e@),
{
    let ghost src = source@;
    let n = items.len();
    let mut carried_s = String::new();
    let mut modules_s = String::new();
    let mut found = false;
    let mut i: usize = 0;
    while i < n
        invariant
            n == items.len(),
            src == source@,
            parts_fit(src.len(), inner_attrs@, items@),
            i <= n,
            carried_s@ == carried_text(src, items@, i as int),
            modules_s@ == modules_text(src, items@, i as int),
            found == has_module(items@, i as int),
        decreases n - i,
    {
        let item = &items[i];
        assert(range_fits(items@[i as int].range, src.len()));
        if is_carried(item) {
            push_str(&mut carried_s, source.substring_char(item.range.0, item.range.1));
            push_str(&mut carried_s, "\n");
        }
        if let TopItemKind::Mod { attrs, inline_from: Some(a) } = &item.kind {
            if has_attr(attrs, "cuda_module") {
                push_str(&mut modules_s, source.substring_char(*a, item.range.1));
                push_str(&mut modules_s, "\n");
                found = true;
            }
        }
        proof {
            if kernel_module(items@[i as int]) {
                assert(has_module(items@, i + 1));
            }
            if has_module(items@, i + 1) && !kernel_module(items@[i as int]) {
                let j = choose|j: int| 0 <= j < i + 1 && kernel_module(#[trigger] items@[j]);
                assert(has_module(items@, i as int));
            }
            if has_module(items@, i as int) {
                let j = choose|j: int| 0 <= j < i && kernel_module(#[trigger] items@[j]);
                assert(has_module(items@, i + 1));
            }
        }
        i = i + 1;
    }
    if !found {
        return Err(owned(NO_MODULE));
    }
    let lines = lines_of(source);
    let ghost ls = text_lines(src);
    let mut out = String::new();
    let mut k: usize = 0;
    let mut header_done = false;
    while k < lines.len()
        invariant
            str_views(lines@) == ls,
            k <= lines.len(),
            header_done ==> header_count(ls, k as int) < k as int,
            !header_done ==> header_count(ls, k as int) == k as int,
            out@ == header_text(ls, header_count(ls, k as int)),
        decreases lines.len() - k,
    {
        assert(str_views(lines@)[k as int] == lines@[k as int]@);
        if !header_done && is_header(lines[k].as_str()) {
            push_str(&mut out, lines[k].as_str());
            push_str(&mut out, "\n");
        } else {
            header_done = true;
        }
        k = k + 1;
    }
    push_str(&mut out, MARK_LINE);
    let mut a: usize = 0;
    let ghost head = out@;
    while a < inner_attrs.len()
        invariant
            src == source@,
            parts_fit(src.len(), inner_attrs@, items@),
            a <= inner_attrs.len(),
            out@ == head + ranges_text(src, inner_attrs@, a as int),
        decreases inner_attrs.len() - a,
    {
        assert(range_fits(inner_attrs@[a as int], src.len()));
        let r = inner_attrs[a];
        push_str(&mut out, source.substring_char(r.0, r.1));
        push_str(&mut out, "\n");
        proof {
            assert(out@ =~= head + ranges_text(src, inner_attrs@, a + 1));
        }
        a = a + 1;
    }
    push_str(&mut out, ALLOW_LINE);
    push_str(&mut out, carried_s.as_str());
    push_str(&mut out, "\n");
    push_str(&mut out, modules_s.as_str());
    proof {
        assert(out@ =~= header_text(ls, header_count(ls, ls.len() as int)) + MARK_LINE@ + ranges_text(
            src,
            inner_attrs@,
            inner_attrs.len() as int,
        ) + ALLOW_LINE@ + carried_text(src, items@, n as int) + "\n"@ + modules_text(src, items@, n as int));
    }
    Ok(out)
}

} // verus!
