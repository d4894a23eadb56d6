//! Reading an example's top level with `syn`: what extraction keeps, as
//! plain values. Each reading of the parsed file below is a function of the
//! text alone and is named as such; the verified code turns positions into
//! characters, decides which items are carried, and extracts.
use vstd::prelude::*;

use super::extract::{check_parts, lib_rs_from_parts, parts_fit, spec_extract, TopItem, TopItemKind};
use super::mutate::{char_line_starts, char_of, line_starts, spec_char_of, LineColumn};
use crate::artifacts::findings::opt_view;
use crate::model::names_view;
use crate::text::{owned, push_str, str_views};
use syn::spanned::Spanned;
use syn::{Item as SynItem, UseTree};
use self::SynItemKind as K;

verus! {

#[verifier::external_type_specification]
#[verifier::external_body]
pub struct ExFile(syn::File);

/// A text together with `syn`'s parse of it. Only [`parse_rust_file`]
/// makes one, so the tree is always the parse of the text.
struct ParsedFile {
    file: syn::File,
    text: String,
}

/// The variants of `syn::Item`, one for one.
#[derive(Debug, Clone, Copy, PartialEq, Eq, Structural)]
pub enum SynItemKind {
    Const,
    Enum,
    ExternCrate,
    Fn,
    ForeignMod,
    Impl,
    Macro,
    Mod,
    Static,
    Struct,
    Trait,
    TraitAlias,
    Type,
    Union,
    Use,
    Verbatim,
}

/// Whether `syn` parses a text as a Rust source file.
pub uninterp spec fn spec_parses(source: Seq<char>) -> bool;

/// Where `syn` says the inner attributes of a parsed text start and end.
pub uninterp spec fn spec_syn_inner_attrs(source: Seq<char>) -> Seq<(LineColumn, LineColumn)>;

/// How many top-level items `syn` reads in a parsed text.
pub uninterp spec fn spec_syn_item_count(source: Seq<char>) -> nat;

/// Where `syn` says top-level item `k` of a parsed text starts and ends.
pub uninterp spec fn spec_syn_item_span(source: Seq<char>, k: int) -> Option<(LineColumn, LineColumn)>;

/// Which variant of `syn::Item` top-level item `k` of a parsed text is.
pub uninterp spec fn spec_syn_item_kind(source: Seq<char>, k: int) -> Option<SynItemKind>;

/// The last path segment of each outer attribute of top-level item `k`
/// when it is a function or a module.
pub uninterp spec fn spec_syn_item_attrs(source: Seq<char>, k: int) -> Seq<Option<Seq<char>>>;

/// The first segment of top-level item `k`'s tree when it is a `use` item
/// whose tree starts with a path.
pub uninterp spec fn spec_syn_use_root(source: Seq<char>, k: int) -> Option<Seq<char>>;

/// Where the `mod` keyword of top-level item `k` starts and whether the
/// module has inline content, when the item is a module.
pub uninterp spec fn spec_syn_module(source: Seq<char>, k: int) -> Option<(LineColumn, bool)>;

/// `syn::parse_file`: the parse of `source`, or the parser's message.
/// Whether a text parses depends on the text alone; the message is not
/// described.
#[verifier::external_body]
fn parse_rust_file(source: &str) -> (r: Result<ParsedFile, String>)
    ensures
        r is Ok <==> spec_parses(source@),
        r matches Ok(p) ==> p.text@ == source@,
{
    syn::parse_file(source).map(|file| ParsedFile { file, text: source.to_string() }).map_err(|e| e.to_string())
}

/// The spans of the file's inner attributes (`syn::File::attrs`, each
/// through `Spanned::span`): 1-based lines, 0-based character columns.
#[verifier::external_body]
fn syn_inner_attrs(p: &ParsedFile) -> (r: Vec<(LineColumn, LineColumn)>)
    ensures
        r@ == spec_syn_inner_attrs(p.text@),
{
    let at = |q: proc_macro2::LineColumn| LineColumn { line: q.line, column: q.column };
    p.file.attrs.iter().map(|a| (at(a.span().start()), at(a.span().end()))).collect()
}

/// How many top-level items the file has (`syn::File::items`).
#[verifier::external_body]
fn syn_item_count(p: &ParsedFile) -> (r: usize)
    ensures
        r == spec_syn_item_count(p.text@),
{
    p.file.items.len()
}

/// The span of item `k` (`Spanned::span`), if there is such an item.
#[verifier::external_body]
fn syn_item_span(p: &ParsedFile, k: usize) -> (r: Option<(LineColumn, LineColumn)>)
    ensures
        r == spec_syn_item_span(p.text@, k as int),
{
    let at = |q: proc_macro2::LineColumn| LineColumn { line: q.line, column: q.column };
    p.file.items.get(k).map(|item| (at(item.span().start()), at(item.span().end())))
}

/// The variant of item `k`, if there is such an item (and `syn` has no
/// variant beyond those listed).
#[verifier::external_body]
fn syn_item_kind(p: &ParsedFile, k: usize) -> (r: Option<SynItemKind>)
    ensures
        r == spec_syn_item_kind(p.text@, k as int),
{
    Some(match p.file.items.get(k)? {
        SynItem::Const(_) => K::Const, SynItem::Enum(_) => K::Enum, SynItem::ExternCrate(_) => K::ExternCrate,
        SynItem::Fn(_) => K::Fn, SynItem::ForeignMod(_) => K::ForeignMod, SynItem::Impl(_) => K::Impl,
        SynItem::Macro(_) => K::Macro, SynItem::Mod(_) => K::Mod, SynItem::Static(_) => K::Static,
        SynItem::Struct(_) => K::Struct, SynItem::Trait(_) => K::Trait, SynItem::TraitAlias(_) => K::TraitAlias,
        SynItem::Type(_) => K::Type, SynItem::Union(_) => K::Union, SynItem::Use(_) => K::Use,
        SynItem::Verbatim(_) => K::Verbatim, _ => return None,
    })
}

/// The last path segment of each outer attribute of item `k`, when it is
/// a function or a module; empty otherwise.
#[verifier::external_body]
fn syn_item_attrs(p: &ParsedFile, k: usize) -> (r: Vec<Option<String>>)
    ensures
        names_view(r@) == spec_syn_item_attrs(p.text@, k as int),
{
    let names = |a: &Vec<syn::Attribute>| a.iter().map(|x| x.path().segments.last().map(|s| s.ident.to_string())).collect();
    match p.file.items.get(k) {
        Some(SynItem::Fn(f)) => names(&f.attrs),
        Some(SynItem::Mod(m)) => names(&m.attrs),
        _ => Vec::new(),
    }
}

/// The first segment of item `k`'s tree, when it is a `use` item whose
/// tree starts with a path (`UseTree::Path`).
#[verifier::external_body]
fn syn_use_root(p: &ParsedFile, k: usize) -> (r: Option<String>)
    ensures
        opt_view(r) == spec_syn_use_root(p.text@, k as int),
{
    match p.file.items.get(k) {
        Some(SynItem::Use(u)) => match &u.tree {
            UseTree::Path(q) => Some(q.ident.to_string()),
            _ => None,
        },
        _ => None,
    }
}

/// Where the `mod` keyword of item `k` starts, and whether the module has
/// inline content, when the item is a module.
#[verifier::external_body]
fn syn_module(p: &ParsedFile, k: usize) -> (r: Option<(LineColumn, bool)>)
    ensures
        r == spec_syn_module(p.text@, k as int),
{
    match p.file.items.get(k) {
        Some(SynItem::Mod(m)) => {
            let q = m.mod_token.span.start();
            Some((LineColumn { line: q.line, column: q.column }, m.content.is_some()))
        },
        _ => None,
    }
}

/// The names among `v`, in order.
pub open spec fn present(v: Seq<Option<Seq<char>>>) -> Seq<Seq<char>>
    decreases v.len(),
{
    if v.len() == 0 {
        Seq::empty()
    } else {
        match v.last() {
            Some(s) => present(v.drop_last()).push(s),
            None => present(v.drop_last()),
        }
    }
}

/// The names among `v`, in order.
pub fn present_names(v: Vec<Option<String>>) -> (r: Vec<String>)
    ensures
        str_views(r@) == present(names_view(v@)),
{
    let mut out: Vec<String> = Vec::new();
    let mut i: usize = 0;
    assert(names_view(v@.take(0)) =~= Seq::<Option<Seq<char>>>::empty());
    while i < v.len()
        invariant
            i <= v.len(),
            str_views(out@) == present(names_view(v@.take(i as int))),
        decreases v.len() - i,
    {
        let ghost before = out@;
        proof {
            assert(names_view(v@.take(i + 1)).drop_last() =~= names_view(v@.take(i as int)));
            assert(names_view(v@.take(i + 1)).last() == names_view(v@)[i as int]);
        }
        match &v[i] {
            Some(name) => {
                out.push(name.clone());
                proof {
                    assert(str_views(out@) =~= str_views(before).push(name@));
                }
            },
            None => {},
        }
        i = i + 1;
    }
    assert(v@.take(v.len() as int) =~= v@);
    out
}

/// The variants extraction carries as they stand: type-and-value items,
/// macro items and `extern` blocks.
pub open spec fn is_definition(k: SynItemKind) -> bool {
    match k {
        SynItemKind::Const | SynItemKind::Type | SynItemKind::Static | SynItemKind::Struct | SynItemKind::Enum
        | SynItemKind::Union | SynItemKind::Trait | SynItemKind::Impl | SynItemKind::Macro
        | SynItemKind::ForeignMod => true,
        _ => false,
    }
}

fn definition(k: SynItemKind) -> (r: bool)
    ensures
        r == is_definition(k),
{
    match k {
        SynItemKind::Const | SynItemKind::Type | SynItemKind::Static | SynItemKind::Struct | SynItemKind::Enum
        | SynItemKind::Union | SynItemKind::Trait | SynItemKind::Impl | SynItemKind::Macro
        | SynItemKind::ForeignMod => true,
        _ => false,
    }
}

/// A position the parser reports lies on a line of the text.
pub open spec fn on_a_line(source: Seq<char>, pos: LineColumn) -> bool {
    1 <= pos.line <= char_line_starts(source).len()
}

/// The character offset of a position in the text.
pub open spec fn char_at(source: Seq<char>, pos: LineColumn) -> int {
    spec_char_of(char_line_starts(source), source.len(), pos)
}

/// Where the inline module that item `k` is starts, from its `mod`
/// keyword, if it is one.
pub open spec fn inline_start(source: Seq<char>, k: int) -> Option<LineColumn> {
    if spec_syn_item_kind(source, k) == Some(SynItemKind::Mod) {
        match spec_syn_module(source, k) {
            Some((p, true)) => Some(p),
            _ => None,
        }
    } else {
        None
    }
}

/// Every position `syn` reports of the parsed text lies on one of its
/// lines and spans run forwards, an inline module's `mod` keyword inside
/// the module.
pub open spec fn reading_fits(source: Seq<char>) -> bool {
    let attrs = spec_syn_inner_attrs(source);
    &&& forall|i: int|
        0 <= i < attrs.len() ==> on_a_line(source, (#[trigger] attrs[i]).0) && on_a_line(source, attrs[i].1) && char_at(
            source,
            attrs[i].0,
        ) <= char_at(source, attrs[i].1)
    &&& forall|k: int|
        0 <= k < spec_syn_item_count(source) ==> {
            &&& #[trigger] spec_syn_item_span(source, k) matches Some(sp) && on_a_line(source, sp.0) && on_a_line(
                source,
                sp.1,
            ) && char_at(source, sp.0) <= char_at(source, sp.1)
            &&& inline_start(source, k) matches Some(m) ==> on_a_line(source, m) && char_at(
                source,
                spec_syn_item_span(source, k)->Some_0.0,
            ) <= char_at(source, m) <= char_at(source, spec_syn_item_span(source, k)->Some_0.1)
        }
}

/// `attrs` are the character ranges of the parsed text's inner attributes.
pub open spec fn attrs_read(source: Seq<char>, attrs: Seq<(usize, usize)>) -> bool {
    let a = spec_syn_inner_attrs(source);
    &&& attrs.len() == a.len()
    &&& forall|i: int|
        0 <= i < a.len() ==> (#[trigger] attrs[i]).0 == char_at(source, a[i].0) && attrs[i].1 == char_at(
            source,
            a[i].1,
        )
}

/// `item` is what extraction reads of top-level item `k` of the parsed
/// text: its character range, and its kind: a `use` item with its root, a
/// function or module with its attribute names (a module with where its
/// inline content starts), a definition, or anything else.
pub open spec fn item_read(source: Seq<char>, k: int, item: TopItem) -> bool {
    &&& spec_syn_item_span(source, k) matches Some(sp) && item.range.0 == char_at(source, sp.0) && item.range.1
        == char_at(source, sp.1)
    &&& match spec_syn_item_kind(source, k) {
        Some(SynItemKind::Use) => item.kind matches TopItemKind::Use { root } && opt_view(root) == spec_syn_use_root(
            source,
            k,
        ),
        Some(SynItemKind::Fn) => item.kind matches TopItemKind::Fn { attrs } && str_views(attrs@) == present(
            spec_syn_item_attrs(source, k),
        ),
        Some(SynItemKind::Mod) => item.kind matches TopItemKind::Mod { attrs, inline_from } && str_views(attrs@)
            == present(spec_syn_item_attrs(source, k)) && match inline_start(source, k) {
            Some(m) => inline_from == Some(char_at(source, m) as usize),
            None => inline_from is None,
        },
        Some(x) => if is_definition(x) {
            item.kind is Definition
        } else {
            item.kind is Other
        },
        None => item.kind is Other,
    }
}

/// Why a parsed file yields no library although it parsed: a position
/// outside the text.
pub const OUTSIDE: &'static str = "the parser reported a position outside the source";

fn offset(starts: &Vec<usize>, source: &str, pos: LineColumn) -> (r: Option<usize>)
    requires
        starts@ == char_line_starts(source@),
    ensures
        r is Some <==> on_a_line(source@, pos),
        r matches Some(x) ==> x == char_at(source@, pos),
{
    if pos.line >= 1 && pos.line <= starts.len() {
        Some(char_of(starts, source, pos))
    } else {
        None
    }
}

proof fn lemma_char_at_bounded(source: Seq<char>, pos: LineColumn)
    ensures
        0 <= char_at(source, pos) <= source.len(),
{
}

/// Build the conformance crate's `lib.rs` from an example's `main.rs`:
/// parse it, read its top level, and extract (see [`lib_rs_from_parts`]). A
/// text `syn` does not parse gives `parse error: ` and the parser's
/// message; a parsed one whose reading fits the text gives exactly what
/// extraction gives for the inner attributes and items `syn` reads, and
/// one whose reading does not gives [`OUTSIDE`].
pub fn extract_lib_rs(source: &str) -> (r: Result<String, String>)
    requires
        source@.len() < usize::MAX,
    ensures
        !spec_parses(source@) ==> (r matches Err(e) && "parse error: "@.is_prefix_of(e@)),
        spec_parses(source@) && !reading_fits(source@) ==> (r matches Err(e) && e@ == OUTSIDE@),
        spec_parses(source@) && reading_fits(source@) ==> exists|attrs: Seq<(usize, usize)>, items: Seq<TopItem>|
            {
                &&& attrs_read(source@, attrs)
                &&& items.len() == spec_syn_item_count(source@)
                &&& forall|k: int| 0 <= k < items.len() ==> item_read(source@, k, #[trigger] items[k])
                &&& #[trigger] spec_extract(source@, attrs, items) == match r {
                    Ok(s) => Ok::<Seq<char>, Seq<char>>(s@),
                    Err(e) => Err::<Seq<char>, Seq<char>>(e@),
                }
            },
{
    let parsed = match parse_rust_file(source) {
        Ok(p) => p,
        Err(e) => {
            let mut m = owned("parse error: ");
            push_str(&mut m, e.as_str());
            return Err(m);
        },
    };
    let ghost src = source@;
    let starts = line_starts(source);
    let spans = syn_inner_attrs(&parsed);
    let mut attrs: Vec<(usize, usize)> = Vec::new();
    let mut i: usize = 0;
    while i < spans.len()
        invariant
            src == source@,
            starts@ == char_line_starts(src),
            spec_parses(src),
            spans@ == spec_syn_inner_attrs(src),
            i <= spans.len(),
            attrs.len() == i,
            forall|j: int| 0 <= j < i ==> attr_conv(src, spans@[j], #[trigger] attrs@[j]),
        decreases spans.len() - i,
    {
        let (a, b) = match (offset(&starts, source, spans[i].0), offset(&starts, source, spans[i].1)) {
            (Some(a), Some(b)) => (a, b),
            _ => {
                assert(!reading_fits(src)) by {
                    assert(spec_syn_inner_attrs(src)[i as int] == spans@[i as int]);
                }
                return Err(owned(OUTSIDE));
            },
        };
        assert(on_a_line(src, spans@[i as int].0));
        assert(on_a_line(src, spans@[i as int].1));
        assert(a == char_at(src, spans@[i as int].0));
        assert(b == char_at(src, spans@[i as int].1));
        let ghost before = attrs@;
        attrs.push((a, b));
        proof {
            assert forall|j: int| 0 <= j < i + 1 implies attr_conv(src, spans@[j], #[trigger] attrs@[j]) by {
                if j < i {
                    assert(attrs@[j] == before[j]);
                }
            }
        }
        i = i + 1;
    }
    let n = syn_item_count(&parsed);
    let mut items: Vec<TopItem> = Vec::new();
    let mut k: usize = 0;
    while k < n
        invariant
            src == source@,
            parsed.text@ == src,
            starts@ == char_line_starts(src),
            spec_parses(src),
            n == spec_syn_item_count(src),
            k <= n,
            items.len() == k,
            forall|j: int| 0 <= j < k ==> item_read(src, j, #[trigger] items@[j]),
            forall|j: int|
                0 <= j < k ==> ((#[trigger] spec_syn_item_span(src, j)) matches Some(sp) && on_a_line(src, sp.0)
                    && on_a_line(src, sp.1) && (inline_start(src, j) matches Some(m) ==> on_a_line(src, m))),
        decreases n - k,
    {
        let span = syn_item_span(&parsed, k);
        let (s, e) = match span {
            Some(x) => x,
            None => {
                assert(!reading_fits(src)) by {
                    assert(spec_syn_item_span(src, k as int) is None);
                }
                return Err(owned(OUTSIDE));
            },
        };
        let range = match (offset(&starts, source, s), offset(&starts, source, e)) {
            (Some(a), Some(b)) => (a, b),
            _ => {
                assert(!reading_fits(src)) by {
                    assert(spec_syn_item_span(src, k as int) == Some((s, e)));
                }
                return Err(owned(OUTSIDE));
            },
        };
        let kind = match syn_item_kind(&parsed, k) {
            Some(SynItemKind::Use) => TopItemKind::Use { root: syn_use_root(&parsed, k) },
            Some(SynItemKind::Fn) => TopItemKind::Fn { attrs: present_names(syn_item_attrs(&parsed, k)) },
            Some(SynItemKind::Mod) => {
                let names = present_names(syn_item_attrs(&parsed, k));
                let inline_from = match syn_module(&parsed, k) {
                    Some((p, true)) => match offset(&starts, source, p) {
                        Some(x) => Some(x),
                        None => {
                            assert(!reading_fits(src)) by {
                                assert(inline_start(src, k as int) == Some(p));
                                assert(spec_syn_item_span(src, k as int) is Some);
                            }
                            return Err(owned(OUTSIDE));
                        },
                    },
                    _ => None,
                };
                TopItemKind::Mod { attrs: names, inline_from }
            },
            Some(x) => if definition(x) {
                TopItemKind::Definition
            } else {
                TopItemKind::Other
            },
            None => TopItemKind::Other,
        };
        let item = TopItem { kind, range };
        assert(item_read(src, k as int, item));
        items.push(item);
        proof {
            assert forall|j: int| 0 <= j < k + 1 implies item_read(src, j, #[trigger] items@[j]) by {}
        }
        k = k + 1;
    }
    let fits = check_parts(source, &attrs, &items);
    proof {
        assert(attrs_read(src, attrs@));
        assert(fits == reading_fits(src)) by {
            if fits {
                assert forall|j: int| 0 <= j < spans.len() implies on_a_line(src, (#[trigger] spec_syn_inner_attrs(src)[j]).0)
                    && on_a_line(src, spec_syn_inner_attrs(src)[j].1) && char_at(src, spec_syn_inner_attrs(src)[j].0)
                    <= char_at(src, spec_syn_inner_attrs(src)[j].1) by {
                    assert(attrs@[j].0 <= attrs@[j].1);
                }
                assert forall|j: int| 0 <= j < n implies {
                    &&& #[trigger] spec_syn_item_span(src, j) matches Some(sp) && on_a_line(src, sp.0) && on_a_line(src, sp.1)
                        && char_at(src, sp.0) <= char_at(src, sp.1)
                    &&& inline_start(src, j) matches Some(m) ==> on_a_line(src, m) && char_at(
                        src,
                        spec_syn_item_span(src, j)->Some_0.0,
                    ) <= char_at(src, m) <= char_at(src, spec_syn_item_span(src, j)->Some_0.1)
                } by {
                    assert(item_read(src, j, items@[j]));
                    assert(items@[j].range.0 <= items@[j].range.1);
                }
            } else {
                if reading_fits(src) {
                    assert forall|j: int| 0 <= j < attrs.len() implies crate::conformance::extract::range_fits(
                        #[trigger] attrs@[j],
                        src.len(),
                    ) by {
                        assert(spec_syn_inner_attrs(src)[j] == spans@[j]);
                        lemma_char_at_bounded(src, spans@[j].1);
                    }
                    assert forall|j: int| 0 <= j < items.len() implies {
                        &&& crate::conformance::extract::range_fits((#[trigger] items@[j]).range, src.len())
                        &&& items@[j].kind matches TopItemKind::Mod { inline_from: Some(a), .. } ==> items@[j].range.0 <= a
                            <= items@[j].range.1
                    } by {
                        assert(item_read(src, j, items@[j]));
                        let sp = spec_syn_item_span(src, j)->Some_0;
                        lemma_char_at_bounded(src, sp.1);
                    }
                    assert(parts_fit(src.len(), attrs@, items@));
                }
            }
        }
    }
    if !fits {
        return Err(owned(OUTSIDE));
    }
    let r = lib_rs_from_parts(source, &attrs, &items);
    proof {
        assert(attrs_read(src, attrs@));
    }
    r
}

/// `a` is the character range of the span `sp`, both ends on a line.
spec fn attr_conv(src: Seq<char>, sp: (LineColumn, LineColumn), a: (usize, usize)) -> bool {
    on_a_line(src, sp.0) && on_a_line(src, sp.1) && a.0 == char_at(src, sp.0) && a.1 == char_at(src, sp.1)
}


} // verus!
