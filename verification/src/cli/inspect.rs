//! The `inspect` subcommand's rules: its one flag, and which files of the
//! artifacts directory the Inspector is handed.
use vstd::prelude::*;

use super::args::{is_help_flag, ArgErrorView, err_view, unknown_message, ArgError};
use super::check::{mentions_member, names_member};
use crate::text::{sort_strings, sorted_strs, starts_with, ends_with, str_eq, str_views};

verus! {

/// The options of `inspect`.
#[derive(Debug, Clone, Copy, PartialEq, Eq)]
pub struct InspectOptions {
    pub ascii: bool,
}

/// What `inspect` makes of `args[i..]`: each argument whole, `--ascii`
/// or refused.
pub open spec fn inspect_parse_from(args: Seq<Seq<char>>, i: int, ascii: bool) -> Result<bool, ArgErrorView>
    decreases args.len() - i,
{
    if i < 0 || i >= args.len() {
        Ok(ascii)
    } else if args[i] == "--ascii"@ {
        inspect_parse_from(args, i + 1, true)
    } else if is_help_flag(args[i]) {
        Err(ArgErrorView::Help)
    } else {
        Err(ArgErrorView::Unknown(unknown_message(args[i])))
    }
}

impl InspectOptions {
    /// Read `inspect`'s flags.
    pub fn parse(args: &[String]) -> (r: Result<InspectOptions, ArgError>)
        ensures
            match r {
                Ok(o) => inspect_parse_from(str_views(args@), 0, false) == Ok::<bool, ArgErrorView>(o.ascii),
                Err(e) => inspect_parse_from(str_views(args@), 0, false) == Err::<bool, ArgErrorView>(
                    err_view(e),
                ),
            },
    {
        let ghost a = str_views(args@);
        let mut options = InspectOptions { ascii: false };
        let mut i: usize = 0;
        while i < args.len()
            invariant
                i <= args.len(),
                a == str_views(args@),
                inspect_parse_from(a, 0, false) == inspect_parse_from(a, i as int, options.ascii),
            decreases args.len() - i,
        {
            assert(a[i as int] == args@[i as int]@);
            if str_eq(args[i].as_str(), "--ascii") {
                options.ascii = true;
            } else if ArgError::help(args[i].as_str()) {
                return Err(ArgError::Help);
            } else {
                return Err(ArgError::unknown(args[i].as_str()));
            }
            i = i + 1;
        }
        Ok(options)
    }
}

/// A file the Inspector reads: a unimap or findings document of a current
/// workspace member.
pub open spec fn is_inspect_input(name: Seq<char>, members: Seq<Seq<char>>) -> bool {
    ".json"@.is_suffix_of(name) && ("unimap-"@.is_prefix_of(name) || "findings-"@.is_prefix_of(name))
        && names_member(name, members)
}

/// Whether the Inspector reads the file `name`.
pub fn inspect_input(name: &str, members: &Vec<String>) -> (r: bool)
    ensures
        r == is_inspect_input(name@, str_views(members@)),
{
    ends_with(name, ".json") && (starts_with(name, "unimap-") || starts_with(name, "findings-")) && mentions_member(
        name,
        members,
    )
}

/// The files handed to the Inspector, sorted; `None` when there is no
/// unimap among them, since the Inspector has nothing to show without one.
#[verifier::spinoff_prover]
pub fn select_inspect_inputs(names: &Vec<String>, members: &Vec<String>) -> (r: Option<Vec<String>>)
    ensures
        match r {
            Some(v) => {
                &&& sorted_strs(str_views(v@))
                &&& str_views(v@).to_multiset() == str_views(names@).filter(
                    |n: Seq<char>| is_inspect_input(n, str_views(members@)),
                ).to_multiset()
                &&& exists|k: int| 0 <= k < v.len() && "unimap-"@.is_prefix_of(#[trigger] v@[k]@)
            },
            None => forall|k: int|
                0 <= k < names.len() && is_inspect_input(#[trigger] names@[k]@, str_views(members@))
                    ==> !"unimap-"@.is_prefix_of(names@[k]@),
        },
{
    let ghost m = str_views(members@);
    let ghost f = |n: Seq<char>| is_inspect_input(n, m);
    let mut picked: Vec<String> = Vec::new();
    let mut any_unimap = false;
    let ghost mut w: int = 0;
    let mut i: usize = 0;
    while i < names.len()
        invariant
            i <= names.len(),
            m == str_views(members@),
            f == (|n: Seq<char>| is_inspect_input(n, m)),
            str_views(picked@) == str_views(names@.take(i as int)).filter(f),
            any_unimap == exists|k: int|
                0 <= k < i && is_inspect_input(#[trigger] names@[k]@, m) && "unimap-"@.is_prefix_of(names@[k]@),
            any_unimap ==> 0 <= w < picked.len() && "unimap-"@.is_prefix_of(picked@[w]@),
        decreases names.len() - i,
    {
        let ghost before = picked@;
        proof {
            assert(str_views(names@.take(i + 1)) =~= str_views(names@.take(i as int)).push(names@[i as int]@));
            str_views(names@.take(i as int)).lemma_filter_push(names@[i as int]@, f);
        }
        if inspect_input(names[i].as_str(), members) {
            if starts_with(names[i].as_str(), "unimap-") {
                any_unimap = true;
                proof {
                    w = picked.len() as int;
                }
            }
            picked.push(names[i].clone());
            assert(str_views(picked@) =~= str_views(before).push(names@[i as int]@));
            assert("unimap-"@.is_prefix_of(names@[i as int]@) ==> "unimap-"@.is_prefix_of(picked@[picked.len() - 1]@));
        }
        i = i + 1;
    }
    assert(names@.take(names.len() as int) =~= names@);
    if !any_unimap {
        return None;
    }
    let ghost unsorted = picked@;
    let sorted = sort_strings(picked);
    proof {
        let k = w;
        let x = unsorted[k]@;
        assert(str_views(unsorted)[k] == x);
        assert(str_views(unsorted).contains(x));
        vstd::seq_lib::to_multiset_contains(str_views(unsorted), x);
        vstd::seq_lib::to_multiset_contains(str_views(sorted@), x);
        let j = choose|j: int| 0 <= j < str_views(sorted@).len() && str_views(sorted@)[j] == x;
        assert(sorted@[j]@ == x);
    }
    Some(sorted)
}

} // verus!
