//! The `triage` subcommand's rules: its flags, and which files of the
//! artifacts directory the triage view is handed.
use vstd::prelude::*;

use super::args::{is_help_flag, next_arg, ArgErrorView, 
    err_view, no_value_message, opt_string, reject_value, require_value, spec_split_flag, split_flag, unknown_message,
    value_from_next, ArgError,
};
use super::check::{mentions_member, names_member};
use crate::text::{ends_with, sort_strings, sorted_strs, starts_with, str_eq, str_views};

verus! {

/// The options of `triage`.
#[derive(Debug, Clone, PartialEq, Eq)]
pub struct TriageOptions {
    pub ascii: bool,
    /// Explicit `--baseline <path>`.
    pub baseline: Option<String>,
}


/// What `triage` makes of `args[i..]` with `ascii` and `baseline` read so
/// far.
pub open spec fn triage_parse_from(args: Seq<Seq<char>>, i: int, ascii: bool, baseline: Option<Seq<char>>) -> Result<
    (bool, Option<Seq<char>>),
    ArgErrorView,
>
    decreases args.len() - i,
{
    if i < 0 || i >= args.len() {
        Ok((ascii, baseline))
    } else {
        let flag = spec_split_flag(args[i]).0;
        let inline = spec_split_flag(args[i]).1;
        if flag == "--ascii"@ {
            if inline is Some {
                Err(ArgErrorView::Value(no_value_message("--ascii"@)))
            } else {
                triage_parse_from(args, i + 1, true, baseline)
            }
        } else if flag == "--baseline"@ {
            match inline {
                Some(v) => triage_parse_from(args, i + 1, ascii, Some(v)),
                None => match value_from_next("--baseline"@, next_arg(args, i)) {
                    Ok(v) => triage_parse_from(args, i + 2, ascii, Some(v)),
                    Err(m) => Err(ArgErrorView::Value(m)),
                },
            }
        } else if is_help_flag(flag) {
            Err(ArgErrorView::Help)
        } else {
            Err(ArgErrorView::Unknown(unknown_message(flag)))
        }
    }
}

impl TriageOptions {
    /// Read `triage`'s flags.
    pub fn parse(args: &[String]) -> (r: Result<TriageOptions, ArgError>)
        ensures
            match r {
                Ok(o) => triage_parse_from(str_views(args@), 0, false, None) == Ok::<_, ArgErrorView>(
                    (o.ascii, opt_string(o.baseline)),
                ),
                Err(e) => triage_parse_from(str_views(args@), 0, false, None) == Err::<(bool, Option<Seq<char>>), _>(
                    err_view(e),
                ),
            },
    {
        let ghost a = str_views(args@);
        let mut options = TriageOptions { ascii: false, baseline: None };
        let mut i: usize = 0;
        while i < args.len()
            invariant
                i <= args.len(),
                a == str_views(args@),
                triage_parse_from(a, 0, false, None) == triage_parse_from(
                    a,
                    i as int,
                    options.ascii,
                    opt_string(options.baseline),
                ),
            decreases args.len() - i,
        {
            let (flag, inline) = split_flag(args[i].as_str());
            assert(a[i as int] == args@[i as int]@);
            if str_eq(flag, "--ascii") {
                reject_value("--ascii", inline)?;
                options.ascii = true;
                i = i + 1;
            } else if str_eq(flag, "--baseline") {
                let at = i;
                let next = || -> (t: Option<String>)
                    ensures
                        opt_string(t) == next_arg(a, at as int),
                    {
                        if at + 1 < args.len() {
                            Some(args[at + 1].clone())
                        } else {
                            None
                        }
                    };
                let v = require_value("--baseline", inline, next)?;
                options.baseline = Some(v);
                i = if inline.is_some() {
                    i + 1
                } else {
                    i + 2
                };
            } else if ArgError::help(flag) {
                return Err(ArgError::Help);
            } else {
                return Err(ArgError::unknown(flag));
            }
        }
        Ok(options)
    }
}

/// A file the triage view reads: a findings document of a current member.
pub open spec fn is_triage_input(name: Seq<char>, members: Seq<Seq<char>>) -> bool {
    ".json"@.is_suffix_of(name) && "findings-"@.is_prefix_of(name) && names_member(name, members)
}

/// Whether the triage view reads the file `name`.
pub fn triage_input(name: &str, members: &Vec<String>) -> (r: bool)
    ensures
        r == is_triage_input(name@, str_views(members@)),
{
    ends_with(name, ".json") && starts_with(name, "findings-") && mentions_member(name, members)
}

/// The files handed to the triage view, sorted.
pub fn select_triage_inputs(names: &Vec<String>, members: &Vec<String>) -> (r: Vec<String>)
    ensures
        sorted_strs(str_views(r@)),
        str_views(r@).to_multiset() == str_views(names@).filter(
            |n: Seq<char>| is_triage_input(n, str_views(members@)),
        ).to_multiset(),
{
    let ghost m = str_views(members@);
    let ghost f = |n: Seq<char>| is_triage_input(n, m);
    let mut picked: Vec<String> = Vec::new();
    let mut i: usize = 0;
    while i < names.len()
        invariant
            i <= names.len(),
            m == str_views(members@),
            f == (|n: Seq<char>| is_triage_input(n, m)),
            str_views(picked@) == str_views(names@.take(i as int)).filter(f),
        decreases names.len() - i,
    {
        let ghost before = picked@;
        proof {
            assert(str_views(names@.take(i + 1)) =~= str_views(names@.take(i as int)).push(names@[i as int]@));
            str_views(names@.take(i as int)).lemma_filter_push(names@[i as int]@, f);
        }
        if triage_input(names[i].as_str(), members) {
            picked.push(names[i].clone());
            assert(str_views(picked@) =~= str_views(before).push(names@[i as int]@));
        }
        i = i + 1;
    }
    assert(names@.take(names.len() as int) =~= names@);
    sort_strings(picked)
}

} // verus!
