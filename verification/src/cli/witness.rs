//! The `witness` subcommand's rules: its flags, and which witness files
//! the 32-lane debugger is handed.
use vstd::prelude::*;

use super::args::{is_help_flag, ArgErrorView, 
    err_view, no_value_message, opt_str, opt_string, reject_value, require_value, spec_split_flag, split_flag,
    unknown_message, value_from_next, ArgError,
};
use super::check::{mentions_member, names_member};
use super::args::next_arg;
use crate::text::{contains_seq, contains_str, ends_with, owned, push_str, sort_strings, sorted_strs, starts_with, str_eq, str_views};

verus! {

/// The options of `witness`.
#[derive(Debug, Clone, PartialEq, Eq)]
pub struct WitnessOptions {
    pub ascii: bool,
    /// Only witnesses of this kernel (a file-name filter).
    pub kernel: Option<String>,
}

/// What `witness` makes of `args[i..]` with `ascii` and `kernel` read so
/// far.
pub open spec fn witness_parse_from(args: Seq<Seq<char>>, i: int, ascii: bool, kernel: Option<Seq<char>>) -> Result<
    (bool, Option<Seq<char>>),
    ArgErrorView,
>
    decreases args.len() - i,
{
    if i < 0 || i >= args.len() {
        Ok((ascii, kernel))
    } else {
        let flag = spec_split_flag(args[i]).0;
        let inline = spec_split_flag(args[i]).1;
        if flag == "--ascii"@ {
            if inline is Some {
                Err(ArgErrorView::Value(no_value_message("--ascii"@)))
            } else {
                witness_parse_from(args, i + 1, true, kernel)
            }
        } else if flag == "--kernel"@ {
            match inline {
                Some(v) => witness_parse_from(args, i + 1, ascii, Some(v)),
                None => match value_from_next("--kernel"@, next_arg(args, i)) {
                    Ok(v) => witness_parse_from(args, i + 2, ascii, Some(v)),
                    Err(m) => Err(ArgErrorView::Value(m)),
                },
            }
        } else if is_help_flag(flag) {
            Err(ArgErrorView::Help)
        } else {
            Err(ArgErrorView::Unknown(unknown_message(flag)))
        }
    }
}

impl WitnessOptions {
    /// Read `witness`'s flags.
    pub fn parse(args: &[String]) -> (r: Result<WitnessOptions, ArgError>)
        ensures
            match r {
                Ok(o) => witness_parse_from(str_views(args@), 0, false, None) == Ok::<_, ArgErrorView>(
                    (o.ascii, opt_string(o.kernel)),
                ),
                Err(e) => witness_parse_from(str_views(args@), 0, false, None) == Err::<
                    (bool, Option<Seq<char>>),
                    _,
                >(err_view(e)),
            },
    {
        let ghost a = str_views(args@);
        let mut options = WitnessOptions { ascii: false, kernel: None };
        let mut i: usize = 0;
        while i < args.len()
            invariant
                i <= args.len(),
                a == str_views(args@),
                witness_parse_from(a, 0, false, None) == witness_parse_from(
                    a,
                    i as int,
                    options.ascii,
                    opt_string(options.kernel),
                ),
            decreases args.len() - i,
        {
            let (flag, inline) = split_flag(args[i].as_str());
            assert(a[i as int] == args@[i as int]@);
            if str_eq(flag, "--ascii") {
                reject_value("--ascii", inline)?;
                options.ascii = true;
                i = i + 1;
            } else if str_eq(flag, "--kernel") {
                let at = i;
                let next = || -> (t: Option<String>)
                    ensures
                        opt_string(t) == next_arg(a, at as int),
                    {
                        if at + 1 < args.len() {
                            Some(args[at + 1].clone())
                        } else {
                            None
                        }
                    };
                let v = require_value("--kernel", inline, next)?;
                options.kernel = Some(v);
                i = if inline.is_some() {
                    i + 1
                } else {
                    i + 2
                };
            } else if ArgError::help(flag) {
                return Err(ArgError::Help);
            } else {
                return Err(ArgError::unknown(flag));
            }
        }
        Ok(options)
    }
}

/// A file the debugger reads: a witness of a current member, and of the
/// requested kernel when there is one.
pub open spec fn is_witness_input(name: Seq<char>, members: Seq<Seq<char>>, kernel: Option<Seq<char>>) -> bool {
    &&& ".json"@.is_suffix_of(name)
    &&& "witness-"@.is_prefix_of(name)
    &&& names_member(name, members)
    &&& match kernel {
        Some(k) => contains_seq(name, "-"@ + k + "-"@),
        None => true,
    }
}

/// Whether the debugger reads the file `name`.
pub fn witness_input(name: &str, members: &Vec<String>, kernel: Option<&str>) -> (r: bool)
    ensures
        r == is_witness_input(name@, str_views(members@), opt_str(kernel)),
{
    if !(ends_with(name, ".json") && starts_with(name, "witness-") && mentions_member(name, members)) {
        return false;
    }
    match kernel {
        Some(k) => {
            let mut pattern = owned("-");
            push_str(&mut pattern, k);
            push_str(&mut pattern, "-");
            contains_str(name, pattern.as_str())
        },
        None => true,
    }
}

/// The files handed to the debugger, sorted.
pub fn select_witness_inputs(names: &Vec<String>, members: &Vec<String>, kernel: Option<&str>) -> (r: Vec<String>)
    ensures
        sorted_strs(str_views(r@)),
        str_views(r@).to_multiset() == str_views(names@).filter(
            |n: Seq<char>| is_witness_input(n, str_views(members@), opt_str(kernel)),
        ).to_multiset(),
{
    let ghost m = str_views(members@);
    let ghost f = |n: Seq<char>| is_witness_input(n, m, opt_str(kernel));
    let mut picked: Vec<String> = Vec::new();
    let mut i: usize = 0;
    while i < names.len()
        invariant
            i <= names.len(),
            m == str_views(members@),
            f == (|n: Seq<char>| is_witness_input(n, m, opt_str(kernel))),
            str_views(picked@) == str_views(names@.take(i as int)).filter(f),
        decreases names.len() - i,
    {
        let ghost before = picked@;
        proof {
            assert(str_views(names@.take(i + 1)) =~= str_views(names@.take(i as int)).push(names@[i as int]@));
            str_views(names@.take(i as int)).lemma_filter_push(names@[i as int]@, f);
        }
        if witness_input(names[i].as_str(), members, kernel) {
            picked.push(names[i].clone());
            assert(str_views(picked@) =~= str_views(before).push(names@[i as int]@));
        }
        i = i + 1;
    }
    assert(names@.take(names.len() as int) =~= names@);
    sort_strings(picked)
}

/// What the "no witnesses" message adds when a kernel filter may be the
/// reason.
pub open spec fn missing_hint(kernel: Option<Seq<char>>) -> Seq<char> {
    match kernel {
        Some(k) => " (or drop `--kernel "@ + k + "` to see every witness)"@,
        None => Seq::empty(),
    }
}

/// The hint for an empty selection.
pub fn witness_missing_hint(kernel: Option<&str>) -> (r: String)
    ensures
        r@ == missing_hint(opt_str(kernel)),
{
    match kernel {
        Some(k) => {
            let mut m = owned(" (or drop `--kernel ");
            push_str(&mut m, k);
            push_str(&mut m, "` to see every witness)");
            m
        },
        None => String::new(),
    }
}

} // verus!
