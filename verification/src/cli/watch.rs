//! The `watch` subcommand's rules: its one flag (everything else belongs
//! to `check`), which files are watched, what the dashboard says, and when
//! a bounded run stops. Polling the file system and sleeping stay with
//! the binary.
use vstd::prelude::*;

use super::args::{ArgErrorView, err_view, opt_string, require_value, spec_split_flag, split_flag, value_from_next, ArgError};
use super::check::{check_view, spec_check_parse, CheckOptions, MessageFormat};
use super::args::next_arg;
use crate::artifacts::plural;
use crate::oxide::cc::{parse_usize, spec_parse_usize};
use crate::text::{decimal, ends_with, owned, push_decimal, push_str, starts_with, str_eq, str_views};

verus! {

/// The options of `watch`: those of `check`, and a bound on the runs.
#[derive(Debug, Clone, PartialEq, Eq)]
pub struct WatchOptions {
    pub check: CheckOptions,
    /// Stop after this many analysis runs.
    pub max_runs: Option<usize>,
}

/// The message for a `--max-runs` that is not a count.
pub open spec fn not_a_number_message(raw: Seq<char>) -> Seq<char> {
    "--max-runs "@ + raw + " is not a number"@
}

/// The message for `--max-runs 0`.
pub open spec fn at_least_one_message() -> Seq<char> {
    "--max-runs must be at least 1"@
}

/// `watch` reads `--max-runs` from `args[i..]` and passes every other
/// argument through to `check`, in order.
pub open spec fn watch_scan_from(
    args: Seq<Seq<char>>,
    i: int,
    pass: Seq<Seq<char>>,
    max_runs: Option<usize>,
) -> Result<(Seq<Seq<char>>, Option<usize>), ArgErrorView>
    decreases args.len() - i,
{
    if i < 0 || i >= args.len() {
        Ok((pass, max_runs))
    } else {
        let flag = spec_split_flag(args[i]).0;
        let inline = spec_split_flag(args[i]).1;
        if flag == "--max-runs"@ {
            let raw = match inline {
                Some(v) => Ok(v),
                None => value_from_next("--max-runs"@, next_arg(args, i)),
            };
            let j = if inline is Some {
                i + 1
            } else {
                i + 2
            };
            match raw {
                Err(m) => Err(ArgErrorView::Value(m)),
                Ok(r) => match spec_parse_usize(r) {
                    None => Err(ArgErrorView::Value(not_a_number_message(r))),
                    Some(n) => if n == 0 {
                        Err(ArgErrorView::Value(at_least_one_message()))
                    } else {
                        watch_scan_from(args, j, pass, Some(n))
                    },
                },
            }
        } else {
            watch_scan_from(args, i + 1, pass.push(args[i]), max_runs)
        }
    }
}

/// What `watch` makes of its arguments: the options of `check` from the
/// passed-through ones, and the bound.
pub open spec fn spec_watch_parse(args: Seq<Seq<char>>) -> Result<
    ((bool, Option<Seq<char>>, MessageFormat, Option<Seq<char>>, Option<Seq<char>>, bool), Option<usize>),
    ArgErrorView,
> {
    match watch_scan_from(args, 0, Seq::empty(), None) {
        Err(e) => Err(e),
        Ok((pass, m)) => match spec_check_parse(pass) {
            Ok(v) => Ok((v, m)),
            Err(e) => Err(e),
        },
    }
}

impl WatchOptions {
    /// Read `watch`'s flags: `--max-runs` is its own, everything else is
    /// `check`'s, so the two surfaces cannot drift apart.
    pub fn parse(args: &[String]) -> (r: Result<WatchOptions, ArgError>)
        ensures
            match r {
                Ok(o) => spec_watch_parse(str_views(args@)) == Ok::<_, ArgErrorView>(
                    (check_view(o.check), o.max_runs),
                ),
                Err(e) => spec_watch_parse(str_views(args@)) == Err::<
                    ((bool, Option<Seq<char>>, MessageFormat, Option<Seq<char>>, Option<Seq<char>>, bool), Option<usize>),
                    _,
                >(err_view(e)),
            },
    {
        let ghost a = str_views(args@);
        let mut passthrough: Vec<String> = Vec::new();
        let mut max_runs: Option<usize> = None;
        let mut i: usize = 0;
        assert(str_views(passthrough@) =~= Seq::<Seq<char>>::empty());
        while i < args.len()
            invariant
                i <= args.len(),
                a == str_views(args@),
                watch_scan_from(a, 0, Seq::empty(), None) == watch_scan_from(
                    a,
                    i as int,
                    str_views(passthrough@),
                    max_runs,
                ),
            decreases args.len() - i,
        {
            let (flag, inline) = split_flag(args[i].as_str());
            assert(a[i as int] == args@[i as int]@);
            if str_eq(flag, "--max-runs") {
                let at = i;
                let next = || -> (t: Option<String>)
                    ensures
                        opt_string(t) == next_arg(a, at as int),
                    {
                        if at + 1 < args.len() {
                            Some(args[at + 1].clone())
                        } else {
                            None
                        }
                    };
                let raw = require_value("--max-runs", inline, next)?;
                let runs = match parse_usize(raw.as_str()) {
                    Some(n) => n,
                    None => {
                        let mut m = owned("--max-runs ");
                        push_str(&mut m, raw.as_str());
                        push_str(&mut m, " is not a number");
                        return Err(ArgError::Value(m));
                    },
                };
                if runs == 0 {
                    return Err(ArgError::Value(owned("--max-runs must be at least 1")));
                }
                max_runs = Some(runs);
                i = if inline.is_some() {
                    i + 1
                } else {
                    i + 2
                };
            } else {
                let ghost before = passthrough@;
                passthrough.push(args[i].clone());
                assert(str_views(passthrough@) =~= str_views(before).push(a[i as int]));
                i = i + 1;
            }
        }
        let check = CheckOptions::parse(passthrough.as_slice())?;
        Ok(WatchOptions { check, max_runs })
    }
}

/// A file whose edits start a new run: Rust sources and the manifests.
pub open spec fn spec_is_watched(name: Seq<char>) -> bool {
    ".rs"@.is_suffix_of(name) || name == "Cargo.toml"@ || name == "Cargo.lock"@
}

/// Whether edits to the file `name` start a new run.
pub fn is_watched(name: &str) -> (r: bool)
    ensures
        r == spec_is_watched(name@),
{
    ends_with(name, ".rs") || str_eq(name, "Cargo.toml") || str_eq(name, "Cargo.lock")
}

/// A directory entry the scan never enters or stamps: build output and
/// dot-directories, which churn on every build.
pub open spec fn spec_is_skipped(name: Seq<char>) -> bool {
    "."@.is_prefix_of(name) || name == "target"@
}

/// Whether the scan passes over the entry `name`.
pub fn is_skipped(name: &str) -> (r: bool)
    ensures
        r == spec_is_skipped(name@),
{
    starts_with(name, ".") || str_eq(name, "target")
}

/// The line that opens run number `runs` over `watched` files.
pub open spec fn banner_text(runs: usize, watched: usize) -> Seq<char> {
    "reconverge watch: run #"@ + decimal(runs as nat) + " \u{2014} "@ + decimal(watched as nat) + " "@ + (if watched
        == 1 {
        "file"@
    } else {
        "files"@
    }) + " watched"@
}

/// The dashboard line that opens a run.
pub fn run_banner(runs: usize, watched: usize) -> (r: String)
    ensures
        r@ == banner_text(runs, watched),
{
    let mut s = owned("reconverge watch: run #");
    push_decimal(&mut s, runs);
    push_str(&mut s, " \u{2014} ");
    push_decimal(&mut s, watched);
    push_str(&mut s, " ");
    push_str(&mut s, plural(watched, "file", "files"));
    push_str(&mut s, " watched");
    s
}

/// Dashboard lines go to stderr under `--message-format json`, so stdout
/// stays a clean stream of findings documents.
pub fn dashboard_to_stderr(format: MessageFormat) -> (r: bool)
    ensures
        r == (format == MessageFormat::Json),
{
    format == MessageFormat::Json
}

/// Where the watch loop stands.
#[derive(Debug, Clone, Copy, PartialEq, Eq)]
pub struct WatchLoop {
    /// Runs started so far.
    pub runs: usize,
    /// The exit code of the last completed run.
    pub exit: u8,
}

impl WatchLoop {
    /// Before the first run.
    pub fn new() -> (r: WatchLoop)
        ensures
            r.runs == 0,
            r.exit == 0,
    {
        WatchLoop { runs: 0, exit: 0 }
    }

    /// A run starts; its number, for the banner.
    pub fn start_run(&mut self) -> (r: usize)
        requires
            old(self).runs < usize::MAX,
        ensures
            final(self).runs == old(self).runs + 1,
            final(self).exit == old(self).exit,
            r == final(self).runs,
    {
        self.runs = self.runs + 1;
        self.runs
    }

    /// A run ended: with the verdict of the check, or `None` when the
    /// check itself failed (a broken build mid-edit is a tool error, 2, and
    /// the loop keeps watching). Whether the loop stops now.
    pub fn finish_run(&mut self, verdict: Option<u8>, max_runs: Option<usize>) -> (stop: bool)
        ensures
            final(self).runs == old(self).runs,
            final(self).exit == match verdict {
                Some(code) => code,
                None => 2u8,
            },
            stop == (max_runs matches Some(m) && old(self).runs >= m),
    {
        self.exit = match verdict {
            Some(code) => code,
            None => 2,
        };
        match max_runs {
            Some(m) => self.runs >= m,
            None => false,
        }
    }
}

} // verus!
