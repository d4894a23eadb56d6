//! Which subcommand an invocation names, with its options read: the one
//! decision `cargo reconverge` makes before any work.
use vstd::prelude::*;

use super::args::{is_help_flag, ArgErrorView, err_view, opt_string, unknown_message, ArgError};
use super::check::{check_view, spec_check_parse, CheckOptions};
use super::explain::{self, explain_parse_from};
use super::inspect::{inspect_parse_from, InspectOptions};
use super::learn::{learn_parse_from, LearnOptions};
use super::setup::SetupOptions;
use super::triage::{triage_parse_from, TriageOptions};
use super::watch::{spec_watch_parse, WatchOptions};
use super::witness::{witness_parse_from, WitnessOptions};
use crate::text::{str_eq, str_views};

verus! {

/// What an invocation asks for.
#[derive(Debug, Clone, PartialEq, Eq)]
pub enum Command {
    /// Print the version.
    Version,
    /// Print the usage text.
    Help,
    /// Analyze the current project.
    Check(CheckOptions),
    /// Print the page of a diagnostic code.
    Explain(String),
    /// Browse the last check's artifacts.
    Inspect(InspectOptions),
    /// Install the matching driver and viewer.
    Setup(SetupOptions),
    /// Review findings into the baseline.
    Triage(TriageOptions),
    /// Re-run the check on every save.
    Watch(WatchOptions),
    /// The offline lessons.
    Learn(LearnOptions),
    /// Step through confirmed replays.
    Witness(WitnessOptions),
}

/// The arguments after the program's own: invoked as `cargo reconverge`,
/// cargo passes `reconverge` first; invoked directly, it is absent.
pub open spec fn command_args(args: Seq<Seq<char>>) -> Seq<Seq<char>> {
    if args.len() > 0 && args[0] == "reconverge"@ {
        args.skip(1)
    } else {
        args
    }
}

/// `r` is what the arguments `rest` (after the program's own) ask for:
/// the subcommand named first, its options read by that subcommand's
/// rules, and an unknown first argument refused by name.
pub open spec fn routed(rest: Seq<Seq<char>>, r: Result<Command, ArgError>) -> bool {
    let tail = rest.skip(1);
    if rest.len() == 0 || rest[0] == "--help"@ || rest[0] == "-h"@ {
        r == Ok::<Command, ArgError>(Command::Help)
    } else if rest[0] == "--version"@ || rest[0] == "-V"@ {
        r == Ok::<Command, ArgError>(Command::Version)
    } else if rest[0] == "check"@ {
        match r {
            Ok(Command::Check(o)) => spec_check_parse(tail) == Ok::<_, ArgErrorView>(check_view(o)),
            Err(e) => spec_check_parse(tail) is Err && spec_check_parse(tail)->Err_0 == err_view(e),
            _ => false,
        }
    } else if rest[0] == "--explain"@ || rest[0] == "explain"@ {
        match r {
            Ok(Command::Explain(c)) => explain_parse_from(tail, 0, None) == Ok::<Seq<char>, ArgErrorView>(c@),
            Err(e) => explain_parse_from(tail, 0, None) == Err::<Seq<char>, ArgErrorView>(err_view(e)),
            _ => false,
        }
    } else if rest[0] == "inspect"@ {
        match r {
            Ok(Command::Inspect(o)) => inspect_parse_from(tail, 0, false) == Ok::<bool, ArgErrorView>(o.ascii),
            Err(e) => inspect_parse_from(tail, 0, false) == Err::<bool, ArgErrorView>(err_view(e)),
            _ => false,
        }
    } else if rest[0] == "setup"@ {
        match r {
            Ok(Command::Setup(_)) => tail.len() == 0,
            Err(e) => tail.len() > 0 && err_view(e) == if is_help_flag(tail[0]) {
                ArgErrorView::Help
            } else {
                ArgErrorView::Unknown(unknown_message(tail[0]))
            },
            _ => false,
        }
    } else if rest[0] == "triage"@ {
        match r {
            Ok(Command::Triage(o)) => triage_parse_from(tail, 0, false, None) == Ok::<_, ArgErrorView>(
                (o.ascii, opt_string(o.baseline)),
            ),
            Err(e) => triage_parse_from(tail, 0, false, None) is Err && triage_parse_from(tail, 0, false, None)->Err_0
                == err_view(e),
            _ => false,
        }
    } else if rest[0] == "watch"@ {
        match r {
            Ok(Command::Watch(o)) => spec_watch_parse(tail) == Ok::<_, ArgErrorView>(
                (check_view(o.check), o.max_runs),
            ),
            Err(e) => spec_watch_parse(tail) is Err && spec_watch_parse(tail)->Err_0 == err_view(e),
            _ => false,
        }
    } else if rest[0] == "learn"@ {
        match r {
            Ok(Command::Learn(o)) => learn_parse_from(tail, 0, false) == Ok::<bool, ArgErrorView>(o.ascii),
            Err(e) => learn_parse_from(tail, 0, false) == Err::<bool, ArgErrorView>(err_view(e)),
            _ => false,
        }
    } else if rest[0] == "witness"@ {
        match r {
            Ok(Command::Witness(o)) => witness_parse_from(tail, 0, false, None) == Ok::<_, ArgErrorView>(
                (o.ascii, opt_string(o.kernel)),
            ),
            Err(e) => witness_parse_from(tail, 0, false, None) is Err && witness_parse_from(tail, 0, false, None)->Err_0
                == err_view(e),
            _ => false,
        }
    } else {
        r matches Err(e) && err_view(e) == ArgErrorView::Unknown(unknown_message(rest[0]))
    }
}

/// Read an invocation: the subcommand it names and that subcommand's
/// options, or the error to report (exit code 2).
#[verifier::spinoff_prover]
#[verifier::rlimit(60)]
pub fn route(args: &[String]) -> (r: Result<Command, ArgError>)
    ensures
        routed(command_args(str_views(args@)), r),
{
    let rest: &[String] = if args.len() > 0 && str_eq(args[0].as_str(), "reconverge") {
        let (_, after) = args.split_at(1);
        proof {
            assert(str_views(after@) =~= str_views(args@).skip(1));
        }
        after
    } else {
        args
    };
    let ghost rv = command_args(str_views(args@));
    assert(str_views(rest@) == rv);
    if rest.len() == 0 {
        return Ok(Command::Help);
    }
    let (_, tail) = rest.split_at(1);
    proof {
        assert(str_views(tail@) =~= rv.skip(1));
        assert(rv[0] == rest@[0]@);
    }
    let head = rest[0].as_str();
    if str_eq(head, "--help") || str_eq(head, "-h") {
        Ok(Command::Help)
    } else if str_eq(head, "--version") || str_eq(head, "-V") {
        Ok(Command::Version)
    } else if str_eq(head, "check") {
        match CheckOptions::parse(tail) {
            Ok(o) => Ok(Command::Check(o)),
            Err(e) => Err(e),
        }
    } else if str_eq(head, "--explain") || str_eq(head, "explain") {
        match explain::parse(tail) {
            Ok(c) => Ok(Command::Explain(c)),
            Err(e) => Err(e),
        }
    } else if str_eq(head, "inspect") {
        match InspectOptions::parse(tail) {
            Ok(o) => Ok(Command::Inspect(o)),
            Err(e) => Err(e),
        }
    } else if str_eq(head, "setup") {
        match SetupOptions::parse(tail) {
            Ok(o) => Ok(Command::Setup(o)),
            Err(e) => Err(e),
        }
    } else if str_eq(head, "triage") {
        match TriageOptions::parse(tail) {
            Ok(o) => Ok(Command::Triage(o)),
            Err(e) => Err(e),
        }
    } else if str_eq(head, "watch") {
        match WatchOptions::parse(tail) {
            Ok(o) => Ok(Command::Watch(o)),
            Err(e) => Err(e),
        }
    } else if str_eq(head, "learn") {
        match LearnOptions::parse(tail) {
            Ok(o) => Ok(Command::Learn(o)),
            Err(e) => Err(e),
        }
    } else if str_eq(head, "witness") {
        match WitnessOptions::parse(tail) {
            Ok(o) => Ok(Command::Witness(o)),
            Err(e) => Err(e),
        }
    } else {
        Err(ArgError::unknown(head))
    }
}

} // verus!
