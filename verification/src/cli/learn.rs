//! The `learn` subcommand's flags. The lessons themselves are embedded in
//! the terminal viewer, which the binary launches.
use vstd::prelude::*;

use super::args::{is_help_flag, ArgErrorView, err_view, no_value_message, reject_value, spec_split_flag, split_flag, unknown_message, ArgError};
use crate::text::{str_eq, str_views};

verus! {

/// The options of `learn`.
#[derive(Debug, Clone, Copy, PartialEq, Eq)]
pub struct LearnOptions {
    pub ascii: bool,
}

/// What `learn` makes of `args[i..]` with `ascii` read so far.
pub open spec fn learn_parse_from(args: Seq<Seq<char>>, i: int, ascii: bool) -> Result<bool, ArgErrorView>
    decreases args.len() - i,
{
    if i < 0 || i >= args.len() {
        Ok(ascii)
    } else {
        let flag = spec_split_flag(args[i]).0;
        let inline = spec_split_flag(args[i]).1;
        if flag == "--ascii"@ {
            if inline is Some {
                Err(ArgErrorView::Value(no_value_message("--ascii"@)))
            } else {
                learn_parse_from(args, i + 1, true)
            }
        } else if is_help_flag(flag) {
            Err(ArgErrorView::Help)
        } else {
            Err(ArgErrorView::Unknown(unknown_message(flag)))
        }
    }
}

impl LearnOptions {
    /// Read `learn`'s flags: `--ascii` alone, without a value.
    pub fn parse(args: &[String]) -> (r: Result<LearnOptions, ArgError>)
        ensures
            match r {
                Ok(o) => learn_parse_from(str_views(args@), 0, false) == Ok::<bool, ArgErrorView>(o.ascii),
                Err(e) => learn_parse_from(str_views(args@), 0, false) == Err::<bool, ArgErrorView>(err_view(e)),
            },
    {
        let ghost a = str_views(args@);
        let mut options = LearnOptions { ascii: false };
        let mut i: usize = 0;
        while i < args.len()
            invariant
                i <= args.len(),
                a == str_views(args@),
                learn_parse_from(a, 0, false) == learn_parse_from(a, i as int, options.ascii),
            decreases args.len() - i,
        {
            let (flag, inline) = split_flag(args[i].as_str());
            assert(a[i as int] == args@[i as int]@);
            if str_eq(flag, "--ascii") {
                reject_value("--ascii", inline)?;
                options.ascii = true;
            } else if ArgError::help(flag) {
                return Err(ArgError::Help);
            } else {
                return Err(ArgError::unknown(flag));
            }
            i = i + 1;
        }
        Ok(options)
    }
}

} // verus!
