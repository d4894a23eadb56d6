//! `--explain RCxxx`: which diagnostic codes have a page, which are
//! reserved for lints not shipped yet, and how the argument is read.
use vstd::prelude::*;

use super::args::{is_help_flag, ArgErrorView, err_view, unknown_message, ArgError};
use crate::text::{chars_of, join_strings, joined, owned, push_char, push_str, starts_with, str_eq, str_views};

verus! {

/// The codes with an explain page, in order.
pub open spec fn shipped_codes() -> Seq<Seq<char>> {
    seq!["RC001"@, "RC002"@, "RC003"@, "RC004"@, "RC005"@]
}

/// What a reserved code will check once its lint ships.
pub open spec fn reserved_what(code: Seq<char>) -> Option<Seq<char>> {
    if code == "RC006"@ {
        Some("strided global access from a lane-divergent index (planned for v1.1)"@)
    } else if code == "RC007"@ {
        Some("shared-memory bank-conflict stride on a divergent index (planned for v1.1)"@)
    } else {
        None
    }
}

/// A character upper-cased the way `to_ascii_uppercase` does it.
pub open spec fn ascii_upper_char(c: char) -> char {
    if 'a' <= c && c <= 'z' {
        ((c as u32) - 32) as char
    } else {
        c
    }
}

/// A string upper-cased the way `to_ascii_uppercase` does it.
pub open spec fn ascii_upper(s: Seq<char>) -> Seq<char> {
    s.map_values(|c: char| ascii_upper_char(c))
}

/// The message for a reserved, unshipped code.
pub open spec fn reserved_message(code: Seq<char>, what: Seq<char>) -> Seq<char> {
    code + " is reserved but not shipped yet: "@ + what
}

/// The message for a code this tool does not know.
pub open spec fn unknown_code_message(code: Seq<char>) -> Seq<char> {
    "unknown diagnostic code `"@ + code + "`; known codes: "@ + joined(shipped_codes(), ", "@)
}

/// The answer to `--explain <code>`.
#[derive(Debug, Clone, PartialEq, Eq)]
pub enum Explained {
    /// The page of this shipped code.
    Page(&'static str),
    /// A code reserved for a lint not shipped yet, with the message.
    Reserved(String),
    /// Not a code of this tool, with the message.
    Unknown(String),
}

impl Explained {
    /// 0 for a page, 2 for anything else.
    pub fn exit_code(&self) -> (r: u8)
        ensures
            r == (if self is Page {
                0u8
            } else {
                2u8
            }),
    {
        match self {
            Explained::Page(_) => 0,
            _ => 2,
        }
    }
}

fn upper(code: &str) -> (r: String)
    ensures
        r@ == ascii_upper(code@),
{
    let cs = chars_of(code);
    let mut out = String::new();
    let mut i: usize = 0;
    while i < cs.len()
        invariant
            cs@ == code@,
            i <= cs.len(),
            out@ == ascii_upper(code@.take(i as int)),
        decreases cs.len() - i,
    {
        let c = cs[i];
        let u = if 'a' <= c && c <= 'z' {
            ((c as u8) - 32) as char
        } else {
            c
        };
        assert(u == ascii_upper_char(c));
        push_char(&mut out, u);
        assert(ascii_upper(code@.take(i + 1)) =~= ascii_upper(code@.take(i as int)).push(ascii_upper_char(c)));
        i = i + 1;
    }
    assert(code@.take(cs.len() as int) =~= code@);
    out
}

fn shipped() -> (r: Vec<&'static str>)
    ensures
        r@.map_values(|s: &str| s@) == shipped_codes(),
{
    let v = vec!["RC001", "RC002", "RC003", "RC004", "RC005"];
    assert(v@.map_values(|s: &str| s@) =~= shipped_codes());
    v
}

/// What `--explain <code>` answers, the code read case-insensitively.
pub fn answer(code: &str) -> (r: Explained)
    ensures
        shipped_codes().contains(ascii_upper(code@)) ==> (r matches Explained::Page(p) && p@ == ascii_upper(
            code@,
        )),
        !shipped_codes().contains(ascii_upper(code@)) ==> match reserved_what(ascii_upper(code@)) {
            Some(w) => r matches Explained::Reserved(m) && m@ == reserved_message(ascii_upper(code@), w),
            None => r matches Explained::Unknown(m) && m@ == unknown_code_message(code@),
        },
{
    let normalized = upper(code);
    let pages = shipped();
    let mut i: usize = 0;
    while i < pages.len()
        invariant
            i <= pages.len(),
            pages@.map_values(|s: &str| s@) == shipped_codes(),
            normalized@ == ascii_upper(code@),
            forall|j: int| 0 <= j < i ==> shipped_codes()[j] != normalized@,
        decreases pages.len() - i,
    {
        assert(shipped_codes()[i as int] == pages@[i as int]@);
        if str_eq(pages[i], normalized.as_str()) {
            assert(shipped_codes().contains(normalized@));
            return Explained::Page(pages[i]);
        }
        i = i + 1;
    }
    assert(!shipped_codes().contains(normalized@));
    let what: Option<&'static str> = if str_eq(normalized.as_str(), "RC006") {
        Some("strided global access from a lane-divergent index (planned for v1.1)")
    } else if str_eq(normalized.as_str(), "RC007") {
        Some("shared-memory bank-conflict stride on a divergent index (planned for v1.1)")
    } else {
        None
    };
    match what {
        Some(w) => {
            let mut m = normalized.clone();
            push_str(&mut m, " is reserved but not shipped yet: ");
            push_str(&mut m, w);
            Explained::Reserved(m)
        },
        None => {
            let mut known: Vec<String> = Vec::new();
            let mut k: usize = 0;
            while k < pages.len()
                invariant
                    k <= pages.len(),
                    pages@.map_values(|s: &str| s@) == shipped_codes(),
                    str_views(known@) == shipped_codes().take(k as int),
                decreases pages.len() - k,
            {
                let ghost before = known@;
                assert(shipped_codes()[k as int] == pages@[k as int]@);
                known.push(owned(pages[k]));
                assert(str_views(known@) =~= str_views(before).push(pages@[k as int]@));
                assert(str_views(known@) =~= shipped_codes().take(k + 1));
                k = k + 1;
            }
            assert(shipped_codes().take(5) =~= shipped_codes());
            let list = join_strings(&known, ", ");
            let mut m = owned("unknown diagnostic code `");
            push_str(&mut m, code);
            push_str(&mut m, "`; known codes: ");
            push_str(&mut m, list.as_str());
            Explained::Unknown(m)
        },
    }
}

/// The message when `--explain` is given no code.
pub open spec fn no_code_message() -> Seq<char> {
    "`--explain` requires a diagnostic code (e.g. `--explain RC001`)"@
}

/// What `--explain` makes of `args[i..]`, with `code` read so far:
/// exactly one argument, and not a flag.
pub open spec fn explain_parse_from(args: Seq<Seq<char>>, i: int, code: Option<Seq<char>>) -> Result<
    Seq<char>,
    ArgErrorView,
>
    decreases args.len() - i,
{
    if i < 0 || i >= args.len() {
        match code {
            Some(c) => Ok(c),
            None => Err(ArgErrorView::Value(no_code_message())),
        }
    } else if is_help_flag(args[i]) {
        Err(ArgErrorView::Help)
    } else if "-"@.is_prefix_of(args[i]) || code is Some {
        Err(ArgErrorView::Unknown(unknown_message(args[i])))
    } else {
        explain_parse_from(args, i + 1, Some(args[i]))
    }
}

/// Parse `--explain <CODE>`.
pub fn parse(args: &[String]) -> (r: Result<String, ArgError>)
    ensures
        match r {
            Ok(c) => explain_parse_from(str_views(args@), 0, None) == Ok::<Seq<char>, ArgErrorView>(c@),
            Err(e) => explain_parse_from(str_views(args@), 0, None) == Err::<Seq<char>, ArgErrorView>(
                err_view(e),
            ),
        },
{
    let ghost a = str_views(args@);
    let mut code: Option<String> = None;
    let mut i: usize = 0;
    while i < args.len()
        invariant
            i <= args.len(),
            a == str_views(args@),
            explain_parse_from(a, 0, None) == explain_parse_from(a, i as int, super::args::opt_string(code)),
        decreases args.len() - i,
    {
        assert(a[i as int] == args@[i as int]@);
        if ArgError::help(args[i].as_str()) {
            return Err(ArgError::Help);
        }
        if starts_with(args[i].as_str(), "-") || code.is_some() {
            return Err(ArgError::unknown(args[i].as_str()));
        }
        code = Some(args[i].clone());
        i = i + 1;
    }
    match code {
        Some(c) => Ok(c),
        None => Err(ArgError::Value(owned("`--explain` requires a diagnostic code (e.g. `--explain RC001`)"))),
    }
}

} // verus!
