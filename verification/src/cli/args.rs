//! What a command-line error is, and whether the usage text belongs with
//! it; and the two rules every flag obeys.
use vstd::prelude::*;

use crate::text::{owned, push_str, split_once_char, starts_with};

verus! {

/// A command-line error. The distinction decides whether the usage text
/// follows the message: it helps for an argument nobody recognises, and
/// only buries the answer for a recognised argument with a bad value.
#[derive(Debug, Clone, PartialEq, Eq)]
pub enum ArgError {
    /// An argument that is not part of the interface.
    Unknown(String),
    /// A recognised argument whose value cannot be used.
    Value(String),
    /// `-h` or `--help` where a flag may stand: the usage text, asked
    /// for, and no failure.
    Help,
}

/// An argument error as a value: its kind and its message.
pub enum ArgErrorView {
    Unknown(Seq<char>),
    Value(Seq<char>),
    Help,
}

/// The view of an argument error.
pub open spec fn err_view(e: ArgError) -> ArgErrorView {
    match e {
        ArgError::Unknown(m) => ArgErrorView::Unknown(m@),
        ArgError::Value(m) => ArgErrorView::Value(m@),
        ArgError::Help => ArgErrorView::Help,
    }
}

/// What an error prints as its message; a help request has none.
pub open spec fn err_message(e: ArgErrorView) -> Seq<char> {
    match e {
        ArgErrorView::Unknown(m) => m,
        ArgErrorView::Value(m) => m,
        ArgErrorView::Help => Seq::empty(),
    }
}

/// The flags that ask for the usage text.
pub open spec fn is_help_flag(flag: Seq<char>) -> bool {
    flag == "--help"@ || flag == "-h"@
}

/// The message for an argument nobody recognises.
pub open spec fn unknown_message(argument: Seq<char>) -> Seq<char> {
    "unrecognized argument `"@ + argument + "`"@
}

/// The message for a boolean flag given a value.
pub open spec fn no_value_message(name: Seq<char>) -> Seq<char> {
    "`"@ + name + "` takes no value"@
}

/// The message for a value flag followed by another flag.
pub open spec fn got_flag_message(name: Seq<char>, token: Seq<char>) -> Seq<char> {
    "`"@ + name + "` requires a value (got the flag `"@ + token + "`)"@
}

/// The message for a value flag with nothing after it.
pub open spec fn requires_message(name: Seq<char>) -> Seq<char> {
    "`"@ + name + "` requires a value"@
}

impl ArgError {
    /// Whether the usage text helps a reader who has just seen this.
    pub fn wants_usage(&self) -> (r: bool)
        ensures
            r == (self is Unknown),
    {
        match self {
            ArgError::Unknown(_) => true,
            ArgError::Value(_) => false,
            ArgError::Help => false,
        }
    }

    /// Whether `flag` asks for the usage text.
    pub fn help(flag: &str) -> (r: bool)
        ensures
            r == is_help_flag(flag@),
    {
        crate::text::str_eq(flag, "--help") || crate::text::str_eq(flag, "-h")
    }

    /// An unrecognized argument, phrased the one way every command phrases
    /// it.
    pub fn unknown(argument: &str) -> (r: ArgError)
        ensures
            err_view(r) == ArgErrorView::Unknown(unknown_message(argument@)),
    {
        let mut m = owned("unrecognized argument `");
        push_str(&mut m, argument);
        push_str(&mut m, "`");
        ArgError::Unknown(m)
    }

    /// The message: the whole of what is shown for this error.
    pub fn to_string(&self) -> (r: String)
        ensures
            r@ == err_message(err_view(*self)),
    {
        match self {
            ArgError::Unknown(m) | ArgError::Value(m) => m.clone(),
            ArgError::Help => String::new(),
        }
    }
}

/// Every other parse failure is a value error.
impl From<String> for ArgError {
    fn from(message: String) -> (r: ArgError) {
        ArgError::Value(message)
    }
}

impl vstd::std_specs::convert::FromSpecImpl<String> for ArgError {
    open spec fn obeys_from_spec() -> bool {
        true
    }

    open spec fn from_spec(v: String) -> ArgError {
        ArgError::Value(v)
    }
}

/// The index of the first `c` in `s`.
pub open spec fn first_index_of(s: Seq<char>, c: char) -> int {
    choose|i: int| 0 <= i < s.len() && s[i] == c && forall|j: int| 0 <= j < i ==> s[j] != c
}

/// `--flag` / `--flag=value`, split at the first `=`.
pub open spec fn spec_split_flag(arg: Seq<char>) -> (Seq<char>, Option<Seq<char>>) {
    if arg.contains('=') {
        let i = first_index_of(arg, '=');
        (arg.take(i), Some(arg.skip(i + 1)))
    } else {
        (arg, None)
    }
}

/// The view of an optional string slice.
pub open spec fn opt_str(o: Option<&str>) -> Option<Seq<char>> {
    match o {
        Some(s) => Some(s@),
        None => None,
    }
}

/// Split `--flag` / `--flag=value`. Every command goes through here so the
/// loop shapes cannot drift.
pub fn split_flag(arg: &str) -> (r: (&str, Option<&str>))
    ensures
        (r.0@, opt_str(r.1)) == spec_split_flag(arg@),
{
    match split_once_char(arg, '=') {
        Some((flag, value)) => {
            proof {
                let i = choose|i: int|
                    0 <= i < arg@.len() && arg@[i] == '=' && (forall|j: int| 0 <= j < i ==> arg@[j] != '=')
                        && flag@ == arg@.take(i) && value@ == arg@.skip(i + 1);
                assert(arg@.contains('='));
                let k = first_index_of(arg@, '=');
                assert(k == i) by {
                    if k < i {
                        assert(arg@[k] == '=');
                    } else if k > i {
                        assert(arg@[i] != '=');
                    }
                }
            }
            (flag, Some(value))
        },
        None => {
            assert(!arg@.contains('='));
            (arg, None)
        },
    }
}

/// A boolean flag: presence is enough, and an inline `=value` is an error
/// even when the value would have been ignored.
pub fn reject_value(name: &str, inline: Option<&str>) -> (r: Result<(), ArgError>)
    ensures
        match inline {
            Some(_) => r matches Err(e) && err_view(e) == ArgErrorView::Value(no_value_message(name@)),
            None => r is Ok,
        },
{
    match inline {
        Some(_) => {
            let mut m = owned("`");
            push_str(&mut m, name);
            push_str(&mut m, "` takes no value");
            Err(ArgError::Value(m))
        },
        None => Ok(()),
    }
}

/// What a value flag reads from the token after it: the token, unless it
/// is itself a flag; an error when there is none.
pub open spec fn value_from_next(name: Seq<char>, next: Option<Seq<char>>) -> Result<Seq<char>, Seq<char>> {
    match next {
        Some(t) => if "--"@.is_prefix_of(t) {
            Err(got_flag_message(name, t))
        } else {
            Ok(t)
        },
        None => Err(requires_message(name)),
    }
}

/// The argument after `i`, when there is one.
pub open spec fn next_arg(args: Seq<Seq<char>>, i: int) -> Option<Seq<char>> {
    if i + 1 < args.len() {
        Some(args[i + 1])
    } else {
        None
    }
}

/// The view of an optional owned string.
pub open spec fn opt_string(o: Option<String>) -> Option<Seq<char>> {
    match o {
        Some(s) => Some(s@),
        None => None,
    }
}

/// The view of an argument result.
pub open spec fn result_view(r: Result<String, ArgError>) -> Result<Seq<char>, ArgErrorView> {
    match r {
        Ok(s) => Ok(s@),
        Err(e) => Err(err_view(e)),
    }
}

/// The error for a value flag with nothing to read.
pub fn missing_value(name: &str) -> (r: ArgError)
    ensures
        err_view(r) == ArgErrorView::Value(requires_message(name@)),
{
    let mut m = owned("`");
    push_str(&mut m, name);
    push_str(&mut m, "` requires a value");
    ArgError::Value(m)
}

/// A required value. An inline `--flag=value` is accepted as-is; a
/// separate token that starts with `--` is not a value. `next` is asked
/// for the following token only when there is no inline value.
pub fn require_value(name: &str, inline: Option<&str>, next: impl FnOnce() -> Option<String>) -> (r: Result<
    String,
    ArgError,
>)
    requires
        inline is None ==> call_requires(next, ()),
    ensures
        inline matches Some(v) ==> result_view(r) == Ok::<Seq<char>, ArgErrorView>(v@),
        inline is None ==> exists|t: Option<String>|
            call_ensures(next, (), t) && result_view(r) == match value_from_next(name@, opt_string(t)) {
                Ok(v) => Ok::<Seq<char>, ArgErrorView>(v),
                Err(m) => Err(ArgErrorView::Value(m)),
            },
{
    if let Some(value) = inline {
        return Ok(owned(value));
    }
    let t = next();
    match t {
        Some(token) => {
            if starts_with(token.as_str(), "--") {
                let mut m = owned("`");
                push_str(&mut m, name);
                push_str(&mut m, "` requires a value (got the flag `");
                push_str(&mut m, token.as_str());
                push_str(&mut m, "`)");
                Err(ArgError::Value(m))
            } else {
                Ok(token)
            }
        },
        None => Err(missing_value(name)),
    }
}

} // verus!
