//! The `check` subcommand's rules: how its flags read, which `--cc` values
//! the dialect table accepts, and which files in the artifacts directory
//! belong to the current workspace. Building under the driver, reading the
//! directory and printing stay with the binary.
use vstd::prelude::*;

use super::args::{ArgErrorView, 
    err_view, is_help_flag, missing_value, next_arg, no_value_message, opt_str, opt_string, reject_value,
    requires_message, result_view, spec_split_flag, split_flag, unknown_message, value_from_next, ArgError,
    first_index_of,
};
use crate::artifacts::findings::opt_view;
use crate::oxide::cc::{
    find_limits, known_compute_capabilities, known_texts, limits_table, parse_compute_capability,
    shared_memory_limits, spec_parse_cc,
};
use crate::text::{
    chars_of, contains_seq, contains_str, join_strings, joined, owned, push_char, push_str, split_once_char,
    starts_with, str_eq, str_views, strip_prefix, strip_suffix,
};

verus! {

/// The crate name cargo gives a package: its name with each `-` as `_`.
pub open spec fn spec_crate_name(package: Seq<char>) -> Seq<char> {
    package.map_values(|c: char| if c == '-' { '_' } else { c })
}

/// The crate name of a workspace member package, as its artifacts are
/// filed under it.
pub fn crate_name(package: &str) -> (r: String)
    ensures
        r@ == spec_crate_name(package@),
{
    let cs = chars_of(package);
    let mut out = String::new();
    let mut i: usize = 0;
    while i < cs.len()
        invariant
            cs@ == package@,
            i <= cs.len(),
            out@ == spec_crate_name(package@.take(i as int)),
        decreases cs.len() - i,
    {
        let c = cs[i];
        if c == '-' {
            push_char(&mut out, '_');
        } else {
            push_char(&mut out, c);
        }
        proof {
            assert(package@.take(i + 1) =~= package@.take(i as int).push(c));
            assert(spec_crate_name(package@.take(i + 1)) =~= spec_crate_name(package@.take(i as int)).push(
                if c == '-' { '_' } else { c },
            ));
        }
        i = i + 1;
    }
    proof {
        assert(package@.take(cs.len() as int) =~= package@);
    }
    out
}

/// How findings are written to stdout.
#[derive(Debug, PartialEq, Eq, Clone, Copy, Structural)]
pub enum MessageFormat {
    /// Rendered for a terminal.
    Text,
    /// One findings document per line, unfiltered.
    Json,
}

/// The options of `check`.
#[derive(Debug, Clone, PartialEq, Eq)]
pub struct CheckOptions {
    pub strict: bool,
    pub cc: Option<String>,
    pub message_format: MessageFormat,
    pub sarif_path: Option<String>,
    /// Explicit `--baseline <path>`; `None` means the default at the
    /// workspace root (missing is fine: an empty baseline).
    pub baseline: Option<String>,
    pub show_suppressed: bool,
}

/// The options as values: strict, cc, format, sarif, baseline,
/// show-suppressed.
pub open spec fn check_view(o: CheckOptions) -> (
    bool,
    Option<Seq<char>>,
    MessageFormat,
    Option<Seq<char>>,
    Option<Seq<char>>,
    bool,
) {
    (o.strict, opt_view(o.cc), o.message_format, opt_view(o.sarif_path), opt_view(o.baseline), o.show_suppressed)
}

/// The options before any flag is read.
pub open spec fn default_check_view() -> (
    bool,
    Option<Seq<char>>,
    MessageFormat,
    Option<Seq<char>>,
    Option<Seq<char>>,
    bool,
) {
    (false, None, MessageFormat::Text, None, None, false)
}

/// The message for a `--cc` that parses but names no row of the table.
pub open spec fn cc_table_message(raw: Seq<char>) -> Seq<char> {
    "--cc "@ + raw + " is not in the compute-capability table; known: "@ + joined(known_texts(), ", "@)
}

/// A `--cc` value checked against the dialect table, kept verbatim.
pub open spec fn spec_cc_check(raw: Seq<char>) -> Result<Seq<char>, Seq<char>> {
    match spec_parse_cc(raw) {
        Err(m) => Err(m),
        Ok(cc) => if find_limits(limits_table(), cc) is None {
            Err(cc_table_message(raw))
        } else {
            Ok(raw)
        },
    }
}

/// The message for a `--message-format` nobody implements.
pub open spec fn format_message(f: Seq<char>) -> Seq<char> {
    "unknown message format `"@ + f + "` (expected `text` or `json`)"@
}

/// The value the `check` flag `name` at `i` reads: its inline value, else
/// the next argument unless that is itself a flag.
pub open spec fn flag_value(name: Seq<char>, args: Seq<Seq<char>>, i: int, inline: Option<Seq<char>>) -> Result<
    Seq<char>,
    Seq<char>,
> {
    match inline {
        Some(v) => Ok(v),
        None => value_from_next(name, next_arg(args, i)),
    }
}

/// What `check` makes of `args[i..]`, starting from the options `acc`.
pub open spec fn check_parse_from(
    args: Seq<Seq<char>>,
    i: int,
    acc: (bool, Option<Seq<char>>, MessageFormat, Option<Seq<char>>, Option<Seq<char>>, bool),
) -> Result<(bool, Option<Seq<char>>, MessageFormat, Option<Seq<char>>, Option<Seq<char>>, bool), ArgErrorView>
    decreases args.len() - i,
{
    if i < 0 || i >= args.len() {
        Ok(acc)
    } else {
        let flag = spec_split_flag(args[i]).0;
        let inline = spec_split_flag(args[i]).1;
        let j = if inline is Some {
            i + 1
        } else {
            i + 2
        };
        if flag == "--strict"@ {
            if inline is Some {
                Err(ArgErrorView::Value(no_value_message("--strict"@)))
            } else {
                check_parse_from(args, i + 1, (true, acc.1, acc.2, acc.3, acc.4, acc.5))
            }
        } else if flag == "--cc"@ {
            match flag_value("--cc"@, args, i, inline) {
                Err(m) => Err(ArgErrorView::Value(m)),
                Ok(raw) => match spec_cc_check(raw) {
                    Err(m) => Err(ArgErrorView::Value(m)),
                    Ok(v) => check_parse_from(args, j, (acc.0, Some(v), acc.2, acc.3, acc.4, acc.5)),
                },
            }
        } else if flag == "--message-format"@ {
            match flag_value("--message-format"@, args, i, inline) {
                Err(m) => Err(ArgErrorView::Value(m)),
                Ok(f) => if f == "text"@ {
                    check_parse_from(args, j, (acc.0, acc.1, MessageFormat::Text, acc.3, acc.4, acc.5))
                } else if f == "json"@ {
                    check_parse_from(args, j, (acc.0, acc.1, MessageFormat::Json, acc.3, acc.4, acc.5))
                } else {
                    Err(ArgErrorView::Value(format_message(f)))
                },
            }
        } else if flag == "--sarif"@ {
            match flag_value("--sarif"@, args, i, inline) {
                Err(m) => Err(ArgErrorView::Value(m)),
                Ok(p) => check_parse_from(args, j, (acc.0, acc.1, acc.2, Some(p), acc.4, acc.5)),
            }
        } else if flag == "--baseline"@ {
            match flag_value("--baseline"@, args, i, inline) {
                Err(m) => Err(ArgErrorView::Value(m)),
                Ok(p) => check_parse_from(args, j, (acc.0, acc.1, acc.2, acc.3, Some(p), acc.5)),
            }
        } else if flag == "--show-suppressed"@ {
            if inline is Some {
                Err(ArgErrorView::Value(no_value_message("--show-suppressed"@)))
            } else {
                check_parse_from(args, i + 1, (acc.0, acc.1, acc.2, acc.3, acc.4, true))
            }
        } else if is_help_flag(flag) {
            Err(ArgErrorView::Help)
        } else {
            Err(ArgErrorView::Unknown(unknown_message(flag)))
        }
    }
}

/// What `check` makes of its whole argument list.
pub open spec fn spec_check_parse(args: Seq<Seq<char>>) -> Result<
    (bool, Option<Seq<char>>, MessageFormat, Option<Seq<char>>, Option<Seq<char>>, bool),
    ArgErrorView,
> {
    check_parse_from(args, 0, default_check_view())
}

/// Validate a `--cc` value against the dialect table, returning it
/// verbatim.
pub fn cc_check(raw: &str) -> (r: Result<String, String>)
    ensures
        match r {
            Ok(v) => spec_cc_check(raw@) == Ok::<Seq<char>, Seq<char>>(v@),
            Err(m) => spec_cc_check(raw@) == Err::<Seq<char>, Seq<char>>(m@),
        },
{
    let parsed = match parse_compute_capability(raw) {
        Ok(v) => v,
        Err(m) => return Err(m),
    };
    if shared_memory_limits(parsed).is_none() {
        let known = known_compute_capabilities();
        let list = join_strings(&known, ", ");
        assert(known@.map_values(|x: String| x@) =~= known_texts());
        let mut m = owned("--cc ");
        push_str(&mut m, raw);
        push_str(&mut m, " is not in the compute-capability table; known: ");
        push_str(&mut m, list.as_str());
        Err(m)
    } else {
        Ok(owned(raw))
    }
}

fn value_at(name: &str, args: &[String], i: usize, inline: Option<&str>) -> (r: Result<String, ArgError>)
    requires
        i < args.len(),
    ensures
        result_view(r) == match flag_value(name@, str_views(args@), i as int, opt_str(inline)) {
            Ok(v) => Ok::<Seq<char>, ArgErrorView>(v),
            Err(m) => Err(ArgErrorView::Value(m)),
        },
{
    match inline {
        Some(v) => Ok(owned(v)),
        None => if i + 1 < args.len() {
            let token = args[i + 1].as_str();
            assert(str_views(args@)[i + 1] == token@);
            if starts_with(token, "--") {
                let mut m = owned("`");
                push_str(&mut m, name);
                push_str(&mut m, "` requires a value (got the flag `");
                push_str(&mut m, token);
                push_str(&mut m, "`)");
                Err(ArgError::Value(m))
            } else {
                Ok(args[i + 1].clone())
            }
        } else {
            Err(missing_value(name))
        },
    }
}

impl CheckOptions {
    /// Read the flag at `i`, updating `self`; the index of the next flag.
    #[verifier::rlimit(40)]
    fn read_flag(&mut self, args: &[String], i: usize) -> (r: Result<usize, ArgError>)
        requires
            i < args.len(),
        ensures
            match r {
                Ok(j) => i < j <= args.len() && check_parse_from(str_views(args@), i as int, check_view(*old(self)))
                    == check_parse_from(str_views(args@), j as int, check_view(*final(self))),
                Err(e) => check_parse_from(str_views(args@), i as int, check_view(*old(self))) == Err::<
                    (bool, Option<Seq<char>>, MessageFormat, Option<Seq<char>>, Option<Seq<char>>, bool),
                    _,
                >(err_view(e)),
            },
    {
        let ghost a = str_views(args@);
        let (flag, inline) = split_flag(args[i].as_str());
        assert(a[i as int] == args@[i as int]@);
        let next: usize = if inline.is_some() {
            i + 1
        } else if i + 1 < args.len() {
            i + 2
        } else {
            args.len()
        };
        if str_eq(flag, "--strict") {
            reject_value("--strict", inline)?;
            self.strict = true;
            Ok(i + 1)
        } else if str_eq(flag, "--cc") {
            let raw = value_at("--cc", args, i, inline)?;
            let v = match cc_check(raw.as_str()) {
                Ok(v) => v,
                Err(m) => return Err(ArgError::Value(m)),
            };
            self.cc = Some(v);
            Ok(next)
        } else if str_eq(flag, "--message-format") {
            let f = value_at("--message-format", args, i, inline)?;
            if str_eq(f.as_str(), "text") {
                self.message_format = MessageFormat::Text;
            } else if str_eq(f.as_str(), "json") {
                self.message_format = MessageFormat::Json;
            } else {
                let mut m = owned("unknown message format `");
                push_str(&mut m, f.as_str());
                push_str(&mut m, "` (expected `text` or `json`)");
                return Err(ArgError::Value(m));
            }
            Ok(next)
        } else if str_eq(flag, "--sarif") {
            let p = value_at("--sarif", args, i, inline)?;
            self.sarif_path = Some(p);
            Ok(next)
        } else if str_eq(flag, "--baseline") {
            let p = value_at("--baseline", args, i, inline)?;
            self.baseline = Some(p);
            Ok(next)
        } else if str_eq(flag, "--show-suppressed") {
            reject_value("--show-suppressed", inline)?;
            self.show_suppressed = true;
            Ok(i + 1)
        } else if ArgError::help(flag) {
            Err(ArgError::Help)
        } else {
            Err(ArgError::unknown(flag))
        }
    }

    /// Read `check`'s flags. A value flag takes its inline `=value`, else
    /// the next argument; every flag outside the interface is refused by
    /// name.
    pub fn parse(args: &[String]) -> (r: Result<CheckOptions, ArgError>)
        ensures
            match r {
                Ok(o) => spec_check_parse(str_views(args@)) == Ok::<_, ArgErrorView>(check_view(o)),
                Err(e) => spec_check_parse(str_views(args@)) == Err::<
                    (bool, Option<Seq<char>>, MessageFormat, Option<Seq<char>>, Option<Seq<char>>, bool),
                    _,
                >(err_view(e)),
            },
    {
        let ghost a = str_views(args@);
        let mut options = CheckOptions {
            strict: false,
            cc: None,
            message_format: MessageFormat::Text,
            sarif_path: None,
            baseline: None,
            show_suppressed: false,
        };
        let mut i: usize = 0;
        while i < args.len()
            invariant
                i <= args.len(),
                a == str_views(args@),
                spec_check_parse(a) == check_parse_from(a, i as int, check_view(options)),
            decreases args.len() - i,
        {
            i = options.read_flag(args, i)?;
        }
        Ok(options)
    }
}

/// The crate a findings file belongs to. In
/// `findings-<crate>-<crate types>.json` the first `-` after the prefix
/// ends the crate name (crate names have none; `proc-macro` does).
pub open spec fn spec_findings_file_crate(name: Seq<char>) -> Option<Seq<char>> {
    if "findings-"@.is_prefix_of(name) {
        let rest = name.skip("findings-"@.len() as int);
        if ".json"@.is_suffix_of(rest) {
            let stem = rest.take(rest.len() - ".json"@.len());
            if stem.contains('-') {
                Some(stem.take(first_index_of(stem, '-')))
            } else {
                None
            }
        } else {
            None
        }
    } else {
        None
    }
}

/// The crate named by a findings file name, when it has the current
/// naming scheme.
pub fn findings_file_crate(name: &str) -> (r: Option<&str>)
    ensures
        opt_str(r) == spec_findings_file_crate(name@),
{
    let rest = match strip_prefix(name, "findings-") {
        Some(r) => r,
        None => return None,
    };
    let stem = match strip_suffix(rest, ".json") {
        Some(s) => s,
        None => return None,
    };
    match split_once_char(stem, '-') {
        Some((krate, _types)) => {
            proof {
                let i = choose|i: int|
                    0 <= i < stem@.len() && stem@[i] == '-' && (forall|j: int| 0 <= j < i ==> stem@[j] != '-')
                        && krate@ == stem@.take(i) && _types@ == stem@.skip(i + 1);
                assert(stem@.contains('-'));
                let k = first_index_of(stem@, '-');
                assert(k == i) by {
                    if k < i {
                        assert(stem@[k] == '-');
                    } else if k > i {
                        assert(stem@[i] != '-');
                    }
                }
            }
            Some(krate)
        },
        None => {
            assert(!stem@.contains('-'));
            None
        },
    }
}

/// A workspace member is named in an artifact file name, as `-<crate>-`.
pub open spec fn names_member(name: Seq<char>, members: Seq<Seq<char>>) -> bool {
    exists|k: int| 0 <= k < members.len() && contains_seq(name, "-"@ + members[k] + "-"@)
}

/// Whether an artifact file name mentions one of `members`.
pub fn mentions_member(name: &str, members: &Vec<String>) -> (r: bool)
    ensures
        r == names_member(name@, str_views(members@)),
{
    let mut k: usize = 0;
    while k < members.len()
        invariant
            k <= members.len(),
            forall|j: int| 0 <= j < k ==> !contains_seq(name@, "-"@ + #[trigger] str_views(members@)[j] + "-"@),
        decreases members.len() - k,
    {
        let mut pattern = owned("-");
        push_str(&mut pattern, members[k].as_str());
        push_str(&mut pattern, "-");
        assert(str_views(members@)[k as int] == members@[k as int]@);
        if contains_str(name, pattern.as_str()) {
            return true;
        }
        k = k + 1;
    }
    false
}

/// One of `members` is exactly `krate`.
pub open spec fn is_member(members: Seq<Seq<char>>, krate: Seq<char>) -> bool {
    exists|k: int| 0 <= k < members.len() && members[k] == krate
}

/// The crate of a findings file that belongs to the workspace: only the
/// current naming scheme, and only a current member. Anything else in the
/// directory (crates no longer in the workspace, older naming schemes) is
/// left alone.
pub fn member_findings_crate<'a>(name: &'a str, members: &Vec<String>) -> (r: Option<&'a str>)
    ensures
        opt_str(r) == (match spec_findings_file_crate(name@) {
            Some(k) => if is_member(str_views(members@), k) {
                Some(k)
            } else {
                None
            },
            None => None,
        }),
{
    let krate = match findings_file_crate(name) {
        Some(k) => k,
        None => return None,
    };
    if is_listed(members, krate) {
        Some(krate)
    } else {
        None
    }
}

/// Whether `krate` is one of `members`.
pub fn is_listed(members: &Vec<String>, krate: &str) -> (r: bool)
    ensures
        r == is_member(str_views(members@), krate@),
{
    let mut k: usize = 0;
    while k < members.len()
        invariant
            k <= members.len(),
            forall|j: int| 0 <= j < k ==> #[trigger] str_views(members@)[j] != krate@,
        decreases members.len() - k,
    {
        assert(str_views(members@)[k as int] == members@[k as int]@);
        if str_eq(members[k].as_str(), krate) {
            return true;
        }
        k = k + 1;
    }
    false
}

} // verus!
