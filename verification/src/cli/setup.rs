//! The `setup` subcommand's plan: the pinned toolchain with the components
//! the driver links against, then both companion binaries at this tool's
//! own version, so the three cannot drift apart. Running the commands is
//! the binary's part.
use vstd::prelude::*;

use super::args::{is_help_flag, ArgErrorView, err_view, unknown_message, ArgError};
use crate::artifacts::findings::TOOL_VERSION;
use crate::text::{join_strings, joined, owned, push_str, str_views};

verus! {

/// The nightly the driver wraps.
pub const PINNED_TOOLCHAIN: &'static str = "nightly-2026-04-03";

/// `setup` takes no options.
#[derive(Debug, Clone, Copy, PartialEq, Eq)]
pub struct SetupOptions {}

impl SetupOptions {
    /// Any argument at all is refused, by name.
    pub fn parse(args: &[String]) -> (r: Result<SetupOptions, ArgError>)
        ensures
            args.len() == 0 <==> r is Ok,
            args.len() > 0 && is_help_flag(args@[0]@) ==> (r matches Err(e) && err_view(e) == ArgErrorView::Help),
            args.len() > 0 && !is_help_flag(args@[0]@) ==> (r matches Err(e) && err_view(e) == ArgErrorView::Unknown(
                unknown_message(args@[0]@),
            )),
    {
        if args.len() == 0 {
            Ok(SetupOptions {})
        } else if ArgError::help(args[0].as_str()) {
            Err(ArgError::Help)
        } else {
            Err(ArgError::unknown(args[0].as_str()))
        }
    }
}

/// The first command: the pinned toolchain, minimal, with the driver's
/// components.
pub open spec fn toolchain_command() -> Seq<Seq<char>> {
    seq![
        "rustup"@,
        "toolchain"@,
        "install"@,
        PINNED_TOOLCHAIN@,
        "--profile"@,
        "minimal"@,
        "--component"@,
        "rustc-dev"@,
        "--component"@,
        "llvm-tools"@,
    ]
}

/// The second command: both companions, at this version, locked, built by
/// the pinned toolchain.
pub open spec fn install_command() -> Seq<Seq<char>> {
    seq![
        "rustup"@,
        "run"@,
        PINNED_TOOLCHAIN@,
        "cargo"@,
        "install"@,
        "--locked"@,
        "reconverge-driver@"@ + TOOL_VERSION@,
        "reconverge-tui@"@ + TOOL_VERSION@,
    ]
}

fn argv(words: &[&str]) -> (r: Vec<String>)
    ensures
        str_views(r@) == words@.map_values(|w: &str| w@),
{
    let mut out: Vec<String> = Vec::new();
    let mut i: usize = 0;
    while i < words.len()
        invariant
            i <= words.len(),
            str_views(out@) == words@.take(i as int).map_values(|w: &str| w@),
        decreases words.len() - i,
    {
        out.push(owned(words[i]));
        assert(words@.take(i + 1).map_values(|w: &str| w@) =~= words@.take(i as int).map_values(|w: &str| w@).push(
            words@[i as int]@,
        ));
        assert(str_views(out@) =~= str_views(out@.drop_last()).push(words@[i as int]@));
        i = i + 1;
    }
    assert(words@.take(words.len() as int) =~= words@);
    out
}

/// The commands `setup` runs, in order.
pub fn plan() -> (r: [Vec<String>; 2])
    ensures
        str_views(r[0]@) == toolchain_command(),
        str_views(r[1]@) == install_command(),
{
    let toolchain = argv(
        &[
            "rustup",
            "toolchain",
            "install",
            PINNED_TOOLCHAIN,
            "--profile",
            "minimal",
            "--component",
            "rustc-dev",
            "--component",
            "llvm-tools",
        ],
    );
    assert(str_views(toolchain@) =~= toolchain_command());
    let mut driver = owned("reconverge-driver@");
    push_str(&mut driver, TOOL_VERSION);
    let mut tui = owned("reconverge-tui@");
    push_str(&mut tui, TOOL_VERSION);
    let mut install = argv(&["rustup", "run", PINNED_TOOLCHAIN, "cargo", "install", "--locked"]);
    let ghost head = install@;
    install.push(driver);
    install.push(tui);
    assert(str_views(install@) =~= str_views(head).push(driver@).push(tui@));
    assert(str_views(install@) =~= install_command());
    [toolchain, install]
}

/// What to paste if `setup` cannot finish the job itself: each command on
/// a line of its own, indented.
pub open spec fn manual_text() -> Seq<char> {
    "  "@ + joined(toolchain_command(), " "@) + "\n"@ + "  "@ + joined(install_command(), " "@)
}

/// The manual steps, for the failure message.
pub fn manual_steps() -> (r: String)
    ensures
        r@ == manual_text(),
{
    let commands = plan();
    let mut s = owned("  ");
    push_str(&mut s, join_strings(&commands[0], " ").as_str());
    push_str(&mut s, "\n");
    push_str(&mut s, "  ");
    push_str(&mut s, join_strings(&commands[1], " ").as_str());
    s
}

} // verus!
