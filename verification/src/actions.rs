//! File actions: a terminal here, an agent chat, a LocalSend share, opening
//! with the default application.
//!
//! All of them go through Omarchy's own scripts rather than reimplementing
//! them. The application spawns the processes; this module composes what is
//! run and turns what came back into the sentence the window shows.

use vstd::prelude::*;
use crate::diff::{trim_bounds, trim_ws};
use crate::numfmt::{decimal, decimal_string};
use crate::text::{chars_of, concat, concat3, string_of};

verus! {

/// A composed command line: program and arguments, not yet a process.
#[derive(Debug, PartialEq, Eq)]
pub struct CommandLine {
    pub program: &'static str,
    pub args: Vec<String>,
}

pub open spec fn args_view(v: Seq<String>) -> Seq<Seq<char>> {
    Seq::new(v.len(), |i: int| v[i]@)
}

/// A terminal in `dir`: the body of `omarchy-launch-terminal`, minus its
/// lookup of the active terminal's directory — ours is already known.
pub fn terminal_command(dir: &str) -> (line: CommandLine)
    ensures
        line.program == "setsid",
        args_view(line.args@) == seq!["uwsm-app"@, "--"@, "xdg-terminal-exec"@, "--dir="@ + dir@],
{
    let mut args: Vec<String> = Vec::new();
    args.push(String::from_str("uwsm-app"));
    args.push(String::from_str("--"));
    args.push(String::from_str("xdg-terminal-exec"));
    args.push(concat("--dir=", dir));
    assert(args_view(args@) =~= seq!["uwsm-app"@, "--"@, "xdg-terminal-exec"@, "--dir="@ + dir@]);
    CommandLine { program: "setsid", args }
}

/// What launching the terminal came to: only a failure to spawn is
/// reported, since the terminal outlives us on purpose.
pub fn open_terminal(spawned: Result<(), String>) -> (r: Result<(), String>)
    ensures
        match spawned {
            Ok(()) => r is Ok,
            Err(e) => r matches Err(m) && m@ == "could not launch a terminal: "@ + e@,
        },
{
    match spawned {
        Ok(()) => Ok(()),
        Err(e) => Err(concat("could not launch a terminal: ", e.as_str())),
    }
}

/// The user's default agent, from what `omarchy-default-agent` printed:
/// `Ok(None)` when none is chosen, so the caller offers Omarchy's picker
/// rather than an error.
pub fn default_agent(output: Result<String, String>) -> (r: Result<Option<String>, String>)
    ensures
        match output {
            Err(e) => r matches Err(m) && m@ == "could not run omarchy-default-agent: "@ + e@,
            Ok(out) => match r {
                Ok(None) => trim_ws(out@).len() == 0,
                Ok(Some(a)) => trim_ws(out@).len() > 0 && a@ == trim_ws(out@),
                Err(_) => false,
            },
        },
{
    match output {
        Err(e) => Err(concat("could not run omarchy-default-agent: ", e.as_str())),
        Ok(out) => {
            let cs = chars_of(out.as_str());
            assert(cs@.subrange(0, cs@.len() as int) =~= cs@);
            let (a, b) = trim_bounds(&cs, 0, cs.len());
            if a == b {
                Ok(None)
            } else {
                Ok(Some(string_of(&cs, a, b)))
            }
        },
    }
}

/// The prompt offered in the dialog, editable before launch: it names what
/// the agent is asked about.
pub fn compose_prompt(name: &str, is_dir: bool) -> (r: String)
    ensures
        r@ == if is_dir {
            "Look at the "@ + name@ + " directory and help me with it."@
        } else {
            "Look at the file \""@ + name@ + "\" and help me with it."@
        },
{
    if is_dir {
        concat3("Look at the ", name, " directory and help me with it.")
    } else {
        concat3("Look at the file \"", name, "\" and help me with it.")
    }
}

/// The agent, with a prompt, in a terminal; it inherits the working
/// directory, which is how it ends up beside the file it was asked about.
pub fn agent_prompt(prompt: &str) -> (line: CommandLine)
    ensures
        line.program == "omarchy-agent-prompt",
        args_view(line.args@) == seq![prompt@],
{
    let mut args: Vec<String> = Vec::new();
    args.push(String::from_str(prompt));
    assert(args_view(args@) =~= seq![prompt@]);
    CommandLine { program: "omarchy-agent-prompt", args }
}

/// Omarchy's own default-agent picker, for when none is configured.
pub fn summon_agent_picker() -> (line: CommandLine)
    ensures
        line.program == "omarchy-menu",
        args_view(line.args@) == seq!["summon"@, "setup.default.agent"@],
{
    let mut args: Vec<String> = Vec::new();
    args.push(String::from_str("summon"));
    args.push(String::from_str("setup.default.agent"));
    assert(args_view(args@) =~= seq!["summon"@, "setup.default.agent"@]);
    CommandLine { program: "omarchy-menu", args }
}

/// Share an entry through `omarchy-menu-share` — never `localsend`
/// directly, which hangs on `--help`.
pub fn share_command(path: &str, is_dir: bool) -> (line: CommandLine)
    ensures
        line.program == "omarchy-menu-share",
        args_view(line.args@) == seq![if is_dir { "folder"@ } else { "file"@ }, path@],
{
    let mut args: Vec<String> = Vec::new();
    args.push(String::from_str(if is_dir { "folder" } else { "file" }));
    args.push(String::from_str(path));
    assert(args_view(args@) =~= seq![if is_dir { "folder"@ } else { "file"@ }, path@]);
    CommandLine { program: "omarchy-menu-share", args }
}

/// What the share came to, from whether the script could be run, its exit
/// status and its stderr.
pub fn share(outcome: Result<(bool, String), String>) -> (r: Result<(), String>)
    ensures
        match outcome {
            Err(e) => r matches Err(m) && m@ == "could not run omarchy-menu-share: "@ + e@,
            Ok((true, _)) => r is Ok,
            Ok((false, stderr)) => r matches Err(m) && m@ == (if trim_ws(stderr@).len() == 0 { "sharing failed"@ } else { trim_ws(stderr@) }),
        },
{
    match outcome {
        Err(e) => Err(concat("could not run omarchy-menu-share: ", e.as_str())),
        Ok((true, _)) => Ok(()),
        Ok((false, stderr)) => {
            let cs = chars_of(stderr.as_str());
            assert(cs@.subrange(0, cs@.len() as int) =~= cs@);
            let (a, b) = trim_bounds(&cs, 0, cs.len());
            if a == b {
                Err(String::from_str("sharing failed"))
            } else {
                Err(string_of(&cs, a, b))
            }
        },
    }
}

/// An exit code as `format!` writes it.
pub open spec fn signed_text(n: int) -> Seq<char> {
    if n < 0 {
        seq!['-'] + decimal((-n) as nat)
    } else {
        decimal(n as nat)
    }
}

/// xdg-open's documented exit codes, turned into a sentence — its stderr is
/// usually empty, the codes being the actual interface, but a message it did
/// write comes first.
pub open spec fn failure_text(code: Option<i32>, stderr: Seq<char>) -> Seq<char> {
    if trim_ws(stderr).len() > 0 {
        trim_ws(stderr)
    } else {
        match code {
            Some(2) => "xdg-open: the file does not exist"@,
            Some(3) => "xdg-open: no application is available to open this file"@,
            Some(4) => "xdg-open: the application failed to launch"@,
            Some(c) => "xdg-open failed (exit "@ + signed_text(c as int) + ")"@,
            None => "xdg-open was killed by a signal"@,
        }
    }
}

pub fn open_failure(code: Option<i32>, stderr: &str) -> (r: String)
    ensures
        r@ == failure_text(code, stderr@),
{
    let cs = chars_of(stderr);
    assert(cs@.subrange(0, cs@.len() as int) =~= cs@);
    let (a, b) = trim_bounds(&cs, 0, cs.len());
    if a < b {
        return string_of(&cs, a, b);
    }
    match code {
        Some(2) => String::from_str("xdg-open: the file does not exist"),
        Some(3) => String::from_str("xdg-open: no application is available to open this file"),
        Some(4) => String::from_str("xdg-open: the application failed to launch"),
        Some(c) => {
            let digits = if c < 0 {
                let magnitude: u128 = (0i128 - c as i128) as u128;
                let d = decimal_string(magnitude);
                concat("-", d.as_str())
            } else {
                decimal_string(c as u128)
            };
            proof {
                reveal_strlit("-");
            }
            concat3("xdg-open failed (exit ", digits.as_str(), ")")
        },
        None => String::from_str("xdg-open was killed by a signal"),
    }
}

/// What opening a file with the default application came to, from whether
/// `xdg-open` could be run, its exit code and its stderr.
pub fn open_path(outcome: Result<(Option<i32>, String), String>) -> (r: Result<(), String>)
    ensures
        match outcome {
            Err(e) => r matches Err(m) && m@ == "could not run xdg-open: "@ + e@,
            Ok((Some(0), _)) => r is Ok,
            Ok((code, stderr)) => r matches Err(m) && m@ == failure_text(code, stderr@),
        },
{
    match outcome {
        Err(e) => Err(concat("could not run xdg-open: ", e.as_str())),
        Ok((Some(0), _)) => Ok(()),
        Ok((code, stderr)) => Err(open_failure(code, stderr.as_str())),
    }
}

} // verus!
