//! Which implementation of the filesystem's control tool handles a request:
//! this one, or the one that it falls back to.

use vstd::prelude::*;
use vstd::string::StrSliceExecFns;

verus! {

/// The exit code with which the fallback says that it could not parse the
/// command line.
pub const PYTHON_EDENFSCTL_EX_USAGE: i32 = 64;

/// How a request is started, before the command line is looked at.
#[derive(Clone, Copy, Debug, PartialEq, Eq)]
pub enum FirstStep {
    /// The command line must parse, and the command runs here.
    ParseAndRun,
    /// The request goes to the fallback as it is.
    Fallback,
    /// The command line is parsed, and what happens next depends on it.
    TryParse,
}

/// What is done once the command line was looked at.
#[derive(Clone, Copy, Debug, PartialEq, Eq)]
pub enum NextStep {
    /// The command runs here.
    Run,
    /// The fallback runs, and the command runs here after all where the
    /// fallback could not parse the command line.
    FallbackThenRun,
    /// The fallback runs.
    Fallback,
    /// The help of this implementation is printed.
    PrintHelp,
}

/// How a request is started: here alone where only this implementation is
/// wanted, in the fallback alone where this one is to be skipped, and by
/// parsing the command line otherwise.
pub fn first_step(only_rust: bool, skip_rust: bool) -> (step: FirstStep)
    ensures
        step == if only_rust {
            FirstStep::ParseAndRun
        } else if skip_rust {
            FirstStep::Fallback
        } else {
            FirstStep::TryParse
        },
{
    if only_rust {
        FirstStep::ParseAndRun
    } else if skip_rust {
        FirstStep::Fallback
    } else {
        FirstStep::TryParse
    }
}

/// What is done with a command that parsed: it runs here where it is
/// enabled, and goes to the fallback first where it is not.
pub fn step_for_command(enabled: bool) -> (step: NextStep)
    ensures
        step == if enabled {
            NextStep::Run
        } else {
            NextStep::FallbackThenRun
        },
{
    if enabled {
        NextStep::Run
    } else {
        NextStep::FallbackThenRun
    }
}

/// What is done with a command line that did not parse: help is printed
/// here where help was asked for and the subcommand is known to be enabled,
/// and the fallback runs otherwise.
pub fn step_for_error(asks_for_help: bool, subcommand_enabled: Option<bool>) -> (step: NextStep)
    ensures
        step == if asks_for_help && subcommand_enabled == Some(true) {
            NextStep::PrintHelp
        } else {
            NextStep::Fallback
        },
{
    let enabled = match subcommand_enabled {
        Some(enabled) => enabled,
        None => false,
    };
    if asks_for_help && enabled {
        NextStep::PrintHelp
    } else {
        NextStep::Fallback
    }
}

/// Whether the command runs here after the fallback has ended with the
/// given exit code.
pub fn runs_after_fallback(exit_code: i32) -> (r: bool)
    ensures
        r == (exit_code == PYTHON_EDENFSCTL_EX_USAGE),
{
    exit_code == PYTHON_EDENFSCTL_EX_USAGE
}

/// The exit code of a fallback that ended with the given status, which has
/// none where a signal ended it.
pub fn fallback_exit_code(status: Option<i32>) -> (code: i32)
    ensures
        code == match status {
            Some(code) => code,
            None => 1,
        },
{
    match status {
        Some(code) => code,
        None => 1,
    }
}

/// The argument is a flag: it starts with a dash.
pub open spec fn is_flag(arg: Seq<char>) -> bool {
    arg.len() > 0 && arg[0] == '-'
}

/// The place of the first argument at or after `from` that is no flag.
pub open spec fn first_plain(args: Seq<String>, from: int) -> Option<int>
    decreases args.len() - from,
{
    if from < 0 || from >= args.len() {
        None
    } else if !is_flag(args[from]@) {
        Some(from)
    } else {
        first_plain(args, from + 1)
    }
}

/// The name of the subcommand on a command line: the first argument after
/// the name of the program that is no flag.
pub fn subcommand_name(args: &Vec<String>) -> (name: Option<String>)
    ensures
        match name {
            Some(name) => first_plain(args@, 1) matches Some(i) && name == args@[i],
            None => first_plain(args@, 1) is None,
        },
{
    let mut i: usize = 1;
    while i < args.len()
        invariant
            1 <= i,
            first_plain(args@, 1) == first_plain(args@, i as int),
        decreases args.len() - i,
    {
        let arg = args[i].as_str();
        let flag = arg.unicode_len() > 0 && arg.get_char(0) == '-';
        if !flag {
            return Some(args[i].clone());
        }
        i += 1;
    }
    None
}

} // verus!
