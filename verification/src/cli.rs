//! The command line's decisions: which command the arguments name, what it
//! prints, and when a plugin must be probed.
use crate::plugin::{probe_error_message, PluginProbe, PluginProbeError};
use crate::text::{concat2, concat3, concat4, debug_quoted, debug_text, text_eq};
use vstd::prelude::*;
use vstd::string::*;

verus! {

/// The help text.
pub const HELP: &'static str = "Prep 2\n\nUsage:\n  prep --version\n  prep help\n  prep internal probe-plugin <executable>\n";

/// The version Prep reports.
pub const PREP_VERSION: &'static str = "0.1.0";

/// Why a command failed.
#[derive(Debug)]
pub enum CliError {
    Usage(String),
    Probe(PluginProbeError),
}

impl From<PluginProbeError> for CliError {
    fn from(error: PluginProbeError) -> (r: Self) {
        CliError::Probe(error)
    }
}

impl vstd::std_specs::convert::FromSpecImpl<PluginProbeError> for CliError {
    open spec fn obeys_from_spec() -> bool {
        true
    }

    open spec fn from_spec(error: PluginProbeError) -> CliError {
        CliError::Probe(error)
    }
}

impl CliError {
    /// The error's message: the usage message, or the probe failure's.
    pub fn describe(&self) -> (r: String)
        ensures
            match self {
                CliError::Usage(m) => r@ == m@,
                CliError::Probe(e) => probe_error_message(*e, r@),
            },
    {
        match self {
            CliError::Usage(message) => message.clone(),
            CliError::Probe(error) => error.describe(),
        }
    }
}

/// What a command asks for: text to print, or a probe of the plugin at a path.
#[derive(Debug, Clone, PartialEq, Eq)]
pub enum CliAction {
    Print(String),
    ProbePlugin(String),
}

/// Whether `a` is one of the texts that ask for help.
pub open spec fn is_help(a: Seq<char>) -> bool {
    a == "help"@ || a == "--help"@ || a == "-h"@
}

/// What the `internal` command with arguments `args[2..]` does.
pub open spec fn internal_outcome(args: Seq<Seq<char>>, r: Result<CliAction, CliError>) -> bool {
    if args.len() <= 2 {
        r matches Err(CliError::Usage(m)) && m@ == "missing internal command"@
    } else if args[2] == "probe-plugin"@ {
        if args.len() <= 3 {
            r matches Err(CliError::Usage(m)) && m@
                == "internal probe-plugin requires an executable path"@
        } else if args.len() > 4 {
            r matches Err(CliError::Usage(m)) && m@
                == "internal probe-plugin accepts exactly one executable path"@
        } else {
            r matches Ok(CliAction::ProbePlugin(p)) && p@ == args[3]
        }
    } else {
        r matches Err(CliError::Usage(m)) && m@ == "unknown internal command "@ + debug_quoted(
            args[2],
        )
    }
}

/// What the command line `args`, program name first, does.
pub open spec fn run_outcome(args: Seq<Seq<char>>, r: Result<CliAction, CliError>) -> bool {
    if args.len() <= 1 || is_help(args[1]) {
        r matches Ok(CliAction::Print(t)) && t@ == HELP@
    } else if args[1] == "--version"@ || args[1] == "-V"@ {
        r matches Ok(CliAction::Print(t)) && t@ == "prep "@ + PREP_VERSION@
    } else if args[1] == "internal"@ {
        internal_outcome(args, r)
    } else {
        r matches Err(CliError::Usage(m)) && m@ == "unknown command "@ + debug_quoted(args[1])
            + "\n\n"@ + HELP@
    }
}

/// The texts of the arguments.
pub open spec fn arg_views(args: Seq<String>) -> Seq<Seq<char>> {
    args.map_values(|a: String| a@)
}

fn run_internal(args: &Vec<String>) -> (r: Result<CliAction, CliError>)
    requires
        args@.len() >= 2,
        args@[1]@ == "internal"@,
    ensures
        internal_outcome(arg_views(args@), r),
{
    let ghost a = arg_views(args@);
    if args.len() <= 2 {
        return Err(CliError::Usage(String::from_str("missing internal command")));
    }
    let command = args[2].as_str();
    assert(a[2] == command@);
    if text_eq(command, "probe-plugin") {
        if args.len() <= 3 {
            return Err(
                CliError::Usage(String::from_str("internal probe-plugin requires an executable path")),
            );
        }
        if args.len() > 4 {
            return Err(
                CliError::Usage(
                    String::from_str("internal probe-plugin accepts exactly one executable path"),
                ),
            );
        }
        assert(a[3] == args@[3]@);
        return Ok(CliAction::ProbePlugin(args[3].clone()));
    }
    let quoted = debug_text(command);
    Err(CliError::Usage(concat2("unknown internal command ", quoted.as_str())))
}

/// Decides what the command line `args` (program name first) asks for.
pub fn run_from(args: Vec<String>) -> (r: Result<CliAction, CliError>)
    ensures
        run_outcome(arg_views(args@), r),
{
    let ghost a = arg_views(args@);
    if args.len() <= 1 {
        return Ok(CliAction::Print(String::from_str(HELP)));
    }
    let command = args[1].as_str();
    assert(a[1] == command@);
    if text_eq(command, "help") || text_eq(command, "--help") || text_eq(command, "-h") {
        return Ok(CliAction::Print(String::from_str(HELP)));
    }
    if text_eq(command, "--version") || text_eq(command, "-V") {
        return Ok(CliAction::Print(concat2("prep ", PREP_VERSION)));
    }
    if text_eq(command, "internal") {
        return run_internal(&args);
    }
    let quoted = debug_text(command);
    Err(CliError::Usage(concat4("unknown command ", quoted.as_str(), "\n\n", HELP)))
}

/// The text of a boolean.
pub open spec fn bool_text(b: bool) -> Seq<char> {
    if b {
        "true"@
    } else {
        "false"@
    }
}

/// The line that reports a successful probe.
pub fn probe_report(probe: &PluginProbe) -> (r: String)
    ensures
        r@ == "plugin="@ + probe.name@ + " version="@ + probe.version@ + " supported="@
            + bool_text(probe.supported),
{
    let head = concat4("plugin=", probe.name.as_str(), " version=", probe.version.as_str());
    let flag = if probe.supported {
        "true"
    } else {
        "false"
    };
    concat3(head.as_str(), " supported=", flag)
}

/// Asking for help in any of its three spellings, `help`, `--help` or `-h`,
/// or naming no command at all, prints the help text, whatever follows.
pub proof fn law_help_spellings_print_help(args: Seq<Seq<char>>, r: Result<CliAction, CliError>)
    requires
        run_outcome(args, r),
        args.len() <= 1 || args[1] == "help"@ || args[1] == "--help"@ || args[1] == "-h"@,
    ensures
        r matches Ok(CliAction::Print(t)) && t@ == HELP@,
{
}

} // verus!
