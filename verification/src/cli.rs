//! Command line arguments.

use vstd::prelude::*;
use vstd::string::*;

use crate::text::{joined, same_text};
use crate::types::{debug_text, quoted, LogLevel};

verus! {

/// What the program is asked to do.
#[derive(Clone, Copy, Debug, PartialEq, Eq, Structural)]
pub enum Command {
    Serve(Option<LogLevel>),
    Version,
    Help,
}

/// The level with a name.
pub open spec fn level_named(name: Seq<char>) -> Option<LogLevel> {
    if name == LogLevel::Error.name() {
        Some(LogLevel::Error)
    } else if name == LogLevel::Warn.name() {
        Some(LogLevel::Warn)
    } else if name == LogLevel::Info.name() {
        Some(LogLevel::Info)
    } else if name == LogLevel::Debug.name() {
        Some(LogLevel::Debug)
    } else if name == LogLevel::Trace.name() {
        Some(LogLevel::Trace)
    } else {
        None
    }
}

/// What arguments from the place `i` on come to, after those before chose a
/// command and a level. The last command flag wins, and so does the last level;
/// without a command flag the program serves.
pub open spec fn parsed_from(
    args: Seq<String>,
    i: int,
    command: Option<Command>,
    level: Option<LogLevel>,
) -> Result<Command, Seq<char>>
    decreases args.len() - i,
{
    if i < 0 || i >= args.len() {
        Ok(
            match command {
                Some(command) => command,
                None => Command::Serve(level),
            },
        )
    } else if args[i]@ == "-V"@ || args[i]@ == "--version"@ {
        parsed_from(args, i + 1, Some(Command::Version), level)
    } else if args[i]@ == "-h"@ || args[i]@ == "--help"@ {
        parsed_from(args, i + 1, Some(Command::Help), level)
    } else if args[i]@ == "--stdio"@ {
        parsed_from(args, i + 1, command, level)
    } else if args[i]@ == "--log-level"@ {
        if i + 1 >= args.len() {
            Err("--log-level needs a value; pass --help for usage"@)
        } else {
            match level_named(args[i + 1]@) {
                Some(level) => parsed_from(args, i + 2, command, Some(level)),
                None => Err("unknown log level "@ + debug_text(args[i + 1]@)),
            }
        }
    } else {
        Err("unknown argument "@ + debug_text(args[i]@) + "; pass --help for usage"@)
    }
}

/// What the arguments ask for, or what is wrong with them.
pub fn parse_args(args: &Vec<String>) -> (r: Result<Command, String>)
    ensures
        match parsed_from(args@, 0, None, None) {
            Ok(command) => r == Ok::<Command, String>(command),
            Err(reason) => r matches Err(text) && text@ == reason,
        },
{
    let mut command: Option<Command> = None;
    let mut level: Option<LogLevel> = None;
    let mut i: usize = 0;
    while i < args.len()
        invariant
            i <= args@.len(),
            parsed_from(args@, 0, None, None) == parsed_from(args@, i as int, command, level),
        decreases args.len() - i,
    {
        let arg: &str = args[i].as_str();
        if same_text(arg, "-V") || same_text(arg, "--version") {
            command = Some(Command::Version);
        } else if same_text(arg, "-h") || same_text(arg, "--help") {
            command = Some(Command::Help);
        } else if same_text(arg, "--stdio") {
        } else if same_text(arg, "--log-level") {
            i += 1;
            if i >= args.len() {
                return Err("--log-level needs a value; pass --help for usage".to_owned());
            }
            match LogLevel::try_from(args[i].as_str()) {
                Ok(chosen) => {
                    proof {
                        crate::types::level_names_are_distinct(
                            chosen,
                            level_named(args@[i as int]@)->0,
                        );
                    }
                    level = Some(chosen);
                },
                Err(reason) => {
                    proof {
                        assert(LogLevel::Error.name() != args@[i as int]@);
                        assert(LogLevel::Warn.name() != args@[i as int]@);
                        assert(LogLevel::Info.name() != args@[i as int]@);
                        assert(LogLevel::Debug.name() != args@[i as int]@);
                        assert(LogLevel::Trace.name() != args@[i as int]@);
                    }
                    return Err(reason);
                },
            }
        } else {
            let mut reason: String = joined("unknown argument ", quoted(arg).as_str());
            reason.append("; pass --help for usage");
            return Err(reason);
        }
        i += 1;
    }
    match command {
        Some(command) => Ok(command),
        None => Ok(Command::Serve(level)),
    }
}

} // verus!
