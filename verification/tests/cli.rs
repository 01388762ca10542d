use meta_call_lsp::cli::{parse_args, Command};
use meta_call_lsp::types::LogLevel;

fn parse(args: &[&str]) -> Result<Command, String> {
    parse_args(&args.iter().map(|arg| arg.to_string()).collect())
}

#[test]
fn version_flags_are_recognized() {
    assert_eq!(parse(&["-V"]).unwrap(), Command::Version);
    assert_eq!(parse(&["--version"]).unwrap(), Command::Version);
}

#[test]
fn help_flags_are_recognized() {
    assert_eq!(parse(&["-h"]).unwrap(), Command::Help);
    assert_eq!(parse(&["--help"]).unwrap(), Command::Help);
}

#[test]
fn client_flags_keep_the_server_running() {
    assert_eq!(parse(&["--stdio"]).unwrap(), Command::Serve(None));
    assert_eq!(
        parse(&[]).unwrap(),
        Command::Serve(None),
        "no flag leaves the log level to RUST_LOG"
    );
}

#[test]
fn a_log_level_is_parsed_and_an_unknown_one_is_rejected() {
    assert_eq!(
        parse(&["--log-level", "debug"]).unwrap(),
        Command::Serve(Some(LogLevel::Debug))
    );
    assert_eq!(
        parse(&["--log-level", "trace", "--stdio"]).unwrap(),
        Command::Serve(Some(LogLevel::Trace)),
        "the transport flag does not clear the level"
    );
    assert!(parse(&["--log-level", "loud"]).is_err());
    assert!(parse(&["--log-level"]).is_err());
}

#[test]
fn unknown_arguments_are_rejected() {
    assert!(parse(&["--bogus"]).is_err());
    assert_eq!(
        parse(&["--bogus"]).unwrap_err(),
        "unknown argument \"--bogus\"; pass --help for usage"
    );
    assert_eq!(
        parse(&["--log-level"]).unwrap_err(),
        "--log-level needs a value; pass --help for usage"
    );
    assert_eq!(
        parse(&["--log-level", "loud"]).unwrap_err(),
        "unknown log level \"loud\""
    );
}

#[test]
fn the_last_flag_wins() {
    assert_eq!(parse(&["-V", "-h"]).unwrap(), Command::Help);
    assert_eq!(
        parse(&["--log-level", "warn", "--log-level", "error"]).unwrap(),
        Command::Serve(Some(LogLevel::Error))
    );
    assert_eq!(
        parse(&["--log-level", "info", "--version"]).unwrap(),
        Command::Version
    );
    assert!(parse(&["-V", "--bogus"]).is_err());
}
