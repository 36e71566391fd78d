use fsearch::cli::{
    choose_config_open, command_words, editor_command, parse, parse_invocation, Command, ConfigOpen,
    Invocation, OutputFormat, BAD_EDITOR, HELP, NO_NAME, TWO_FORMATS,
};

fn parse_strs(args: &[&str]) -> Command {
    parse(&args.iter().map(|s| s.to_string()).collect::<Vec<_>>())
}

#[test]
fn no_args_runs_the_ui() {
    assert_eq!(parse_strs(&[]), Command::Run);
}

#[test]
fn help_flags() {
    assert_eq!(parse_strs(&["--help"]), Command::Help);
    assert_eq!(parse_strs(&["-h"]), Command::Help);
}

#[test]
fn version_flags() {
    assert_eq!(parse_strs(&["--version"]), Command::Version);
    assert_eq!(parse_strs(&["-V"]), Command::Version);
}

#[test]
fn config_and_reindex_flags() {
    assert_eq!(parse_strs(&["--config"]), Command::Config);
    assert_eq!(parse_strs(&["--reindex"]), Command::Reindex);
    assert_eq!(parse_strs(&["--index-semantic"]), Command::IndexSemantic);
}

#[test]
fn print_takes_the_rest_as_query() {
    assert_eq!(
        parse_strs(&["-p", "tax", "2025"]),
        Command::Print("tax 2025".to_string())
    );
    assert_eq!(
        parse_strs(&["--print", "> needle"]),
        Command::Print("> needle".to_string())
    );
    // no query is an error
    assert_eq!(parse_strs(&["-p"]), Command::Unknown("-p".to_string()));
}

#[test]
fn big_takes_an_optional_count() {
    assert_eq!(parse_strs(&["--big"]), Command::Big(20));
    assert_eq!(parse_strs(&["--big", "5"]), Command::Big(5));
    assert_eq!(
        parse_strs(&["--big", "nope"]),
        Command::Unknown("nope".to_string())
    );
}

#[test]
fn pick_takes_an_optional_initial_query() {
    assert_eq!(parse_strs(&["--pick"]), Command::Pick(String::new()));
    assert_eq!(
        parse_strs(&["--pick", "dir:"]),
        Command::Pick("dir:".to_string())
    );
}

#[test]
fn anything_else_is_unknown() {
    assert_eq!(
        parse_strs(&["--bogus"]),
        Command::Unknown("--bogus".to_string())
    );
    // extra args after a valid flag are also rejected
    assert_eq!(
        parse_strs(&["--help", "x"]),
        Command::Unknown("x".to_string())
    );
}

#[test]
fn config_opens_visual_then_editor_then_finder() {
    assert_eq!(
        choose_config_open(Some("code -w"), Some("vim")),
        ConfigOpen::Editor("code -w".to_string())
    );
    assert_eq!(
        choose_config_open(None, Some("vim")),
        ConfigOpen::Editor("vim".to_string())
    );
    assert_eq!(choose_config_open(None, None), ConfigOpen::Reveal);
    // empty strings count as unset
    assert_eq!(choose_config_open(Some(""), Some("")), ConfigOpen::Reveal);
}

#[test]
fn help_text_covers_the_essentials() {
    for needle in [
        "usage",
        "--config",
        "--reindex",
        "--version",
        "> pattern",
        "? words",
        "--index-semantic",
        "ctrl-r",
    ] {
        assert!(HELP.contains(needle), "help is missing {needle:?}");
    }
}

#[test]
fn doctor_and_counts_with_a_plus_sign() {
    assert_eq!(parse_strs(&["--doctor"]), Command::Doctor);
    assert_eq!(parse_strs(&["--big", "+7"]), Command::Big(7));
    assert_eq!(parse_strs(&["--big", "+"]), Command::Unknown("+".to_string()));
    assert_eq!(parse_strs(&["--big", "5", "6"]), Command::Unknown("5".to_string()));
    assert_eq!(
        parse_strs(&["--big", "99999999999999999999"]),
        Command::Unknown("99999999999999999999".to_string())
    );
}

#[test]
fn unknown_arguments_are_among_the_given() {
    assert_eq!(
        parse_strs(&["--help", "--version"]),
        Command::Unknown("--version".to_string())
    );
    assert_eq!(parse_strs(&["-p", ""]), Command::Unknown("-p".to_string()));
    assert_eq!(
        parse_strs(&["--pick", "a", "b"]),
        Command::Pick("a b".to_string())
    );
}

#[test]
fn editors_may_have_quoted_arguments() {
    assert_eq!(
        editor_command("code -w 'two words'").unwrap(),
        vec!["code", "-w", "two words"]
    );
    assert_eq!(editor_command("'unclosed"), Err(BAD_EDITOR));
    assert_eq!(editor_command("   "), Err(BAD_EDITOR));
    assert_eq!(command_words(Some(vec!["vim".to_string()])).unwrap(), vec!["vim"]);
    assert_eq!(command_words(None), Err(BAD_EDITOR));
}

fn invoke(args: &[&str]) -> Result<Invocation, &'static str> {
    parse_invocation(&args.iter().map(|s| s.to_string()).collect::<Vec<_>>())
}

#[test]
fn options_stand_before_the_command() {
    let given = invoke(&["--json", "--no-history", "-p", "> ext:md", "TODO", "--read0"]).unwrap();
    assert_eq!(given.command, Command::Print("> ext:md TODO --read0".to_string()));
    assert_eq!(given.format, OutputFormat::Json);
    assert!(given.no_history && !given.read0);
    let given = invoke(&["--read0", "--print0", "--filter"]).unwrap();
    assert_eq!(given.command, Command::Filter(String::new()));
    assert_eq!(given.format, OutputFormat::Nul);
    assert!(given.read0);
    let given = invoke(&["--saved", "recent_docs", "-p", "report"]).unwrap();
    assert_eq!(given.saved.as_deref(), Some("recent_docs"));
    assert_eq!(given.command, Command::Print("report".to_string()));
    assert_eq!(invoke(&["--saved", "x"]).unwrap().command, Command::Run);
    assert_eq!(invoke(&["--json", "--status"]).unwrap().command, Command::Status);
    assert_eq!(invoke(&[]).unwrap().format, OutputFormat::Text);
}

#[test]
fn conflicting_and_incomplete_options_are_errors() {
    assert_eq!(invoke(&["--json", "--print0"]).err(), Some(TWO_FORMATS));
    assert_eq!(invoke(&["--print0", "--read0", "--json", "-p", "x"]).err(), Some(TWO_FORMATS));
    assert_eq!(invoke(&["--saved"]).err(), Some(NO_NAME));
}

#[test]
fn maintenance_flags() {
    assert_eq!(parse_strs(&["--status"]), Command::Status);
    assert_eq!(parse_strs(&["--clear-cache"]), Command::ClearCache);
    assert_eq!(parse_strs(&["--clear-history"]), Command::ClearHistory);
    assert_eq!(parse_strs(&["--searches"]), Command::Searches);
    assert_eq!(parse_strs(&["--filter", "a", "b"]), Command::Filter("a b".to_string()));
}
