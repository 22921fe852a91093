use historion::cli::{parse_args, parse_shell_kind, parse_single_shell_arg, Command};
use historion::output::help_text;
use historion::record::RecordArgs;
use historion::search::SearchArgs;
use historion::shell::{init_snippet, InitArgs, InstallArgs, ShellKind};

fn search(query: Option<&str>, folder: Option<&str>) -> SearchArgs {
    SearchArgs {
        query: query.map(String::from),
        folder: folder.map(String::from),
        today: false,
        since_days: None,
        limit: None,
        json: false,
        ignore_case: false,
    }
}

#[test]
fn parses_help_without_arguments() {
    let command = parse_args(&["hy"]).expect("cli should parse");
    assert_eq!(command, Command::Help);
}

#[test]
fn parses_search_command_from_bare_query() {
    let command = parse_args(&["hy", "needle"]).expect("cli should parse");
    assert_eq!(
        command,
        Command::Search(SearchArgs {
            query: Some(String::from("needle")),
            folder: None,
            today: false,
            since_days: None,
            limit: None,
            json: false,
            ignore_case: false,
        })
    );
}

#[test]
fn parses_search_flags_without_a_query() {
    let command = parse_args(&["hy", "--folder", "."]).expect("cli should parse");

    assert_eq!(
        command,
        Command::Search(SearchArgs {
            query: None,
            folder: Some(String::from(".")),
            today: false,
            since_days: None,
            limit: None,
            json: false,
            ignore_case: false,
        })
    );
}

#[test]
fn parses_search_query_after_folder_flag() {
    let command = parse_args(&["hy", "--folder", ".", "cargo"]).expect("cli should parse");

    assert_eq!(
        command,
        Command::Search(SearchArgs {
            query: Some(String::from("cargo")),
            folder: Some(String::from(".")),
            today: false,
            since_days: None,
            limit: None,
            json: false,
            ignore_case: false,
        })
    );
}

#[test]
fn parses_ignore_case_flag() {
    let command = parse_args(&["hy", "--folder", ".", "--ignore-case"]).expect("cli should parse");

    assert_eq!(
        command,
        Command::Search(SearchArgs {
            query: None,
            folder: Some(String::from(".")),
            today: false,
            since_days: None,
            limit: None,
            json: false,
            ignore_case: true,
        })
    );
}

#[test]
fn parses_record_command_arguments() {
    let command = parse_args(&[
        "hy",
        "record",
        "--cwd",
        "/tmp/demo",
        "--command",
        "cargo test",
        "--history-id",
        "42",
        "--shell",
        "zsh",
    ])
    .expect("cli should parse");

    assert_eq!(
        command,
        Command::Record(RecordArgs {
            cwd: Some(String::from("/tmp/demo")),
            command: Some(String::from("cargo test")),
            history_id: Some(String::from("42")),
            shell: Some(ShellKind::Zsh),
        })
    );
}

#[test]
fn parses_init_and_install_commands() {
    let init = parse_args(&["hy", "init", "bash"]).expect("init should parse");
    let install = parse_args(&["hy", "install", "zsh"]).expect("install should parse");

    assert_eq!(init, Command::Init(InitArgs { shell: ShellKind::Bash }));
    assert_eq!(install, Command::Install(InstallArgs { shell: ShellKind::Zsh }));
}

#[test]
fn run_without_args_prints_help() {
    assert_eq!(parse_args(&["hy"]), Ok(Command::Help));
    assert!(help_text().contains("Usage:"));
}

#[test]
fn run_init_prints_shell_snippet() {
    assert_eq!(parse_args(&["hy", "init", "bash"]), Ok(Command::Init(InitArgs { shell: ShellKind::Bash })));
    let text = init_snippet(ShellKind::Bash);
    assert!(text.contains("${HY_BIN:-hy}"));
    assert!(text.contains("record --cwd"));
    let text = init_snippet(ShellKind::Zsh);
    assert!(text.contains("${HY_BIN:-hy}"));
    assert!(text.contains("record --cwd"));
}

#[test]
fn help_flags_give_help() {
    for flag in ["-h", "--help", "help"] {
        assert_eq!(parse_args(&["hy", flag]), Ok(Command::Help));
    }
    assert_eq!(parse_args(&[]), Ok(Command::Help));
    assert_eq!(parse_args(&["hy", "cargo", "--help"]), Ok(Command::Help));
}

#[test]
fn search_numbers_are_parsed() {
    let command = parse_args(&["hy", "x", "--limit", "+5", "--since", "7", "--today", "--json", "-i"]);
    let mut expected = search(Some("x"), None);
    expected.limit = Some(5);
    expected.since_days = Some(7);
    expected.today = true;
    expected.json = true;
    expected.ignore_case = true;
    assert_eq!(command, Ok(Command::Search(expected)));
}

#[test]
fn search_errors() {
    assert_eq!(parse_args(&["hy", "--folder"]), Err(String::from("--folder requires a path")));
    assert_eq!(parse_args(&["hy", "x", "--since"]), Err(String::from("--since requires a number of days")));
    assert_eq!(parse_args(&["hy", "x", "--since", "-1"]), Err(String::from("--since expects an integer")));
    assert_eq!(parse_args(&["hy", "x", "--since", "4294967296"]), Err(String::from("--since expects an integer")));
    assert_eq!(parse_args(&["hy", "x", "--limit"]), Err(String::from("--limit requires a number")));
    assert_eq!(parse_args(&["hy", "x", "--limit", "+"]), Err(String::from("--limit expects an integer")));
    assert_eq!(parse_args(&["hy", "x", "--limit", ""]), Err(String::from("--limit expects an integer")));
    assert_eq!(parse_args(&["hy", "--bogus"]), Err(String::from("unknown search flag: --bogus")));
    assert_eq!(parse_args(&["hy", "a", "b"]), Err(String::from("search accepts only one query argument")));
}

#[test]
fn since_accepts_the_largest_u32() {
    let mut expected = search(Some("x"), None);
    expected.since_days = Some(u32::MAX);
    assert_eq!(parse_args(&["hy", "x", "--since", "4294967295"]), Ok(Command::Search(expected)));
}

#[test]
fn record_errors() {
    assert_eq!(parse_args(&["hy", "record", "--cwd"]), Err(String::from("--cwd requires a path")));
    assert_eq!(parse_args(&["hy", "record", "--command"]), Err(String::from("--command requires a value")));
    assert_eq!(parse_args(&["hy", "record", "--history-id"]), Err(String::from("--history-id requires a value")));
    assert_eq!(parse_args(&["hy", "record", "--shell"]), Err(String::from("--shell requires a value")));
    assert_eq!(parse_args(&["hy", "record", "--shell", "fish"]), Err(String::from("unsupported shell: fish")));
    assert_eq!(parse_args(&["hy", "record", "--what"]), Err(String::from("unknown record flag: --what")));
    assert_eq!(
        parse_args(&["hy", "record"]),
        Ok(Command::Record(RecordArgs { cwd: None, command: None, history_id: None, shell: None }))
    );
}

#[test]
fn shell_argument_errors() {
    assert_eq!(parse_args(&["hy", "init"]), Err(String::from("init requires a shell argument")));
    assert_eq!(parse_args(&["hy", "install", "bash", "zsh"]), Err(String::from("install accepts only one shell argument")));
    assert_eq!(parse_args(&["hy", "init", "fish"]), Err(String::from("unsupported shell: fish")));
}

#[test]
fn a_single_shell_argument_is_required() {
    assert_eq!(parse_single_shell_arg("init", &[]), Err(String::from("init requires a shell argument")));
    assert_eq!(
        parse_single_shell_arg("install", &["bash", "zsh"]),
        Err(String::from("install accepts only one shell argument"))
    );
    assert_eq!(parse_single_shell_arg("init", &["zsh"]), Ok(ShellKind::Zsh));
    assert_eq!(parse_single_shell_arg("init", &["fish"]), Err(String::from("unsupported shell: fish")));
    assert_eq!(parse_shell_kind("bash"), Ok(ShellKind::Bash));
}
