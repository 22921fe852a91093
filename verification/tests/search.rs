use historion::entry::HistoryEntry;
use historion::record::default_log_dir;
use historion::search::{
    check_search_support, collect_matches, content_lines, file_matches, is_log_file_name,
    matches_query, newest_first, resolve_folder, search_filter, LogSearch, SearchArgs,
};

fn args(query: Option<&str>, limit: Option<usize>) -> SearchArgs {
    SearchArgs {
        query: query.map(String::from),
        folder: None,
        today: false,
        since_days: None,
        limit,
        json: false,
        ignore_case: false,
    }
}

/// Searches log files held in memory the way `hy` searches a log directory.
fn search_logs(log_dir: &str, files: &[(&str, &str)], args: &SearchArgs) -> Vec<HistoryEntry> {
    let filter = search_filter(args, "/home/me", false);
    let names: Vec<String> = files
        .iter()
        .map(|(name, _)| String::from(*name))
        .filter(|name| is_log_file_name(name))
        .collect();
    let mut search = LogSearch::new(filter, args.limit);
    for name in newest_first(names) {
        let content = files.iter().find(|(n, _)| *n == name).map(|(_, c)| *c).unwrap();
        let path = format!("{log_dir}/{name}");
        search = search.take_file(&path, content);
        if search.is_done() {
            break;
        }
    }
    search.into_entries()
}

#[test]
fn search_logs_returns_matches_newest_first() {
    let log_dir = default_log_dir("/tmp/search-order");
    let entries = search_logs(
        &log_dir,
        &[
            (
                "bash-history-2026-04-18.log",
                "2026-04-18T10:00:00+0100\t/tmp/demo\tcargo build\n2026-04-18T11:00:00+0100\t/tmp/demo\trg todo\n",
            ),
            ("bash-history-2026-04-19.log", "2026-04-19T12:00:00+0100\t/tmp/demo\tcargo test\n"),
        ],
        &args(Some("cargo"), None),
    );

    assert_eq!(entries.len(), 2);
    assert_eq!(entries[0].command, "cargo test");
    assert_eq!(entries[1].command, "cargo build");
}

#[test]
fn search_logs_respects_limit() {
    let log_dir = default_log_dir("/tmp/search-limit");
    let entries = search_logs(
        &log_dir,
        &[(
            "bash-history-2026-04-19.log",
            "2026-04-19T09:00:00+0100\t/tmp/demo\tcargo check\n2026-04-19T10:00:00+0100\t/tmp/demo\tcargo test\n",
        )],
        &args(Some("cargo"), Some(1)),
    );

    assert_eq!(entries.len(), 1);
    assert_eq!(entries[0].command, "cargo test");
}

#[test]
fn search_logs_skips_malformed_lines_and_supports_legacy_logs() {
    let log_dir = default_log_dir("/tmp/search-legacy");
    let entries = search_logs(
        &log_dir,
        &[("bash-history-2026-04-19.log", "bad line\n2026-04-19.10:23:45 /tmp/demo  41  cargo test --lib\n")],
        &args(Some("cargo"), None),
    );

    assert_eq!(entries.len(), 1);
    assert_eq!(entries[0].command, "cargo test --lib");
    assert_eq!(entries[0].source.line_number, 2);
    assert_eq!(entries[0].source.file, "/tmp/search-legacy/.logs/bash-history-2026-04-19.log");
}

#[test]
fn other_files_are_not_logs() {
    assert!(is_log_file_name("bash-history-2026-04-19.log"));
    assert!(!is_log_file_name("bash-history-2026-04-19.txt"));
    assert!(!is_log_file_name(".hy-last-history-id"));
    assert!(!is_log_file_name("zsh-history-2026-04-19.log"));
}

#[test]
fn names_sort_newest_first() {
    let sorted = newest_first(vec![
        String::from("bash-history-2026-04-18.log"),
        String::from("bash-history-2026-05-01.log"),
        String::from("bash-history-2025-12-31.log"),
        String::from("bash-history-2026-04-19.log"),
    ]);
    assert_eq!(
        sorted,
        vec![
            String::from("bash-history-2026-05-01.log"),
            String::from("bash-history-2026-04-19.log"),
            String::from("bash-history-2026-04-18.log"),
            String::from("bash-history-2025-12-31.log"),
        ]
    );
}

#[test]
fn lines_follow_str_lines() {
    let as_strings = |text: &str| -> Vec<String> {
        content_lines(text).into_iter().map(|cs| cs.into_iter().collect()).collect()
    };
    for text in ["", "a", "a\n", "a\r\nb", "a\n\nb\n", "a\r", "\n", "x\r\r\n"] {
        let expected: Vec<String> = text.lines().map(String::from).collect();
        assert_eq!(as_strings(text), expected, "lines of {text:?}");
    }
}

#[test]
fn blank_lines_are_skipped_and_numbers_count_them() {
    let filter = search_filter(&args(None, None), "/", false);
    let found = file_matches("/f", "\n  \t\n2026-04-19.10:23:45 /tmp  1  ls\n", &filter);
    assert_eq!(found.len(), 1);
    assert_eq!(found[0].source.line_number, 3);
}

#[test]
fn limit_zero_still_takes_one_entry() {
    let entries = search_logs(
        "/l",
        &[("bash-history-2026-04-19.log", "t\t/a\tone\nt\t/a\ttwo\n")],
        &args(None, Some(0)),
    );
    assert_eq!(entries.len(), 1);
    assert_eq!(entries[0].command, "two");
}

#[test]
fn limit_spans_files() {
    let entries = search_logs(
        "/l",
        &[
            ("bash-history-2026-04-18.log", "t\t/a\tone\nt\t/a\ttwo\n"),
            ("bash-history-2026-04-19.log", "t\t/a\tthree\n"),
        ],
        &args(None, Some(2)),
    );
    let commands: Vec<&str> = entries.iter().map(|e| e.command.as_str()).collect();
    assert_eq!(commands, vec!["three", "two"]);
}

#[test]
fn folder_filter_matches_the_tree() {
    let mut a = args(None, None);
    a.folder = Some(String::from("."));
    let filter = search_filter(&a, "/home/me/project", false);
    assert_eq!(filter.folder, Some(String::from("/home/me/project")));
    let content = "t\t/home/me/project\tcargo check\nt\t/home/me/project/src\trustc main.rs\nt\t/home/me/project2\tls\nt\t/home/me\tpwd\n";
    let found = file_matches("/f", content, &filter);
    let commands: Vec<&str> = found.iter().map(|e| e.command.as_str()).collect();
    assert_eq!(commands, vec!["rustc main.rs", "cargo check"]);
}

#[test]
fn folders_resolve_against_the_current_directory() {
    assert_eq!(resolve_folder("/home/me", "."), "/home/me");
    assert_eq!(resolve_folder("/home/me", "src/"), "/home/me/src");
    assert_eq!(resolve_folder("/home/me/", "src"), "/home/me/src");
    assert_eq!(resolve_folder("/home/me", "/tmp//"), "/tmp");
    assert_eq!(resolve_folder("/home/me", "/"), "/");
    assert_eq!(resolve_folder("/home/me", "./src"), "/home/me/src");
    assert_eq!(resolve_folder("/home/me", "src//lib/./"), "/home/me/src/lib");
    assert_eq!(resolve_folder("/home/me", ".."), "/home");
    assert_eq!(resolve_folder("/home/me", "../you/./docs"), "/home/you/docs");
    assert_eq!(resolve_folder("/home/me", "/../.."), "/");
}

#[test]
fn a_relative_folder_with_a_dot_finds_the_tree_below_it() {
    let mut a = args(None, None);
    a.folder = Some(String::from("./src"));
    let filter = search_filter(&a, "/home/me", false);
    let content = "t\t/home/me/src\tcargo build\nt\t/home/me/src/bin\tls\nt\t/home/me\tpwd\nt\t/home/me/srcs\tcat\n";
    let found = file_matches("/f", content, &filter);
    let commands: Vec<&str> = found.iter().map(|e| e.command.as_str()).collect();
    assert_eq!(commands, vec!["ls", "cargo build"]);
}

#[test]
fn ignore_case_folds_ascii_letters() {
    let content = "t\t/a\tCargo Test\n";
    let plain = search_filter(&args(Some("cargo"), None), "/", false);
    assert!(file_matches("/f", content, &plain).is_empty());
    let folded = search_filter(&args(Some("cargo"), None), "/", true);
    assert_eq!(file_matches("/f", content, &folded).len(), 1);
    let mut a = args(Some("TEST"), None);
    a.ignore_case = true;
    let folded = search_filter(&a, "/", false);
    assert_eq!(file_matches("/f", content, &folded).len(), 1);
}

#[test]
fn query_matching_is_substring_matching() {
    let entry = HistoryEntry {
        timestamp: String::from("t"),
        cwd: String::from("/"),
        command: String::from("cargo test --lib"),
        source: historion::entry::EntrySource { file: String::from("/f"), line_number: 1 },
    };
    assert!(matches_query(&entry, Some("test --")));
    assert!(matches_query(&entry, Some("")));
    assert!(matches_query(&entry, None));
    assert!(!matches_query(&entry, Some("Cargo")));
}

#[test]
fn date_filters_are_refused() {
    let mut a = args(None, None);
    assert_eq!(check_search_support(&a), Ok(()));
    a.json = true;
    assert_eq!(check_search_support(&a), Ok(()));
    a.today = true;
    assert_eq!(check_search_support(&a), Err(String::from("date filtering and json output are not implemented yet")));
    a.today = false;
    a.since_days = Some(3);
    assert!(check_search_support(&a).is_err());
}

#[test]
fn rendered_results_read_back_as_the_same_entries() {
    let filter = search_filter(&args(None, None), "/", false);
    let original = file_matches(
        "/f",
        "t1\t/a b\tcargo test\nt2\t/c\tprintf 'x\\ty'\\n\nt3\t/d\techo \\\\\n",
        &filter,
    );
    assert_eq!(original.len(), 3);
    let rendered = historion::output::render_entries(&original);
    assert_eq!(rendered.lines().count(), 3);
    let again = file_matches("/f", &rendered, &filter);
    let commands: Vec<&str> = again.iter().map(|e| e.command.as_str()).collect();
    assert_eq!(commands, vec!["cargo test", "printf 'x\ty'\n", "echo \\"]);
}

#[test]
fn a_command_ending_in_carriage_return_loses_it_when_read_back() {
    let line = historion::entry::format_record_line("t", "/a", "ls\r");
    let filter = search_filter(&args(None, None), "/", false);
    let found = file_matches("/f", &format!("{line}\n"), &filter);
    assert_eq!(found.len(), 1);
    assert_eq!(found[0].command, "ls");
}

#[test]
fn a_search_stops_taking_files_at_its_limit() {
    let filter = search_filter(&args(None, None), "/", false);
    let mut search = LogSearch::new(filter, Some(3));
    search = search.take_file("/new", "t\t/a\tfour\nt\t/a\tfive\n");
    assert!(!search.is_done());
    search = search.take_file("/old", "t\t/a\tone\nt\t/a\ttwo\nt\t/a\tthree\n");
    assert!(search.is_done());
    search = search.take_file("/older", "t\t/a\tzero\n");
    let commands: Vec<String> = search.into_entries().into_iter().map(|e| e.command).collect();
    assert_eq!(commands, vec!["five", "four", "three"]);
}

#[test]
fn a_limit_of_zero_still_gives_one_entry() {
    let filter = search_filter(&args(None, None), "/", false);
    let mut search = LogSearch::new(filter, Some(0));
    search = search.take_file("/empty", "");
    assert!(!search.is_done());
    search = search.take_file("/f", "t\t/a\tone\nt\t/a\ttwo\n");
    assert!(search.is_done());
    let entries = search.into_entries();
    assert_eq!(entries.len(), 1);
    assert_eq!(entries[0].command, "two");
}

#[test]
fn collect_matches_stops_at_the_limit() {
    let filter = search_filter(&args(None, None), "/", false);
    let found = file_matches("/f", "t\t/a\tone\nt\t/a\ttwo\nt\t/a\tthree\n", &filter);
    let mut matches = Vec::new();
    assert!(collect_matches(&mut matches, found, 2));
    let commands: Vec<&str> = matches.iter().map(|e| e.command.as_str()).collect();
    assert_eq!(commands, vec!["three", "two"]);
}
