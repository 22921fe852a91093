use historion::clock::{civil_from_unix, format_date, format_timestamp, CivilTime};
use historion::entry::format_record_line;
use historion::parser::parse_line;
use historion::record::{
    default_log_dir, is_duplicate_record, plan_record, read_stored_id, record_step, RecordArgs,
    RecordPlan, RecordStep,
};
use historion::shell::{install_lines, needs_install, rc_file_name, ShellKind};

fn record_args(cwd: Option<&str>, command: Option<&str>, id: Option<&str>) -> RecordArgs {
    RecordArgs {
        cwd: cwd.map(String::from),
        command: command.map(String::from),
        history_id: id.map(String::from),
        shell: Some(ShellKind::Bash),
    }
}

#[test]
fn epoch_and_known_dates() {
    let t = civil_from_unix(0);
    assert_eq!(t, CivilTime { year: 1970, month: 1, day: 1, hour: 0, minute: 0, second: 0 });
    let t = civil_from_unix(1_776_594_225);
    assert_eq!(format_timestamp(&t), "2026-04-19T10:23:45+00:00");
    let t = civil_from_unix(951_782_400);
    assert_eq!(format_date(&t), "2000-02-29");
    let t = civil_from_unix(4_107_542_399);
    assert_eq!(format_timestamp(&t), "2100-02-28T23:59:59+00:00");
    let t = civil_from_unix(4_107_542_400);
    assert_eq!(format_date(&t), "2100-03-01");
}

#[test]
fn plan_writes_a_structured_line_to_the_daily_file() {
    let plan = plan_record(&record_args(Some("/tmp/demo"), Some("cargo test"), Some("42")), 1_776_594_225)
        .expect("record should plan");
    assert_eq!(
        plan,
        RecordPlan {
            file_name: String::from("bash-history-2026-04-19.log"),
            line: format_record_line("2026-04-19T10:23:45+00:00", "/tmp/demo", "cargo test"),
            history_id: Some(String::from("42")),
        }
    );
    let entry = parse_line(&plan.line, "/x", 1).expect("the planned line parses");
    assert_eq!(entry.command, "cargo test");
    assert_eq!(entry.cwd, "/tmp/demo");
}

#[test]
fn plan_refuses_missing_cwd_and_empty_command() {
    assert_eq!(
        plan_record(&record_args(None, Some("ls"), None), 0),
        Err(String::from("record requires --cwd"))
    );
    assert_eq!(
        plan_record(&record_args(Some("/"), Some(""), None), 0),
        Err(String::from("record requires a non-empty --command"))
    );
    assert_eq!(
        plan_record(&record_args(Some("/"), None, None), 0),
        Err(String::from("record requires a non-empty --command"))
    );
}

#[test]
fn repeats_of_the_last_history_id_are_duplicates() {
    assert!(is_duplicate_record(Some("77"), Some("77")));
    assert!(!is_duplicate_record(Some("77"), Some("78")));
    assert!(!is_duplicate_record(None, Some("77")));
    assert!(!is_duplicate_record(Some("77"), None));
}

#[test]
fn log_dir_is_under_home() {
    assert_eq!(default_log_dir("/home/me"), "/home/me/.logs");
    assert_eq!(default_log_dir("/home/me/"), "/home/me/.logs");
    assert_eq!(default_log_dir(""), ".logs");
}

#[test]
fn install_adds_the_hook_once() {
    assert_eq!(rc_file_name(ShellKind::Bash), ".bashrc");
    assert_eq!(rc_file_name(ShellKind::Zsh), ".zshrc");
    assert!(needs_install("export PATH=/bin\n"));
    let installed = format!("export PATH=/bin\n{}", install_lines(ShellKind::Zsh));
    assert!(!needs_install(&installed));
    assert!(install_lines(ShellKind::Bash).contains("eval \"$(hy init bash)\""));
}

fn plan_with_id(line: &str, id: Option<&str>) -> RecordPlan {
    RecordPlan {
        file_name: String::from("bash-history-2026-04-19.log"),
        line: String::from(line),
        history_id: id.map(String::from),
    }
}

#[test]
fn the_stored_history_id_is_the_file_text_without_its_newline() {
    assert_eq!(read_stored_id("77\n"), "77");
    assert_eq!(read_stored_id("77"), "77");
    assert_eq!(read_stored_id("77 \n"), "77 ");
    assert_eq!(read_stored_id(""), "");
}

#[test]
fn a_record_step_appends_the_line_and_stores_the_id() {
    let step = record_step(None, &plan_with_id("t\t/a\tls", Some("77")));
    assert_eq!(
        step,
        RecordStep { append: Some(String::from("t\t/a\tls\n")), store_id: Some(String::from("77\n")) }
    );
    let step = record_step(Some("76\n"), &plan_with_id("t\t/a\tls", None));
    assert_eq!(step, RecordStep { append: Some(String::from("t\t/a\tls\n")), store_id: None });
}

#[test]
fn recording_the_same_history_id_twice_appends_once() {
    let plan = plan_with_id("t\t/home/me/project\tcargo test", Some("77"));
    let first = record_step(None, &plan);
    assert!(first.append.is_some());
    let stored = first.store_id.clone();
    let second = record_step(stored.as_deref(), &plan);
    assert_eq!(second, RecordStep { append: None, store_id: None });
    let other = record_step(stored.as_deref(), &plan_with_id("t\t/a\tls", Some("78")));
    assert!(other.append.is_some());
}

#[test]
fn two_runs_with_one_history_id_leave_one_entry_for_a_search() {
    let args = record_args(Some("/home/me/project"), Some("cargo test"), Some("77"));
    let first = plan_record(&args, 1_776_600_000).unwrap();
    let second = plan_record(&args, 1_776_600_060).unwrap();
    let run1 = record_step(None, &first);
    let run2 = record_step(run1.store_id.as_deref(), &second);
    assert_eq!(run2, RecordStep { append: None, store_id: None });
    let log = run1.append.unwrap();
    let mut search_args = historion::search::SearchArgs {
        query: Some(String::from("cargo")),
        folder: Some(String::from(".")),
        today: false,
        since_days: None,
        limit: None,
        json: false,
        ignore_case: false,
    };
    let filter = historion::search::search_filter(&search_args, "/home/me/project", false);
    let found = historion::search::file_matches("/l", &log, &filter);
    assert_eq!(found.len(), 1);
    assert_eq!(found[0].command, "cargo test");
    assert_eq!(found[0].cwd, "/home/me/project");
    assert_eq!(historion::output::render_entries(&found).lines().count(), 1);
    search_args.query = Some(String::from("make"));
    let filter = historion::search::search_filter(&search_args, "/home/me/project", false);
    assert!(historion::search::file_matches("/l", &log, &filter).is_empty());
}
