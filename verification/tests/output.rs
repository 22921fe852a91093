use historion::entry::{EntrySource, HistoryEntry};
use historion::output::{help_text, render_entries, render_entries_as_json};

fn entry(timestamp: &str, cwd: &str, command: &str, file: &str, line_number: usize) -> HistoryEntry {
    HistoryEntry {
        timestamp: String::from(timestamp),
        cwd: String::from(cwd),
        command: String::from(command),
        source: EntrySource { file: String::from(file), line_number },
    }
}

#[test]
fn render_entries_uses_one_line_per_entry() {
    let entries = vec![entry("2026-04-19T10:23:45+0100", "/tmp/demo", "cargo test", "/tmp/log.log", 1)];

    assert_eq!(render_entries(&entries), "2026-04-19T10:23:45+0100\t/tmp/demo\tcargo test\n");
}

#[test]
fn render_entries_as_json_returns_machine_readable_output() {
    let entries = vec![entry("2026-04-19T10:23:45+0100", "/tmp/demo", "printf \"hi\"\n", "/tmp/log.log", 3)];

    assert_eq!(
        render_entries_as_json(&entries),
        "[{\"timestamp\":\"2026-04-19T10:23:45+0100\",\"cwd\":\"/tmp/demo\",\"command\":\"printf \\\"hi\\\"\\n\",\"file\":\"/tmp/log.log\",\"line\":3}]\n"
    );
}

#[test]
fn render_nothing() {
    assert_eq!(render_entries(&[]), "");
    assert_eq!(render_entries_as_json(&[]), "[]\n");
}

#[test]
fn render_two_entries_as_json() {
    let entries = vec![
        entry("t1", "/a", "x\\y", "/f", 10),
        entry("t2", "/b", "tab\there\r", "/g", 1234567890),
    ];
    assert_eq!(
        render_entries_as_json(&entries),
        "[{\"timestamp\":\"t1\",\"cwd\":\"/a\",\"command\":\"x\\\\y\",\"file\":\"/f\",\"line\":10},{\"timestamp\":\"t2\",\"cwd\":\"/b\",\"command\":\"tab\\there\\r\",\"file\":\"/g\",\"line\":1234567890}]\n"
    );
}

#[test]
fn render_two_entries_as_lines() {
    let entries = vec![entry("t1", "/a b", "x\ny", "/f", 1), entry("t2", "/c", "z", "/f", 2)];
    assert_eq!(render_entries(&entries), "t1\t/a b\tx\\ny\nt2\t/c\tz\n");
}

#[test]
fn help_lists_the_commands() {
    let text = help_text();
    assert!(text.starts_with("Usage:\n"));
    assert!(text.contains("hy record --cwd PATH --command COMMAND"));
    assert!(text.contains("install   Install shell integration into the rc file\n"));
}
