use historion::entry::{escape_field, format_record_line, EntrySource, HistoryEntry};
use historion::parser::{parse_legacy_line, parse_line, parse_structured_line, unescape_field};

#[test]
fn structured_lines_round_trip() {
    let line = format!(
        "{}\t{}\t{}",
        escape_field("2026-04-19T10:23:45+0100"),
        escape_field("/tmp/demo project"),
        escape_field("printf 'a\tb'\n")
    );

    let entry = parse_structured_line(&line, "/tmp/log.log", 12).expect("structured line should parse");

    assert_eq!(
        entry,
        HistoryEntry {
            timestamp: String::from("2026-04-19T10:23:45+0100"),
            cwd: String::from("/tmp/demo project"),
            command: String::from("printf 'a\tb'\n"),
            source: EntrySource {
                file: String::from("/tmp/log.log"),
                line_number: 12,
            },
        }
    );
}

#[test]
fn structured_lines_require_three_fields() {
    let result = parse_structured_line("2026-04-19T10:23:45+0100\t/tmp/demo", "/tmp/log.log", 3);

    assert_eq!(result, Err(String::from("structured line is missing the command")));
}

#[test]
fn unescape_field_restores_special_characters() {
    let result = unescape_field("first\\tsecond\\nthird\\\\fourth").expect("field should unescape");

    assert_eq!(result, "first\tsecond\nthird\\fourth");
}

#[test]
fn legacy_lines_parse_history_number_and_command() {
    let entry = parse_legacy_line(
        "2026-04-19.10:23:45 /tmp/demo  41  cargo test --lib",
        "/tmp/legacy.log",
        8,
    )
    .expect("legacy line should parse");

    assert_eq!(entry.timestamp, "2026-04-19.10:23:45");
    assert_eq!(entry.cwd, String::from("/tmp/demo"));
    assert_eq!(entry.command, "cargo test --lib");
    assert_eq!(entry.source.line_number, 8);
}

#[test]
fn legacy_lines_support_spaces_in_path() {
    let entry = parse_legacy_line(
        "2026-04-19.10:23:45 /tmp/demo project  41  cargo test",
        "/tmp/legacy.log",
        9,
    )
    .expect("legacy line should parse");

    assert_eq!(entry.cwd, String::from("/tmp/demo project"));
    assert_eq!(entry.command, "cargo test");
}

#[test]
fn legacy_lines_fail_without_history_marker() {
    let result = parse_legacy_line("2026-04-19.10:23:45 /tmp/demo cargo test", "/tmp/legacy.log", 4);

    assert_eq!(
        result,
        Err(String::from("legacy line is missing a recognizable history marker"))
    );
}

#[test]
fn parse_line_auto_detects_structured_and_legacy() {
    let structured = parse_line(
        "2026-04-19T10:23:45+0100\t/tmp/demo\tcargo test",
        "/tmp/structured.log",
        1,
    )
    .expect("structured line should parse");
    let legacy = parse_line("2026-04-19.10:23:45 /tmp/demo  41  cargo test", "/tmp/legacy.log", 2)
        .expect("legacy line should parse");

    assert_eq!(structured.command, "cargo test");
    assert_eq!(legacy.command, "cargo test");
}

#[test]
fn structured_line_without_tab_lacks_the_cwd() {
    assert_eq!(
        parse_structured_line("just one field", "/f", 1),
        Err(String::from("structured line is missing the cwd"))
    );
}

#[test]
fn structured_line_with_four_fields_is_refused() {
    assert_eq!(
        parse_structured_line("a\tb\tc\td", "/f", 1),
        Err(String::from("structured line has too many fields"))
    );
}

#[test]
fn structured_line_with_empty_field_is_refused() {
    assert_eq!(
        parse_structured_line("2026\t\tcargo", "/f", 1),
        Err(String::from("structured line contains an empty field"))
    );
}

#[test]
fn structured_line_with_trailing_escape_is_refused() {
    assert_eq!(
        parse_structured_line("2026\t/tmp\tcargo\\", "/f", 1),
        Err(String::from("field ends with a trailing escape"))
    );
}

#[test]
fn unknown_escapes_are_kept() {
    assert_eq!(unescape_field("a\\xb"), Ok(String::from("a\\xb")));
    assert_eq!(unescape_field("\\"), Err(String::from("field ends with a trailing escape")));
}

#[test]
fn record_lines_read_back_through_parse_line() {
    let line = format_record_line("2026-04-19T10:23:45+00:00", "/tmp/a\tb", "echo \\n\n");
    let entry = parse_line(&line, "/tmp/x.log", 5).expect("record line should parse");
    assert_eq!(entry.timestamp, "2026-04-19T10:23:45+00:00");
    assert_eq!(entry.cwd, "/tmp/a\tb");
    assert_eq!(entry.command, "echo \\n\n");
    assert_eq!(entry.source.file, "/tmp/x.log");
    assert_eq!(entry.source.line_number, 5);
}

#[test]
fn legacy_line_too_short() {
    assert_eq!(
        parse_legacy_line("2026-04-19", "/f", 1),
        Err(String::from("legacy line is too short"))
    );
}

#[test]
fn legacy_line_with_bad_timestamp() {
    assert_eq!(
        parse_legacy_line("2026/04/19 10:23:45 /tmp  1  ls", "/f", 1),
        Err(String::from("legacy line does not start with YYYY-MM-DD.HH:MM:SS"))
    );
}

#[test]
fn legacy_line_with_only_a_timestamp() {
    assert_eq!(
        parse_legacy_line("2026-04-19.10:23:45   ", "/f", 1),
        Err(String::from("legacy line is missing cwd and command"))
    );
}

#[test]
fn legacy_line_accepts_dot_directory_and_trailing_space() {
    let entry = parse_legacy_line("2026-04-19.10:23:45 .  7  make   ", "/f", 2).expect("should parse");
    assert_eq!(entry.cwd, ".");
    assert_eq!(entry.command, "make");
}

#[test]
fn legacy_line_needs_whitespace_after_the_number() {
    assert_eq!(
        parse_legacy_line("2026-04-19.10:23:45 /tmp 41", "/f", 1),
        Err(String::from("legacy line is missing a recognizable history marker"))
    );
}

#[test]
fn legacy_line_with_multibyte_text() {
    let entry = parse_legacy_line("2026-04-19.10:23:45 /tmp/ünï  3  echo café", "/f", 1).expect("should parse");
    assert_eq!(entry.cwd, "/tmp/ünï");
    assert_eq!(entry.command, "echo café");
    assert_eq!(
        parse_legacy_line("2026-04-19.10:23:4é /tmp  3  ls", "/f", 1),
        Err(String::from("legacy line is too short"))
    );
}

#[test]
fn legacy_line_takes_the_first_marker() {
    let entry = parse_legacy_line("2026-04-19.10:23:45 /a  1  b  2  ls", "/f", 1);
    assert_eq!(entry.map(|e| (e.cwd, e.command)), Ok((String::from("/a"), String::from("b  2  ls"))));
    assert_eq!(
        parse_legacy_line("2026-04-19.10:23:45 rel  1  ls", "/f", 1),
        Err(String::from("legacy line is missing a recognizable history marker"))
    );
}
