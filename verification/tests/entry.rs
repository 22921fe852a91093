use historion::entry::{escape_field, format_record_line, EntrySource, HistoryEntry, FIELD_DELIMITER};
use historion::parser::unescape_field;

#[test]
fn escape_field_preserves_plain_text() {
    assert_eq!(escape_field("cargo test"), "cargo test");
}

#[test]
fn escape_field_encodes_special_characters() {
    assert_eq!(
        escape_field("first\tsecond\nthird\\fourth"),
        "first\\tsecond\\nthird\\\\fourth"
    );
}

#[test]
fn history_entry_formats_as_escaped_tsv() {
    let entry = HistoryEntry {
        timestamp: String::from("2026-04-19T10:23:45+01:00"),
        cwd: String::from("/tmp/project with spaces"),
        command: String::from("printf 'a\tb'\n"),
        source: EntrySource {
            file: String::from("/tmp/source.log"),
            line_number: 7,
        },
    };

    let line = entry.format_escaped_tsv();

    assert_eq!(
        line,
        format!(
            "2026-04-19T10:23:45+01:00{FIELD_DELIMITER}/tmp/project with spaces{FIELD_DELIMITER}printf 'a\\tb'\\n"
        )
    );
}

#[test]
fn format_record_line_matches_expected_layout() {
    let line = format_record_line("2026-04-19T10:23:45+01:00", "/tmp/demo", "cargo test");

    assert_eq!(
        line,
        format!("2026-04-19T10:23:45+01:00{FIELD_DELIMITER}/tmp/demo{FIELD_DELIMITER}cargo test")
    );
}

#[test]
fn escape_field_of_empty_text_is_empty() {
    assert_eq!(escape_field(""), "");
}

#[test]
fn escape_field_keeps_other_characters() {
    assert_eq!(escape_field("é\r\"x"), "é\r\"x");
}

#[test]
fn escape_then_unescape_gives_the_text_back() {
    for text in ["", "plain", "a\\b", "\\t literal", "tab\there", "new\nline", "\\\\\t\n", "ünï\tcødé"] {
        assert_eq!(unescape_field(&escape_field(text)), Ok(String::from(text)));
    }
}

#[test]
fn escaped_fields_hold_no_tab_or_newline() {
    let escaped = escape_field("a\tb\nc\\d");
    assert!(!escaped.contains('\t'));
    assert!(!escaped.contains('\n'));
}
