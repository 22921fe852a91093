use vstd::prelude::*;

use crate::text::{chars_of, push_char, push_str};

verus! {

/// Separates the three fields of a structured log line.
pub const FIELD_DELIMITER: char = '\t';

/// One recorded shell command, with the place in the log it was read from.
#[derive(Debug, Clone, PartialEq, Eq)]
pub struct HistoryEntry {
    pub timestamp: String,
    pub cwd: String,
    pub command: String,
    pub source: EntrySource,
}

/// The log file and the 1-based line number an entry was read from.
#[derive(Debug, Clone, PartialEq, Eq)]
pub struct EntrySource {
    pub file: String,
    pub line_number: usize,
}

/// The mathematical content of a [`HistoryEntry`].
pub struct EntryView {
    pub timestamp: Seq<char>,
    pub cwd: Seq<char>,
    pub command: Seq<char>,
    pub file: Seq<char>,
    pub line_number: usize,
}

impl View for HistoryEntry {
    type V = EntryView;

    open spec fn view(&self) -> EntryView {
        EntryView {
            timestamp: self.timestamp@,
            cwd: self.cwd@,
            command: self.command@,
            file: self.source.file@,
            line_number: self.source.line_number,
        }
    }
}

/// The escape sequence that stands for `c` in a log field.
pub open spec fn escape_char(c: char) -> Seq<char> {
    if c == '\\' {
        seq!['\\', '\\']
    } else if c == '\t' {
        seq!['\\', 't']
    } else if c == '\n' {
        seq!['\\', 'n']
    } else {
        seq![c]
    }
}

/// `s` with every backslash, tab and newline replaced by its escape sequence.
pub open spec fn escaped(s: Seq<char>) -> Seq<char>
    decreases s.len(),
{
    if s.len() == 0 {
        seq![]
    } else {
        escape_char(s[0]) + escaped(s.drop_first())
    }
}

/// The escaped-TSV line for the three fields.
pub open spec fn record_line(timestamp: Seq<char>, cwd: Seq<char>, command: Seq<char>) -> Seq<
    char,
> {
    escaped(timestamp) + seq![FIELD_DELIMITER] + escaped(cwd) + seq![FIELD_DELIMITER] + escaped(
        command,
    )
}

/// Unfolds [`escaped`] at position `i`.
pub proof fn lemma_escaped_step(s: Seq<char>, i: int)
    requires
        0 <= i < s.len(),
    ensures
        escaped(s.skip(i)) == escape_char(s[i]) + escaped(s.skip(i + 1)),
{
    assert(s.skip(i).drop_first() == s.skip(i + 1));
}

impl HistoryEntry {
    /// The entry as one escaped-TSV log line (timestamp, cwd, command).
    pub fn format_escaped_tsv(&self) -> (line: String)
        ensures
            line@ == record_line(self.timestamp@, self.cwd@, self.command@),
    {
        format_record_line(self.timestamp.as_str(), self.cwd.as_str(), self.command.as_str())
    }
}

/// The escaped-TSV log line for the three fields.
pub fn format_record_line(timestamp: &str, cwd: &str, command: &str) -> (line: String)
    ensures
        line@ == record_line(timestamp@, cwd@, command@),
{
    let mut line = escape_field(timestamp);
    push_char(&mut line, FIELD_DELIMITER);
    let c = escape_field(cwd);
    push_str(&mut line, c.as_str());
    push_char(&mut line, FIELD_DELIMITER);
    let m = escape_field(command);
    push_str(&mut line, m.as_str());
    line
}

/// `value` with backslash, tab and newline written as `\\`, `\t` and `\n`.
pub fn escape_field(value: &str) -> (out: String)
    ensures
        out@ == escaped(value@),
{
    let cs = chars_of(value);
    let mut out = String::new();
    let mut i: usize = 0;
    assert(cs@.skip(0) == cs@);
    while i < cs.len()
        invariant
            cs@ == value@,
            i <= cs@.len(),
            out@ + escaped(cs@.skip(i as int)) == escaped(value@),
        decreases cs.len() - i,
    {
        let ch = cs[i];
        proof {
            lemma_escaped_step(cs@, i as int);
        }
        let ghost before = out@;
        if ch == '\\' {
            push_char(&mut out, '\\');
            push_char(&mut out, '\\');
        } else if ch == '\t' {
            push_char(&mut out, '\\');
            push_char(&mut out, 't');
        } else if ch == '\n' {
            push_char(&mut out, '\\');
            push_char(&mut out, 'n');
        } else {
            push_char(&mut out, ch);
        }
        assert(out@ == before + escape_char(ch));
        i += 1;
    }
    assert(cs@.skip(i as int) == Seq::<char>::empty());
    out
}

} // verus!
