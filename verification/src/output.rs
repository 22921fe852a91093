use vstd::prelude::*;

use crate::entry::{record_line, EntryView, HistoryEntry};
use crate::text::{chars_of, push_char, push_str};

verus! {

/// The usage text.
pub open spec fn help_message() -> Seq<char> {
    "Usage:
  hy <query> [--folder PATH] [--today] [--since DAYS] [--limit N] [--json]
  hy record --cwd PATH --command COMMAND [--history-id ID] [--shell bash|zsh]
  hy init <bash|zsh>
  hy install <bash|zsh>

Commands:
  <query>   Search command history for a substring
  record    Append a shell command to the daily history log
  init      Print shell integration for bash or zsh
  install   Install shell integration into the rc file
"@
}

/// The usage text printed by `hy`, `hy -h` and `hy help`.
pub fn help_text() -> (text: &'static str)
    ensures
        text@ == help_message(),
{
    "Usage:
  hy <query> [--folder PATH] [--today] [--since DAYS] [--limit N] [--json]
  hy record --cwd PATH --command COMMAND [--history-id ID] [--shell bash|zsh]
  hy init <bash|zsh>
  hy install <bash|zsh>

Commands:
  <query>   Search command history for a substring
  record    Append a shell command to the daily history log
  init      Print shell integration for bash or zsh
  install   Install shell integration into the rc file
"
}

/// The views of a slice of entries.
pub open spec fn entry_views(entries: Seq<HistoryEntry>) -> Seq<EntryView> {
    entries.map_values(|e: HistoryEntry| e@)
}

/// The entries as escaped-TSV lines, one per entry, each ending in a newline.
pub open spec fn rendered_lines(es: Seq<EntryView>) -> Seq<char>
    decreases es.len(),
{
    if es.len() == 0 {
        seq![]
    } else {
        rendered_lines(es.drop_last()) + record_line(
            es.last().timestamp,
            es.last().cwd,
            es.last().command,
        ) + seq!['\n']
    }
}

/// The escape that stands for `c` inside a JSON string.
pub open spec fn json_escape_char(c: char) -> Seq<char> {
    if c == '"' {
        seq!['\\', '"']
    } else if c == '\\' {
        seq!['\\', '\\']
    } else if c == '\n' {
        seq!['\\', 'n']
    } else if c == '\r' {
        seq!['\\', 'r']
    } else if c == '\t' {
        seq!['\\', 't']
    } else {
        seq![c]
    }
}

/// `s` escaped for use inside a JSON string.
pub open spec fn json_escaped(s: Seq<char>) -> Seq<char>
    decreases s.len(),
{
    if s.len() == 0 {
        seq![]
    } else {
        json_escaped(s.drop_last()) + json_escape_char(s.last())
    }
}

/// The character of the decimal digit `d`.
pub open spec fn digit_char(d: int) -> char {
    ((48 + d) as u8) as char
}

/// The decimal numeral of `n`, without leading zeros.
pub open spec fn decimal_text(n: nat) -> Seq<char>
    decreases n,
{
    if n < 10 {
        seq![digit_char(n as int)]
    } else {
        decimal_text(n / 10).push(digit_char((n % 10) as int))
    }
}

/// One entry as a JSON object.
pub open spec fn json_object(e: EntryView) -> Seq<char> {
    "{\"timestamp\":\""@ + json_escaped(e.timestamp) + "\",\"cwd\":\""@ + json_escaped(e.cwd)
        + "\",\"command\":\""@ + json_escaped(e.command) + "\",\"file\":\""@ + json_escaped(
        e.file,
    ) + "\",\"line\":"@ + decimal_text(e.line_number as nat) + "}"@
}

/// The JSON objects of the entries, separated by commas.
pub open spec fn json_items(es: Seq<EntryView>) -> Seq<char>
    decreases es.len(),
{
    if es.len() == 0 {
        seq![]
    } else if es.len() == 1 {
        json_object(es[0])
    } else {
        json_items(es.drop_last()) + ","@ + json_object(es.last())
    }
}

/// The entries as a JSON array, followed by a newline.
pub open spec fn json_document(es: Seq<EntryView>) -> Seq<char> {
    "["@ + json_items(es) + "]\n"@
}

/// The entries as escaped-TSV lines, one per entry.
pub fn render_entries(entries: &[HistoryEntry]) -> (out: String)
    ensures
        out@ == rendered_lines(entry_views(entries@)),
{
    let mut output = String::new();
    let mut i: usize = 0;
    while i < entries.len()
        invariant
            i <= entries@.len(),
            output@ == rendered_lines(entry_views(entries@).take(i as int)),
        decreases entries.len() - i,
    {
        let line = entries[i].format_escaped_tsv();
        push_str(&mut output, line.as_str());
        push_char(&mut output, '\n');
        let ghost es = entry_views(entries@);
        assert(es.take(i + 1).drop_last() == es.take(i as int));
        assert(es.take(i + 1).last() == entries@[i as int]@);
        i += 1;
    }
    assert(entry_views(entries@).take(i as int) == entry_views(entries@));
    output
}

/// `value` escaped for use inside a JSON string.
fn escape_json(value: &str) -> (out: String)
    ensures
        out@ == json_escaped(value@),
{
    let cs = chars_of(value);
    let mut escaped = String::new();
    let mut i: usize = 0;
    while i < cs.len()
        invariant
            cs@ == value@,
            i <= cs@.len(),
            escaped@ == json_escaped(cs@.take(i as int)),
        decreases cs.len() - i,
    {
        let ch = cs[i];
        if ch == '"' {
            push_char(&mut escaped, '\\');
            push_char(&mut escaped, '"');
        } else if ch == '\\' {
            push_char(&mut escaped, '\\');
            push_char(&mut escaped, '\\');
        } else if ch == '\n' {
            push_char(&mut escaped, '\\');
            push_char(&mut escaped, 'n');
        } else if ch == '\r' {
            push_char(&mut escaped, '\\');
            push_char(&mut escaped, 'r');
        } else if ch == '\t' {
            push_char(&mut escaped, '\\');
            push_char(&mut escaped, 't');
        } else {
            push_char(&mut escaped, ch);
        }
        assert(cs@.take(i + 1).drop_last() == cs@.take(i as int));
        i += 1;
    }
    assert(cs@.take(i as int) == cs@);
    escaped
}

/// The decimal numeral of `n`.
pub fn decimal_string(n: u64) -> (out: String)
    ensures
        out@ == decimal_text(n as nat),
{
    let mut digits: Vec<char> = Vec::new();
    let mut m = n;
    while m >= 10
        invariant
            decimal_text(n as nat) == decimal_text(m as nat) + digits@.reverse(),
        decreases m,
    {
        let d = m % 10;
        let c = (48u8 + d as u8) as char;
        let ghost before = digits@;
        digits.push(c);
        assert(decimal_text(m as nat) == decimal_text((m / 10) as nat).push(c));
        assert(digits@.reverse() == seq![c] + before.reverse());
        m = m / 10;
    }
    let mut out = String::new();
    push_char(&mut out, (48u8 + m as u8) as char);
    let mut k = digits.len();
    while k > 0
        invariant
            k <= digits@.len(),
            decimal_text(n as nat) == out@ + digits@.take(k as int).reverse(),
        decreases k,
    {
        k -= 1;
        let ghost before = out@;
        push_char(&mut out, digits[k]);
        assert(digits@.take(k + 1).reverse() == seq![digits@[k as int]] + digits@.take(
            k as int,
        ).reverse());
    }
    assert(digits@.take(0).reverse() == Seq::<char>::empty());
    out
}

/// One entry as a JSON object.
fn json_object_string(entry: &HistoryEntry) -> (out: String)
    ensures
        out@ == json_object(entry@),
{
    let mut out = "{\"timestamp\":\"".to_owned();
    push_str(&mut out, escape_json(entry.timestamp.as_str()).as_str());
    push_str(&mut out, "\",\"cwd\":\"");
    push_str(&mut out, escape_json(entry.cwd.as_str()).as_str());
    push_str(&mut out, "\",\"command\":\"");
    push_str(&mut out, escape_json(entry.command.as_str()).as_str());
    push_str(&mut out, "\",\"file\":\"");
    push_str(&mut out, escape_json(entry.source.file.as_str()).as_str());
    push_str(&mut out, "\",\"line\":");
    push_str(&mut out, decimal_string(entry.source.line_number as u64).as_str());
    push_str(&mut out, "}");
    out
}

/// The entries as a JSON array of objects with timestamp, cwd, command, file
/// and line.
pub fn render_entries_as_json(entries: &[HistoryEntry]) -> (out: String)
    ensures
        out@ == json_document(entry_views(entries@)),
{
    let mut output = "[".to_owned();
    let mut i: usize = 0;
    while i < entries.len()
        invariant
            i <= entries@.len(),
            output@ == "["@ + json_items(entry_views(entries@).take(i as int)),
        decreases entries.len() - i,
    {
        let entry = &entries[i];
        let ghost before = output@;
        if i > 0 {
            push_str(&mut output, ",");
        }
        let object = json_object_string(entry);
        push_str(&mut output, object.as_str());
        let ghost es = entry_views(entries@);
        assert(es.take(i + 1).drop_last() == es.take(i as int));
        assert(es.take(i + 1).last() == entry@);
        proof {
            if i == 0 {
                assert(es.take(1)[0] == entry@);
                assert(json_items(es.take(i as int)) == Seq::<char>::empty());
                assert(output@ == "["@ + json_object(entry@));
            }
        }
        i += 1;
    }
    assert(entry_views(entries@).take(i as int) == entry_views(entries@));
    push_str(&mut output, "]\n");
    output
}


/// The JSON array of entries lists their objects in order, a comma between
/// each two: one entry gives its object alone, and an entry added after
/// others is one comma and its object after theirs.
pub proof fn lemma_json_items_comma_separated(es: Seq<EntryView>, e: EntryView)
    ensures
        json_items(seq![e]) == json_object(e),
        es.len() > 0 ==> json_items(es.push(e)) == json_items(es) + ","@ + json_object(e),
        json_document(es.push(e)) == if es.len() == 0 {
            "["@ + json_object(e) + "]\n"@
        } else {
            "["@ + json_items(es) + ","@ + json_object(e) + "]\n"@
        },
{
    assert(seq![e][0] == e);
    assert(es.push(e).drop_last() == es);
    assert(es.push(e).last() == e);
    if es.len() == 0 {
        assert(es.push(e) == seq![e]);
    }
}

} // verus!
