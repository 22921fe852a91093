use vstd::prelude::*;

use crate::entry::{
    escape_char, escaped, record_line, EntrySource, EntryView, HistoryEntry, FIELD_DELIMITER,
};
use crate::text::{chars_of, push_char, trim_end, trimmed_end};
use vstd::string::StringSliceAdditionalSpecFns;
use vstd::utf8::*;

verus! {

/// What a parse gives back, by its views.
pub open spec fn entry_result_view(r: Result<HistoryEntry, String>) -> Result<EntryView, Seq<char>> {
    match r {
        Ok(e) => Ok(e@),
        Err(msg) => Err(msg@),
    }
}

/// The characters that the escape `\` + `c` stands for.
pub open spec fn unescape_pair(c: char) -> Seq<char> {
    if c == '\\' {
        seq!['\\']
    } else if c == 't' {
        seq!['\t']
    } else if c == 'n' {
        seq!['\n']
    } else {
        seq!['\\', c]
    }
}

/// Puts `p` in front of a successful result.
pub open spec fn prepend(p: Seq<char>, r: Option<Seq<char>>) -> Option<Seq<char>> {
    match r {
        Some(rest) => Some(p + rest),
        None => None,
    }
}

/// `s` with its escape sequences decoded, read from left to right; `None` when
/// `s` ends with a lone backslash. An unknown escape `\x` stays as it is.
pub open spec fn unescaped(s: Seq<char>) -> Option<Seq<char>>
    decreases s.len(),
{
    if s.len() == 0 {
        Some(seq![])
    } else if s[0] != '\\' {
        prepend(seq![s[0]], unescaped(s.drop_first()))
    } else if s.len() == 1 {
        None
    } else {
        prepend(unescape_pair(s[1]), unescaped(s.skip(2)))
    }
}

/// The fields of `s` between occurrences of `d` (always at least one).
pub open spec fn split_fields(s: Seq<char>, d: char) -> Seq<Seq<char>>
    decreases s.len(),
{
    if s.len() == 0 {
        seq![seq![]]
    } else {
        let p = split_fields(s.drop_last(), d);
        if s.last() == d {
            p.push(seq![])
        } else {
            p.update(p.len() - 1, p.last().push(s.last()))
        }
    }
}

/// What `parse_structured_line` gives for `line`.
pub open spec fn structured_spec(line: Seq<char>, file: Seq<char>, line_number: usize) -> Result<
    EntryView,
    Seq<char>,
> {
    let f = split_fields(line, FIELD_DELIMITER);
    if f.len() < 2 {
        Err("structured line is missing the cwd"@)
    } else if f.len() < 3 {
        Err("structured line is missing the command"@)
    } else if f.len() > 3 {
        Err("structured line has too many fields"@)
    } else if unescaped(f[0]) is None || unescaped(f[1]) is None || unescaped(f[2]) is None {
        Err("field ends with a trailing escape"@)
    } else {
        let t = unescaped(f[0])->0;
        let c = unescaped(f[1])->0;
        let m = unescaped(f[2])->0;
        if t.len() == 0 || c.len() == 0 || m.len() == 0 {
            Err("structured line contains an empty field"@)
        } else {
            Ok(EntryView { timestamp: t, cwd: c, command: m, file, line_number })
        }
    }
}

/// The views of a sequence of character vectors.
pub open spec fn views(v: Seq<Vec<char>>) -> Seq<Seq<char>> {
    v.map_values(|x: Vec<char>| x@)
}

pub proof fn lemma_split_fields_nonempty(s: Seq<char>, d: char)
    ensures
        split_fields(s, d).len() >= 1,
    decreases s.len(),
{
    if s.len() > 0 {
        lemma_split_fields_nonempty(s.drop_last(), d);
    }
}

/// How many times `c` occurs in `s`.
pub open spec fn occurrences(s: Seq<char>, c: char) -> nat
    decreases s.len(),
{
    if s.len() == 0 {
        0
    } else if s.last() == c {
        occurrences(s.drop_last(), c) + 1
    } else {
        occurrences(s.drop_last(), c)
    }
}

/// Splitting at `d` gives one field more than `d` occurs.
pub proof fn lemma_split_fields_len(s: Seq<char>, d: char)
    ensures
        split_fields(s, d).len() == occurrences(s, d) + 1,
    decreases s.len(),
{
    if s.len() > 0 {
        lemma_split_fields_len(s.drop_last(), d);
    }
}

/// Splits `cs` at every occurrence of `d`.
pub fn split_chars(cs: &Vec<char>, d: char) -> (fields: Vec<Vec<char>>)
    ensures
        views(fields@) == split_fields(cs@, d),
{
    let mut done: Vec<Vec<char>> = Vec::new();
    let mut cur: Vec<char> = Vec::new();
    let mut i: usize = 0;
    assert(cs@.take(0) == Seq::<char>::empty());
    assert(views(done@).push(cur@) == seq![Seq::<char>::empty()]);
    while i < cs.len()
        invariant
            i <= cs@.len(),
            split_fields(cs@.take(i as int), d) == views(done@).push(cur@),
        decreases cs.len() - i,
    {
        let c = cs[i];
        let ghost prev = cs@.take(i as int);
        assert(cs@.take(i + 1).drop_last() == prev);
        assert(cs@.take(i + 1).last() == c);
        if c == d {
            let ghost old_done = done@;
            done.push(cur);
            cur = Vec::new();
            assert(views(done@) == views(old_done).push(views(done@).last()));
        } else {
            cur.push(c);
            assert(views(done@).push(cur@) == views(done@).push(cur@.drop_last()).update(
                views(done@).len() as int,
                cur@,
            ));
        }
        i += 1;
    }
    assert(cs@.take(i as int) == cs@);
    done.push(cur);
    assert(views(done@) == views(done@.drop_last()).push(done@.last()@));
    done
}

/// `value` with `\\`, `\t` and `\n` decoded; fails when it ends with a lone
/// backslash. Other escapes are kept as written.
pub fn unescape_field(value: &str) -> (r: Result<String, String>)
    ensures
        match r {
            Ok(s) => unescaped(value@) == Some(s@),
            Err(msg) => unescaped(value@) is None && msg@ == "field ends with a trailing escape"@,
        },
{
    let cs = chars_of(value);
    unescape_chars(&cs)
}

fn unescape_chars(cs: &Vec<char>) -> (r: Result<String, String>)
    ensures
        match r {
            Ok(s) => unescaped(cs@) == Some(s@),
            Err(msg) => unescaped(cs@) is None && msg@ == "field ends with a trailing escape"@,
        },
{
    let mut result = String::new();
    let mut i: usize = 0;
    assert(cs@.skip(0) == cs@);
    while i < cs.len()
        invariant
            i <= cs@.len(),
            unescaped(cs@) == prepend(result@, unescaped(cs@.skip(i as int))),
        decreases cs.len() - i,
    {
        let ch = cs[i];
        let ghost rest = cs@.skip(i as int);
        let ghost before = result@;
        if ch != '\\' {
            assert(rest.drop_first() == cs@.skip(i + 1));
            push_char(&mut result, ch);
            i += 1;
            assert(result@ == before + seq![ch]);
            assert(unescaped(cs@) == prepend(result@, unescaped(cs@.skip(i as int)))) by {
                match unescaped(cs@.skip(i as int)) {
                    Some(r) => {
                        assert(before + (seq![ch] + r) == result@ + r);
                    },
                    None => {},
                }
            }
        } else {
            if i + 1 >= cs.len() {
                return Err("field ends with a trailing escape".to_owned());
            }
            let escaped = cs[i + 1];
            assert(rest.skip(2) == cs@.skip(i + 2));
            if escaped == '\\' {
                push_char(&mut result, '\\');
            } else if escaped == 't' {
                push_char(&mut result, '\t');
            } else if escaped == 'n' {
                push_char(&mut result, '\n');
            } else {
                push_char(&mut result, '\\');
                push_char(&mut result, escaped);
            }
            assert(result@ == before + unescape_pair(escaped));
            i += 2;
            assert(unescaped(cs@) == prepend(result@, unescaped(cs@.skip(i as int)))) by {
                match unescaped(cs@.skip(i as int)) {
                    Some(r) => {
                        assert(before + (unescape_pair(escaped) + r) == result@ + r);
                    },
                    None => {},
                }
            }
        }
    }
    assert(cs@.skip(i as int) == Seq::<char>::empty());
    assert(result@ + Seq::<char>::empty() == result@);
    Ok(result)
}

/// Parses a structured (escaped-TSV) log line: exactly three fields, each
/// unescaped and non-empty.
pub fn parse_structured_line(line: &str, file: &str, line_number: usize) -> (r: Result<
    HistoryEntry,
    String,
>)
    ensures
        entry_result_view(r) == structured_spec(line@, file@, line_number),
{
    let cs = chars_of(line);
    let parts = split_chars(&cs, FIELD_DELIMITER);
    proof {
        lemma_split_fields_nonempty(line@, FIELD_DELIMITER);
        assert(views(parts@).len() == parts@.len());
    }
    if parts.len() < 2 {
        return Err("structured line is missing the cwd".to_owned());
    }
    if parts.len() < 3 {
        return Err("structured line is missing the command".to_owned());
    }
    if parts.len() > 3 {
        return Err("structured line has too many fields".to_owned());
    }
    assert(views(parts@)[0] == parts@[0]@);
    assert(views(parts@)[1] == parts@[1]@);
    assert(views(parts@)[2] == parts@[2]@);
    let timestamp = unescape_chars(&parts[0])?;
    let cwd = unescape_chars(&parts[1])?;
    let command = unescape_chars(&parts[2])?;
    if timestamp.as_str().is_empty() || cwd.as_str().is_empty() || command.as_str().is_empty() {
        return Err("structured line contains an empty field".to_owned());
    }
    Ok(
        HistoryEntry {
            timestamp,
            cwd,
            command,
            source: EntrySource { file: file.to_owned(), line_number },
        },
    )
}


/// Bytes that `u8::is_ascii_whitespace` accepts: tab, newline, form feed,
/// carriage return and space.
pub open spec fn is_ascii_ws(b: u8) -> bool {
    b == 0x09 || b == 0x0a || b == 0x0c || b == 0x0d || b == 0x20
}

/// Bytes of the ASCII digits `0`..`9`.
pub open spec fn is_ascii_digit(b: u8) -> bool {
    0x30 <= b <= 0x39
}

/// The first index at or after `i` that does not hold ASCII whitespace.
pub open spec fn skip_ws(b: Seq<u8>, i: int) -> int
    decreases b.len() - i,
{
    if 0 <= i < b.len() && is_ascii_ws(b[i]) {
        skip_ws(b, i + 1)
    } else {
        i
    }
}

/// The first index at or after `i` that does not hold an ASCII digit.
pub open spec fn skip_digits(b: Seq<u8>, i: int) -> int
    decreases b.len() - i,
{
    if 0 <= i < b.len() && is_ascii_digit(b[i]) {
        skip_digits(b, i + 1)
    } else {
        i
    }
}

/// The working directory that a history marker at `start` leaves in front of it.
pub open spec fn legacy_cwd(r: Seq<u8>, start: int) -> Seq<char> {
    trim_end(decode_utf8(r.take(start)))
}

/// A directory as legacy logs write it: absolute, or `.`.
pub open spec fn legacy_cwd_ok(cwd: Seq<char>) -> bool {
    (cwd.len() > 0 && cwd[0] == '/') || cwd == seq!['.']
}

/// At `start` stands a history marker: whitespace, a history number and more
/// whitespace, after an acceptable working directory.
pub open spec fn marker_at(r: Seq<u8>, start: int) -> bool {
    let c1 = skip_ws(r, start);
    let c2 = skip_digits(r, c1);
    &&& 0 <= start < r.len()
    &&& is_ascii_ws(r[start])
    &&& c2 > c1
    &&& skip_ws(r, c2) > c2
    &&& legacy_cwd_ok(legacy_cwd(r, start))
}

/// The first marker at or after `i`.
pub open spec fn first_marker(r: Seq<u8>, i: int) -> Option<int>
    decreases r.len() - i,
{
    if i < 0 || i >= r.len() {
        None
    } else if marker_at(r, i) {
        Some(i)
    } else {
        first_marker(r, i + 1)
    }
}

/// Where the command starts after the marker at `start`.
pub open spec fn command_start(r: Seq<u8>, start: int) -> int {
    skip_ws(r, skip_digits(r, skip_ws(r, start)))
}

/// The working directory and command of the bytes after a legacy timestamp.
pub open spec fn split_legacy(r: Seq<u8>) -> Option<(Seq<char>, Seq<char>)> {
    match first_marker(r, 0) {
        Some(start) => Some(
            (legacy_cwd(r, start), decode_utf8(r.skip(command_start(r, start)))),
        ),
        None => None,
    }
}

/// The shape `YYYY-MM-DD.HH:MM:SS`, checked at its separators.
pub open spec fn legacy_timestamp_shape(t: Seq<u8>) -> bool {
    &&& t.len() == 19
    &&& t[4] == 0x2d
    &&& t[7] == 0x2d
    &&& t[10] == 0x2e
    &&& t[13] == 0x3a
    &&& t[16] == 0x3a
}

/// What `parse_legacy_line` gives for `line`. Positions count UTF-8 bytes of
/// the line without its trailing whitespace.
pub open spec fn legacy_spec(line: Seq<char>, file: Seq<char>, line_number: usize) -> Result<
    EntryView,
    Seq<char>,
> {
    let b = encode_utf8(trim_end(line));
    if !is_char_boundary(b, 19) {
        Err("legacy line is too short"@)
    } else if !legacy_timestamp_shape(b.take(19)) {
        Err("legacy line does not start with YYYY-MM-DD.HH:MM:SS"@)
    } else if !is_char_boundary(b, 20) {
        Err("legacy line is missing cwd and command"@)
    } else {
        match split_legacy(b.skip(20)) {
            None => Err("legacy line is missing a recognizable history marker"@),
            Some((cwd, command)) => Ok(
                EntryView {
                    timestamp: decode_utf8(b.take(19)),
                    cwd,
                    command,
                    file,
                    line_number,
                },
            ),
        }
    }
}

/// Whether `line` holds a field delimiter.
pub open spec fn has_delimiter(line: Seq<char>) -> bool {
    exists|i: int| 0 <= i < line.len() && line[i] == FIELD_DELIMITER
}

/// What `parse_line` gives for `line`.
pub open spec fn line_spec(line: Seq<char>, file: Seq<char>, line_number: usize) -> Result<
    EntryView,
    Seq<char>,
> {
    if has_delimiter(line) {
        structured_spec(line, file, line_number)
    } else {
        legacy_spec(line, file, line_number)
    }
}

/// An ASCII byte of valid UTF-8 starts a character and ends one.
proof fn lemma_ascii_boundaries(b: Seq<u8>, i: int)
    requires
        valid_utf8(b),
        0 <= i < b.len(),
        b[i] < 0x80,
    ensures
        is_char_boundary(b, i),
        is_char_boundary(b, i + 1),
{
    is_char_boundary_iff_not_is_continuation_byte(b, i);
    is_char_boundary_start_end_of_seq(b);
    if i + 1 < b.len() {
        valid_utf8_split(b, i);
        partial_valid_utf8_extend_ascii_block(b, i, i + 1);
        assert(b.subrange(0, i) == b.take(i));
        if is_continuation_byte(b[i + 1]) {
            let rest = b.subrange(i + 1, b.len() as int);
            assert(rest[0] == b[i + 1]);
            assert(!valid_first_scalar(rest));
            assert(!valid_utf8(rest));
            partial_valid_partial_invalid_utf8(b, i + 1);
        }
        is_char_boundary_iff_not_is_continuation_byte(b, i + 1);
    }
}

/// The text of a str is the decoding of its bytes.
proof fn lemma_str_decodes(s: &str)
    ensures
        valid_utf8(s.spec_bytes()),
        decode_utf8(s.spec_bytes()) == s@,
{
    encode_utf8_valid_utf8(s@);
    encode_utf8_decode_utf8(s@);
}

fn is_ascii_whitespace_byte(b: u8) -> (r: bool)
    ensures
        r == is_ascii_ws(b),
{
    b == 0x09 || b == 0x0a || b == 0x0c || b == 0x0d || b == 0x20
}

fn is_ascii_digit_byte(b: u8) -> (r: bool)
    ensures
        r == is_ascii_digit(b),
{
    0x30 <= b && b <= 0x39
}

/// Whether the 19 bytes have the separators of `YYYY-MM-DD.HH:MM:SS`.
fn looks_like_legacy_timestamp(value: &str) -> (r: bool)
    ensures
        r == legacy_timestamp_shape(value.spec_bytes()),
{
    let bytes = value.as_bytes();
    bytes.len() == 19 && bytes[4] == 0x2d && bytes[7] == 0x2d && bytes[10] == 0x2e && bytes[13]
        == 0x3a && bytes[16] == 0x3a
}

/// Splits what follows a legacy timestamp into working directory and command
/// at the first history marker.
fn split_legacy_remainder(remainder: &str) -> (r: Result<(String, String), String>)
    ensures
        match r {
            Ok((cwd, command)) => split_legacy(remainder.spec_bytes()) == Some(
                (cwd@, command@),
            ),
            Err(msg) => split_legacy(remainder.spec_bytes()) is None && msg@
                == "legacy line is missing a recognizable history marker"@,
        },
{
    let bytes = remainder.as_bytes();
    let ghost rb = remainder.spec_bytes();
    proof {
        lemma_str_decodes(remainder);
    }
    let len = bytes.len();
    let mut start: usize = 0;
    while start < len
        invariant
            bytes@ == rb,
            rb == remainder.spec_bytes(),
            len == rb.len(),
            valid_utf8(rb),
            decode_utf8(rb) == remainder@,
            start <= len,
            first_marker(rb, 0) == first_marker(rb, start as int),
        decreases len - start,
    {
        if !is_ascii_whitespace_byte(bytes[start]) {
            start += 1;
            continue;
        }
        let mut cursor = start;
        while cursor < len && is_ascii_whitespace_byte(bytes[cursor])
            invariant
                bytes@ == rb,
                len == rb.len(),
                start <= cursor <= len,
                skip_ws(rb, start as int) == skip_ws(rb, cursor as int),
                forall|k: int| start <= k < cursor ==> rb[k] < 0x80,
                start < len,
                is_ascii_ws(rb[start as int]),
            decreases len - cursor,
        {
            cursor += 1;
        }
        let digit_start = cursor;
        while cursor < len && is_ascii_digit_byte(bytes[cursor])
            invariant
                bytes@ == rb,
                len == rb.len(),
                start <= digit_start <= cursor <= len,
                skip_digits(rb, digit_start as int) == skip_digits(rb, cursor as int),
                forall|k: int| start <= k < cursor ==> rb[k] < 0x80,
                start < len,
                is_ascii_ws(rb[start as int]),
            decreases len - cursor,
        {
            cursor += 1;
        }
        if cursor == digit_start {
            start += 1;
            continue;
        }
        let whitespace_after_digits = cursor;
        while cursor < len && is_ascii_whitespace_byte(bytes[cursor])
            invariant
                bytes@ == rb,
                len == rb.len(),
                start <= whitespace_after_digits <= cursor <= len,
                skip_ws(rb, whitespace_after_digits as int) == skip_ws(rb, cursor as int),
                forall|k: int| start <= k < cursor ==> rb[k] < 0x80,
                start < len,
                is_ascii_ws(rb[start as int]),
            decreases len - cursor,
        {
            cursor += 1;
        }
        if cursor == whitespace_after_digits {
            start += 1;
            continue;
        }
        proof {
            lemma_ascii_boundaries(rb, start as int);
            lemma_ascii_boundaries(rb, cursor - 1);
        }
        let (head, _) = remainder.split_at(start);
        proof {
            lemma_str_decodes(head);
            assert(head.spec_bytes() == rb.take(start as int));
        }
        let cwd = trimmed_end(head);
        let cwd_chars = chars_of(cwd.as_str());
        let is_absolute = cwd_chars.len() > 0 && cwd_chars[0] == '/';
        let is_dot = cwd_chars.len() == 1 && cwd_chars[0] == '.';
        assert(is_dot == (cwd@ == seq!['.'])) by {
            if cwd@.len() == 1 && cwd@[0] == '.' {
                assert(cwd@ == seq!['.']);
            }
        }
        if is_absolute || is_dot {
            let (_, tail) = remainder.split_at(cursor);
            proof {
                lemma_str_decodes(tail);
                assert(tail.spec_bytes() == rb.skip(cursor as int));
            }
            return Ok((cwd, tail.to_owned()));
        }
        start += 1;
    }
    Err("legacy line is missing a recognizable history marker".to_owned())
}

/// Parses a legacy space-separated line `YYYY-MM-DD.HH:MM:SS CWD  N  COMMAND`,
/// where `N` is the shell's history number.
pub fn parse_legacy_line(line: &str, file: &str, line_number: usize) -> (r: Result<
    HistoryEntry,
    String,
>)
    ensures
        entry_result_view(r) == legacy_spec(line@, file@, line_number),
{
    let trimmed = trimmed_end(line);
    let t = trimmed.as_str();
    proof {
        lemma_str_decodes(t);
    }
    if !t.is_char_boundary(19) {
        return Err("legacy line is too short".to_owned());
    }
    let (timestamp, _) = t.split_at(19);
    if !looks_like_legacy_timestamp(timestamp) {
        return Err("legacy line does not start with YYYY-MM-DD.HH:MM:SS".to_owned());
    }
    if !t.is_char_boundary(20) {
        return Err("legacy line is missing cwd and command".to_owned());
    }
    let (_, remainder) = t.split_at(20);
    proof {
        lemma_str_decodes(timestamp);
        assert(remainder.spec_bytes() == t.spec_bytes().skip(20));
    }
    let (cwd, command) = split_legacy_remainder(remainder)?;
    Ok(
        HistoryEntry {
            timestamp: timestamp.to_owned(),
            cwd,
            command,
            source: EntrySource { file: file.to_owned(), line_number },
        },
    )
}

/// Parses a log line: structured when it holds a tab, legacy otherwise.
pub fn parse_line(line: &str, file: &str, line_number: usize) -> (r: Result<HistoryEntry, String>)
    ensures
        entry_result_view(r) == line_spec(line@, file@, line_number),
{
    let cs = chars_of(line);
    let mut i: usize = 0;
    while i < cs.len()
        invariant
            cs@ == line@,
            i <= cs@.len(),
            forall|j: int| 0 <= j < i ==> cs@[j] != FIELD_DELIMITER,
        decreases cs.len() - i,
    {
        if cs[i] == FIELD_DELIMITER {
            return parse_structured_line(line, file, line_number);
        }
        i += 1;
    }
    parse_legacy_line(line, file, line_number)
}


/// No escaped text holds a raw tab or newline.
pub proof fn lemma_escaped_has_no_tab_or_newline(s: Seq<char>)
    ensures
        forall|i: int|
            0 <= i < escaped(s).len() ==> #[trigger] escaped(s)[i] != '\t' && escaped(s)[i]
                != '\n',
    decreases s.len(),
{
    if s.len() > 0 {
        lemma_escaped_has_no_tab_or_newline(s.drop_first());
        let e = escape_char(s[0]);
        let rest = escaped(s.drop_first());
        assert(escaped(s) == e + rest);
        assert forall|i: int| 0 <= i < escaped(s).len() implies #[trigger] escaped(s)[i] != '\t'
            && escaped(s)[i] != '\n' by {
            if i >= e.len() {
                assert(escaped(s)[i] == rest[i - e.len()]);
            }
        }
    }
}

/// Unescaping undoes escaping: for every text `s`, `unescape_field` of
/// `escape_field(s)` gives `s` back.
pub proof fn lemma_unescape_escape(s: Seq<char>)
    ensures
        unescaped(escaped(s)) == Some(s),
    decreases s.len(),
{
    if s.len() > 0 {
        let c = s[0];
        let rest = s.drop_first();
        lemma_unescape_escape(rest);
        let e = escaped(s);
        assert(e == escape_char(c) + escaped(rest));
        if c == '\\' || c == '\t' || c == '\n' {
            assert(e.skip(2) == escaped(rest));
        } else {
            assert(e.drop_first() == escaped(rest));
        }
        assert(seq![c] + rest == s);
    }
}

/// A text without `d` is one field.
pub proof fn lemma_split_without_delimiter(x: Seq<char>, d: char)
    requires
        forall|i: int| 0 <= i < x.len() ==> x[i] != d,
    ensures
        split_fields(x, d) == seq![x],
    decreases x.len(),
{
    if x.len() > 0 {
        lemma_split_without_delimiter(x.drop_last(), d);
        assert(x.drop_last().push(x.last()) == x);
        assert(x[x.len() - 1] != d);
        assert(seq![x.drop_last()].update(0, x.drop_last().push(x.last())) == seq![x]);
    } else {
        assert(x == Seq::<char>::empty());
    }
}

/// Splitting at a delimiter between `a` and `b` splits `a` and `b` apart.
pub proof fn lemma_split_concat(a: Seq<char>, b: Seq<char>, d: char)
    ensures
        split_fields(a + seq![d] + b, d) == split_fields(a, d) + split_fields(b, d),
    decreases b.len(),
{
    lemma_split_fields_nonempty(a, d);
    let ad = a + seq![d];
    if b.len() == 0 {
        assert(ad + b == ad);
        assert(ad.drop_last() == a);
    } else {
        lemma_split_concat(a, b.drop_last(), d);
        lemma_split_fields_nonempty(b.drop_last(), d);
        assert((ad + b).drop_last() == ad + b.drop_last());
        assert((ad + b).last() == b.last());
    }
}

/// A record line splits into the three escaped fields.
pub proof fn lemma_record_line_fields(t: Seq<char>, c: Seq<char>, m: Seq<char>)
    ensures
        split_fields(record_line(t, c, m), FIELD_DELIMITER) == seq![
            escaped(t),
            escaped(c),
            escaped(m),
        ],
{
    lemma_escaped_has_no_tab_or_newline(t);
    lemma_escaped_has_no_tab_or_newline(c);
    lemma_escaped_has_no_tab_or_newline(m);
    lemma_split_without_delimiter(escaped(t), FIELD_DELIMITER);
    lemma_split_without_delimiter(escaped(c), FIELD_DELIMITER);
    lemma_split_without_delimiter(escaped(m), FIELD_DELIMITER);
    let d = seq![FIELD_DELIMITER];
    lemma_split_concat(escaped(t), escaped(c), FIELD_DELIMITER);
    lemma_split_concat(escaped(t) + d + escaped(c), escaped(m), FIELD_DELIMITER);
}

/// A line written by `format_record_line` reads back, through `parse_line`, as
/// the same timestamp, directory and command, when none of them is empty.
pub proof fn lemma_record_line_round_trip(
    t: Seq<char>,
    c: Seq<char>,
    m: Seq<char>,
    file: Seq<char>,
    line_number: usize,
)
    requires
        t.len() > 0,
        c.len() > 0,
        m.len() > 0,
    ensures
        structured_spec(record_line(t, c, m), file, line_number) == Ok::<EntryView, Seq<char>>(
            EntryView { timestamp: t, cwd: c, command: m, file, line_number },
        ),
        line_spec(record_line(t, c, m), file, line_number) == Ok::<EntryView, Seq<char>>(
            EntryView { timestamp: t, cwd: c, command: m, file, line_number },
        ),
{
    lemma_record_line_fields(t, c, m);
    lemma_unescape_escape(t);
    lemma_unescape_escape(c);
    lemma_unescape_escape(m);
    let line = record_line(t, c, m);
    assert(line[escaped(t).len() as int] == FIELD_DELIMITER);
    assert(has_delimiter(line));
}

/// An escaped field never holds a tab, so it is never cut apart when read back.
pub proof fn lemma_escaped_field_is_one_field(s: Seq<char>)
    ensures
        split_fields(escaped(s), FIELD_DELIMITER) == seq![escaped(s)],
{
    lemma_escaped_has_no_tab_or_newline(s);
    lemma_split_without_delimiter(escaped(s), FIELD_DELIMITER);
}

} // verus!
