use vstd::prelude::*;

use crate::entry::{escape_char, escaped, record_line, EntryView, HistoryEntry};
use crate::output::rendered_lines;
use crate::parser::{
    lemma_escaped_has_no_tab_or_newline, lemma_record_line_round_trip, lemma_split_concat,
    lemma_split_fields_len, lemma_split_fields_nonempty, lemma_split_without_delimiter, line_spec,
    occurrences, parse_line, split_chars,
    split_fields, views,
};
use crate::path::{is_absolute, is_within, normalize_path, normalized, path_within, SEPARATOR};
use crate::clock::{timestamp_text, CivilTime};
use crate::record::{lemma_repeated_id_appends_once, opt_view, plan_spec, step_spec, RecordView};
use crate::text::{
    chars_blank, chars_contain, chars_equal, chars_of, chars_start_with, contains_seq, is_blank,
    is_white_space,
    lemma_trim_empty_iff_blank, push_char, push_str, starts_with, string_from_chars, trim,
};

verus! {

/// Arguments of a search, as given on the command line.
#[derive(Debug, Clone, PartialEq, Eq)]
pub struct SearchArgs {
    pub query: Option<String>,
    pub folder: Option<String>,
    pub today: bool,
    pub since_days: Option<u32>,
    pub limit: Option<usize>,
    pub json: bool,
    pub ignore_case: bool,
}

/// The mathematical content of [`SearchArgs`].
pub struct SearchView {
    pub query: Option<Seq<char>>,
    pub folder: Option<Seq<char>>,
    pub today: bool,
    pub since_days: Option<u32>,
    pub limit: Option<usize>,
    pub json: bool,
    pub ignore_case: bool,
}

impl View for SearchArgs {
    type V = SearchView;

    open spec fn view(&self) -> SearchView {
        SearchView {
            query: opt_view(self.query),
            folder: opt_view(self.folder),
            today: self.today,
            since_days: self.since_days,
            limit: self.limit,
            json: self.json,
            ignore_case: self.ignore_case,
        }
    }
}


/// What an entry must satisfy to be found: a query in its command and a
/// folder that holds its working directory, each when given.
#[derive(Debug, Clone, PartialEq, Eq)]
pub struct SearchFilter {
    pub query: Option<String>,
    pub folder: Option<String>,
    pub ignore_case: bool,
}

/// The mathematical content of a [`SearchFilter`].
pub struct FilterView {
    pub query: Option<Seq<char>>,
    pub folder: Option<Seq<char>>,
    pub ignore_case: bool,
}

impl View for SearchFilter {
    type V = FilterView;

    open spec fn view(&self) -> FilterView {
        FilterView {
            query: opt_view(self.query),
            folder: opt_view(self.folder),
            ignore_case: self.ignore_case,
        }
    }
}

/// `c` with ASCII upper case letters made lower case.
pub open spec fn ascii_lower(c: char) -> char {
    if 'A' <= c <= 'Z' {
        (((c as u32) + 32) as u8) as char
    } else {
        c
    }
}

/// `s` with ASCII upper case letters made lower case.
pub open spec fn lowered(s: Seq<char>) -> Seq<char> {
    s.map_values(|c: char| ascii_lower(c))
}

/// `needle` occurs in `hay`, ignoring ASCII case when asked.
pub open spec fn text_matches(hay: Seq<char>, needle: Seq<char>, ignore_case: bool) -> bool {
    if ignore_case {
        contains_seq(lowered(hay), lowered(needle))
    } else {
        contains_seq(hay, needle)
    }
}

/// `cwd` is `folder` or lies below it, compared component by component
/// after `.`, empty pieces and `..` are resolved in both.
pub open spec fn within_folder(cwd: Seq<char>, folder: Seq<char>) -> bool {
    path_within(cwd, folder)
}

/// An entry passes the filter.
pub open spec fn entry_matches(e: EntryView, f: FilterView) -> bool {
    &&& match f.query {
        Some(q) => text_matches(e.command, q, f.ignore_case),
        None => true,
    }
    &&& match f.folder {
        Some(d) => within_folder(e.cwd, d),
        None => true,
    }
}

/// A line without its trailing carriage return.
pub open spec fn strip_cr(s: Seq<char>) -> Seq<char> {
    if s.len() > 0 && s.last() == '\r' {
        s.drop_last()
    } else {
        s
    }
}

/// The lines of `s` as `str::lines` gives them: split at `\n`, a `\r` before
/// the `\n` removed, and no empty line after a final `\n`.
pub open spec fn text_lines(s: Seq<char>) -> Seq<Seq<char>> {
    let parts = split_fields(s, '\n');
    let ended = parts.take(parts.len() - 1).map_values(|p: Seq<char>| strip_cr(p));
    if parts.last().len() == 0 {
        ended
    } else {
        ended.push(parts.last())
    }
}

/// The entry that line `k` (0-based) of a log file contributes, if any.
pub open spec fn line_match(path: Seq<char>, lines: Seq<Seq<char>>, k: int, f: FilterView) -> Option<
    EntryView,
> {
    let line = lines[k];
    if trim(line).len() == 0 {
        None
    } else {
        match line_spec(line, path, (k + 1) as usize) {
            Ok(e) => if entry_matches(e, f) {
                Some(e)
            } else {
                None
            },
            Err(_) => None,
        }
    }
}

/// The matching entries of the first `n` lines, oldest first.
pub open spec fn matches_upto(path: Seq<char>, lines: Seq<Seq<char>>, n: int, f: FilterView) -> Seq<
    EntryView,
>
    decreases n,
{
    if n <= 0 {
        seq![]
    } else {
        let prev = matches_upto(path, lines, n - 1, f);
        match line_match(path, lines, n - 1, f) {
            Some(e) => prev.push(e),
            None => prev,
        }
    }
}

/// The matching entries of one log file, newest first.
pub open spec fn file_matches_spec(path: Seq<char>, content: Seq<char>, f: FilterView) -> Seq<
    EntryView,
> {
    let lines = text_lines(content);
    matches_upto(path, lines, lines.len() as int, f).reverse()
}

/// The views of a sequence of entries.
pub open spec fn entry_seq_views(es: Seq<HistoryEntry>) -> Seq<EntryView> {
    es.map_values(|e: HistoryEntry| e@)
}

/// Whether the entry's command holds `query` (all commands do when there is
/// no query).
pub fn matches_query(entry: &HistoryEntry, query: Option<&str>) -> (b: bool)
    ensures
        b == match query {
            Some(q) => contains_seq(entry.command@, q@),
            None => true,
        },
{
    match query {
        Some(q) => {
            let hay = chars_of(entry.command.as_str());
            let needle = chars_of(q);
            chars_contain(&hay, &needle)
        },
        None => true,
    }
}

fn lower_chars(cs: &Vec<char>) -> (out: Vec<char>)
    ensures
        out@ == lowered(cs@),
{
    let mut out: Vec<char> = Vec::new();
    let mut i: usize = 0;
    while i < cs.len()
        invariant
            i <= cs@.len(),
            out@ == lowered(cs@.take(i as int)),
        decreases cs.len() - i,
    {
        let c = cs[i];
        let l = if 'A' <= c && c <= 'Z' {
            ((c as u32 + 32) as u8) as char
        } else {
            c
        };
        out.push(l);
        assert(lowered(cs@.take(i + 1)) == lowered(cs@.take(i as int)).push(ascii_lower(c)));
        i += 1;
    }
    assert(cs@.take(i as int) == cs@);
    out
}

/// Whether the entry passes the filter.
pub fn entry_matches_filter(entry: &HistoryEntry, filter: &SearchFilter) -> (b: bool)
    ensures
        b == entry_matches(entry@, filter@),
{
    let query_ok = match &filter.query {
        Some(q) => {
            let hay = chars_of(entry.command.as_str());
            let needle = chars_of(q.as_str());
            if filter.ignore_case {
                chars_contain(&lower_chars(&hay), &lower_chars(&needle))
            } else {
                chars_contain(&hay, &needle)
            }
        },
        None => true,
    };
    let folder_ok = match &filter.folder {
        Some(d) => is_within(entry.cwd.as_str(), d.as_str()),
        None => true,
    };
    query_ok && folder_ok
}

/// The lines of `content` (see [`text_lines`]).
pub fn content_lines(content: &str) -> (lines: Vec<Vec<char>>)
    ensures
        views(lines@) == text_lines(content@),
{
    let cs = chars_of(content);
    let parts = split_chars(&cs, '\n');
    proof {
        lemma_split_fields_nonempty(content@, '\n');
    }
    let ghost pv = views(parts@);
    assert(pv.len() == parts@.len());
    let n = parts.len();
    let mut lines: Vec<Vec<char>> = Vec::new();
    let mut i: usize = 0;
    while i + 1 < n
        invariant
            n == parts@.len(),
            n >= 1,
            pv == views(parts@),
            pv == split_fields(content@, '\n'),
            i < n,
            views(lines@) == pv.take(i as int).map_values(|p: Seq<char>| strip_cr(p)),
        decreases n - i,
    {
        let part = &parts[i];
        assert(pv[i as int] == part@);
        let k = part.len();
        let line = if k > 0 && part[k - 1] == '\r' {
            let mut v: Vec<char> = Vec::new();
            let mut j: usize = 0;
            while j + 1 < k
                invariant
                    k == part@.len(),
                    k > 0,
                    j < k,
                    v@ == part@.take(j as int),
                decreases k - j,
            {
                v.push(part[j]);
                assert(part@.take(j + 1) == part@.take(j as int).push(part@[j as int]));
                j += 1;
            }
            assert(part@.take(j as int) == part@.drop_last());
            v
        } else {
            part.clone()
        };
        assert(line@ == strip_cr(part@));
        let ghost old_lines = lines@;
        lines.push(line);
        assert(views(lines@) == views(old_lines).push(line@));
        assert(pv.take(i + 1) == pv.take(i as int).push(pv[i as int]));
        assert(pv.take(i + 1).map_values(|p: Seq<char>| strip_cr(p)) == pv.take(
            i as int,
        ).map_values(|p: Seq<char>| strip_cr(p)).push(strip_cr(pv[i as int])));
        i += 1;
    }
    assert(i == n - 1);
    let last = &parts[n - 1];
    assert(pv.last() == last@);
    if last.len() > 0 {
        let ghost old_lines = lines@;
        lines.push(last.clone());
        assert(views(lines@) == views(old_lines).push(last@));
    }
    lines
}

/// The entries of one log file that pass the filter, newest (last line) first.
/// Blank lines and lines that do not parse are skipped.
pub fn file_matches(path: &str, content: &str, filter: &SearchFilter) -> (found: Vec<HistoryEntry>)
    ensures
        entry_seq_views(found@) == file_matches_spec(path@, content@, filter@),
{
    let lines = content_lines(content);
    let ghost lv = views(lines@);
    let mut oldest_first: Vec<HistoryEntry> = Vec::new();
    let mut index: usize = 0;
    while index < lines.len()
        invariant
            lv == views(lines@),
            lv == text_lines(content@),
            index <= lines@.len(),
            entry_seq_views(oldest_first@) == matches_upto(path@, lv, index as int, filter@),
        decreases lines.len() - index,
    {
        let chars = &lines[index];
        assert(lv[index as int] == chars@);
        proof {
            lemma_trim_empty_iff_blank(chars@);
        }
        if !chars_blank(chars) {
            let line = string_from_chars(chars, 0, chars.len());
            assert(chars@.subrange(0, chars@.len() as int) == chars@);
            match parse_line(line.as_str(), path, index + 1) {
                Ok(entry) => {
                    if entry_matches_filter(&entry, filter) {
                        let ghost before = oldest_first@;
                        oldest_first.push(entry);
                        assert(entry_seq_views(oldest_first@) == entry_seq_views(before).push(
                            entry@,
                        ));
                    }
                },
                Err(_) => {},
            }
        }
        index += 1;
    }
    reverse_entries(oldest_first)
}


/// The entries in the opposite order.
fn reverse_entries(v: Vec<HistoryEntry>) -> (r: Vec<HistoryEntry>)
    ensures
        entry_seq_views(r@) == entry_seq_views(v@).reverse(),
{
    let ghost all = entry_seq_views(v@);
    let mut rest = v;
    let mut out: Vec<HistoryEntry> = Vec::new();
    while rest.len() > 0
        invariant
            all == entry_seq_views(rest@) + entry_seq_views(out@).reverse(),
        decreases rest.len(),
    {
        let ghost before_rest = rest@;
        let ghost before_out = out@;
        let e = rest.pop().unwrap();
        out.push(e);
        assert(entry_seq_views(before_rest) == entry_seq_views(rest@).push(e@));
        assert(entry_seq_views(out@) == entry_seq_views(before_out).push(e@));
        assert(entry_seq_views(out@).reverse() == seq![e@] + entry_seq_views(before_out).reverse());
    }
    assert(entry_seq_views(rest@) == Seq::<EntryView>::empty());
    assert(all == entry_seq_views(out@).reverse());
    assert(all.reverse() == entry_seq_views(out@));
    out
}

/// How many of `found` entries a search holding `held` entries takes before
/// it reaches `limit`: it checks the limit after each entry it takes.
pub open spec fn taken_count(held: int, found: int, limit: int) -> int {
    if found <= 0 {
        0
    } else if found < limit - held {
        found
    } else if limit - held >= 1 {
        limit - held
    } else {
        1
    }
}

/// Adds the entries of one file to the results, stopping once `limit`
/// results are held; returns whether the limit was reached.
pub fn collect_matches(matches: &mut Vec<HistoryEntry>, found: Vec<HistoryEntry>, limit: usize) -> (done: bool)
    ensures
        entry_seq_views(final(matches)@) == entry_seq_views(old(matches)@) + entry_seq_views(
            found@,
        ).take(taken_count(old(matches)@.len() as int, found@.len() as int, limit as int)),
        done == (found@.len() > 0 && old(matches)@.len() + taken_count(
            old(matches)@.len() as int,
            found@.len() as int,
            limit as int,
        ) >= limit),
{
    let ghost start = entry_seq_views(old(matches)@);
    let ghost held = old(matches)@.len() as int;
    let ghost fv = entry_seq_views(found@);
    let n = found.len();
    let mut pending = reverse_entries(found);
    assert(entry_seq_views(pending@).len() == pending@.len());
    assert(fv.skip(0) == fv);
    assert(fv.take(0) == Seq::<EntryView>::empty());
    assert(start + Seq::<EntryView>::empty() == start);
    let mut taken: usize = 0;
    while pending.len() > 0
        invariant
            start == entry_seq_views(old(matches)@),
            held == old(matches)@.len(),
            fv == entry_seq_views(found@),
            fv.len() == n,
            taken + pending@.len() == n,
            entry_seq_views(pending@) == fv.skip(taken as int).reverse(),
            entry_seq_views(matches@) == start + fv.take(taken as int),
            matches@.len() == held + taken,
            taken > 0 ==> held + taken < limit,
        decreases pending.len(),
    {
        let ghost before = pending@;
        let e = pending.pop().unwrap();
        assert(entry_seq_views(before) == entry_seq_views(pending@).push(e@));
        assert(fv.skip(taken as int).reverse().last() == fv[taken as int]);
        assert(e@ == fv[taken as int]);
        assert(fv.skip(taken + 1).reverse() == fv.skip(taken as int).reverse().drop_last());
        let ghost mv = entry_seq_views(matches@);
        matches.push(e);
        assert(entry_seq_views(matches@) == mv.push(e@));
        assert(fv.take(taken + 1) == fv.take(taken as int).push(fv[taken as int]));
        taken += 1;
        if matches.len() >= limit {
            assert(taken as int == taken_count(held, n as int, limit as int));
            return true;
        }
    }
    assert(fv.take(n as int) == fv);
    false
}

/// All the entries of the files `fs`, one file after the other.
pub open spec fn concat_all(fs: Seq<Seq<EntryView>>) -> Seq<EntryView>
    decreases fs.len(),
{
    if fs.len() == 0 {
        seq![]
    } else {
        concat_all(fs.drop_last()) + fs.last()
    }
}

/// What a search holds after it has taken the matches `fs` of one file after
/// another with `collect_matches`, and whether it has stopped: once it has
/// stopped, later files add nothing.
pub open spec fn collect_run(fs: Seq<Seq<EntryView>>, limit: int) -> (Seq<EntryView>, bool)
    decreases fs.len(),
{
    if fs.len() == 0 {
        (seq![], false)
    } else {
        let (held, done) = collect_run(fs.drop_last(), limit);
        if done {
            (held, done)
        } else {
            let found = fs.last();
            let t = taken_count(held.len() as int, found.len() as int, limit);
            (held + found.take(t), found.len() > 0 && held.len() + t >= limit)
        }
    }
}

/// The number of results a search with `limit` stops at: the limit, but at
/// least one, since the limit is checked only after an entry is taken.
pub open spec fn effective_limit(limit: int) -> int {
    if limit >= 1 {
        limit
    } else {
        1
    }
}

/// A search across several files, taken newest first, keeps the first
/// matches of all of them together, up to the limit: what it holds is the
/// matches of the files one after the other, cut at the limit (at least one
/// entry, the limit being checked after each entry is taken), and it has
/// stopped exactly when it holds that many.
pub proof fn lemma_collect_run_takes_first(fs: Seq<Seq<EntryView>>, limit: int)
    requires
        limit >= 0,
    ensures
        ({
            let all = concat_all(fs);
            let cut = if all.len() < effective_limit(limit) {
                all.len() as int
            } else {
                effective_limit(limit)
            };
            collect_run(fs, limit).0 == all.take(cut)
        }),
        collect_run(fs, limit).1 == (collect_run(fs, limit).0.len() >= effective_limit(limit)),
    decreases fs.len(),
{
    let l = effective_limit(limit);
    let all = concat_all(fs);
    if fs.len() == 0 {
        assert(all.take(0) == Seq::<EntryView>::empty());
    } else {
        let prev = fs.drop_last();
        lemma_collect_run_takes_first(prev, limit);
        let c = concat_all(prev);
        let (held, done) = collect_run(prev, limit);
        let found = fs.last();
        assert(all == c + found);
        if done {
            assert(held.len() >= l);
            assert(c.len() >= l);
            assert(held == c.take(l));
            assert(all.take(l) == c.take(l));
        } else {
            assert(held.len() < l);
            assert(held == c);
            let t = taken_count(held.len() as int, found.len() as int, limit);
            assert(t == if found.len() < l - c.len() {
                found.len() as int
            } else {
                l - c.len()
            });
            assert(all.take(c.len() + t) == c + found.take(t));
        }
    }
}

/// A search across log files, taken newest first: it holds the matches of
/// the files taken so far, up to its limit, and says when it has stopped.
pub struct LogSearch {
    filter: SearchFilter,
    limit: usize,
    matches: Vec<HistoryEntry>,
    done: bool,
    found: Ghost<Seq<Seq<EntryView>>>,
}

impl LogSearch {
    /// The matches of each file taken so far, in the order taken.
    pub closed spec fn taken_files(&self) -> Seq<Seq<EntryView>> {
        self.found@
    }

    /// The filter the search applies.
    pub closed spec fn search_filter(&self) -> FilterView {
        self.filter@
    }

    /// The number of results the search stops at.
    pub closed spec fn result_limit(&self) -> usize {
        self.limit
    }

    #[verifier::type_invariant]
    closed spec fn holds_collected(&self) -> bool {
        &&& entry_seq_views(self.matches@) == collect_run(self.found@, self.limit as int).0
        &&& self.done == collect_run(self.found@, self.limit as int).1
    }

    /// A search with no file taken yet; without a limit it takes every match.
    pub fn new(filter: SearchFilter, limit: Option<usize>) -> (s: LogSearch)
        ensures
            s.taken_files() == Seq::<Seq<EntryView>>::empty(),
            s.search_filter() == filter@,
            s.result_limit() == match limit {
                Some(n) => n,
                None => usize::MAX,
            },
    {
        let limit = match limit {
            Some(n) => n,
            None => usize::MAX,
        };
        let matches: Vec<HistoryEntry> = Vec::new();
        assert(entry_seq_views(matches@) == Seq::<EntryView>::empty());
        let ghost none = Seq::<Seq<EntryView>>::empty();
        LogSearch { filter, limit, matches, done: false, found: Ghost(none) }
    }

    /// Whether the search has stopped: later files add nothing.
    pub fn is_done(&self) -> (b: bool)
        ensures
            b == collect_run(self.taken_files(), self.result_limit() as int).1,
    {
        proof {
            use_type_invariant(self);
        }
        self.done
    }

    /// Takes the log file at `path` with text `content`: its matches, newest
    /// first, are added until the limit is reached.
    pub fn take_file(self, path: &str, content: &str) -> (s: LogSearch)
        ensures
            s.taken_files() == self.taken_files().push(
                file_matches_spec(path@, content@, self.search_filter()),
            ),
            s.search_filter() == self.search_filter(),
            s.result_limit() == self.result_limit(),
    {
        proof {
            use_type_invariant(&self);
        }
        let LogSearch { filter, limit, mut matches, done, found } = self;
        let ghost files = found@.push(file_matches_spec(path@, content@, filter@));
        assert(files.drop_last() =~= found@);
        if done {
            return LogSearch { filter, limit, matches, done, found: Ghost(files) };
        }
        let more = file_matches(path, content, &filter);
        let stop = collect_matches(&mut matches, more, limit);
        LogSearch { filter, limit, matches, done: stop, found: Ghost(files) }
    }

    /// The entries the search holds, newest first.
    pub fn into_entries(self) -> (entries: Vec<HistoryEntry>)
        ensures
            entry_seq_views(entries@) == collect_run(
                self.taken_files(),
                self.result_limit() as int,
            ).0,
    {
        proof {
            use_type_invariant(&self);
        }
        self.matches
    }
}

/// The filter that a search applies: the query as given, the folder taken
/// relative to `current_dir`, and case folding when the arguments or the
/// environment ask for it.
pub fn search_filter(args: &SearchArgs, current_dir: &str, ignore_case_env: bool) -> (f: SearchFilter)
    ensures
        f@.query == opt_view(args.query),
        f@.folder == match args.folder {
            Some(d) => Some(resolved_folder(current_dir@, d@)),
            None => None,
        },
        f.ignore_case == (args.ignore_case || ignore_case_env),
{
    let query = match &args.query {
        Some(q) => Some(q.clone()),
        None => None,
    };
    let folder = match &args.folder {
        Some(d) => Some(resolve_folder(current_dir, d.as_str())),
        None => None,
    };
    SearchFilter { query, folder, ignore_case: args.ignore_case || ignore_case_env }
}

/// `base` joined with the relative path `rel`.
pub open spec fn path_join(base: Seq<char>, rel: Seq<char>) -> Seq<char> {
    if base.len() == 0 {
        rel
    } else if base.last() == '/' {
        base + rel
    } else {
        base + seq!['/'] + rel
    }
}

/// The directory that `folder` names when given in `current_dir`: an
/// absolute path as it is, any other taken relative to `current_dir`, and
/// the result in its normal form (see [`normalized`]).
pub open spec fn resolved_folder(current_dir: Seq<char>, folder: Seq<char>) -> Seq<char> {
    if is_absolute(folder) {
        normalized(folder)
    } else {
        normalized(path_join(current_dir, folder))
    }
}

/// The directory that `folder` names when given in `current_dir`.
pub fn resolve_folder(current_dir: &str, folder: &str) -> (dir: String)
    ensures
        dir@ == resolved_folder(current_dir@, folder@),
{
    let f = chars_of(folder);
    if f.len() > 0 && f[0] == SEPARATOR {
        return normalize_path(folder);
    }
    let base = chars_of(current_dir);
    let mut joined = String::new();
    push_str(&mut joined, current_dir);
    if base.len() > 0 && base[base.len() - 1] != SEPARATOR {
        push_char(&mut joined, SEPARATOR);
        assert(base@.last() != '/');
    }
    push_str(&mut joined, folder);
    assert(joined@ =~= path_join(current_dir@, folder@));
    normalize_path(joined.as_str())
}

/// Refuses what the search does not support yet: date filtering.
pub fn check_search_support(args: &SearchArgs) -> (r: Result<(), String>)
    ensures
        r is Err <==> (args.today || args.since_days is Some),
        r matches Err(msg) ==> msg@ == "date filtering and json output are not implemented yet"@,
{
    if args.today || args.since_days.is_some() {
        return Err("date filtering and json output are not implemented yet".to_owned());
    }
    Ok(())
}


/// `a` comes before or equals `b` in character order.
pub open spec fn lex_le(a: Seq<char>, b: Seq<char>) -> bool
    decreases a.len(),
{
    if a.len() == 0 {
        true
    } else if b.len() == 0 {
        false
    } else if (a[0] as u32) != (b[0] as u32) {
        (a[0] as u32) < (b[0] as u32)
    } else {
        lex_le(a.drop_first(), b.drop_first())
    }
}

proof fn lemma_lex_total(a: Seq<char>, b: Seq<char>)
    ensures
        lex_le(a, b) || lex_le(b, a),
    decreases a.len(),
{
    if a.len() > 0 && b.len() > 0 && (a[0] as u32) == (b[0] as u32) {
        lemma_lex_total(a.drop_first(), b.drop_first());
    }
}

proof fn lemma_lex_transitive(a: Seq<char>, b: Seq<char>, c: Seq<char>)
    requires
        lex_le(a, b),
        lex_le(b, c),
    ensures
        lex_le(a, c),
    decreases a.len(),
{
    if a.len() > 0 && b.len() > 0 && c.len() > 0 && (a[0] as u32) == (b[0] as u32) && (b[0] as u32)
        == (c[0] as u32) {
        lemma_lex_transitive(a.drop_first(), b.drop_first(), c.drop_first());
    }
}

/// Whether `a` comes before or equals `b` in character order.
fn lex_le_chars(a: &Vec<char>, b: &Vec<char>) -> (r: bool)
    ensures
        r == lex_le(a@, b@),
{
    let mut i: usize = 0;
    assert(a@.skip(0) == a@);
    assert(b@.skip(0) == b@);
    loop
        invariant
            i <= a@.len(),
            i <= b@.len(),
            lex_le(a@, b@) == lex_le(a@.skip(i as int), b@.skip(i as int)),
        decreases a@.len() - i,
    {
        if i == a.len() {
            return true;
        }
        if i == b.len() {
            return false;
        }
        if (a[i] as u32) != (b[i] as u32) {
            return (a[i] as u32) < (b[i] as u32);
        }
        assert(a@.skip(i as int).drop_first() == a@.skip(i + 1));
        assert(b@.skip(i as int).drop_first() == b@.skip(i + 1));
        i += 1;
    }
}

/// The views of a sequence of strings.
pub open spec fn string_views(v: Seq<String>) -> Seq<Seq<char>> {
    v.map_values(|s: String| s@)
}

/// Each name comes after or equals every name after it.
pub open spec fn newest_first_order(names: Seq<Seq<char>>) -> bool {
    forall|i: int, j: int| 0 <= i < j < names.len() ==> lex_le(names[j], names[i])
}

/// The names in descending character order, so that dated log files come
/// newest first.
pub fn newest_first(names: Vec<String>) -> (sorted: Vec<String>)
    ensures
        string_views(sorted@).to_multiset() == string_views(names@).to_multiset(),
        newest_first_order(string_views(sorted@)),
{
    broadcast use vstd::seq_lib::group_to_multiset_ensures, vstd::multiset::group_multiset_axioms;

    let ghost all = string_views(names@);
    let mut rest = names;
    let mut sorted: Vec<String> = Vec::new();
    assert(all == string_views(rest@));
    assert(string_views(sorted@).to_multiset() =~= vstd::multiset::Multiset::empty()) by {
        assert(string_views(sorted@) == Seq::<Seq<char>>::empty());
        assert forall|x: Seq<char>| string_views(sorted@).to_multiset().count(x) == 0 by {
            assert(!string_views(sorted@).contains(x));
        }
    }
    assert(all.to_multiset() =~= string_views(rest@).to_multiset().add(
        string_views(sorted@).to_multiset(),
    ));
    while rest.len() > 0
        invariant
            all.to_multiset() == string_views(rest@).to_multiset().add(
                string_views(sorted@).to_multiset(),
            ),
            newest_first_order(string_views(sorted@)),
        decreases rest.len(),
    {
        let ghost before_rest = rest@;
        let name = rest.pop().unwrap();
        assert(string_views(before_rest) == string_views(rest@).push(name@));
        let key = chars_of(name.as_str());
        let mut p: usize = 0;
        while p < sorted.len()
            invariant
                p <= sorted@.len(),
                key@ == name@,
                forall|k: int| 0 <= k < p ==> !lex_le(#[trigger] sorted@[k]@, name@),
            ensures
                p <= sorted@.len(),
                forall|k: int| 0 <= k < p ==> !lex_le(#[trigger] sorted@[k]@, name@),
                p < sorted@.len() ==> lex_le(sorted@[p as int]@, name@),
            decreases sorted.len() - p,
        {
            let other = chars_of(sorted[p].as_str());
            if lex_le_chars(&other, &key) {
                break;
            }
            p += 1;
        }
        let ghost sv = string_views(sorted@);
        proof {
            assert forall|k: int| p <= k < sv.len() implies lex_le(#[trigger] sv[k], name@) by {
                if p < sv.len() {
                    assert(sv[p as int] == sorted@[p as int]@);
                    assert(lex_le(sv[p as int], name@));
                    if k > p {
                        lemma_lex_transitive(sv[k], sv[p as int], name@);
                    }
                }
            }
            assert forall|k: int| 0 <= k < p implies lex_le(name@, #[trigger] sv[k]) by {
                assert(sv[k] == sorted@[k]@);
                lemma_lex_total(sv[k], name@);
            }
        }
        sorted.insert(p, name);
        assert(string_views(sorted@) == sv.insert(p as int, name@));
        proof {
            vstd::seq_lib::to_multiset_insert(sv, p as int, name@);
            vstd::seq_lib::to_multiset_build(string_views(rest@), name@);
        }
        assert(string_views(sorted@).to_multiset() == sv.to_multiset().insert(name@));
        assert(string_views(before_rest).to_multiset() == string_views(rest@).to_multiset().insert(
            name@,
        ));
        assert(all.to_multiset() =~= string_views(rest@).to_multiset().add(
            string_views(sorted@).to_multiset(),
        ));
        proof {
            let nv = sv.insert(p as int, name@);
            assert forall|i: int, j: int| 0 <= i < j < nv.len() implies lex_le(nv[j], nv[i]) by {
                if i < p && j < p {
                } else if i < p && j == p {
                } else if i < p && j > p {
                    assert(nv[j] == sv[j - 1]);
                    lemma_lex_transitive(nv[j], name@, nv[i]);
                } else if i == p {
                    assert(nv[j] == sv[j - 1]);
                } else {
                    assert(nv[j] == sv[j - 1]);
                    assert(nv[i] == sv[i - 1]);
                }
            }
            broadcast use vstd::multiset::group_multiset_properties;
        }
    }
    assert(string_views(rest@) == Seq::<Seq<char>>::empty());
    assert(string_views(rest@).to_multiset() =~= vstd::multiset::Multiset::empty()) by {
        assert forall|x: Seq<char>| string_views(rest@).to_multiset().count(x) == 0 by {
            assert(!string_views(rest@).contains(x));
        }
    }
    assert(all.to_multiset() =~= string_views(sorted@).to_multiset());
    sorted
}

/// Whether `name` is a daily log file name: the log prefix and suffix around it.
pub fn is_log_file_name(name: &str) -> (b: bool)
    ensures
        b == (starts_with(name@, crate::record::LOG_FILE_PREFIX@) && ends_with(
            name@,
            crate::record::LOG_FILE_SUFFIX@,
        )),
{
    let cs = chars_of(name);
    chars_start_with(&cs, crate::record::LOG_FILE_PREFIX) && chars_end_with(
        &cs,
        crate::record::LOG_FILE_SUFFIX,
    )
}

/// `s` ends with `p`.
pub open spec fn ends_with(s: Seq<char>, p: Seq<char>) -> bool {
    p.len() <= s.len() && s.skip(s.len() - p.len()) == p
}

/// Whether `cs` ends with the characters of `p`.
fn chars_end_with(cs: &Vec<char>, p: &str) -> (b: bool)
    ensures
        b == ends_with(cs@, p@),
{
    let ps = chars_of(p);
    if ps.len() > cs.len() {
        return false;
    }
    let n = cs.len();
    let off = n - ps.len();
    let mut i: usize = 0;
    while i < ps.len()
        invariant
            n == cs@.len(),
            ps@ == p@,
            off + ps@.len() == cs@.len(),
            i <= ps@.len(),
            forall|j: int| 0 <= j < i ==> cs@[off + j] == ps@[j],
        decreases ps.len() - i,
    {
        if cs[off + i] != ps[i] {
            assert(cs@.skip(off as int)[i as int] != ps@[i as int]);
            return false;
        }
        i += 1;
    }
    assert(cs@.skip(off as int) == ps@);
    true
}


/// The text of a log file that holds one record line per record, in order.
pub open spec fn log_text(records: Seq<(Seq<char>, Seq<char>, Seq<char>)>) -> Seq<char>
    decreases records.len(),
{
    if records.len() == 0 {
        seq![]
    } else {
        let r = records.last();
        log_text(records.drop_last()) + record_line(r.0, r.1, r.2) + seq!['\n']
    }
}

/// The record lines of the records.
pub open spec fn record_lines(records: Seq<(Seq<char>, Seq<char>, Seq<char>)>) -> Seq<Seq<char>> {
    records.map_values(|r: (Seq<char>, Seq<char>, Seq<char>)| record_line(r.0, r.1, r.2))
}

/// The entry that record `i` of a log file reads back as.
pub open spec fn recorded_entry(
    records: Seq<(Seq<char>, Seq<char>, Seq<char>)>,
    path: Seq<char>,
    i: int,
) -> EntryView {
    EntryView {
        timestamp: records[i].0,
        cwd: records[i].1,
        command: records[i].2,
        file: path,
        line_number: (i + 1) as usize,
    }
}

/// The entries of the first `n` records that pass the filter, oldest first.
pub open spec fn kept(
    records: Seq<(Seq<char>, Seq<char>, Seq<char>)>,
    path: Seq<char>,
    f: FilterView,
    n: int,
) -> Seq<EntryView>
    decreases n,
{
    if n <= 0 {
        seq![]
    } else {
        let prev = kept(records, path, f, n - 1);
        let e = recorded_entry(records, path, n - 1);
        if entry_matches(e, f) {
            prev.push(e)
        } else {
            prev
        }
    }
}

/// A record whose line reads back: no field is empty, the command does not
/// end in a carriage return (which reading by lines would drop), and the line
/// is not all whitespace (which a search skips).
pub open spec fn readable_record(r: (Seq<char>, Seq<char>, Seq<char>)) -> bool {
    &&& r.0.len() > 0
    &&& r.1.len() > 0
    &&& r.2.len() > 0
    &&& r.2.last() != '\r'
    &&& !is_blank(record_line(r.0, r.1, r.2))
}

proof fn lemma_escaped_last(s: Seq<char>)
    requires
        s.len() > 0,
    ensures
        escaped(s) == escaped(s.drop_last()) + escape_char(s.last()),
    decreases s.len(),
{
    if s.len() == 1 {
        assert(s.drop_last() == Seq::<char>::empty());
        assert(s.drop_first() == Seq::<char>::empty());
        assert(escaped(s.drop_first()) == Seq::<char>::empty());
        assert(escaped(s) =~= escape_char(s[0]));
        assert(escaped(s.drop_last()) == Seq::<char>::empty());
        assert(s.last() == s[0]);
        assert(escaped(s.drop_last()) + escape_char(s.last()) =~= escape_char(s[0]));
    } else {
        lemma_escaped_last(s.drop_first());
        assert(s.drop_first().drop_last() == s.drop_last().drop_first());
        assert(s.drop_first().last() == s.last());
        assert(escaped(s.drop_last()) == escape_char(s[0]) + escaped(s.drop_last().drop_first()));
    }
}

/// A record line holds no newline, whatever its fields hold.
proof fn lemma_record_line_has_no_newline(r: (Seq<char>, Seq<char>, Seq<char>))
    ensures
        forall|i: int|
            0 <= i < record_line(r.0, r.1, r.2).len() ==> #[trigger] record_line(r.0, r.1, r.2)[i]
                != '\n',
{
    let line = record_line(r.0, r.1, r.2);
    lemma_escaped_has_no_tab_or_newline(r.0);
    lemma_escaped_has_no_tab_or_newline(r.1);
    lemma_escaped_has_no_tab_or_newline(r.2);
    let a = escaped(r.0);
    let b = escaped(r.1);
    let c = escaped(r.2);
    assert forall|i: int| 0 <= i < line.len() implies #[trigger] line[i] != '\n' by {
        if i < a.len() {
            assert(line[i] == a[i]);
        } else if i == a.len() {
        } else if i < a.len() + 1 + b.len() {
            assert(line[i] == b[i - a.len() - 1]);
        } else if i == a.len() + 1 + b.len() {
        } else {
            assert(line[i] == c[i - a.len() - 2 - b.len()]);
        }
    }
}

proof fn lemma_record_line_shape(r: (Seq<char>, Seq<char>, Seq<char>))
    requires
        r.2.len() > 0,
        r.2.last() != '\r',
    ensures
        strip_cr(record_line(r.0, r.1, r.2)) == record_line(r.0, r.1, r.2),
{
    let line = record_line(r.0, r.1, r.2);
    let c = escaped(r.2);
    lemma_escaped_last(r.2);
    let tail = escape_char(r.2.last());
    assert(c.last() == tail.last());
    assert(line.last() == c.last());
}

proof fn lemma_log_text_fields(records: Seq<(Seq<char>, Seq<char>, Seq<char>)>)
    ensures
        split_fields(log_text(records), '\n') == record_lines(records).push(seq![]),
    decreases records.len(),
{
    if records.len() > 0 {
        let prev = records.drop_last();
        lemma_log_text_fields(prev);
        let r = records.last();
        lemma_record_line_has_no_newline(r);
        let line = record_line(r.0, r.1, r.2);
        lemma_split_without_delimiter(line, '\n');
        let x = log_text(prev);
        let with_line = x + line;
        if prev.len() == 0 {
            assert(x == Seq::<char>::empty());
            assert(with_line == line);
        } else {
            let a = x.drop_last();
            lemma_split_fields_nonempty(a, '\n');
            assert(x == a + seq!['\n']);
            assert(x.drop_last() == a);
            assert(split_fields(x, '\n') == split_fields(a, '\n').push(seq![]));
            assert(split_fields(a, '\n') == split_fields(x, '\n').drop_last());
            assert(record_lines(prev) == record_lines(prev).push(seq![]).drop_last());
            assert(split_fields(a, '\n') == record_lines(prev));
            assert(with_line == a + seq!['\n'] + line);
            lemma_split_concat(a, line, '\n');
        }
        assert(split_fields(with_line, '\n') == record_lines(prev).push(line));
        assert(record_lines(records) == record_lines(prev).push(line));
        assert(log_text(records) == with_line + seq!['\n']);
        assert((with_line + seq!['\n']).drop_last() == with_line);
    } else {
        assert(log_text(records) == Seq::<char>::empty());
        assert(record_lines(records) == Seq::<Seq<char>>::empty());
    }
}

proof fn lemma_log_text_lines(records: Seq<(Seq<char>, Seq<char>, Seq<char>)>)
    requires
        forall|i: int| 0 <= i < records.len() ==> #[trigger] readable_record(records[i]),
    ensures
        text_lines(log_text(records)) == record_lines(records),
{
    lemma_log_text_fields(records);
    let lines = record_lines(records);
    let parts = lines.push(seq![]);
    assert(parts.take(parts.len() - 1) == lines);
    assert forall|i: int| 0 <= i < lines.len() implies #[trigger] strip_cr(lines[i]) == lines[i] by {
        assert(readable_record(records[i]));
        lemma_record_line_shape(records[i]);
    }
    assert(lines.map_values(|p: Seq<char>| strip_cr(p)) == lines);
}

proof fn lemma_kept_lines(
    records: Seq<(Seq<char>, Seq<char>, Seq<char>)>,
    path: Seq<char>,
    f: FilterView,
    n: int,
)
    requires
        forall|i: int| 0 <= i < records.len() ==> #[trigger] readable_record(records[i]),
        records.len() <= usize::MAX,
        0 <= n <= records.len(),
    ensures
        matches_upto(path, record_lines(records), n, f) == kept(records, path, f, n),
    decreases n,
{
    if n > 0 {
        lemma_kept_lines(records, path, f, n - 1);
        let r = records[n - 1];
        assert(readable_record(r));
        let line = record_lines(records)[n - 1];
        assert(line == record_line(r.0, r.1, r.2));
        lemma_trim_empty_iff_blank(line);
        lemma_record_line_round_trip(r.0, r.1, r.2, path, n as usize);
        assert(line_match(path, record_lines(records), n - 1, f) == (if entry_matches(
            recorded_entry(records, path, n - 1),
            f,
        ) {
            Some(recorded_entry(records, path, n - 1))
        } else {
            None
        }));
    }
}

/// What record writes, a search reads back: in a log file made of record
/// lines, the entries a search finds are exactly the recorded ones that pass
/// the filter, each with its line number, newest first.
pub proof fn lemma_log_reads_back(
    records: Seq<(Seq<char>, Seq<char>, Seq<char>)>,
    path: Seq<char>,
    f: FilterView,
)
    requires
        forall|i: int| 0 <= i < records.len() ==> #[trigger] readable_record(records[i]),
        records.len() <= usize::MAX,
    ensures
        file_matches_spec(path, log_text(records), f) == kept(
            records,
            path,
            f,
            records.len() as int,
        ).reverse(),
{
    lemma_log_text_lines(records);
    lemma_kept_lines(records, path, f, records.len() as int);
}


/// A log of one record line gives at most one entry to a search.
proof fn lemma_one_record_at_most_one_entry(
    r: (Seq<char>, Seq<char>, Seq<char>),
    path: Seq<char>,
    f: FilterView,
)
    ensures
        file_matches_spec(path, log_text(seq![r]), f).len() <= 1,
{
    let records = seq![r];
    lemma_log_text_fields(records);
    let line = record_line(r.0, r.1, r.2);
    assert(record_lines(records) == seq![line]);
    let parts = seq![line, Seq::<char>::empty()];
    assert(split_fields(log_text(records), '\n') == parts);
    assert(parts.take(1) == seq![line]);
    let lines = text_lines(log_text(records));
    assert(lines.len() == 1);
    assert(matches_upto(path, lines, 0, f) == Seq::<EntryView>::empty());
    assert(matches_upto(path, lines, 1, f).len() <= 1);
}

/// The record line of a planned record is not all whitespace: its timestamp
/// ends in a digit.
proof fn lemma_planned_line_not_blank(now: CivilTime, cwd: Seq<char>, command: Seq<char>)
    ensures
        !is_blank(record_line(timestamp_text(now), cwd, command)),
{
    reveal_strlit("+00:00");
    let ts = timestamp_text(now);
    assert(ts.last() == '0');
    lemma_escaped_last(ts);
    let e = escaped(ts);
    assert(escape_char('0') == seq!['0']);
    assert(e.last() == '0');
    let line = record_line(ts, cwd, command);
    assert(line[e.len() - 1] == e[e.len() - 1]);
    assert(!is_white_space(line[e.len() - 1]));
}

/// Recording a command twice with the same history id, into a log that has
/// no line yet, leaves a single record line: the first run appends its line
/// and stores the id, the second appends and stores nothing, and a search of
/// the log finds at most one entry; when the command does not end in a
/// carriage return (which reading by lines drops), it finds exactly the
/// recorded entry, with the first run's time, if it passes the filter.
pub proof fn lemma_repeated_record_reads_back_once(
    args: RecordView,
    first: CivilTime,
    second: CivilTime,
    path: Seq<char>,
    f: FilterView,
)
    requires
        plan_spec(args, first) is Ok,
        args.history_id is Some,
    ensures
        ({
            let plan1 = plan_spec(args, first)->Ok_0;
            let plan2 = plan_spec(args, second)->Ok_0;
            let run1 = step_spec(None, plan1.1, plan1.2);
            let run2 = step_spec(run1.1, plan2.1, plan2.2);
            let log = plan1.1.push('\n');
            let e = EntryView {
                timestamp: timestamp_text(first),
                cwd: args.cwd->0,
                command: args.command->0,
                file: path,
                line_number: 1,
            };
            &&& plan_spec(args, second) is Ok
            &&& run1.0 == Some(log)
            &&& run2 == (None::<Seq<char>>, None::<Seq<char>>)
            &&& file_matches_spec(path, log, f).len() <= 1
            &&& args.command->0.last() != '\r' ==> file_matches_spec(path, log, f) == if entry_matches(
                e,
                f,
            ) {
                seq![e]
            } else {
                Seq::<EntryView>::empty()
            }
        }),
{
    let id = args.history_id->0;
    let plan1 = plan_spec(args, first)->Ok_0;
    let ts = timestamp_text(first);
    let cwd = args.cwd->0;
    let command = args.command->0;
    let r = (ts, cwd, command);
    assert(plan1.1 == record_line(ts, cwd, command));
    let records = seq![r];
    assert(log_text(records.drop_last()) == Seq::<char>::empty());
    assert(log_text(records) == plan1.1.push('\n'));
    lemma_repeated_id_appends_once(None, plan1.1, plan_spec(args, second)->Ok_0.1, id);
    lemma_one_record_at_most_one_entry(r, path, f);
    if command.last() != '\r' {
        reveal_strlit("+00:00");
        assert(ts.len() > 0);
        lemma_planned_line_not_blank(first, cwd, command);
        assert(readable_record(records[0]));
        lemma_log_reads_back(records, path, f);
        assert(recorded_entry(records, path, 0) == EntryView {
            timestamp: ts,
            cwd,
            command,
            file: path,
            line_number: 1,
        });
        assert(kept(records, path, f, 0) == Seq::<EntryView>::empty());
        let k = kept(records, path, f, 1);
        assert(k.len() <= 1);
        assert(k.reverse() == k);
    }
}

/// The three fields of each entry.
pub open spec fn entry_fields(es: Seq<EntryView>) -> Seq<(Seq<char>, Seq<char>, Seq<char>)> {
    es.map_values(|e: EntryView| (e.timestamp, e.cwd, e.command))
}

proof fn lemma_rendered_is_log_text(es: Seq<EntryView>)
    ensures
        rendered_lines(es) == log_text(entry_fields(es)),
    decreases es.len(),
{
    if es.len() > 0 {
        lemma_rendered_is_log_text(es.drop_last());
        assert(entry_fields(es).drop_last() == entry_fields(es.drop_last()));
    } else {
        assert(entry_fields(es) == Seq::<(Seq<char>, Seq<char>, Seq<char>)>::empty());
    }
}

/// Rendered search results hold one line per entry, for any entries: the
/// output of `render_entries` holds exactly one newline per entry, splits at
/// its newlines into each entry's record line, in order, followed by nothing,
/// and read by lines gives one line per entry.
pub proof fn lemma_one_line_per_entry(es: Seq<EntryView>)
    ensures
        split_fields(rendered_lines(es), '\n') == record_lines(entry_fields(es)).push(seq![]),
        occurrences(rendered_lines(es), '\n') == es.len(),
        text_lines(rendered_lines(es)) == record_lines(entry_fields(es)).map_values(
            |l: Seq<char>| strip_cr(l),
        ),
        text_lines(rendered_lines(es)).len() == es.len(),
{
    lemma_rendered_is_log_text(es);
    let records = entry_fields(es);
    lemma_log_text_fields(records);
    lemma_split_fields_len(rendered_lines(es), '\n');
    let parts = record_lines(records).push(seq![]);
    assert(parts.take(parts.len() - 1) == record_lines(records));
}

/// Rendered search results hold one line per entry: read by lines, the
/// output of `render_entries` gives back each entry's record line, in order,
/// when every entry's line reads back (see [`readable_record`]).
pub proof fn lemma_rendered_lines_are_record_lines(es: Seq<EntryView>)
    requires
        forall|i: int|
            0 <= i < es.len() ==> #[trigger] readable_record(
                (es[i].timestamp, es[i].cwd, es[i].command),
            ),
    ensures
        text_lines(rendered_lines(es)) == record_lines(entry_fields(es)),
        text_lines(rendered_lines(es)).len() == es.len(),
{
    lemma_rendered_is_log_text(es);
    let records = entry_fields(es);
    assert forall|i: int| 0 <= i < records.len() implies #[trigger] readable_record(records[i]) by {
        assert(records[i] == (es[i].timestamp, es[i].cwd, es[i].command));
    }
    lemma_log_text_lines(records);
}

/// Whether the `HY_IGNORE_CASE` setting asks for case-insensitive search:
/// set, not empty and not `0`.
pub fn ignore_case_setting(value: Option<&str>) -> (on: bool)
    ensures
        on == match value {
            Some(v) => v@.len() > 0 && v@ != "0"@,
            None => false,
        },
{
    match value {
        Some(v) => {
            let cs = chars_of(v);
            cs.len() > 0 && !chars_equal(&cs, "0")
        },
        None => false,
    }
}

/// A search that starts under its limit never holds more than the limit,
/// and takes everything it finds while there is room.
pub proof fn lemma_limit_caps_results(held: int, found: int, limit: int)
    requires
        0 <= held < limit,
        found >= 0,
    ensures
        held + taken_count(held, found, limit) <= limit,
        held + found < limit ==> taken_count(held, found, limit) == found,
        taken_count(held, found, limit) <= found,
{
}


/// The query part of a filter reads the command alone: with no folder, two
/// entries with the same command pass or fail together, whatever their
/// directories, files, lines and times.
pub proof fn lemma_query_reads_only_the_command(e1: EntryView, e2: EntryView, f: FilterView)
    requires
        e1.command == e2.command,
        f.folder is None,
    ensures
        entry_matches(e1, f) == entry_matches(e2, f),
{
}

/// A filter is its query on the command and its folder on the working
/// directory, each on its own: an entry passes when it passes the filter
/// without the folder and, when a folder is given, its directory lies within
/// that folder.
pub proof fn lemma_filter_parts(e: EntryView, f: FilterView)
    ensures
        entry_matches(e, f) == (entry_matches(
            e,
            FilterView { query: f.query, folder: None, ignore_case: f.ignore_case },
        ) && match f.folder {
            Some(d) => path_within(e.cwd, d),
            None => true,
        }),
{
}

/// Every character of `q`, placed at position `i` of `s`, equals the
/// character of `s` there, both with ASCII letters made lower case.
pub open spec fn folded_equal_at(s: Seq<char>, q: Seq<char>, i: int) -> bool {
    forall|j: int| 0 <= j < q.len() ==> #[trigger] ascii_lower(s[i + j]) == ascii_lower(q[j])
}

/// A query matches by substring of the command: without case folding, an
/// entry passes a filter with query `q` and no folder exactly when `q`
/// occurs in its command at some position; with case folding, exactly when
/// at some position every character of `q` equals the command's character
/// there, both with ASCII letters made lower case.
pub proof fn lemma_query_is_substring(e: EntryView, q: Seq<char>, ignore_case: bool)
    ensures
        !ignore_case ==> (entry_matches(
            e,
            FilterView { query: Some(q), folder: None, ignore_case },
        ) <==> exists|i: int|
            0 <= i <= e.command.len() - q.len() && #[trigger] e.command.subrange(i, i + q.len())
                == q),
        ignore_case ==> (entry_matches(
            e,
            FilterView { query: Some(q), folder: None, ignore_case },
        ) <==> exists|i: int|
            0 <= i <= e.command.len() - q.len() && #[trigger] folded_equal_at(e.command, q, i)),
{
    if ignore_case {
        let c = e.command;
        let lc = lowered(c);
        let lq = lowered(q);
        let f = FilterView { query: Some(q), folder: None, ignore_case };
        if entry_matches(e, f) {
            let i = choose|i: int| 0 <= i <= lc.len() - lq.len() && #[trigger] lc.subrange(i, i + lq.len()) == lq;
            assert forall|j: int| 0 <= j < q.len() implies #[trigger] ascii_lower(c[i + j]) == ascii_lower(q[j]) by {
                assert(lc.subrange(i, i + lq.len())[j] == lc[i + j]);
            }
            assert(folded_equal_at(c, q, i));
        }
        if exists|i: int| 0 <= i <= c.len() - q.len() && #[trigger] folded_equal_at(c, q, i) {
            let i = choose|i: int| 0 <= i <= c.len() - q.len() && #[trigger] folded_equal_at(c, q, i);
            assert(lq.len() == q.len() && lc.len() == c.len());
            assert forall|j: int| 0 <= j < lq.len() implies lc.subrange(i, i + lq.len())[j] == lq[j] by {
                assert(folded_equal_at(c, q, i));
                assert(ascii_lower(c[i + j]) == ascii_lower(q[j]));
                assert(lc[i + j] == ascii_lower(c[i + j]));
                assert(lq[j] == ascii_lower(q[j]));
            }
            assert(lc.subrange(i, i + lq.len()) =~= lq);
            assert(contains_seq(lc, lq));
        }
    }
}

} // verus!
