use vstd::prelude::*;

use crate::record::{opt_view, RecordArgs, RecordView};
use crate::search::{SearchArgs, SearchView};
use crate::shell::{InitArgs, InstallArgs, ShellKind};
use crate::text::{chars_equal, chars_of, chars_start_with, push_str, starts_with};

verus! {

/// What the command line asks for.
#[derive(Debug, Clone, PartialEq, Eq)]
pub enum Command {
    Help,
    Search(SearchArgs),
    Record(RecordArgs),
    Init(InitArgs),
    Install(InstallArgs),
}

/// The mathematical content of a [`Command`].
pub enum CommandView {
    Help,
    Search(SearchView),
    Record(RecordView),
    Init(ShellKind),
    Install(ShellKind),
}

impl View for Command {
    type V = CommandView;

    open spec fn view(&self) -> CommandView {
        match self {
            Command::Help => CommandView::Help,
            Command::Search(a) => CommandView::Search(a@),
            Command::Record(a) => CommandView::Record(a@),
            Command::Init(a) => CommandView::Init(a.shell),
            Command::Install(a) => CommandView::Install(a.shell),
        }
    }
}

/// The view of a parse result.
pub open spec fn command_result_view(r: Result<Command, String>) -> Result<CommandView, Seq<char>> {
    match r {
        Ok(c) => Ok(c@),
        Err(msg) => Err(msg@),
    }
}

/// The texts of the arguments.
pub open spec fn words(args: Seq<&str>) -> Seq<Seq<char>> {
    args.map_values(|a: &str| a@)
}

/// Whether `c` is one of the ASCII digits.
pub open spec fn is_digit_char(c: char) -> bool {
    '0' <= c <= '9'
}

/// The value of a decimal digit.
pub open spec fn digit_value(c: char) -> int {
    (c as u32) - 0x30
}

/// The number that a run of decimal digits writes.
pub open spec fn decimal_value(s: Seq<char>) -> int
    decreases s.len(),
{
    if s.len() == 0 {
        0
    } else {
        decimal_value(s.drop_last()) * 10 + digit_value(s.last())
    }
}

/// Every character of `s` is a decimal digit.
pub open spec fn all_digits(s: Seq<char>) -> bool {
    forall|i: int| 0 <= i < s.len() ==> is_digit_char(#[trigger] s[i])
}

/// `s` without a leading `+`.
pub open spec fn unsigned_digits(s: Seq<char>) -> Seq<char> {
    if s.len() > 0 && s[0] == '+' {
        s.drop_first()
    } else {
        s
    }
}

/// The unsigned integer no larger than `max` that `s` writes, as
/// `str::parse` reads it: an optional `+`, then one or more decimal digits.
pub open spec fn parse_unsigned(s: Seq<char>, max: int) -> Option<int> {
    let digits = unsigned_digits(s);
    if digits.len() > 0 && all_digits(digits) && decimal_value(digits) <= max {
        Some(decimal_value(digits))
    } else {
        None
    }
}

/// The shell that `v` names.
pub open spec fn shell_kind_spec(v: Seq<char>) -> Result<ShellKind, Seq<char>> {
    if v == "bash"@ {
        Ok(ShellKind::Bash)
    } else if v == "zsh"@ {
        Ok(ShellKind::Zsh)
    } else {
        Err("unsupported shell: "@ + v)
    }
}

/// The single shell argument of `init` or `install`.
pub open spec fn single_shell_spec(command: Seq<char>, a: Seq<Seq<char>>) -> Result<
    ShellKind,
    Seq<char>,
> {
    if a.len() == 0 {
        Err(command + " requires a shell argument"@)
    } else if a.len() > 1 {
        Err(command + " accepts only one shell argument"@)
    } else {
        shell_kind_spec(a[0])
    }
}

/// The result of reading the record flags `a[i..]` on top of `st`.
pub open spec fn record_from(a: Seq<Seq<char>>, i: int, st: RecordView) -> Result<
    CommandView,
    Seq<char>,
>
    decreases a.len() - i,
{
    if i < 0 || i >= a.len() {
        Ok(CommandView::Record(st))
    } else {
        let w = a[i];
        if w == "--cwd"@ {
            if i + 1 >= a.len() {
                Err("--cwd requires a path"@)
            } else {
                record_from(
                    a,
                    i + 2,
                    RecordView {
                        cwd: Some(a[i + 1]),
                        command: st.command,
                        history_id: st.history_id,
                        shell: st.shell,
                    },
                )
            }
        } else if w == "--command"@ {
            if i + 1 >= a.len() {
                Err("--command requires a value"@)
            } else {
                record_from(
                    a,
                    i + 2,
                    RecordView {
                        cwd: st.cwd,
                        command: Some(a[i + 1]),
                        history_id: st.history_id,
                        shell: st.shell,
                    },
                )
            }
        } else if w == "--history-id"@ {
            if i + 1 >= a.len() {
                Err("--history-id requires a value"@)
            } else {
                record_from(
                    a,
                    i + 2,
                    RecordView {
                        cwd: st.cwd,
                        command: st.command,
                        history_id: Some(a[i + 1]),
                        shell: st.shell,
                    },
                )
            }
        } else if w == "--shell"@ {
            if i + 1 >= a.len() {
                Err("--shell requires a value"@)
            } else {
                match shell_kind_spec(a[i + 1]) {
                    Ok(k) => record_from(
                        a,
                        i + 2,
                        RecordView {
                            cwd: st.cwd,
                            command: st.command,
                            history_id: st.history_id,
                            shell: Some(k),
                        },
                    ),
                    Err(e) => Err(e),
                }
            }
        } else {
            Err("unknown record flag: "@ + w)
        }
    }
}

/// A search state with one field changed.
pub open spec fn with_query(st: SearchView, q: Option<Seq<char>>) -> SearchView {
    SearchView { query: q, ..st }
}

/// The result of reading the search arguments `a[i..]` on top of `st`.
pub open spec fn search_from(a: Seq<Seq<char>>, i: int, st: SearchView) -> Result<
    CommandView,
    Seq<char>,
>
    decreases a.len() - i,
{
    if i < 0 || i >= a.len() {
        Ok(CommandView::Search(st))
    } else {
        let w = a[i];
        if w == "--folder"@ {
            if i + 1 >= a.len() {
                Err("--folder requires a path"@)
            } else {
                search_from(a, i + 2, SearchView { folder: Some(a[i + 1]), ..st })
            }
        } else if w == "--today"@ {
            search_from(a, i + 1, SearchView { today: true, ..st })
        } else if w == "--since"@ {
            if i + 1 >= a.len() {
                Err("--since requires a number of days"@)
            } else {
                match parse_unsigned(a[i + 1], u32::MAX as int) {
                    Some(v) => search_from(a, i + 2, SearchView { since_days: Some(v as u32), ..st }),
                    None => Err("--since expects an integer"@),
                }
            }
        } else if w == "--limit"@ {
            if i + 1 >= a.len() {
                Err("--limit requires a number"@)
            } else {
                match parse_unsigned(a[i + 1], usize::MAX as int) {
                    Some(v) => search_from(a, i + 2, SearchView { limit: Some(v as usize), ..st }),
                    None => Err("--limit expects an integer"@),
                }
            }
        } else if w == "-i"@ || w == "--ignore-case"@ {
            search_from(a, i + 1, SearchView { ignore_case: true, ..st })
        } else if w == "--json"@ {
            search_from(a, i + 1, SearchView { json: true, ..st })
        } else if w == "-h"@ || w == "--help"@ {
            Ok(CommandView::Help)
        } else if starts_with(w, "--"@) {
            Err("unknown search flag: "@ + w)
        } else if st.query is None {
            search_from(a, i + 1, with_query(st, Some(w)))
        } else {
            Err("search accepts only one query argument"@)
        }
    }
}

/// A search with only a query, if any.
pub open spec fn initial_search(query: Option<Seq<char>>) -> SearchView {
    SearchView {
        query,
        folder: None,
        today: false,
        since_days: None,
        limit: None,
        json: false,
        ignore_case: false,
    }
}

/// A record with nothing given.
pub open spec fn initial_record() -> RecordView {
    RecordView { cwd: None, command: None, history_id: None, shell: None }
}

/// What `parse_args` gives for the argument texts `a` (`a[0]` is the program).
pub open spec fn args_spec(a: Seq<Seq<char>>) -> Result<CommandView, Seq<char>> {
    if a.len() < 2 {
        Ok(CommandView::Help)
    } else {
        let first = a[1];
        if first == "-h"@ || first == "--help"@ || first == "help"@ {
            Ok(CommandView::Help)
        } else if first == "record"@ {
            record_from(a.skip(2), 0, initial_record())
        } else if first == "init"@ {
            match single_shell_spec("init"@, a.skip(2)) {
                Ok(k) => Ok(CommandView::Init(k)),
                Err(e) => Err(e),
            }
        } else if first == "install"@ {
            match single_shell_spec("install"@, a.skip(2)) {
                Ok(k) => Ok(CommandView::Install(k)),
                Err(e) => Err(e),
            }
        } else if starts_with(first, "--"@) {
            search_from(a.skip(1), 0, initial_search(None))
        } else {
            search_from(a.skip(2), 0, initial_search(Some(first)))
        }
    }
}

/// `prefix` followed by `value`.
fn message_with(prefix: &str, value: &str) -> (m: String)
    ensures
        m@ == prefix@ + value@,
{
    let mut m = prefix.to_owned();
    push_str(&mut m, value);
    m
}

proof fn lemma_decimal_grows(s: Seq<char>, n: int)
    requires
        0 <= n <= s.len(),
        all_digits(s),
    ensures
        decimal_value(s.take(n)) <= decimal_value(s),
        decimal_value(s) >= 0,
    decreases s.len(),
{
    if s.len() > 0 {
        if n == s.len() {
            assert(s.take(n) == s);
            lemma_decimal_grows(s.drop_last(), n - 1);
        } else {
            assert(s.drop_last().take(n) == s.take(n));
            lemma_decimal_grows(s.drop_last(), n);
        }
    } else {
        assert(s.take(n) == s);
    }
}

/// The value of `cs` by [`parse_unsigned`] with bound `max`.
fn parse_unsigned_chars(cs: &Vec<char>, max: u64) -> (r: Option<u64>)
    ensures
        match r {
            Some(v) => parse_unsigned(cs@, max as int) == Some(v as int),
            None => parse_unsigned(cs@, max as int) is None,
        },
{
    let start: usize = if cs.len() > 0 && cs[0] == '+' {
        1
    } else {
        0
    };
    let ghost digits = cs@.skip(start as int);
    assert(digits == unsigned_digits(cs@));
    if start >= cs.len() {
        assert(digits.len() == 0);
        return None;
    }
    let mut acc: u128 = 0;
    let mut i: usize = start;
    assert(digits.take(0) == Seq::<char>::empty());
    while i < cs.len()
        invariant
            start <= i <= cs@.len(),
            digits == cs@.skip(start as int),
            digits == unsigned_digits(cs@),
            forall|k: int| 0 <= k < i - start ==> is_digit_char(digits[k]),
            acc as int == decimal_value(digits.take(i - start)),
            acc <= max,
        decreases cs.len() - i,
    {
        let c = cs[i];
        if !('0' <= c && c <= '9') {
            assert(digits[i - start] == c);
            assert(!is_digit_char(digits[i - start]));
            assert(!all_digits(digits));
            return None;
        }
        let d = (c as u32 - 0x30) as u128;
        assert(digits.take(i - start + 1).drop_last() == digits.take(i - start));
        acc = acc * 10 + d;
        i += 1;
        if acc > max as u128 {
            proof {
                if all_digits(digits) {
                    lemma_decimal_grows(digits, i - start);
                }
            }
            return None;
        }
    }
    assert(digits.take(i - start) == digits);
    Some(acc as u64)
}

/// Parses the arguments of a search; `query` is a query given before them.
fn parse_search(query: Option<String>, rest: &[&str]) -> (r: Result<Command, String>)
    ensures
        command_result_view(r) == search_from(words(rest@), 0, initial_search(opt_view(query))),
{
    let ghost a = words(rest@);
    let ghost init = initial_search(opt_view(query));
    let mut cur_query = query;
    let mut folder: Option<String> = None;
    let mut today = false;
    let mut since: Option<u32> = None;
    let mut limit: Option<usize> = None;
    let mut json = false;
    let mut ignore_case = false;
    let mut i: usize = 0;
    while i < rest.len()
        invariant
            init == initial_search(opt_view(query)),
            a == words(rest@),
            a.len() == rest@.len(),
            i <= rest@.len(),
            search_from(a, 0, init) == search_from(
                a,
                i as int,
                SearchView {
                    query: opt_view(cur_query),
                    folder: opt_view(folder),
                    today,
                    since_days: since,
                    limit,
                    json,
                    ignore_case,
                },
            ),
        decreases rest.len() - i,
    {
        let arg = rest[i];
        let w = chars_of(arg);
        assert(a[i as int] == w@);
        if chars_equal(&w, "--folder") {
            if i + 1 >= rest.len() {
                return Err("--folder requires a path".to_owned());
            }
            assert(a[i + 1] == rest@[i + 1]@);
            folder = Some(rest[i + 1].to_owned());
            i += 2;
        } else if chars_equal(&w, "--today") {
            today = true;
            i += 1;
        } else if chars_equal(&w, "--since") {
            if i + 1 >= rest.len() {
                return Err("--since requires a number of days".to_owned());
            }
            assert(a[i + 1] == rest@[i + 1]@);
            let v = chars_of(rest[i + 1]);
            match parse_unsigned_chars(&v, u32::MAX as u64) {
                Some(n) => {
                    since = Some(n as u32);
                },
                None => {
                    return Err("--since expects an integer".to_owned());
                },
            }
            i += 2;
        } else if chars_equal(&w, "--limit") {
            if i + 1 >= rest.len() {
                return Err("--limit requires a number".to_owned());
            }
            assert(a[i + 1] == rest@[i + 1]@);
            let v = chars_of(rest[i + 1]);
            match parse_unsigned_chars(&v, usize::MAX as u64) {
                Some(n) => {
                    limit = Some(n as usize);
                },
                None => {
                    return Err("--limit expects an integer".to_owned());
                },
            }
            i += 2;
        } else if chars_equal(&w, "-i") || chars_equal(&w, "--ignore-case") {
            ignore_case = true;
            i += 1;
        } else if chars_equal(&w, "--json") {
            json = true;
            i += 1;
        } else if chars_equal(&w, "-h") || chars_equal(&w, "--help") {
            return Ok(Command::Help);
        } else if chars_start_with(&w, "--") {
            return Err(message_with("unknown search flag: ", arg));
        } else {
            if cur_query.is_none() {
                cur_query = Some(arg.to_owned());
                i += 1;
            } else {
                return Err("search accepts only one query argument".to_owned());
            }
        }
    }
    Ok(
        Command::Search(
            SearchArgs {
                query: cur_query,
                folder,
                today,
                since_days: since,
                limit,
                json,
                ignore_case,
            },
        ),
    )
}

/// Parses the flags of `record`.
fn parse_record(args: &[&str]) -> (r: Result<Command, String>)
    ensures
        command_result_view(r) == record_from(words(args@), 0, initial_record()),
{
    let ghost a = words(args@);
    let mut cwd: Option<String> = None;
    let mut command: Option<String> = None;
    let mut history_id: Option<String> = None;
    let mut shell: Option<ShellKind> = None;
    let mut i: usize = 0;
    while i < args.len()
        invariant
            a == words(args@),
            a.len() == args@.len(),
            i <= args@.len(),
            record_from(a, 0, initial_record()) == record_from(
                a,
                i as int,
                RecordView {
                    cwd: opt_view(cwd),
                    command: opt_view(command),
                    history_id: opt_view(history_id),
                    shell,
                },
            ),
        decreases args.len() - i,
    {
        let arg = args[i];
        let w = chars_of(arg);
        assert(a[i as int] == w@);
        if chars_equal(&w, "--cwd") {
            if i + 1 >= args.len() {
                return Err("--cwd requires a path".to_owned());
            }
            assert(a[i + 1] == args@[i + 1]@);
            cwd = Some(args[i + 1].to_owned());
        } else if chars_equal(&w, "--command") {
            if i + 1 >= args.len() {
                return Err("--command requires a value".to_owned());
            }
            assert(a[i + 1] == args@[i + 1]@);
            command = Some(args[i + 1].to_owned());
        } else if chars_equal(&w, "--history-id") {
            if i + 1 >= args.len() {
                return Err("--history-id requires a value".to_owned());
            }
            assert(a[i + 1] == args@[i + 1]@);
            history_id = Some(args[i + 1].to_owned());
        } else if chars_equal(&w, "--shell") {
            if i + 1 >= args.len() {
                return Err("--shell requires a value".to_owned());
            }
            assert(a[i + 1] == args@[i + 1]@);
            shell = Some(parse_shell_kind(args[i + 1])?);
        } else {
            return Err(message_with("unknown record flag: ", arg));
        }
        i += 2;
    }
    Ok(Command::Record(RecordArgs { cwd, command, history_id, shell }))
}

/// Parses the arguments of `init`.
fn parse_init(args: &[&str]) -> (r: Result<Command, String>)
    ensures
        command_result_view(r) == match single_shell_spec("init"@, words(args@)) {
            Ok(k) => Ok(CommandView::Init(k)),
            Err(e) => Err(e),
        },
{
    let shell = parse_single_shell_arg("init", args)?;
    Ok(Command::Init(InitArgs { shell }))
}

/// Parses the arguments of `install`.
fn parse_install(args: &[&str]) -> (r: Result<Command, String>)
    ensures
        command_result_view(r) == match single_shell_spec("install"@, words(args@)) {
            Ok(k) => Ok(CommandView::Install(k)),
            Err(e) => Err(e),
        },
{
    let shell = parse_single_shell_arg("install", args)?;
    Ok(Command::Install(InstallArgs { shell }))
}

/// The one shell argument that `command` takes.
pub fn parse_single_shell_arg(command: &str, args: &[&str]) -> (r: Result<ShellKind, String>)
    ensures
        match r {
            Ok(k) => single_shell_spec(command@, words(args@)) == Ok::<ShellKind, Seq<char>>(k),
            Err(e) => single_shell_spec(command@, words(args@)) == Err::<ShellKind, Seq<char>>(
                e@,
            ),
        },
{
    if args.len() == 0 {
        return Err(message_with(command, " requires a shell argument"));
    }
    if args.len() > 1 {
        return Err(message_with(command, " accepts only one shell argument"));
    }
    assert(words(args@)[0] == args@[0]@);
    parse_shell_kind(args[0])
}

/// The shell that `value` names.
pub fn parse_shell_kind(value: &str) -> (r: Result<ShellKind, String>)
    ensures
        match r {
            Ok(k) => shell_kind_spec(value@) == Ok::<ShellKind, Seq<char>>(k),
            Err(e) => shell_kind_spec(value@) == Err::<ShellKind, Seq<char>>(e@),
        },
{
    let w = chars_of(value);
    if chars_equal(&w, "bash") {
        Ok(ShellKind::Bash)
    } else if chars_equal(&w, "zsh") {
        Ok(ShellKind::Zsh)
    } else {
        Err(message_with("unsupported shell: ", value))
    }
}

/// Reads the command line; `args[0]` is the program name.
pub fn parse_args(args: &[&str]) -> (r: Result<Command, String>)
    ensures
        command_result_view(r) == args_spec(words(args@)),
{
    let ghost a = words(args@);
    if args.len() < 2 {
        return Ok(Command::Help);
    }
    let first = args[1];
    let w = chars_of(first);
    assert(a[1] == w@);
    let rest = &args[2..args.len()];
    assert(words(rest@) == a.skip(2));
    if chars_equal(&w, "-h") || chars_equal(&w, "--help") || chars_equal(&w, "help") {
        Ok(Command::Help)
    } else if chars_equal(&w, "record") {
        parse_record(rest)
    } else if chars_equal(&w, "init") {
        parse_init(rest)
    } else if chars_equal(&w, "install") {
        parse_install(rest)
    } else if chars_start_with(&w, "--") {
        let all = &args[1..args.len()];
        assert(words(all@) == a.skip(1));
        parse_search(None, all)
    } else {
        parse_search(Some(first.to_owned()), rest)
    }
}

} // verus!
