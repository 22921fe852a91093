use vstd::prelude::*;

use crate::clock::{civil_from_unix, civil_time_of, lemma_civil_time_unique, date_text, format_date, format_timestamp, timestamp_text, CivilTime};
use crate::entry::{format_record_line, record_line, EntryView};
use crate::parser::{lemma_record_line_round_trip, line_spec};
use crate::search::path_join;
use crate::shell::ShellKind;
use crate::text::{chars_equal, chars_of, push_char, push_str, string_from_chars};

verus! {

/// Daily log files start with this.
pub const LOG_FILE_PREFIX: &'static str = "bash-history-";

/// Daily log files end with this.
pub const LOG_FILE_SUFFIX: &'static str = ".log";

/// Arguments of `hy record`, as given on the command line.
#[derive(Debug, Clone, PartialEq, Eq)]
pub struct RecordArgs {
    pub cwd: Option<String>,
    pub command: Option<String>,
    pub history_id: Option<String>,
    pub shell: Option<ShellKind>,
}

/// The mathematical content of [`RecordArgs`].
pub struct RecordView {
    pub cwd: Option<Seq<char>>,
    pub command: Option<Seq<char>>,
    pub history_id: Option<Seq<char>>,
    pub shell: Option<ShellKind>,
}

/// The view of an optional string.
pub open spec fn opt_view(o: Option<String>) -> Option<Seq<char>> {
    match o {
        Some(s) => Some(s@),
        None => None,
    }
}

impl View for RecordArgs {
    type V = RecordView;

    open spec fn view(&self) -> RecordView {
        RecordView {
            cwd: opt_view(self.cwd),
            command: opt_view(self.command),
            history_id: opt_view(self.history_id),
            shell: self.shell,
        }
    }
}


/// The hidden file in the log directory that holds the last recorded history id.
pub const HISTORY_ID_FILE: &'static str = ".hy-last-history-id";

/// The log directory under a home directory: `~/.logs`.
pub fn default_log_dir(home: &str) -> (dir: String)
    ensures
        dir@ == path_join(home@, ".logs"@),
{
    let cs = chars_of(home);
    let mut dir = home.to_owned();
    if cs.len() > 0 && cs[cs.len() - 1] != '/' {
        push_str(&mut dir, "/");
        proof {
            reveal_strlit("/");
        }
    }
    push_str(&mut dir, ".logs");
    dir
}

/// The name of the daily log file for a calendar date.
pub open spec fn daily_log_name(date: Seq<char>) -> Seq<char> {
    LOG_FILE_PREFIX@ + date + LOG_FILE_SUFFIX@
}

/// What a `record` call writes: the daily log file it appends to, the line,
/// and the history id that suppresses a repeat.
#[derive(Debug, Clone, PartialEq, Eq)]
pub struct RecordPlan {
    pub file_name: String,
    pub line: String,
    pub history_id: Option<String>,
}

/// What `plan_record` gives for the arguments and the time.
pub open spec fn plan_spec(args: RecordView, now: CivilTime) -> Result<
    (Seq<char>, Seq<char>, Option<Seq<char>>),
    Seq<char>,
> {
    match args.cwd {
        None => Err("record requires --cwd"@),
        Some(cwd) => if cwd.len() == 0 {
            Err("record requires --cwd"@)
        } else {
            match args.command {
            Some(command) => if command.len() > 0 {
                Ok(
                    (
                        daily_log_name(date_text(now)),
                        record_line(timestamp_text(now), cwd, command),
                        args.history_id,
                    ),
                )
            } else {
                Err("record requires a non-empty --command"@)
            },
            None => Err("record requires a non-empty --command"@),
        }},
    }
}

/// Checks the arguments of `record` (a non-empty `--cwd` and `--command`)
/// and says what to write for a command run
/// `now_secs` seconds after the Unix epoch (UTC). Nothing is written here.
pub fn plan_record(args: &RecordArgs, now_secs: u64) -> (r: Result<RecordPlan, String>)
    ensures
        match r {
            Ok(plan) => (exists|t: CivilTime| civil_time_of(t, now_secs as int)) && forall|
                t: CivilTime,
            |
                civil_time_of(t, now_secs as int) ==> plan_spec(args@, t) == Ok::<
                    (Seq<char>, Seq<char>, Option<Seq<char>>),
                    Seq<char>,
                >((plan.file_name@, plan.line@, opt_view(plan.history_id))),
            Err(msg) => forall|t: CivilTime|
                civil_time_of(t, now_secs as int) ==> plan_spec(args@, t) == Err::<
                    (Seq<char>, Seq<char>, Option<Seq<char>>),
                    Seq<char>,
                >(msg@),
        },
{
    let cwd = match &args.cwd {
        Some(c) => c,
        None => {
            return Err("record requires --cwd".to_owned());
        },
    };
    if cwd.as_str().is_empty() {
        return Err("record requires --cwd".to_owned());
    }
    let command = match &args.command {
        Some(c) => c,
        None => {
            return Err("record requires a non-empty --command".to_owned());
        },
    };
    if command.as_str().is_empty() {
        return Err("record requires a non-empty --command".to_owned());
    }
    let t = civil_from_unix(now_secs);
    let timestamp = format_timestamp(&t);
    let line = format_record_line(timestamp.as_str(), cwd.as_str(), command.as_str());
    let mut file_name = LOG_FILE_PREFIX.to_owned();
    push_str(&mut file_name, format_date(&t).as_str());
    push_str(&mut file_name, LOG_FILE_SUFFIX);
    let history_id = match &args.history_id {
        Some(h) => Some(h.clone()),
        None => None,
    };
    let plan = RecordPlan { file_name, line, history_id };
    assert(plan_spec(args@, t) == Ok::<(Seq<char>, Seq<char>, Option<Seq<char>>), Seq<char>>(
        (plan.file_name@, plan.line@, opt_view(plan.history_id)),
    ));
    assert forall|t2: CivilTime| civil_time_of(t2, now_secs as int) implies plan_spec(args@, t2)
        == Ok::<(Seq<char>, Seq<char>, Option<Seq<char>>), Seq<char>>(
        (plan.file_name@, plan.line@, opt_view(plan.history_id)),
    ) by {
        lemma_civil_time_unique(t, t2, now_secs as int);
    }
    Ok(plan)
}

/// A command with a history id that was recorded last is a repeat (the shell
/// hook runs again at every prompt, also when no new command ran).
pub fn is_duplicate_record(last_id: Option<&str>, history_id: Option<&str>) -> (b: bool)
    ensures
        b == match (last_id, history_id) {
            (Some(last), Some(id)) => last@ == id@,
            _ => false,
        },
{
    match (last_id, history_id) {
        (Some(last), Some(id)) => chars_equal(&chars_of(last), id),
        _ => false,
    }
}


/// The text of the history id file that holds `id`.
pub open spec fn id_file_text(id: Seq<char>) -> Seq<char> {
    id.push('\n')
}

/// The history id that the text of the history id file holds: the text
/// without its final newline.
pub open spec fn stored_id(text: Seq<char>) -> Seq<char> {
    if text.len() > 0 && text.last() == '\n' {
        text.drop_last()
    } else {
        text
    }
}

/// What one `record` run does, given the text of the history id file (if
/// there is one), the planned line and the planned history id: the text it
/// appends to the daily log, if any, and the new text of the history id
/// file, if it writes one. A history id equal to the stored one appends and
/// writes nothing.
pub open spec fn step_spec(
    stored: Option<Seq<char>>,
    line: Seq<char>,
    id: Option<Seq<char>>,
) -> (Option<Seq<char>>, Option<Seq<char>>) {
    let repeat = match (stored, id) {
        (Some(text), Some(i)) => stored_id(text) == i,
        _ => false,
    };
    if repeat {
        (None, None)
    } else {
        (
            Some(line.push('\n')),
            match id {
                Some(i) => Some(id_file_text(i)),
                None => None,
            },
        )
    }
}

/// What a `record` run writes: the text to append to the daily log file and
/// the new text of the history id file, each when there is one.
#[derive(Debug, Clone, PartialEq, Eq)]
pub struct RecordStep {
    pub append: Option<String>,
    pub store_id: Option<String>,
}

/// The history id that the text of the history id file holds.
pub fn read_stored_id(text: &str) -> (id: String)
    ensures
        id@ == stored_id(text@),
{
    let cs = chars_of(text);
    let n = cs.len();
    let end = if n > 0 && cs[n - 1] == '\n' {
        n - 1
    } else {
        n
    };
    assert(cs@.subrange(0, n as int) == cs@);
    assert(n > 0 ==> cs@.subrange(0, n - 1) == cs@.drop_last());
    string_from_chars(&cs, 0, end)
}

/// Decides what a `record` run writes for `plan`, given the text of the
/// history id file, if there is one: nothing for a repeated history id, and
/// otherwise the planned line with its newline and, when the plan has a
/// history id, that id as the new text of the history id file.
pub fn record_step(stored: Option<&str>, plan: &RecordPlan) -> (step: RecordStep)
    ensures
        (opt_view(step.append), opt_view(step.store_id)) == step_spec(
            match stored {
                Some(t) => Some(t@),
                None => None,
            },
            plan.line@,
            opt_view(plan.history_id),
        ),
{
    let last = match stored {
        Some(text) => Some(read_stored_id(text)),
        None => None,
    };
    let id = match &plan.history_id {
        Some(i) => Some(i.as_str()),
        None => None,
    };
    let last_ref = match &last {
        Some(l) => Some(l.as_str()),
        None => None,
    };
    if is_duplicate_record(last_ref, id) {
        return RecordStep { append: None, store_id: None };
    }
    let mut line = plan.line.clone();
    push_char(&mut line, '\n');
    let store_id = match &plan.history_id {
        Some(i) => {
            let mut text = i.clone();
            push_char(&mut text, '\n');
            Some(text)
        },
        None => None,
    };
    RecordStep { append: Some(line), store_id }
}

/// Recording the same history id twice appends once: a first run whose id
/// differs from the stored one appends its line, and whatever the first run
/// did, a second run with that history id, after the first one's writes,
/// appends nothing and writes nothing.
pub proof fn lemma_repeated_id_appends_once(
    stored: Option<Seq<char>>,
    first_line: Seq<char>,
    second_line: Seq<char>,
    id: Seq<char>,
)
    ensures
        (match stored {
            Some(text) => stored_id(text) != id,
            None => true,
        }) ==> step_spec(stored, first_line, Some(id)).0 == Some(first_line.push('\n')),
        ({
            let first = step_spec(stored, first_line, Some(id));
            let after = match first.1 {
                Some(text) => Some(text),
                None => stored,
            };
            step_spec(after, second_line, Some(id)) == (
                None::<Seq<char>>,
                None::<Seq<char>>,
            )
        }),
{
    assert(stored_id(id_file_text(id)) == id) by {
        assert(id_file_text(id).drop_last() == id);
    }
}

/// A planned record line reads back, through `parse_line`, as the time of the
/// record, its directory and its command.
pub proof fn lemma_planned_line_reads_back(
    args: RecordView,
    now: CivilTime,
    file: Seq<char>,
    line_number: usize,
)
    requires
        plan_spec(args, now) is Ok,
    ensures
        ({
            let (name, line, id) = plan_spec(args, now)->Ok_0;
            line_spec(line, file, line_number) == Ok::<EntryView, Seq<char>>(
                EntryView {
                    timestamp: timestamp_text(now),
                    cwd: args.cwd->0,
                    command: args.command->0,
                    file,
                    line_number,
                },
            )
        }),
{
    reveal_strlit("+00:00");
    assert(timestamp_text(now).len() > 0);
    lemma_record_line_round_trip(
        timestamp_text(now),
        args.cwd->0,
        args.command->0,
        file,
        line_number,
    );
}

} // verus!
