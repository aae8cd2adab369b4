//! Sessions: what is kept of them, where, and for how long.

use vstd::prelude::*;

use crate::config::{config_dir_below, Config};
use crate::events::{Event, SessionStartEvent};
use crate::order::{compare_texts, lemma_text_extended, text_less, Place};
use crate::path::{join_path, joined};
use crate::text::{
    blank, chars_of, concat, is_blank, is_line, is_space, is_whole_lines, lemma_lines_add,
    lemma_no_lines, lemma_one_line, lines, lines_of, pieces, string_of, texts, without_cr,
};
use crate::time::{
    clock_text, counted, format_utc, in_four_digit_years, is_clock_time, keeps_step, milli_pattern,
    millis_text, second_pattern, utc_text, Duration, Timestamp,
};

verus! {

/// What a session did, in short.
#[derive(Debug, Clone)]
pub struct SessionSummary {
    pub id: String,
    pub command: String,
    pub workspace: String,
    pub start_time: Timestamp,
    pub duration: Duration,
    pub exit_code: i32,
    pub files_created: Vec<String>,
    pub files_modified: Vec<String>,
    pub files_deleted: Vec<String>,
    pub files_read: Vec<String>,
    pub network_connections: Vec<ConnectionSummary>,
    pub subprocesses: Vec<SubprocessSummary>,
    pub total_bytes_written: u64,
}

/// A connection to another host.
#[derive(Debug, Clone)]
pub struct ConnectionSummary {
    pub remote_host: String,
    pub remote_port: u16,
    pub protocol: String,
}

/// A process that ran during the session. Its exit code is known only where it could be read.
#[derive(Debug, Clone)]
pub struct SubprocessSummary {
    pub argv: Vec<String>,
    pub exit_code: Option<i32>,
    pub duration: Duration,
}

/// A session that is being recorded.
#[derive(Debug, Clone)]
pub struct Session {
    pub id: String,
    pub dir: String,
    pub start_time: Timestamp,
}

/// The most that is kept of what the child writes to its terminal, in bytes.
pub const MAX_TERMINAL_RAW_BYTES: u64 = 52_428_800;

/// The name of a session that starts at a point in time: date and time of day, and the
/// milliseconds.
pub open spec fn session_id(start: Timestamp) -> Option<Seq<char>> {
    match (
        utc_text(start.secs, start.nanos, second_pattern()),
        utc_text(start.secs, start.nanos, milli_pattern()),
    ) {
        (Some(base), Some(millis)) => Some(base + "_"@ + millis),
        _ => None,
    }
}

/// Whether a session starts as it should: with its name, in the directory of that name, and with an
/// event that tells of the command, the workspace and the process.
pub open spec fn starts(
    session: Session,
    event: SessionStartEvent,
    sessions_dir: Seq<char>,
    start: Timestamp,
    command: Seq<char>,
    workspace: Seq<char>,
    pid: u32,
) -> bool {
    &&& session_id(start) == Some(session.id@)
    &&& session.dir@ == joined(sessions_dir, session.id@)
    &&& session.start_time == start
    &&& event.command@ == command
    &&& event.workspace@ == workspace
    &&& event.timestamp == start
    &&& event.pid == pid
}

/// Whether `a` is at least a millisecond before `b`, by their whole milliseconds.
pub open spec fn is_earlier(a: Timestamp, b: Timestamp) -> bool {
    a.secs < b.secs || (a.secs == b.secs && a.nanos / 1_000_000 < b.nanos / 1_000_000)
}

/// Whether the names of all sessions that start earlier come before that of `session`.
pub open spec fn names_earlier_before(session: Session) -> bool {
    forall|earlier: Timestamp|
        in_four_digit_years(earlier.secs, earlier.nanos) && is_earlier(earlier, session.start_time)
            ==> (#[trigger] session_id(earlier) matches Some(name) && text_less(name, session.id@))
}

/// Whether the name of a session tells when it started: it ends in the time of day and the
/// milliseconds, and comes behind the names of all sessions that started earlier.
pub open spec fn is_named_by_start(session: Session) -> bool {
    &&& session.id@.len() == 19
    &&& session.id@.skip(8) == seq!['_'] + clock_text(session.start_time.secs as nat) + seq!['_']
        + millis_text(session.start_time.nanos as nat)
    &&& names_earlier_before(session)
}

/// Where dates and milliseconds keep step with the time, names do.
proof fn lemma_names_in_order(session: Session)
    requires
        session_id(session.start_time) == Some(session.id@),
        forall|s: i64, n: u32|
            in_four_digit_years(s, n) ==> keeps_step(
                utc_text(session.start_time.secs, session.start_time.nanos, second_pattern())->0,
                counted(session.start_time.secs, session.start_time.nanos, second_pattern()),
                #[trigger] utc_text(s, n, second_pattern()),
                counted(s, n, second_pattern()),
            ),
        forall|s: i64, n: u32|
            in_four_digit_years(s, n) ==> keeps_step(
                utc_text(session.start_time.secs, session.start_time.nanos, milli_pattern())->0,
                counted(session.start_time.secs, session.start_time.nanos, milli_pattern()),
                #[trigger] utc_text(s, n, milli_pattern()),
                counted(s, n, milli_pattern()),
            ),
        milli_pattern() != second_pattern(),
    ensures
        names_earlier_before(session),
{
    let start = session.start_time;
    let base = utc_text(start.secs, start.nanos, second_pattern())->0;
    let millis = utc_text(start.secs, start.nanos, milli_pattern())->0;
    assert forall|earlier: Timestamp|
        in_four_digit_years(earlier.secs, earlier.nanos) && is_earlier(earlier, start) implies
            #[trigger] session_id(earlier) matches Some(name) && text_less(name, session.id@) by {
        let date = utc_text(earlier.secs, earlier.nanos, second_pattern());
        let part = utc_text(earlier.secs, earlier.nanos, milli_pattern());
        assert(date is Some && part is Some);
        lemma_text_extended(date->0 + "_"@, part->0, base + "_"@, millis);
        lemma_text_extended(date->0, "_"@, base, "_"@);
    }
}

impl Session {
    /// A session that starts at the given time in the given directory, and the first event of its
    /// log. There is none where the time has no date. Its name ends in the time of day and the
    /// milliseconds, and comes behind the names of all sessions that started before.
    pub fn create_at(
        sessions_dir: &str,
        start: Timestamp,
        command: &str,
        workspace: &str,
        pid: u32,
    ) -> (r: Option<(Session, Event)>)
        ensures
            match r {
                Some((session, event)) => event is SessionStart && starts(
                    session,
                    event->SessionStart_0,
                    sessions_dir@,
                    start,
                    command@,
                    workspace@,
                    pid,
                ),
                None => session_id(start) is None,
            },
            in_four_digit_years(start.secs, start.nanos) ==> (r matches Some((session, _))
                && is_named_by_start(session)),
    {
        let base = format_utc(start.secs, start.nanos, "%Y%m%d_%H%M%S");
        let millis = format_utc(start.secs, start.nanos, "%3f");
        proof {
            reveal_strlit("%Y%m%d_%H%M%S");
            reveal_strlit("%3f");
            assert(milli_pattern() != second_pattern()) by {
                assert(milli_pattern().len() == 3);
                assert(second_pattern().len() == 13);
            }
        }
        match (base, millis) {
            (Some(base), Some(millis)) => {
                let ghost base_text = base@;
                let mut id = base;
                id.append("_");
                id.append(millis.as_str());
                let dir = join_path(sessions_dir, id.as_str());
                let event = SessionStartEvent {
                    command: command.to_owned(),
                    workspace: workspace.to_owned(),
                    timestamp: start,
                    pid,
                };
                let session = Session { id, dir, start_time: start };
                proof {
                    reveal_strlit("_");
                    if in_four_digit_years(start.secs, start.nanos) {
                        lemma_names_in_order(session);
                        assert("_"@ =~= seq!['_']);
                        assert(session.id@.skip(8) =~= base_text.skip(8) + "_"@ + millis@);
                    }
                }
                Some((session, Event::SessionStart(event)))
            },
            _ => None,
        }
    }

    /// A session that starts now, in the directory of the user, and the first event of its log. The
    /// time and the directory are up to the clock and the environment; as the present moment has a
    /// date, there always is such a session.
    pub fn create(command: &str, workspace: &str, pid: u32) -> (r: Option<(Session, Event)>)
        ensures
            r matches Some((session, event)) && {
                &&& is_clock_time(session.start_time)
                &&& event is SessionStart
                &&& exists|home: Option<Seq<char>>|
                    starts(
                        session,
                        event->SessionStart_0,
                        joined(#[trigger] config_dir_below(home), "sessions"@),
                        session.start_time,
                        command@,
                        workspace@,
                        pid,
                    )
                &&& in_four_digit_years(session.start_time.secs, session.start_time.nanos)
                    ==> is_named_by_start(session)
            },
    {
        let dir = Config::sessions_dir();
        Session::create_at(dir.as_str(), Timestamp::now(), command, workspace, pid)
    }

    /// The directory for the differences of changed files.
    pub fn diffs_dir(session_dir: &str) -> (r: String)
        ensures
            r@ == joined(session_dir@, "diffs"@),
    {
        join_path(session_dir, "diffs")
    }

    /// The file of the event log.
    pub fn events_path(session_dir: &str) -> (r: String)
        ensures
            r@ == joined(session_dir@, "events.jsonl"@),
    {
        join_path(session_dir, "events.jsonl")
    }

    /// The file of what the child wrote to its terminal.
    pub fn terminal_path(session_dir: &str) -> (r: String)
        ensures
            r@ == joined(session_dir@, "terminal.raw"@),
    {
        join_path(session_dir, "terminal.raw")
    }

    /// The file of the summary.
    pub fn summary_path(session_dir: &str) -> (r: String)
        ensures
            r@ == joined(session_dir@, "summary.json"@),
    {
        join_path(session_dir, "summary.json")
    }

    /// The file for the difference of one changed file: the name of that file with `_` for every
    /// `/`, and `.diff` at its end.
    pub fn diff_path(session_dir: &str, filename: &str) -> (r: String)
        ensures
            r@ == joined(joined(session_dir@, "diffs"@), flat_name(filename@) + ".diff"@),
    {
        let mut name = flatten_name(filename);
        name.append(".diff");
        join_path(Session::diffs_dir(session_dir).as_str(), name.as_str())
    }

    /// Tests whether more of what the child writes is to be kept, given how much is kept already,
    /// if that is known.
    pub fn keeps_terminal(kept: Option<u64>) -> (r: bool)
        ensures
            r == (kept is None || kept->0 < MAX_TERMINAL_RAW_BYTES),
    {
        match kept {
            Some(len) => len < MAX_TERMINAL_RAW_BYTES,
            None => true,
        }
    }

    /// One line of the event log.
    pub fn log_line(json: &str) -> (r: String)
        ensures
            r@ == json@.push('\n'),
    {
        let mut line = json.to_owned();
        line.push('\n');
        line
    }

    /// The events in the text of an event log: its lines, without those that are blank.
    pub fn log_entries(content: &str) -> (r: Vec<String>)
        ensures
            texts(r@) == entries(content@),
    {
        let all = lines_of(&chars_of(content));
        let ghost list = lines(content@);
        let ghost keep = |line: Seq<char>| !is_blank(line);
        let mut out: Vec<String> = Vec::new();
        let mut i: usize = 0;
        proof {
            reveal(Seq::filter);
            assert(pieces(all@).len() == all@.len());
            assert(list.take(0) =~= Seq::empty());
            assert(texts(out@) =~= list.take(0).filter(keep));
        }
        while i < all.len()
            invariant
                i <= all@.len(),
                pieces(all@) == list,
                pieces(all@).len() == all@.len(),
                keep == (|line: Seq<char>| !is_blank(line)),
                texts(out@) == list.take(i as int).filter(keep),
            decreases all@.len() - i,
        {
            let ghost before = texts(out@);
            proof {
                assert(list[i as int] == all@[i as int]@);
                assert(list.take(i + 1) =~= list.take(i as int).push(list[i as int]));
                list.take(i as int).lemma_filter_push(list[i as int], keep);
            }
            if !blank(&all[i]) {
                let line = string_of(&all[i]);
                let ghost added = line@;
                out.push(line);
                assert(texts(out@) =~= before.push(added));
            }
            i += 1;
        }
        assert(list.take(i as int) =~= list);
        out
    }
}

/// An entry of an event log that is not an event.
#[derive(Debug, Clone)]
pub struct UnreadableEvent {
    pub entry: String,
    pub reason: String,
}

impl UnreadableEvent {
    /// The error in words.
    pub fn message(&self) -> (r: String)
        ensures
            r@ == "failed to parse event: "@ + self.entry@,
    {
        let mut out = "failed to parse event: ".to_owned();
        out.append(self.entry.as_str());
        out
    }
}

/// Whether entry number `i` is the first that is not an event.
pub open spec fn is_first_unreadable(parsed: Seq<Result<Event, String>>, i: int) -> bool {
    &&& 0 <= i < parsed.len()
    &&& parsed[i] is Err
    &&& forall|j: int| 0 <= j < i ==> (#[trigger] parsed[j]) is Ok
}

/// Whether `events` are what the entries of a log turned out to be, none of them unreadable.
pub open spec fn all_read(parsed: Seq<Result<Event, String>>, events: Seq<Event>) -> bool {
    &&& events.len() == parsed.len()
    &&& forall|i: int|
        0 <= i < parsed.len() ==> #[trigger] parsed[i] == Ok::<Event, String>(events[i])
}

impl Session {
    /// The events of a log, from its entries and from what each of them turned out to be. One entry
    /// that is not an event makes the whole log unreadable.
    pub fn load_events(entries: &Vec<String>, parsed: Vec<Result<Event, String>>) -> (r: Result<
        Vec<Event>,
        UnreadableEvent,
    >)
        requires
            entries@.len() == parsed@.len(),
        ensures
            match r {
                Ok(events) => all_read(parsed@, events@),
                Err(error) => exists|i: int| #[trigger]
                    is_first_unreadable(parsed@, i) && error.entry@ == entries@[i]@
                        && error.reason@ == parsed@[i]->Err_0@,
            },
    {
        let ghost all = parsed@;
        let mut rest = parsed;
        let mut events: Vec<Event> = Vec::new();
        let mut i: usize = 0;
        while i < entries.len()
            invariant
                i <= entries@.len(),
                all == parsed@,
                entries@.len() == all.len(),
                rest@.len() == all.len(),
                forall|j: int| i <= j < all.len() ==> #[trigger] rest@[j] == all[j],
                all_read(all.take(i as int), events@),
            decreases entries@.len() - i,
        {
            let mut next: Result<Event, String> = Err(String::new());
            std::mem::swap(&mut rest[i], &mut next);
            assert(next == all[i as int]);
            match next {
                Ok(event) => {
                    events.push(event);
                },
                Err(reason) => {
                    proof {
                        assert forall|j: int| 0 <= j < i implies (#[trigger] all[j]) is Ok by {
                            assert(all.take(i as int)[j] == all[j]);
                        }
                        assert(is_first_unreadable(all, i as int));
                    }
                    return Err(UnreadableEvent { entry: entries[i].clone(), reason });
                },
            }
            i += 1;
            proof {
                assert forall|j: int| 0 <= j < i implies #[trigger] all.take(i as int)[j] == Ok::<
                    Event,
                    String,
                >(events@[j]) by {
                    if j < i - 1 {
                        assert(all.take(i - 1)[j] == all[j]);
                    }
                }
            }
        }
        assert(all.take(i as int) =~= all);
        Ok(events)
    }
}

/// A name with `_` for every `/`.
pub open spec fn flat_name(name: Seq<char>) -> Seq<char> {
    name.map_values(
        |c: char|
            if c == '/' {
                '_'
            } else {
                c
            },
    )
}

fn flatten_name(name: &str) -> (r: String)
    ensures
        r@ == flat_name(name@),
{
    let chars = chars_of(name);
    let mut out = String::new();
    let mut i: usize = 0;
    while i < chars.len()
        invariant
            i <= chars@.len(),
            chars@ == name@,
            out@ == flat_name(name@).take(i as int),
        decreases chars@.len() - i,
    {
        out.push(
            if chars[i] == '/' {
                '_'
            } else {
                chars[i]
            },
        );
        i += 1;
        assert(out@ =~= flat_name(name@).take(i as int));
    }
    assert(flat_name(name@).take(i as int) =~= flat_name(name@));
    out
}

/// The events in the text of an event log: its lines, without those that are blank.
pub open spec fn entries(content: Seq<char>) -> Seq<Seq<char>> {
    lines(content).filter(|line: Seq<char>| !is_blank(line))
}

/// The text of an event log with these events.
pub open spec fn log_text(list: Seq<Seq<char>>) -> Seq<char> {
    concat(list.map_values(|json: Seq<char>| json.push('\n')))
}

/// Whether a text can be one event of a log: a single line that is not blank and does not end in a
/// carriage return.
pub open spec fn fits_line(json: Seq<char>) -> bool {
    &&& !json.contains('\n')
    &&& !is_blank(json)
    &&& json.last() != '\r'
}

/// Reading an event log gives back what was written to it, in the same order.
pub proof fn lemma_log_round_trip(list: Seq<Seq<char>>)
    requires
        forall|i: int| 0 <= i < list.len() ==> fits_line(#[trigger] list[i]),
    ensures
        entries(log_text(list)) == list,
{
    lemma_log_lines(list);
    lemma_all_kept(list);
}

/// Reading an event log gives back the events that were written to it, in the same order, under any
/// way to write events down that can be read back: each event as one line that fits a log, and
/// `parse` gives it back from that line. The log need not be complete: this holds of every log with
/// the events written so far.
pub proof fn lemma_events_round_trip(
    events: Seq<Event>,
    write: spec_fn(Event) -> Seq<char>,
    parse: spec_fn(Seq<char>) -> Result<Event, String>,
)
    requires
        forall|i: int|
            0 <= i < events.len() ==> fits_line(write(#[trigger] events[i])) && parse(
                write(events[i]),
            ) == Ok::<Event, String>(events[i]),
    ensures
        all_read(entries(log_text(events.map_values(write))).map_values(parse), events),
{
    let lines_written = events.map_values(write);
    assert forall|i: int| 0 <= i < lines_written.len() implies fits_line(
        #[trigger] lines_written[i],
    ) by {
        assert(fits_line(write(events[i])));
    }
    lemma_log_round_trip(lines_written);
    assert forall|i: int| 0 <= i < events.len() implies #[trigger] lines_written.map_values(parse)[i]
        == Ok::<Event, String>(events[i]) by {
        assert(parse(write(events[i])) == Ok::<Event, String>(events[i]));
    }
}

proof fn lemma_all_kept(list: Seq<Seq<char>>)
    requires
        forall|i: int| 0 <= i < list.len() ==> fits_line(#[trigger] list[i]),
    ensures
        list.filter(|line: Seq<char>| !is_blank(line)) == list,
    decreases list.len(),
{
    let keep = |line: Seq<char>| !is_blank(line);
    reveal(Seq::filter);
    if list.len() > 0 {
        let front = list.drop_last();
        assert forall|i: int| 0 <= i < front.len() implies fits_line(#[trigger] front[i]) by {
            assert(fits_line(list[i]));
        }
        lemma_all_kept(front);
        assert(fits_line(list[list.len() - 1]));
        assert(front.push(list.last()) =~= list);
        front.lemma_filter_push(list.last(), keep);
    } else {
        assert(list.filter(keep) =~= list);
    }
}

proof fn lemma_log_lines(list: Seq<Seq<char>>)
    requires
        forall|i: int| 0 <= i < list.len() ==> fits_line(#[trigger] list[i]),
    ensures
        is_whole_lines(log_text(list)),
        lines(log_text(list)) == list,
    decreases list.len(),
{
    let written = list.map_values(|json: Seq<char>| json.push('\n'));
    if list.len() > 0 {
        let front = list.drop_last();
        let json = list.last();
        assert forall|i: int| 0 <= i < front.len() implies fits_line(#[trigger] front[i]) by {
            assert(fits_line(list[i]));
        }
        assert(fits_line(list[list.len() - 1]));
        lemma_log_lines(front);
        assert(written.drop_last() =~= front.map_values(|json: Seq<char>| json.push('\n')));
        assert(log_text(list) == log_text(front) + json.push('\n'));
        lemma_lines_add(log_text(front), json.push('\n'));
        lemma_one_line(json);
        assert(lines(log_text(list)) =~= list);
    } else {
        lemma_no_lines();
        assert(lines(log_text(list)) =~= list);
    }
}

/// Blank lines in an event log are skipped.
pub proof fn lemma_blank_lines_skipped(before: Seq<char>, blank_line: Seq<char>, after: Seq<char>)
    requires
        is_whole_lines(before),
        is_line(blank_line),
        is_blank(blank_line),
    ensures
        entries(before + blank_line.push('\n') + after) == entries(before + after),
{
    let keep = |line: Seq<char>| !is_blank(line);
    let added = blank_line.push('\n');
    let shown = seq![without_cr(blank_line)];
    lemma_lines_add(before, added);
    lemma_lines_add(before + added, after);
    lemma_lines_add(before, after);
    lemma_one_line(blank_line);
    assert(shown.filter(keep) =~= Seq::empty()) by {
        assert(Seq::<Seq<char>>::empty().push(shown[0]) =~= shown);
        Seq::<Seq<char>>::empty().lemma_filter_push(shown[0], keep);
        reveal(Seq::filter);
    }
    Seq::filter_distributes_over_add(lines(before), shown, keep);
    Seq::filter_distributes_over_add(lines(before) + shown, lines(after), keep);
    Seq::filter_distributes_over_add(lines(before), lines(after), keep);
    assert(entries(before + added + after) =~= entries(before + after));
}

/// What stands in the directory of the sessions: a name, unless it is not Unicode, and whether it is
/// a directory.
#[derive(Debug, Clone)]
pub struct FoundEntry {
    pub name: Option<String>,
    pub path: String,
    pub is_dir: bool,
}

/// A session by its name and its directory.
#[derive(Debug, Clone)]
pub struct SessionEntry {
    pub name: String,
    pub path: String,
}

/// A session by its name and its directory.
pub type Named = (Seq<char>, Seq<char>);

impl View for SessionEntry {
    type V = Named;

    open spec fn view(&self) -> Named {
        (self.name@, self.path@)
    }
}

/// The sessions that a list holds.
pub open spec fn sessions_of(list: Seq<SessionEntry>) -> Seq<Named> {
    list.map_values(|e: SessionEntry| e@)
}

/// The session that an entry is: a directory with a name.
pub open spec fn session_of(entry: FoundEntry) -> Option<Named> {
    if entry.is_dir && entry.name is Some {
        Some((entry.name->0@, entry.path@))
    } else {
        None
    }
}

/// The sessions among some entries.
pub open spec fn sessions_among(found: Seq<FoundEntry>) -> Seq<Named> {
    found.filter_map(|entry: FoundEntry| session_of(entry))
}

/// The sessions of `list` with a given name.
pub open spec fn with_name(list: Seq<Named>, name: Seq<char>) -> Seq<Named> {
    list.filter(has_name(name))
}

/// Whether a session has a given name.
pub open spec fn has_name(name: Seq<char>) -> spec_fn(Named) -> bool {
    |s: Named| s.0 == name
}

/// Whether no session of `list` has a name that comes before that of one behind it.
pub open spec fn descending(list: Seq<Named>) -> bool {
    forall|i: int, j: int|
        0 <= i < j < list.len() ==> !text_less((#[trigger] list[i]).0, (#[trigger] list[j]).0)
}

/// Whether `list` holds the sessions of `items` from the last name to the first. Sessions of one
/// name stay in their order.
pub open spec fn is_newest_first(list: Seq<Named>, items: Seq<Named>) -> bool {
    &&& descending(list)
    &&& forall|name: Seq<char>| #[trigger] with_name(list, name) == with_name(items, name)
}

/// A session in its place in a list, and what is known of it.
#[derive(Debug, Clone)]
pub struct ListedSession {
    pub path: String,
    pub has_summary: bool,
    pub has_events: bool,
    pub stale: bool,
}

/// Whether a session has a log but no summary yet.
pub open spec fn is_open(session: ListedSession) -> bool {
    !session.has_summary && session.has_events
}

/// Whether a session may be removed: unless it is still being written.
pub open spec fn is_removable(session: ListedSession) -> bool {
    !is_open(session) || session.stale
}

/// The directories to remove so that `keep` sessions stay: those behind the first `keep`, but for
/// sessions that are still being written.
pub open spec fn surplus(list: Seq<ListedSession>, keep: nat) -> Seq<Seq<char>> {
    if list.len() <= keep {
        Seq::empty()
    } else {
        list.skip(keep as int).filter(|s: ListedSession| is_removable(s)).map_values(
            |s: ListedSession| s.path@,
        )
    }
}

/// How long ago an event log was last written to.
#[derive(Debug, Clone, Copy)]
pub enum LogAge {
    /// It cannot be told.
    Unknown,
    /// The log carries a time that is still to come.
    Future,
    /// So long ago.
    Past(Duration),
}

/// Tests whether a session without a summary is no longer being written: nothing went into its log
/// for more than a minute, or that cannot be told.
pub fn is_stale_session(age: LogAge) -> (r: bool)
    ensures
        r == (match age {
            LogAge::Unknown => true,
            LogAge::Future => false,
            LogAge::Past(length) => length@ > 60_000_000_000,
        }),
{
    match age {
        LogAge::Unknown => true,
        LogAge::Future => false,
        LogAge::Past(length) => !Duration::from_secs(60).at_least(length),
    }
}

proof fn lemma_none_named(list: Seq<Named>, name: Seq<char>)
    requires
        forall|i: int| 0 <= i < list.len() ==> (#[trigger] list[i]).0 != name,
    ensures
        with_name(list, name) == Seq::<Named>::empty(),
    decreases list.len(),
{
    let keep = has_name(name);
    reveal(Seq::filter);
    if list.len() > 0 {
        let front = list.drop_last();
        assert forall|i: int| 0 <= i < front.len() implies (#[trigger] front[i]).0 != name by {
            assert(list[i].0 != name);
        }
        lemma_none_named(front, name);
        assert(front.push(list.last()) =~= list);
        assert(list[list.len() - 1].0 != name);
        front.lemma_filter_push(list.last(), keep);
    }
}

/// Puts a session behind all whose name does not come before its own.
proof fn lemma_placed(list: Seq<Named>, items: Seq<Named>, added: Named, at: int)
    requires
        is_newest_first(list, items),
        0 <= at <= list.len(),
        forall|i: int| 0 <= i < at ==> !text_less((#[trigger] list[i]).0, added.0),
        forall|i: int| at <= i < list.len() ==> text_less((#[trigger] list[i]).0, added.0),
    ensures
        is_newest_first(list.insert(at, added), items.push(added)),
{
    let all = list.insert(at, added);
    assert forall|i: int, j: int| 0 <= i < j < all.len() implies !text_less(
        (#[trigger] all[i]).0,
        (#[trigger] all[j]).0,
    ) by {
        if i == at {
            assert(all[j] == list[j - 1]);
            lemma_text_order(list[j - 1].0, added.0);
        } else if j == at {
            assert(all[i] == list[i]);
        } else {
            let a = if i < at {
                i
            } else {
                i - 1
            };
            let b = if j < at {
                j
            } else {
                j - 1
            };
            assert(all[i] == list[a]);
            assert(all[j] == list[b]);
        }
    }
    assert forall|name: Seq<char>| #[trigger] with_name(all, name) == with_name(
        items.push(added),
        name,
    ) by {
        let keep = has_name(name);
        let front = list.take(at);
        let back = list.skip(at);
        assert(list =~= front + back);
        assert(all =~= front.push(added) + back);
        Seq::filter_distributes_over_add(front, back, keep);
        Seq::filter_distributes_over_add(front.push(added), back, keep);
        front.lemma_filter_push(added, keep);
        items.lemma_filter_push(added, keep);
        assert(with_name(list, name) == with_name(items, name));
        if added.0 == name {
            assert forall|i: int| 0 <= i < back.len() implies (#[trigger] back[i]).0 != name by {
                assert(back[i] == list[at + i]);
                lemma_text_order(list[at + i].0, added.0);
            }
            lemma_none_named(back, name);
            assert(with_name(all, name) =~= with_name(items.push(added), name));
        }
    }
}

proof fn lemma_text_order(a: Seq<char>, b: Seq<char>)
    requires
        text_less(a, b),
    ensures
        a != b,
        !text_less(b, a),
{
    crate::order::lemma_lex_irreflexive(crate::order::code_points(a));
    if text_less(b, a) {
        crate::order::lemma_lex_transitive(
            crate::order::code_points(a),
            crate::order::code_points(b),
            crate::order::code_points(a),
        );
    }
}

impl Session {
    /// The sessions among the entries of a directory, from the last name to the first. Names tell
    /// when a session started, so that is from the newest to the oldest.
    pub fn list_sessions(found: &Vec<FoundEntry>) -> (r: Vec<SessionEntry>)
        ensures
            is_newest_first(sessions_of(r@), sessions_among(found@)),
    {
        let ghost read = |entry: FoundEntry| session_of(entry);
        let mut out: Vec<SessionEntry> = Vec::new();
        let mut i: usize = 0;
        proof {
            reveal(Seq::filter_map);
            assert(found@.take(0) =~= Seq::empty());
            assert(sessions_of(out@) =~= found@.take(0).filter_map(read));
        }
        while i < found.len()
            invariant
                i <= found@.len(),
                read == (|entry: FoundEntry| session_of(entry)),
                is_newest_first(sessions_of(out@), found@.take(i as int).filter_map(read)),
            decreases found@.len() - i,
        {
            let ghost items = found@.take(i as int).filter_map(read);
            proof {
                found@.lemma_filter_map_take_succ(read, i as int);
            }
            if found[i].is_dir {
                match &found[i].name {
                    None => {},
                    Some(name) => {
                        let entry = SessionEntry {
                            name: name.clone(),
                            path: found[i].path.clone(),
                        };
                        let ghost list = sessions_of(out@);
                        let ghost added = entry@;
                        let at = newest_place(&out, name.as_str());
                        out.insert(at, entry);
                        proof {
                            lemma_placed(list, items, added, at as int);
                            assert(sessions_of(out@) =~= list.insert(at as int, added));
                            assert(found@.take(i + 1).filter_map(read) =~= items.push(added));
                        }
                    },
                }
            }
            i += 1;
        }
        assert(found@.take(i as int) =~= found@);
        out
    }

    /// The newest session with a summary, in a list from the newest to the oldest.
    pub fn latest_session(list: &Vec<ListedSession>) -> (r: Option<String>)
        ensures
            match r {
                Some(path) => exists|i: int|
                    0 <= i < list@.len() && (#[trigger] list@[i]).has_summary && list@[i].path@
                        == path@ && forall|j: int| 0 <= j < i ==> !(#[trigger] list@[j]).has_summary,
                None => forall|i: int| 0 <= i < list@.len() ==> !(#[trigger] list@[i]).has_summary,
            },
    {
        let mut i: usize = 0;
        while i < list.len()
            invariant
                i <= list@.len(),
                forall|j: int| 0 <= j < i ==> !(#[trigger] list@[j]).has_summary,
            decreases list@.len() - i,
        {
            if list[i].has_summary {
                return Some(list[i].path.clone());
            }
            i += 1;
        }
        None
    }

    /// The directories to remove so that `keep` sessions stay, in a list from the newest to the
    /// oldest. Sessions that are still being written stay too.
    pub fn prune_sessions(list: &Vec<ListedSession>, keep: usize) -> (r: Vec<String>)
        ensures
            texts(r@) == surplus(list@, keep as nat),
    {
        let mut out: Vec<String> = Vec::new();
        if list.len() <= keep {
            assert(texts(out@) =~= surplus(list@, keep as nat));
            return out;
        }
        let ghost rest = list@.skip(keep as int);
        let ghost removable = |s: ListedSession| is_removable(s);
        let ghost path = |s: ListedSession| s.path@;
        let mut i: usize = keep;
        proof {
            reveal(Seq::filter);
            assert(rest.take(0) =~= Seq::empty());
            assert(texts(out@) =~= rest.take(0).filter(removable).map_values(path));
        }
        while i < list.len()
            invariant
                keep <= i <= list@.len(),
                rest == list@.skip(keep as int),
                removable == (|s: ListedSession| is_removable(s)),
                path == (|s: ListedSession| s.path@),
                texts(out@) == rest.take(i - keep).filter(removable).map_values(path),
            decreases list@.len() - i,
        {
            let ghost before = rest.take(i - keep).filter(removable);
            let ghost texts_before = texts(out@);
            proof {
                assert(rest[i - keep] == list@[i as int]);
                assert(rest.take(i - keep + 1) =~= rest.take(i - keep).push(rest[i - keep]));
                rest.take(i - keep).lemma_filter_push(rest[i - keep], removable);
            }
            let session = &list[i];
            if session.has_summary || !session.has_events || session.stale {
                let dir = session.path.clone();
                let ghost added = dir@;
                out.push(dir);
                assert(texts(out@) =~= texts_before.push(added));
                assert(before.push(*session).map_values(path) =~= before.map_values(path).push(added));
            }
            i += 1;
        }
        assert(rest.take(rest.len() as int) =~= rest);
        out
    }
}

/// Where a session of this name goes in a list from the last name to the first: behind all whose
/// name does not come before it.
fn newest_place(list: &Vec<SessionEntry>, name: &str) -> (r: usize)
    requires
        descending(sessions_of(list@)),
    ensures
        r <= list@.len(),
        forall|i: int| 0 <= i < r ==> !text_less((#[trigger] sessions_of(list@)[i]).0, name@),
        forall|i: int|
            r <= i < list@.len() ==> text_less((#[trigger] sessions_of(list@)[i]).0, name@),
{
    let ghost all = sessions_of(list@);
    let mut n: usize = list.len();
    while n > 0
        invariant
            n <= list@.len(),
            all == sessions_of(list@),
            descending(all),
            forall|i: int| n <= i < list@.len() ==> text_less((#[trigger] all[i]).0, name@),
        decreases n,
    {
        assert(all[n - 1] == list@[n - 1]@);
        match compare_texts(list[n - 1].name.as_str(), name) {
            Place::Before => {},
            _ => {
                proof {
                    assert forall|i: int| 0 <= i < n implies !text_less(
                        (#[trigger] all[i]).0,
                        name@,
                    ) by {
                        if i < n - 1 && text_less(all[i].0, name@) {
                            assert(!text_less(all[i].0, all[n - 1].0));
                            lemma_text_between(all[i].0, name@, all[n - 1].0);
                        }
                    }
                }
                return n;
            },
        }
        n -= 1;
    }
    0
}

proof fn lemma_text_between(a: Seq<char>, b: Seq<char>, c: Seq<char>)
    requires
        text_less(a, b),
        !text_less(c, b),
    ensures
        text_less(a, c),
{
    let x = crate::order::code_points(a);
    let y = crate::order::code_points(b);
    let z = crate::order::code_points(c);
    crate::order::lemma_lex_total(y, z);
    if crate::order::lex_less(y, z) {
        crate::order::lemma_lex_transitive(x, y, z);
    }
}

/// The session to stop where none is named: the newest one with a log but no summary yet, in a list
/// from the newest to the oldest.
pub fn find_active_session(list: &Vec<ListedSession>) -> (r: Option<String>)
    ensures
        match r {
            Some(path) => exists|i: int|
                0 <= i < list@.len() && is_open(#[trigger] list@[i]) && list@[i].path@ == path@
                    && forall|j: int| 0 <= j < i ==> !is_open(#[trigger] list@[j]),
            None => forall|i: int| 0 <= i < list@.len() ==> !is_open(#[trigger] list@[i]),
        },
{
    let mut i: usize = 0;
    while i < list.len()
        invariant
            i <= list@.len(),
            forall|j: int| 0 <= j < i ==> !is_open(#[trigger] list@[j]),
        decreases list@.len() - i,
    {
        if !list[i].has_summary && list[i].has_events {
            assert(is_open(list@[i as int]));
            return Some(list[i].path.clone());
        }
        i += 1;
    }
    None
}

proof fn lemma_with_name_front(list: Seq<Named>, name: Seq<char>)
    requires
        list.len() > 0,
    ensures
        with_name(list, name) == (if list[0].0 == name {
            seq![list[0]] + with_name(list.skip(1), name)
        } else {
            with_name(list.skip(1), name)
        }),
{
    let keep = has_name(name);
    let first = seq![list[0]];
    assert(list =~= first + list.skip(1));
    Seq::filter_distributes_over_add(first, list.skip(1), keep);
    assert(Seq::<Named>::empty().push(list[0]) =~= first);
    Seq::<Named>::empty().lemma_filter_push(list[0], keep);
    lemma_none_named(Seq::<Named>::empty(), name);
    if list[0].0 == name {
        assert(first.filter(keep) =~= first);
    } else {
        assert(first.filter(keep) =~= Seq::empty());
        assert(Seq::<Named>::empty() + with_name(list.skip(1), name) =~= with_name(
            list.skip(1),
            name,
        ));
    }
}

proof fn lemma_named_member(list: Seq<Named>, name: Seq<char>)
    requires
        with_name(list, name).len() > 0,
    ensures
        exists|i: int| 0 <= i < list.len() && (#[trigger] list[i]).0 == name,
{
    if forall|i: int| 0 <= i < list.len() ==> (#[trigger] list[i]).0 != name {
        lemma_none_named(list, name);
    }
}

/// Only one list holds given sessions from the last name to the first.
pub proof fn lemma_newest_first_unique(a: Seq<Named>, b: Seq<Named>, items: Seq<Named>)
    requires
        is_newest_first(a, items),
        is_newest_first(b, items),
    ensures
        a == b,
{
    assert forall|name: Seq<char>| #[trigger] with_name(a, name) == with_name(b, name) by {
        assert(with_name(a, name) == with_name(items, name));
        assert(with_name(b, name) == with_name(items, name));
    }
    lemma_descending_unique(a, b);
}

proof fn lemma_descending_unique(a: Seq<Named>, b: Seq<Named>)
    requires
        descending(a),
        descending(b),
        forall|name: Seq<char>| #[trigger] with_name(a, name) == with_name(b, name),
    ensures
        a == b,
    decreases a.len(),
{
    if a.len() == 0 {
        if b.len() > 0 {
            lemma_with_name_front(b, b[0].0);
            lemma_none_named(a, b[0].0);
            assert(with_name(a, b[0].0) == with_name(b, b[0].0));
        }
        assert(a =~= b);
    } else {
        let name = a[0].0;
        lemma_with_name_front(a, name);
        assert(with_name(a, name) == with_name(b, name));
        lemma_named_member(b, name);
        let k = choose|k: int| 0 <= k < b.len() && (#[trigger] b[k]).0 == name;
        lemma_with_name_front(b, b[0].0);
        assert(with_name(a, b[0].0) == with_name(b, b[0].0));
        lemma_named_member(a, b[0].0);
        let m = choose|m: int| 0 <= m < a.len() && (#[trigger] a[m]).0 == b[0].0;
        assert(b[0].0 == name) by {
            crate::order::lemma_lex_total(
                crate::order::code_points(name),
                crate::order::code_points(b[0].0),
            );
            if crate::order::code_points(name) == crate::order::code_points(b[0].0) {
                crate::order::lemma_code_points_injective(name, b[0].0);
            }
            if m > 0 {
                assert(!text_less(a[0].0, a[m].0));
            }
            if k > 0 {
                assert(!text_less(b[0].0, b[k].0));
            }
        }
        lemma_with_name_front(b, name);
        assert(with_name(a, name)[0] == a[0]);
        assert(with_name(b, name)[0] == b[0]);
        let x = a.skip(1);
        let y = b.skip(1);
        assert forall|n: Seq<char>| #[trigger] with_name(x, n) == with_name(y, n) by {
            assert(with_name(a, n) == with_name(b, n));
            lemma_with_name_front(a, n);
            lemma_with_name_front(b, n);
            if n == name {
                assert(with_name(x, n) =~= with_name(a, n).skip(1));
                assert(with_name(y, n) =~= with_name(b, n).skip(1));
            }
        }
        assert(descending(x)) by {
            assert forall|i: int, j: int| 0 <= i < j < x.len() implies !text_less(
                (#[trigger] x[i]).0,
                (#[trigger] x[j]).0,
            ) by {
                assert(!text_less(a[i + 1].0, a[j + 1].0));
            }
        }
        assert(descending(y)) by {
            assert forall|i: int, j: int| 0 <= i < j < y.len() implies !text_less(
                (#[trigger] y[i]).0,
                (#[trigger] y[j]).0,
            ) by {
                assert(!text_less(b[i + 1].0, b[j + 1].0));
            }
        }
        lemma_descending_unique(x, y);
        assert(a =~= seq![a[0]] + x);
        assert(b =~= seq![b[0]] + y);
    }
}

/// Pruning spares the `keep` newest sessions and every session that is still being written, and
/// takes every other one.
pub proof fn lemma_prune_spares(list: Seq<ListedSession>, keep: nat)
    ensures
        forall|path: Seq<char>| #[trigger]
            surplus(list, keep).contains(path) <==> exists|i: int|
                keep <= i < list.len() && is_removable(#[trigger] list[i]) && list[i].path@ == path,
{
    let removable = |s: ListedSession| is_removable(s);
    if list.len() > keep {
        let rest = list.skip(keep as int);
        let taken = rest.filter(removable);
        assert forall|path: Seq<char>| #[trigger]
            surplus(list, keep).contains(path) <==> exists|i: int|
                keep <= i < list.len() && is_removable(#[trigger] list[i]) && list[i].path@
                    == path by {
            if surplus(list, keep).contains(path) {
                let k = choose|k: int|
                    0 <= k < surplus(list, keep).len() && surplus(list, keep)[k] == path;
                rest.lemma_filter_pred(removable, k);
                assert(taken.contains(taken[k]));
                rest.lemma_filter_contains_rev(removable, taken[k]);
                let j = choose|j: int| 0 <= j < rest.len() && rest[j] == taken[k];
                assert(list[keep + j] == taken[k]);
            }
            if exists|i: int|
                keep <= i < list.len() && is_removable(#[trigger] list[i]) && list[i].path@
                    == path {
                let i = choose|i: int|
                    keep <= i < list.len() && is_removable(#[trigger] list[i]) && list[i].path@
                        == path;
                assert(rest[i - keep] == list[i]);
                rest.lemma_filter_contains(removable, i - keep);
                let k = choose|k: int| 0 <= k < taken.len() && taken[k] == list[i];
                assert(surplus(list, keep)[k] == path);
            }
        }
    }
}

/// What is left of a list of sessions after pruning.
pub open spec fn pruned(list: Seq<ListedSession>, keep: nat) -> Seq<ListedSession> {
    if list.len() <= keep {
        list
    } else {
        list.take(keep as int) + list.skip(keep as int).filter(
            |s: ListedSession| !is_removable(s),
        )
    }
}

/// Pruning twice takes no more than pruning once.
pub proof fn lemma_prune_twice(list: Seq<ListedSession>, keep: nat)
    ensures
        surplus(pruned(list, keep), keep) == Seq::<Seq<char>>::empty(),
{
    let kept = |s: ListedSession| !is_removable(s);
    let left = pruned(list, keep);
    if list.len() > keep && left.len() > keep {
        let rest = list.skip(keep as int).filter(kept);
        assert(left.skip(keep as int) =~= rest);
        lemma_prune_spares(left, keep);
        let again = surplus(left, keep);
        if again.len() > 0 {
            assert(again.contains(again[0]));
            let i = choose|i: int|
                keep <= i < left.len() && is_removable(#[trigger] left[i]) && left[i].path@
                    == again[0];
            assert(rest[i - keep] == left[i]);
            list.skip(keep as int).lemma_filter_pred(kept, i - keep);
        }
        assert(again =~= Seq::<Seq<char>>::empty());
    }
}

/// One more session at the old end of a list: it is removed exactly where enough newer ones stay and
/// it is not being written, that is where it has a summary, or no log, or a log that nothing was
/// written to for long.
pub proof fn lemma_one_more_to_prune(list: Seq<ListedSession>, session: ListedSession, keep: nat)
    ensures
        surplus(list.push(session), keep) == (if list.len() >= keep && (session.has_summary
            || !session.has_events || session.stale) {
            surplus(list, keep).push(session.path@)
        } else {
            surplus(list, keep)
        }),
        surplus(Seq::empty(), keep) == Seq::<Seq<char>>::empty(),
{
    let removable = |s: ListedSession| is_removable(s);
    let path = |s: ListedSession| s.path@;
    let more = list.push(session);
    if list.len() >= keep {
        let rest = list.skip(keep as int);
        assert(more.skip(keep as int) =~= rest.push(session));
        rest.lemma_filter_push(session, removable);
        if list.len() == keep {
            assert(rest =~= Seq::empty());
            reveal(Seq::filter);
            assert(rest.filter(removable) =~= Seq::empty());
        }
        assert(surplus(list, keep) =~= rest.filter(removable).map_values(path));
        if is_removable(session) {
            assert(rest.filter(removable).push(session).map_values(path) =~= rest.filter(
                removable,
            ).map_values(path).push(session.path@));
        }
    }
}

/// A session is open where it has a log and no summary, however long nothing was written to it.
pub proof fn lemma_open_session(path: String, has_summary: bool, has_events: bool, stale: bool)
    ensures
        is_open(ListedSession { path, has_summary, has_events, stale }) == (has_events
            && !has_summary),
{
}

/// The sessions of a directory are the directories in it that have a name; they are listed with their
/// names and paths, all of them, each as often as it was found, and never one before another whose
/// name comes later.
pub proof fn lemma_what_is_listed(list: Seq<Named>, found: Seq<FoundEntry>)
    requires
        is_newest_first(list, sessions_among(found)),
    ensures
        forall|name: Seq<char>, path: Seq<char>| #[trigger]
            list.contains((name, path)) <==> exists|i: int|
                0 <= i < found.len() && (#[trigger] found[i]).is_dir && found[i].path@ == path && (
                found[i].name matches Some(text) && text@ == name),
        forall|i: int, j: int|
            0 <= i < j < list.len() ==> !text_less((#[trigger] list[i]).0, (#[trigger] list[j]).0),
{
    let items = sessions_among(found);
    assert forall|name: Seq<char>, path: Seq<char>| #[trigger]
        list.contains((name, path)) <==> exists|i: int|
            0 <= i < found.len() && (#[trigger] found[i]).is_dir && found[i].path@ == path && (
            found[i].name matches Some(text) && text@ == name) by {
        let s = (name, path);
        assert(with_name(list, name) == with_name(items, name));
        lemma_with_name_contains(list, s);
        lemma_with_name_contains(items, s);
        lemma_among(found, s);
        if items.contains(s) {
            let i = choose|i: int| 0 <= i < found.len() && session_of(#[trigger] found[i]) == Some(s);
            assert(found[i].is_dir);
        }
        if exists|i: int|
            0 <= i < found.len() && (#[trigger] found[i]).is_dir && found[i].path@ == path && (
            found[i].name matches Some(text) && text@ == name) {
            let i = choose|i: int|
                0 <= i < found.len() && (#[trigger] found[i]).is_dir && found[i].path@ == path && (
                found[i].name matches Some(text) && text@ == name);
            assert(session_of(found[i]) == Some(s));
        }
    }
}

proof fn lemma_with_name_contains(list: Seq<Named>, s: Named)
    ensures
        with_name(list, s.0).contains(s) <==> list.contains(s),
{
    let keep = has_name(s.0);
    if list.contains(s) {
        let i = choose|i: int| 0 <= i < list.len() && list[i] == s;
        list.lemma_filter_contains(keep, i);
    }
    if with_name(list, s.0).contains(s) {
        list.lemma_filter_contains_rev(keep, s);
    }
}

proof fn lemma_among(found: Seq<FoundEntry>, s: Named)
    ensures
        sessions_among(found).contains(s) <==> exists|i: int|
            0 <= i < found.len() && session_of(#[trigger] found[i]) == Some(s),
    decreases found.len(),
{
    let read = |entry: FoundEntry| session_of(entry);
    reveal(Seq::filter_map);
    if found.len() > 0 {
        let n = found.len() - 1;
        let front = found.take(n);
        lemma_among(front, s);
        found.lemma_filter_map_take_succ(read, n);
        assert(found.take(n + 1) =~= found);
        let before = sessions_among(front);
        let all = sessions_among(found);
        if before.contains(s) {
            let k = choose|k: int| 0 <= k < before.len() && before[k] == s;
            assert(all[k] == s);
            let i = choose|i: int| 0 <= i < front.len() && session_of(#[trigger] front[i]) == Some(s);
            assert(session_of(found[i]) == Some(s));
        }
        if session_of(found[n]) == Some(s) {
            assert(all[before.len() as int] == s);
        }
        if all.contains(s) && !before.contains(s) {
            let k = choose|k: int| 0 <= k < all.len() && all[k] == s;
            if k < before.len() {
                assert(before[k] == s);
            }
            assert(session_of(found[n]) == Some(s));
        }
        if exists|i: int| 0 <= i < found.len() && session_of(#[trigger] found[i]) == Some(s) {
            let i = choose|i: int| 0 <= i < found.len() && session_of(#[trigger] found[i]) == Some(s);
            if i < n {
                assert(front[i] == found[i]);
            }
        }
    }
}

/// One more line in an event log is one more event, unless it is blank.
pub proof fn lemma_one_more_log_line(before: Seq<char>, line: Seq<char>)
    requires
        is_whole_lines(before),
        is_line(line),
    ensures
        entries(before + line.push('\n')) == (if is_blank(line) {
            entries(before)
        } else {
            entries(before).push(without_cr(line))
        }),
        entries(Seq::empty()) == Seq::<Seq<char>>::empty(),
{
    let keep = |line: Seq<char>| !is_blank(line);
    let shown = without_cr(line);
    lemma_lines_add(before, line.push('\n'));
    lemma_one_line(line);
    lemma_no_lines();
    reveal(Seq::filter);
    assert(lines(before) + seq![shown] =~= lines(before).push(shown));
    lines(before).lemma_filter_push(shown, keep);
    assert(is_blank(shown) <==> is_blank(line)) by {
        if is_blank(line) {
            assert forall|i: int| 0 <= i < shown.len() implies is_space(#[trigger] shown[i]) by {
                assert(is_space(line[i]));
            }
        }
        if is_blank(shown) {
            assert forall|i: int| 0 <= i < line.len() implies is_space(#[trigger] line[i]) by {
                if i < shown.len() {
                    assert(shown[i] == line[i]);
                }
            }
        }
    }
    assert(entries(Seq::empty()) =~= Seq::<Seq<char>>::empty());
}

/// The name of a file in the directory of differences is its path with an underscore for every
/// separator, and every other character as it is.
pub proof fn lemma_flat_name(name: Seq<char>, i: int)
    requires
        0 <= i < name.len(),
    ensures
        flat_name(name).len() == name.len(),
        name[i] == '/' ==> flat_name(name)[i] == '_',
        name[i] != '/' ==> flat_name(name)[i] == name[i],
{
}

/// What a session that starts as it should, and its first event, hold.
pub proof fn lemma_what_a_start_holds(
    session: Session,
    event: SessionStartEvent,
    sessions_dir: Seq<char>,
    start: Timestamp,
    command: Seq<char>,
    workspace: Seq<char>,
    pid: u32,
)
    requires
        starts(session, event, sessions_dir, start, command, workspace, pid),
        sessions_dir.len() > 0,
        sessions_dir.last() != '/',
        session.id@.len() > 0,
        session.id@[0] != '/',
    ensures
        session.dir@ == sessions_dir + seq!['/'] + session.id@,
        session.start_time == start,
        event.timestamp == start,
        event.command@ == command,
        event.workspace@ == workspace,
        event.pid == pid,
{
}

/// A list of sessions holds each with its name and its directory.
pub proof fn lemma_what_a_session_list_holds(list: Seq<SessionEntry>, entry: SessionEntry)
    ensures
        sessions_of(list.push(entry)) == sessions_of(list).push((entry.name@, entry.path@)),
        sessions_of(list).len() == list.len(),
{
    assert(sessions_of(list.push(entry)) =~= sessions_of(list).push((entry.name@, entry.path@)));
}

/// At most fifty mebibytes are kept of what the child writes to its terminal.
pub proof fn lemma_terminal_output_kept()
    ensures
        MAX_TERMINAL_RAW_BYTES == 50 * 1024 * 1024,
{
}

} // verus!
