//! What the commands of the program say and decide.

use vstd::prelude::*;
use vstd::utf8::encode_utf8;

use crate::diff::DiffResult;
use crate::events::{Event, NetworkEvent, Protocol, SessionEndEvent};
use crate::number::{decimal, format_i32, format_u128, format_u64, format_usize, signed_decimal};
use crate::path::{file_name, file_name_of, join_path, joined};
use crate::process::{placeholder_argv, unknown_argv};
use crate::pty::PtyResult;
use crate::report::{change_count, plain};
use crate::report_layout::{lemma_bare_empty, lemma_bare_push};
use crate::session::{ConnectionSummary, Session, SessionEntry, SessionSummary, SubprocessSummary};
use crate::style::{add_span, bare, paint_all, renders, spans, Piece, Span, Style};
use crate::text::{
    blank, chars_of, clone_strings, contains, has_infix, has_prefix, is_blank, lowercase,
    first_position, lemma_filter_map_contains, starts_with, string_between, texts, to_lowercase,
};
use crate::time::{is_clock_time, Duration, Timestamp};

verus! {

/// The first of three paths that is there, or the current directory by its short name.
pub fn choose_workspace(
    given: Option<String>,
    configured: Option<String>,
    current: Option<String>,
) -> (r: String)
    ensures
        given is Some ==> r@ == given->0@,
        given is None && configured is Some ==> r@ == configured->0@,
        given is None && configured is None && current is Some ==> r@ == current->0@,
        given is None && configured is None && current is None ==> r@ == "."@,
{
    match given {
        Some(dir) => dir,
        None => match configured {
            Some(dir) => dir,
            None => match current {
                Some(dir) => dir,
                None => ".".to_owned(),
            },
        },
    }
}

/// Where to send what the child writes.
#[derive(Debug, Clone, Copy, PartialEq, Eq, Structural)]
pub enum Sink {
    Nowhere,
    Stderr,
    Stdout,
}

/// Where to send what the child writes: away from where the summary goes, and nowhere where nothing
/// but the summary is wanted.
pub fn child_output(json: bool, quiet: bool) -> (r: Sink)
    ensures
        r == (if json && quiet {
            Sink::Nowhere
        } else if json {
            Sink::Stderr
        } else {
            Sink::Stdout
        }),
{
    if json && quiet {
        Sink::Nowhere
    } else if json {
        Sink::Stderr
    } else {
        Sink::Stdout
    }
}

/// What to print when a session is over.
#[derive(Debug, Clone, Copy, PartialEq, Eq, Structural)]
pub enum Closing {
    /// The summary as JSON.
    Json,
    /// The report.
    Report,
    Nothing,
}

/// What to print when a session is over.
pub fn closing(json: bool, quiet: bool) -> (r: Closing)
    ensures
        r == (if json {
            Closing::Json
        } else if quiet {
            Closing::Nothing
        } else {
            Closing::Report
        }),
{
    if json {
        Closing::Json
    } else if quiet {
        Closing::Nothing
    } else {
        Closing::Report
    }
}

/// A line about the program itself: its name, faint, and a text.
pub open spec fn note_pieces(text: Seq<char>, emphasis: Seq<char>) -> Seq<Piece> {
    seq![("postflight:"@, Style::Dimmed), plain(text), (emphasis, Style::Bold)]
}

/// The line that tells which command is being recorded, as a terminal gets it.
pub fn recording_note(command: &str) -> (r: String)
    ensures
        renders(r@, note_pieces(" recording session for: "@, command@)),
{
    let mut out: Vec<Span> = Vec::new();
    add_span(&mut out, "postflight:", Style::Dimmed);
    add_span(&mut out, " recording session for: ", Style::Plain);
    add_span(&mut out, command, Style::Bold);
    assert(spans(out@) =~= note_pieces(" recording session for: "@, command@));
    paint_all(&out)
}

/// A line about the program itself: its name, faint, and a text.
pub open spec fn plain_note_pieces(text: Seq<char>) -> Seq<Piece> {
    seq![("postflight:"@, Style::Dimmed), plain(" "@ + text)]
}

fn plain_note(text: &str) -> (r: String)
    ensures
        renders(r@, plain_note_pieces(text@)),
{
    let mut rest = " ".to_owned();
    rest.append(text);
    let mut out: Vec<Span> = Vec::new();
    add_span(&mut out, "postflight:", Style::Dimmed);
    add_span(&mut out, rest.as_str(), Style::Plain);
    assert(spans(out@) =~= plain_note_pieces(text@));
    paint_all(&out)
}

fn in_a_row(first: &str, second: &str) -> (r: String)
    ensures
        r@ == first@ + second@,
{
    let mut out = first.to_owned();
    out.append(second);
    out
}

/// The line that tells which workspace is observed, as a terminal gets it.
pub fn workspace_note(workspace: &str) -> (r: String)
    ensures
        renders(r@, plain_note_pieces("workspace: "@ + workspace@)),
{
    plain_note(in_a_row("workspace: ", workspace).as_str())
}

/// The line that tells where a session was saved, as a terminal gets it.
pub fn saved_note(dir: &str) -> (r: String)
    ensures
        renders(r@, plain_note_pieces("session saved to "@ + dir@)),
{
    plain_note(in_a_row("session saved to ", dir).as_str())
}

/// Tests whether it is told that sessions were removed: where there were any, unless all notes are
/// unwanted.
pub fn tells_pruned(pruned: usize, quiet: bool) -> (r: bool)
    ensures
        r == (pruned > 0 && !quiet),
{
    pruned > 0 && !quiet
}

/// The line that tells how many sessions were pruned, as a terminal gets it.
pub fn pruned_note(count: usize) -> (r: String)
    ensures
        renders(r@, plain_note_pieces("pruned "@ + decimal(count as nat) + " old session(s)"@)),
{
    let mut text = in_a_row("pruned ", format_usize(count).as_str());
    text.append(" old session(s)");
    plain_note(text.as_str())
}

/// The line over the differences of changed files, as a terminal gets it.
pub fn diffs_title() -> (r: String)
    ensures
        renders(
            r@,
            seq![("\u{2501}\u{2501}\u{2501} diffs \u{2501}\u{2501}\u{2501}"@, Style::Bold)],
        ),
{
    let mut out: Vec<Span> = Vec::new();
    add_span(
        &mut out,
        "\u{2501}\u{2501}\u{2501} diffs \u{2501}\u{2501}\u{2501}",
        Style::Bold,
    );
    assert(spans(out@) =~= seq![
        ("\u{2501}\u{2501}\u{2501} diffs \u{2501}\u{2501}\u{2501}"@, Style::Bold),
    ]);
    paint_all(&out)
}

/// Tests whether a difference is worth keeping: unless it is blank.
pub fn keeps_diff(diff: &str) -> (r: bool)
    ensures
        r == !is_blank(diff@),
{
    !blank(&chars_of(diff))
}

/// The sum of the sizes that are known.
pub open spec fn size_sum(sizes: Seq<Option<u64>>) -> nat
    decreases sizes.len(),
{
    if sizes.len() == 0 {
        0
    } else {
        size_sum(sizes.drop_last()) + (match sizes.last() {
            Some(size) => size as nat,
            None => 0,
        })
    }
}

fn add_sizes(start: u64, sizes: &Vec<Option<u64>>) -> (r: Option<u64>)
    ensures
        match r {
            Some(sum) => sum == start + size_sum(sizes@),
            None => start + size_sum(sizes@) > u64::MAX,
        },
{
    let mut sum: u64 = start;
    let mut i: usize = 0;
    assert(sizes@.take(0) =~= Seq::empty());
    while i < sizes.len()
        invariant
            i <= sizes@.len(),
            sum == start + size_sum(sizes@.take(i as int)),
        decreases sizes@.len() - i,
    {
        proof {
            assert(sizes@.take(i + 1).drop_last() =~= sizes@.take(i as int));
            assert(sizes@.take(i + 1).last() == sizes@[i as int]);
            lemma_sum_grows(sizes@, i + 1);
        }
        match sizes[i] {
            Some(size) => match sum.checked_add(size) {
                Some(next) => {
                    sum = next;
                },
                None => {
                    return None;
                },
            },
            None => {},
        }
        i += 1;
    }
    assert(sizes@.take(i as int) =~= sizes@);
    Some(sum)
}

proof fn lemma_sum_grows(sizes: Seq<Option<u64>>, n: int)
    requires
        0 <= n <= sizes.len(),
    ensures
        size_sum(sizes.take(n)) <= size_sum(sizes),
    decreases sizes.len() - n,
{
    if n < sizes.len() {
        lemma_sum_grows(sizes, n + 1);
        assert(sizes.take(n + 1).drop_last() =~= sizes.take(n));
    } else {
        assert(sizes.take(n) =~= sizes);
    }
}

/// How many bytes the files hold that a session created or modified, as far as their sizes are
/// known; nothing where the number is too large.
pub fn total_bytes(created: &Vec<Option<u64>>, modified: &Vec<Option<u64>>) -> (r: Option<u64>)
    ensures
        match r {
            Some(sum) => sum == size_sum(created@) + size_sum(modified@),
            None => size_sum(created@) + size_sum(modified@) > u64::MAX,
        },
{
    match add_sizes(0, created) {
        Some(sum) => add_sizes(sum, modified),
        None => None,
    }
}

/// What tells the connections of a summary apart: host, port and protocol.
pub type Peer = (Seq<char>, u16, Protocol);

/// The peer that an event tells of.
pub open spec fn event_peer(event: Event) -> Option<Peer> {
    match event {
        Event::NetworkConnection(e) => Some((e.remote_host@, e.remote_port, e.protocol)),
        _ => None,
    }
}

/// `list` without what occurred in it before.
pub open spec fn once_each(list: Seq<Peer>) -> Seq<Peer>
    decreases list.len(),
{
    if list.len() == 0 {
        Seq::empty()
    } else {
        let before = once_each(list.drop_last());
        if list.drop_last().contains(list.last()) {
            before
        } else {
            before.push(list.last())
        }
    }
}

/// The name of a protocol, in lower case.
pub open spec fn protocol_name(protocol: Protocol) -> Seq<char> {
    match protocol {
        Protocol::Tcp => "tcp"@,
        Protocol::Udp => "udp"@,
    }
}

/// The peers of an event log, in its order.
pub open spec fn logged_peers(events: Seq<Event>) -> Seq<Peer> {
    events.filter_map(|e: Event| event_peer(e))
}

/// The connections that a list holds.
pub open spec fn summaries(list: Seq<ConnectionSummary>) -> Seq<(Seq<char>, u16, Seq<char>)> {
    list.map_values(|c: ConnectionSummary| (c.remote_host@, c.remote_port, c.protocol@))
}

/// The peers with the names of their protocols.
pub open spec fn named_peers(list: Seq<Peer>) -> Seq<(Seq<char>, u16, Seq<char>)> {
    list.map_values(|p: Peer| (p.0, p.1, protocol_name(p.2)))
}

fn name_protocol(protocol: Protocol) -> (r: String)
    ensures
        r@ == protocol_name(protocol),
{
    match protocol {
        Protocol::Tcp => "tcp".to_owned(),
        Protocol::Udp => "udp".to_owned(),
    }
}

fn same_protocol(name: &String, protocol: Protocol) -> (r: bool)
    ensures
        r == (name@ == protocol_name(protocol)),
{
    *name == name_protocol(protocol)
}

proof fn lemma_protocol_names(a: Protocol, b: Protocol)
    ensures
        protocol_name(a) == protocol_name(b) ==> a == b,
{
    reveal_strlit("tcp");
    reveal_strlit("udp");
    assert("tcp"@[0] != "udp"@[0]);
}

/// Whatever is in the list stays in it once, and nothing else comes in.
pub proof fn lemma_once_each(list: Seq<Peer>)
    ensures
        once_each(list).no_duplicates(),
        forall|p: Peer| #[trigger] once_each(list).contains(p) <==> list.contains(p),
    decreases list.len(),
{
    if list.len() > 0 {
        let front = list.drop_last();
        let before = once_each(front);
        let all = once_each(list);
        lemma_once_each(front);
        assert(before.contains(list.last()) <==> front.contains(list.last()));
        assert(all.no_duplicates()) by {
            assert forall|i: int, j: int| 0 <= i < j < all.len() implies all[i] != all[j] by {
                assert(before[i] == all[i]);
                assert(before.contains(before[i]));
                if j < before.len() {
                    assert(before[j] == all[j]);
                }
            }
        }
        assert forall|p: Peer| #[trigger] all.contains(p) <==> list.contains(p) by {
            assert(before.contains(p) <==> front.contains(p));
            if front.contains(p) {
                let j = choose|j: int| 0 <= j < front.len() && front[j] == p;
                assert(list[j] == p);
            }
            if list.contains(p) {
                let j = choose|j: int| 0 <= j < list.len() && list[j] == p;
                if j < front.len() {
                    assert(front[j] == p);
                }
            }
            if before.contains(p) {
                let j = choose|j: int| 0 <= j < before.len() && before[j] == p;
                assert(all[j] == p);
            }
            if all.contains(p) {
                let j = choose|j: int| 0 <= j < all.len() && all[j] == p;
                if j < before.len() {
                    assert(before[j] == p);
                }
            }
            if p == list.last() {
                assert(list[list.len() - 1] == p);
                if all.len() > before.len() {
                    assert(all[before.len() as int] == p);
                }
            }
        }
    }
}

fn listed(list: &Vec<ConnectionSummary>, event: &NetworkEvent) -> (r: bool)
    ensures
        r == summaries(list@).contains(
            (event.remote_host@, event.remote_port, protocol_name(event.protocol)),
        ),
{
    let ghost all = summaries(list@);
    let ghost wanted = (event.remote_host@, event.remote_port, protocol_name(event.protocol));
    let mut i: usize = 0;
    while i < list.len()
        invariant
            i <= list@.len(),
            all == summaries(list@),
            wanted == (event.remote_host@, event.remote_port, protocol_name(event.protocol)),
            forall|j: int| 0 <= j < i ==> #[trigger] all[j] != wanted,
        decreases list@.len() - i,
    {
        let known = &list[i];
        assert(all[i as int] == (known.remote_host@, known.remote_port, known.protocol@));
        if known.remote_port == event.remote_port && known.remote_host == event.remote_host
            && same_protocol(&known.protocol, event.protocol) {
            return true;
        }
        i += 1;
    }
    false
}

proof fn lemma_named_member(list: Seq<Peer>, p: Peer)
    ensures
        named_peers(list).contains((p.0, p.1, protocol_name(p.2))) == list.contains(p),
{
    let all = named_peers(list);
    let wanted = (p.0, p.1, protocol_name(p.2));
    if all.contains(wanted) {
        let j = choose|j: int| 0 <= j < all.len() && all[j] == wanted;
        lemma_protocol_names(list[j].2, p.2);
        assert(list[j] == p);
    }
    if list.contains(p) {
        let j = choose|j: int| 0 <= j < list.len() && list[j] == p;
        assert(all[j] == wanted);
    }
}

/// The connections of an event log, each once whichever process made it, in the order of the log.
pub fn summarize_connections(events: &Vec<Event>) -> (r: Vec<ConnectionSummary>)
    ensures
        summaries(r@) == named_peers(once_each(logged_peers(events@))),
{
    let ghost read = |e: Event| event_peer(e);
    let mut out: Vec<ConnectionSummary> = Vec::new();
    let mut i: usize = 0;
    proof {
        reveal(Seq::filter_map);
        assert(events@.take(0) =~= Seq::empty());
        assert(events@.take(0).filter_map(read) =~= Seq::empty());
        assert(summaries(out@) =~= named_peers(once_each(events@.take(0).filter_map(read))));
    }
    while i < events.len()
        invariant
            i <= events@.len(),
            read == (|e: Event| event_peer(e)),
            summaries(out@) == named_peers(once_each(events@.take(i as int).filter_map(read))),
        decreases events@.len() - i,
    {
        let ghost peers = events@.take(i as int).filter_map(read);
        let ghost kept = once_each(peers);
        let ghost next = events@.take(i + 1).filter_map(read);
        let ghost before = summaries(out@);
        proof {
            events@.lemma_filter_map_take_succ(read, i as int);
        }
        match &events[i] {
            Event::NetworkConnection(event) => {
                let ghost peer = (event.remote_host@, event.remote_port, event.protocol);
                proof {
                    assert(next =~= peers.push(peer));
                    assert(next.drop_last() =~= peers);
                    lemma_once_each(peers);
                    lemma_named_member(kept, peer);
                    assert(kept.contains(peer) <==> peers.contains(peer));
                }
                if !listed(&out, event) {
                    let summary = ConnectionSummary {
                        remote_host: event.remote_host.clone(),
                        remote_port: event.remote_port,
                        protocol: name_protocol(event.protocol),
                    };
                    let ghost added = (
                        summary.remote_host@,
                        summary.remote_port,
                        summary.protocol@,
                    );
                    out.push(summary);
                    assert(summaries(out@) =~= before.push(added));
                    assert(named_peers(kept.push(peer)) =~= named_peers(kept).push(added));
                }
            },
            _ => {
                assert(next =~= peers);
            },
        }
        i += 1;
    }
    assert(events@.take(i as int) =~= events@);
    out
}

/// Whether event number `i` is the first to tell of the start of a process.
pub open spec fn is_first_spawn(events: Seq<Event>, pid: u32, i: int) -> bool {
    &&& 0 <= i < events.len()
    &&& spawns(events[i], pid)
    &&& forall|j: int| 0 <= j < i ==> !spawns(#[trigger] events[j], pid)
}

/// Whether an event tells of the start of a process.
pub open spec fn spawns(event: Event, pid: u32) -> bool {
    event matches Event::ProcessSpawned(e) && e.pid == pid
}

/// The arguments of a process by an event log: those of the first event that tells of its start.
pub open spec fn logged_argv(events: Seq<Event>, pid: u32) -> Seq<Seq<char>> {
    if exists|i: int| is_first_spawn(events, pid, i) {
        let i = choose|i: int| is_first_spawn(events, pid, i);
        texts(events[i]->ProcessSpawned_0.argv@)
    } else {
        unknown_argv(pid as nat)
    }
}

/// A subprocess in a summary: arguments, exit code and how long it ran.
pub type Run = (Seq<Seq<char>>, Option<i32>, Duration);

/// The subprocess that an event of a log tells the end of.
pub open spec fn event_run(events: Seq<Event>, event: Event) -> Option<Run> {
    match event {
        Event::ProcessExited(e) => Some((logged_argv(events, e.pid), e.exit_code, e.duration)),
        _ => None,
    }
}

/// The subprocesses that a list holds.
pub open spec fn runs(list: Seq<SubprocessSummary>) -> Seq<Run> {
    list.map_values(|s: SubprocessSummary| (texts(s.argv@), s.exit_code, s.duration))
}

fn find_argv(events: &Vec<Event>, pid: u32) -> (r: Vec<String>)
    ensures
        texts(r@) == logged_argv(events@, pid),
{
    let mut i: usize = 0;
    while i < events.len()
        invariant
            i <= events@.len(),
            forall|j: int| 0 <= j < i ==> !spawns(#[trigger] events@[j], pid),
        decreases events@.len() - i,
    {
        match &events[i] {
            Event::ProcessSpawned(event) => {
                if event.pid == pid {
                    proof {
                        assert(is_first_spawn(events@, pid, i as int));
                        let k = choose|k: int| is_first_spawn(events@, pid, k);
                        assert(is_first_spawn(events@, pid, k));
                        assert(k == i) by {
                            if k < i {
                                assert(!spawns(events@[k], pid));
                            } else if i < k {
                                assert(!spawns(events@[i as int], pid));
                            }
                        }
                    }
                    return clone_strings(&event.argv);
                }
            },
            _ => {},
        }
        i += 1;
    }
    proof {
        assert forall|k: int| !is_first_spawn(events@, pid, k) by {
            if is_first_spawn(events@, pid, k) {
                assert(!spawns(events@[k], pid));
            }
        }
    }
    placeholder_argv(pid)
}

/// The subprocesses that an event log tells the end of, in its order, each with the arguments that
/// the log has for it.
pub fn summarize_subprocesses(events: &Vec<Event>) -> (r: Vec<SubprocessSummary>)
    ensures
        runs(r@) == events@.filter_map(|e: Event| event_run(events@, e)),
{
    let ghost read = |e: Event| event_run(events@, e);
    let mut out: Vec<SubprocessSummary> = Vec::new();
    let mut i: usize = 0;
    proof {
        reveal(Seq::filter_map);
        assert(events@.take(0) =~= Seq::empty());
        assert(runs(out@) =~= events@.take(0).filter_map(read));
    }
    while i < events.len()
        invariant
            i <= events@.len(),
            read == (|e: Event| event_run(events@, e)),
            runs(out@) == events@.take(i as int).filter_map(read),
        decreases events@.len() - i,
    {
        let ghost before = runs(out@);
        proof {
            events@.lemma_filter_map_take_succ(read, i as int);
        }
        match &events[i] {
            Event::ProcessExited(event) => {
                let summary = SubprocessSummary {
                    argv: find_argv(events, event.pid),
                    exit_code: event.exit_code,
                    duration: event.duration,
                };
                let ghost added = (texts(summary.argv@), summary.exit_code, summary.duration);
                out.push(summary);
                assert(runs(out@) =~= before.push(added));
            },
            _ => {},
        }
        i += 1;
        assert(runs(out@) =~= events@.take(i as int).filter_map(read));
    }
    assert(events@.take(i as int) =~= events@);
    out
}

/// What is kept of a session that is over, and the last event of its log.
pub fn close_session(
    session: &Session,
    command: &str,
    workspace: &str,
    result: PtyResult,
    changes: DiffResult,
    read: Vec<String>,
    connections: Vec<ConnectionSummary>,
    subprocesses: Vec<SubprocessSummary>,
    total: u64,
) -> (r: (SessionSummary, Event))
    ensures
        r.0.id@ == session.id@,
        r.0.command@ == command@,
        r.0.workspace@ == workspace@,
        r.0.start_time == session.start_time,
        r.0.duration == result.duration,
        r.0.exit_code == result.exit_code,
        r.0.files_created == changes.created,
        r.0.files_modified == changes.modified,
        r.0.files_deleted == changes.deleted,
        r.0.files_read == read,
        r.0.network_connections == connections,
        r.0.subprocesses == subprocesses,
        r.0.total_bytes_written == total,
        r.1 matches Event::SessionEnd(e) && e.exit_code == result.exit_code && e.duration
            == result.duration && is_clock_time(e.timestamp),
{
    let summary = SessionSummary {
        id: session.id.clone(),
        command: command.to_owned(),
        workspace: workspace.to_owned(),
        start_time: session.start_time,
        duration: result.duration,
        exit_code: result.exit_code,
        files_created: changes.created,
        files_modified: changes.modified,
        files_deleted: changes.deleted,
        files_read: read,
        network_connections: connections,
        subprocesses,
        total_bytes_written: total,
    };
    let end = SessionEndEvent {
        exit_code: result.exit_code,
        duration: result.duration,
        timestamp: Timestamp::now(),
    };
    (summary, Event::SessionEnd(end))
}

/// Why no session goes by a name.
#[derive(Debug, Clone)]
pub enum ResolveError {
    /// The name is empty.
    Empty,
    /// The name cannot be that of a session.
    Invalid(String),
    /// No session has a name that begins so.
    NoMatch(String),
    /// So many sessions have names that begin so.
    Ambiguous(String, usize),
}

impl ResolveError {
    /// The error in words.
    pub fn message(&self) -> (r: String)
        ensures
            r@ == (match *self {
                ResolveError::Empty => "session ID cannot be empty"@,
                ResolveError::Invalid(id) => "invalid session ID: '"@ + id@ + "'"@,
                ResolveError::NoMatch(id) => "no session matching '"@ + id@ + "'"@,
                ResolveError::Ambiguous(id, n) => "'"@ + id@ + "' is ambiguous ("@ + decimal(
                    n as nat,
                ) + " matches), be more specific"@,
            }),
    {
        match self {
            ResolveError::Empty => "session ID cannot be empty".to_owned(),
            ResolveError::Invalid(id) => {
                let mut out = in_a_row("invalid session ID: '", id.as_str());
                out.append("'");
                out
            },
            ResolveError::NoMatch(id) => {
                let mut out = in_a_row("no session matching '", id.as_str());
                out.append("'");
                out
            },
            ResolveError::Ambiguous(id, n) => {
                let mut out = in_a_row("'", id.as_str());
                out.append("' is ambiguous (");
                out.append(format_usize(*n).as_str());
                out.append(" matches), be more specific");
                out
            },
        }
    }
}

/// Whether a name could lead out of the directory of the sessions: it holds a separator, or begins
/// with a dot.
pub open spec fn is_unsafe_id(id: Seq<char>) -> bool {
    id.contains('/') || id.contains('\\') || (id.len() > 0 && id[0] == '.')
}

/// Whether a session has a name that begins so.
pub open spec fn begins_with(id: Seq<char>) -> spec_fn(SessionEntry) -> bool {
    |s: SessionEntry| has_prefix(s.name@, id)
}

/// What a name stands for: the session of that very name where there is one, and otherwise the only
/// session whose name begins so.
pub open spec fn resolves(
    id: Seq<char>,
    sessions_dir: Seq<char>,
    exact: bool,
    sessions: Seq<SessionEntry>,
    result: Result<String, ResolveError>,
) -> bool {
    let matching = sessions.filter(begins_with(id));
    if id.len() == 0 {
        result matches Err(ResolveError::Empty)
    } else if is_unsafe_id(id) {
        result matches Err(ResolveError::Invalid(name)) && name@ == id
    } else if exact {
        result matches Ok(path) && path@ == joined(sessions_dir, id)
    } else if matching.len() == 0 {
        result matches Err(ResolveError::NoMatch(name)) && name@ == id
    } else if matching.len() == 1 {
        result matches Ok(path) && path@ == matching[0].path@
    } else {
        result matches Err(ResolveError::Ambiguous(name, n)) && name@ == id && n == matching.len()
    }
}

/// Tests a name before anything is looked up by it.
pub fn check_session_id(id: &str) -> (r: Result<(), ResolveError>)
    ensures
        match r {
            Ok(_) => id@.len() > 0 && !is_unsafe_id(id@),
            Err(ResolveError::Empty) => id@.len() == 0,
            Err(ResolveError::Invalid(name)) => id@.len() > 0 && is_unsafe_id(id@) && name@ == id@,
            Err(_) => false,
        },
{
    let chars = chars_of(id);
    if chars.len() == 0 {
        return Err(ResolveError::Empty);
    }
    if first_position(&chars, '/').is_some() || first_position(
        &chars,
        '\\',
    ).is_some() || chars[0] == '.' {
        return Err(ResolveError::Invalid(id.to_owned()));
    }
    Ok(())
}

/// The directory of the session that a name stands for. `exact` tells whether there is a session of
/// that very name with an event log.
pub fn resolve_session_id(
    id: &str,
    sessions_dir: &str,
    exact: bool,
    sessions: &Vec<SessionEntry>,
) -> (r: Result<String, ResolveError>)
    ensures
        resolves(id@, sessions_dir@, exact, sessions@, r),
{
    match check_session_id(id) {
        Err(error) => {
            return Err(error);
        },
        Ok(_) => {},
    }
    if exact {
        return Ok(join_path(sessions_dir, id));
    }
    let prefix = chars_of(id);
    let ghost keep = begins_with(id@);
    let mut count: usize = 0;
    let mut found: usize = 0;
    let mut i: usize = 0;
    proof {
        reveal(Seq::filter);
        assert(sessions@.take(0) =~= Seq::empty());
        assert(sessions@.take(0).filter(keep) =~= Seq::empty());
    }
    while i < sessions.len()
        invariant
            i <= sessions.len(),
            count <= i,
            prefix@ == id@,
            keep == begins_with(id@),
            count == sessions@.take(i as int).filter(keep).len(),
            count > 0 ==> found < i && sessions@.take(i as int).filter(keep)[0]
                == sessions@[found as int],
        decreases sessions@.len() - i,
    {
        proof {
            assert(sessions@.take(i + 1) =~= sessions@.take(i as int).push(sessions@[i as int]));
            sessions@.take(i as int).lemma_filter_push(sessions@[i as int], keep);
        }
        if starts_with(&chars_of(sessions[i].name.as_str()), &prefix) {
            if count == 0 {
                found = i;
            }
            count += 1;
        }
        i += 1;
    }
    assert(sessions@.take(i as int) =~= sessions@);
    if count == 0 {
        Err(ResolveError::NoMatch(id.to_owned()))
    } else if count == 1 {
        Ok(sessions[found].path.clone())
    } else {
        Err(ResolveError::Ambiguous(id.to_owned(), count))
    }
}

/// A length of time in its two largest units.
pub open spec fn short_duration_text(secs: nat) -> Seq<char> {
    if secs < 60 {
        decimal(secs) + "s"@
    } else if secs < 3600 {
        decimal(secs / 60) + "m"@ + decimal(secs % 60) + "s"@
    } else {
        decimal(secs / 3600) + "h"@ + decimal((secs % 3600) / 60) + "m"@
    }
}

/// Writes a length of time in its two largest units.
pub fn format_duration_short(d: Duration) -> (r: String)
    ensures
        r@ == short_duration_text(d@ / 1_000_000_000),
{
    let secs: u64 = d.as_secs();
    if secs < 60 {
        let mut out = format_u64(secs);
        out.append("s");
        out
    } else if secs < 3600 {
        let mut out = format_u64(secs / 60);
        out.append("m");
        out.append(format_u64(secs % 60).as_str());
        out.append("s");
        out
    } else {
        let mut out = format_u64(secs / 3600);
        out.append("h");
        out.append(format_u64((secs % 3600) / 60).as_str());
        out.append("m");
        out
    }
}

/// The first `max` characters of a text, or all of it where it has no more.
pub open spec fn truncated(text: Seq<char>, max: nat) -> Seq<char> {
    if text.len() > max {
        text.take(max as int)
    } else {
        text
    }
}

/// The first `max_chars` characters of a text, or all of it where it has no more.
pub fn truncate_str(text: &str, max_chars: usize) -> (r: String)
    ensures
        r@ == truncated(text@, max_chars as nat),
{
    let chars = chars_of(text);
    if chars.len() > max_chars {
        let out = string_between(&chars, 0, max_chars);
        assert(out@ =~= text@.take(max_chars as int));
        out
    } else {
        text.to_owned()
    }
}

/// `text` with spaces behind it, up to a width of so many characters.
pub open spec fn padded(text: Seq<char>, width: nat) -> Seq<char> {
    if text.len() >= width {
        text
    } else {
        text + Seq::new((width - text.len()) as nat, |i: int| ' ')
    }
}

fn pad(text: &str, width: usize) -> (r: String)
    ensures
        r@ == padded(text@, width as nat),
{
    let mut n: usize = chars_of(text).len();
    let mut out = text.to_owned();
    assert(out@ =~= text@ + Seq::new(0, |i: int| ' '));
    while n < width
        invariant
            text@.len() <= n,
            n <= width || n == text@.len(),
            out@ == text@ + Seq::new((n - text@.len()) as nat, |i: int| ' '),
        decreases width - n,
    {
        out.push(' ');
        n += 1;
        assert(out@ =~= text@ + Seq::new((n - text@.len()) as nat, |i: int| ' '));
    }
    assert(out@ =~= padded(text@, width as nat));
    out
}

/// A line of the list of sessions: five columns of fixed width.
pub open spec fn row_text(
    id: Seq<char>,
    exit: Seq<char>,
    duration: Seq<char>,
    files: Seq<char>,
    command: Seq<char>,
) -> Seq<char> {
    padded(id, 20) + " "@ + padded(exit, 6) + " "@ + padded(duration, 8) + " "@ + padded(files, 7)
        + " "@ + padded(command, 30)
}

fn format_row(id: &str, exit: &str, duration: &str, files: &str, command: &str) -> (r: String)
    ensures
        r@ == row_text(id@, exit@, duration@, files@, command@),
{
    let mut out = pad(id, 20);
    out.append(" ");
    out.append(pad(exit, 6).as_str());
    out.append(" ");
    out.append(pad(duration, 8).as_str());
    out.append(" ");
    out.append(pad(files, 7).as_str());
    out.append(" ");
    out.append(pad(command, 30).as_str());
    out
}

/// A command in a column: where it takes more than 28 bytes, its first 25 characters and three dots.
pub open spec fn command_column(command: Seq<char>) -> Seq<char> {
    if encode_utf8(command).len() > 28 {
        truncated(command, 25) + "..."@
    } else {
        command
    }
}

fn shorten_command(command: &String) -> (r: String)
    ensures
        r@ == command_column(command@),
{
    let text = command.as_str();
    if text.as_bytes().len() > 28 {
        let mut out = truncate_str(text, 25);
        out.append("...");
        out
    } else {
        text.to_owned()
    }
}

/// Whether a session passes a filter: the command or the name holds the pattern. The command and the
/// pattern are compared in lower case.
pub open spec fn passes(filter: Option<Seq<char>>, id: Seq<char>, command: Seq<char>) -> bool {
    match filter {
        None => true,
        Some(pattern) => found_in(lowercase(pattern), lowercase(command), id),
    }
}

/// Whether a pattern stands in a command or in a name.
pub open spec fn found_in(pattern: Seq<char>, command: Seq<char>, id: Seq<char>) -> bool {
    has_infix(command, pattern) || has_infix(id, pattern)
}

/// Tests whether a pattern stands in a command or in a name.
pub fn pattern_found(pattern: &str, command: &str, id: &str) -> (r: bool)
    ensures
        r == found_in(pattern@, command@, id@),
{
    let needle = chars_of(pattern);
    contains(&chars_of(command), &needle) || contains(&chars_of(id), &needle)
}

/// Tests whether a session passes a filter.
pub fn session_passes(filter: &Option<String>, id: &str, command: &str) -> (r: bool)
    ensures
        r == passes(filter_text(*filter), id@, command@),
{
    match filter {
        None => true,
        Some(pattern) => pattern_found(
            to_lowercase(pattern.as_str()).as_str(),
            to_lowercase(command).as_str(),
            id,
        ),
    }
}

/// A session in a list: its name, and its summary where it has one.
pub struct SessionRow {
    pub id: String,
    pub summary: Option<SessionSummary>,
}

/// The line for a session, unless it is left out: by the filter, or because only failed ones are
/// wanted and it did not fail.
pub open spec fn session_line(row: SessionRow, filter: Option<Seq<char>>, failed: bool) -> Option<
    Seq<char>,
> {
    match row.summary {
        Some(s) => if (failed && s.exit_code == 0) || !passes(filter, row.id@, s.command@) {
            None
        } else {
            Some(
                row_text(
                    row.id@,
                    signed_decimal(s.exit_code as int),
                    short_duration_text(s.duration@ / 1_000_000_000),
                    decimal(change_count(s)),
                    command_column(s.command@),
                ),
            )
        },
        None => if failed {
            None
        } else {
            Some(row_text(row.id@, "?"@, "-"@, "-"@, "(no summary)"@))
        },
    }
}

fn format_session(row: &SessionRow, filter: &Option<String>, failed: bool) -> (r: Option<String>)
    ensures
        match r {
            Some(line) => session_line(*row, filter_text(*filter), failed) == Some(line@),
            None => session_line(*row, filter_text(*filter), failed) is None,
        },
{
    match &row.summary {
        Some(s) => {
            if failed && s.exit_code == 0 {
                return None;
            }
            if !session_passes(filter, row.id.as_str(), s.command.as_str()) {
                return None;
            }
            let count: u128 = s.files_created.len() as u128 + s.files_modified.len() as u128
                + s.files_deleted.len() as u128;
            Some(
                format_row(
                    row.id.as_str(),
                    format_i32(s.exit_code).as_str(),
                    format_duration_short(s.duration).as_str(),
                    format_u128(count).as_str(),
                    shorten_command(&s.command).as_str(),
                ),
            )
        },
        None => if failed {
            None
        } else {
            Some(format_row(row.id.as_str(), "?", "-", "-", "(no summary)"))
        },
    }
}

/// The text of a filter.
pub open spec fn filter_text(filter: Option<String>) -> Option<Seq<char>> {
    match filter {
        Some(pattern) => Some(pattern@),
        None => None,
    }
}

/// The heading of the list of sessions.
pub open spec fn table_heading() -> Seq<char> {
    row_text("SESSION"@, "EXIT"@, "DURATION"@, "FILES"@, "COMMAND"@)
}

/// The rule below the heading.
pub open spec fn table_rule() -> Seq<char> {
    Seq::new(75, |i: int| '\u{2500}')
}

/// The list of sessions, line by line.
pub open spec fn sessions_table(
    rows: Seq<SessionRow>,
    filter: Option<Seq<char>>,
    failed: bool,
) -> Seq<Seq<char>> {
    if rows.len() == 0 {
        seq!["no sessions recorded yet"@]
    } else {
        seq![table_heading(), table_rule()] + rows.filter_map(
            |row: SessionRow| session_line(row, filter, failed),
        )
    }
}

fn format_rule() -> (r: String)
    ensures
        r@ == table_rule(),
{
    let mut out = String::new();
    let mut n: usize = 0;
    while n < 75
        invariant
            n <= 75,
            out@ == table_rule().take(n as int),
        decreases 75 - n,
    {
        out.push('\u{2500}');
        n += 1;
        assert(out@ =~= table_rule().take(n as int));
    }
    assert(out@ =~= table_rule());
    out
}

/// The list of sessions, line by line. `rows` holds the sessions from the newest to the oldest.
pub fn format_sessions(rows: &Vec<SessionRow>, filter: &Option<String>, failed: bool) -> (r: Vec<
    String,
>)
    ensures
        texts(r@) == sessions_table(rows@, filter_text(*filter), failed),
{
    let mut out: Vec<String> = Vec::new();
    if rows.len() == 0 {
        out.push("no sessions recorded yet".to_owned());
        assert(texts(out@) =~= seq!["no sessions recorded yet"@]);
        return out;
    }
    out.push(format_row("SESSION", "EXIT", "DURATION", "FILES", "COMMAND"));
    out.push(format_rule());
    let ghost head = seq![table_heading(), table_rule()];
    let ghost read = |row: SessionRow| session_line(row, filter_text(*filter), failed);
    let mut i: usize = 0;
    proof {
        reveal(Seq::filter_map);
        assert(rows@.take(0) =~= Seq::empty());
        assert(texts(out@) =~= head + rows@.take(0).filter_map(read));
    }
    while i < rows.len()
        invariant
            i <= rows@.len(),
            read == (|row: SessionRow| session_line(row, filter_text(*filter), failed)),
            texts(out@) == head + rows@.take(i as int).filter_map(read),
        decreases rows@.len() - i,
    {
        let ghost before = texts(out@);
        proof {
            rows@.lemma_filter_map_take_succ(read, i as int);
        }
        match format_session(&rows[i], filter, failed) {
            Some(line) => {
                let ghost added = line@;
                out.push(line);
                assert(texts(out@) =~= before.push(added));
            },
            None => {},
        }
        i += 1;
        assert(texts(out@) =~= head + rows@.take(i as int).filter_map(read));
    }
    assert(rows@.take(i as int) =~= rows@);
    out
}

/// The number of sessions to keep: the one given, or the one in the settings.
pub fn retention(given: Option<usize>, configured: usize) -> (r: usize)
    ensures
        r == (match given {
            Some(keep) => keep,
            None => configured,
        }),
{
    match given {
        Some(keep) => keep,
        None => configured,
    }
}

/// What `clean` says when it is done.
pub fn cleaned_message(removed: usize, kept: usize) -> (r: String)
    ensures
        r@ == "removed "@ + decimal(removed as nat) + " session(s), keeping "@ + decimal(
            kept as nat,
        ),
{
    let mut out = in_a_row("removed ", format_usize(removed).as_str());
    out.append(" session(s), keeping ");
    out.append(format_usize(kept).as_str());
    out
}

/// What `init` says: the settings were there before, or have been written.
pub fn init_message(existed: bool, path: &str) -> (r: String)
    ensures
        r@ == (if existed {
            "config already exists at "@
        } else {
            "created config at "@
        }) + path@,
{
    if existed {
        in_a_row("config already exists at ", path)
    } else {
        in_a_row("created config at ", path)
    }
}

/// The name of the session in a directory.
pub open spec fn session_name(dir: Seq<char>) -> Seq<char> {
    match file_name(dir) {
        Some(name) => name,
        None => Seq::empty(),
    }
}

fn name_of_session(dir: &str) -> (r: String)
    ensures
        r@ == session_name(dir@),
{
    match file_name_of(dir) {
        Some(name) => name,
        None => String::new(),
    }
}

/// What `stop` says, line by line: a stop was requested before, or is requested now.
pub fn stop_messages(session_dir: &str, requested_before: bool) -> (r: Vec<String>)
    ensures
        texts(r@) == (if requested_before {
            seq!["stop already requested for "@ + session_name(session_dir@)]
        } else {
            seq![
                "graceful stop requested for session "@ + session_name(session_dir@),
                "the agent will receive a wrap-up message and has a grace period to finish"@,
            ]
        }),
{
    let name = name_of_session(session_dir);
    let mut out: Vec<String> = Vec::new();
    if requested_before {
        out.push(in_a_row("stop already requested for ", name.as_str()));
        assert(texts(out@) =~= seq!["stop already requested for "@ + session_name(session_dir@)]);
    } else {
        out.push(in_a_row("graceful stop requested for session ", name.as_str()));
        out.push(
            "the agent will receive a wrap-up message and has a grace period to finish".to_owned(),
        );
        assert(texts(out@) =~= seq![
            "graceful stop requested for session "@ + session_name(session_dir@),
            "the agent will receive a wrap-up message and has a grace period to finish"@,
        ]);
    }
    out
}

/// The session of a given name wins over sessions whose names merely begin so.
pub proof fn lemma_exact_name_wins(
    id: Seq<char>,
    sessions_dir: Seq<char>,
    sessions: Seq<SessionEntry>,
    result: Result<String, ResolveError>,
)
    requires
        id.len() > 0,
        !is_unsafe_id(id),
        resolves(id, sessions_dir, true, sessions, result),
    ensures
        result is Ok,
        result->Ok_0@ == joined(sessions_dir, id),
{
}

/// No name leads out of the directory of the sessions: a name that is accepted there is a plain one,
/// or stands for a session that was listed.
pub proof fn lemma_resolved_inside(
    id: Seq<char>,
    sessions_dir: Seq<char>,
    exact: bool,
    sessions: Seq<SessionEntry>,
    result: Result<String, ResolveError>,
)
    requires
        resolves(id, sessions_dir, exact, sessions, result),
        result is Ok,
    ensures
        !id.contains('/'),
        ({
            ||| result->Ok_0@ == joined(sessions_dir, id)
            ||| exists|i: int|
                0 <= i < sessions.len() && (#[trigger] sessions[i]).path@ == result->Ok_0@
                    && has_prefix(sessions[i].name@, id)
        }),
{
    if !exact {
        let keep = begins_with(id);
        let matching = sessions.filter(keep);
        sessions.lemma_filter_pred(keep, 0);
        assert(matching.contains(matching[0]));
        sessions.lemma_filter_contains_rev(keep, matching[0]);
        let i = choose|i: int| 0 <= i < sessions.len() && sessions[i] == matching[0];
        assert(sessions[i].path@ == result->Ok_0@);
    }
}

/// The sum of sizes counts every size that is known, in whichever list it stands, and no other.
pub proof fn lemma_size_sum(sizes: Seq<Option<u64>>, more: Seq<Option<u64>>, size: u64)
    ensures
        size_sum(Seq::empty()) == 0,
        size_sum(sizes.push(Some(size))) == size_sum(sizes) + size,
        size_sum(sizes.push(None)) == size_sum(sizes),
        size_sum(sizes + more) == size_sum(sizes) + size_sum(more),
    decreases more.len(),
{
    assert(sizes.push(Some(size)).drop_last() =~= sizes);
    assert(sizes.push(None).drop_last() =~= sizes);
    if more.len() == 0 {
        assert(sizes + more =~= sizes);
    } else {
        lemma_size_sum(sizes, more.drop_last(), size);
        assert((sizes + more).drop_last() =~= sizes + more.drop_last());
        assert((sizes + more).last() == more.last());
    }
}

/// What a log comes to as connections.
pub open spec fn told_connections(events: Seq<Event>) -> Seq<(Seq<char>, u16, Seq<char>)> {
    named_peers(once_each(logged_peers(events)))
}

/// One more event in a log: a connection is added to the summary, with its host, its port and the
/// name of its protocol, unless an earlier event told of the same host, port and protocol, whichever
/// process made it. Any other event adds nothing.
pub proof fn lemma_one_more_logged_connection(events: Seq<Event>, event: Event)
    ensures
        told_connections(Seq::empty()) == Seq::<(Seq<char>, u16, Seq<char>)>::empty(),
        !(event is NetworkConnection) ==> told_connections(events.push(event)) == told_connections(
            events,
        ),
        event matches Event::NetworkConnection(e) ==> ({
            let known = exists|i: int|
                0 <= i < events.len() && (#[trigger] events[i] matches Event::NetworkConnection(o)
                    && o.remote_host@ == e.remote_host@ && o.remote_port == e.remote_port
                    && o.protocol == e.protocol);
            let name = if e.protocol is Tcp {
                "tcp"@
            } else {
                "udp"@
            };
            &&& known ==> told_connections(events.push(event)) == told_connections(events)
            &&& !known ==> told_connections(events.push(event)) == told_connections(events).push(
                (e.remote_host@, e.remote_port, name),
            )
        }),
{
    let read = |e: Event| event_peer(e);
    let more = events.push(event);
    let n = events.len() as int;
    let peers = logged_peers(events);
    reveal(Seq::filter_map);
    more.lemma_filter_map_take_succ(read, n);
    assert(more.take(n) =~= events);
    assert(more.take(n + 1) =~= more);
    assert(told_connections(Seq::empty()) =~= Seq::<(Seq<char>, u16, Seq<char>)>::empty());
    if let Event::NetworkConnection(e) = event {
        let peer = (e.remote_host@, e.remote_port, e.protocol);
        let next = peers.push(peer);
        assert(logged_peers(more) =~= next);
        assert(next.drop_last() =~= peers);
        lemma_filter_map_contains(events, read, peer);
        if peers.contains(peer) {
            let i = choose|i: int|
                0 <= i < events.len() && read(#[trigger] events[i]) == Some(peer);
            assert(events[i] is NetworkConnection);
        } else {
            assert forall|i: int| 0 <= i < events.len() implies !(#[trigger] events[i] matches
                Event::NetworkConnection(o) && o.remote_host@ == e.remote_host@ && o.remote_port
                == e.remote_port && o.protocol == e.protocol) by {
                assert(read(events[i]) != Some(peer));
            }
            assert(told_connections(more) =~= told_connections(events).push(
                (peer.0, peer.1, protocol_name(peer.2)),
            ));
        }
    } else {
        assert(logged_peers(more) =~= peers);
    }
}

/// The subprocesses that some events of a log tell of.
pub open spec fn told_runs(log: Seq<Event>, events: Seq<Event>) -> Seq<Run> {
    events.filter_map(|e: Event| event_run(log, e))
}

/// One more event of a log: an exit is one more subprocess, with its exit code, how long it ran, and
/// the arguments that were logged for the process; any other event is none.
pub proof fn lemma_one_more_logged_exit(log: Seq<Event>, events: Seq<Event>, event: Event)
    ensures
        told_runs(log, Seq::empty()) == Seq::<Run>::empty(),
        !(event is ProcessExited) ==> told_runs(log, events.push(event)) == told_runs(log, events),
        event matches Event::ProcessExited(e) ==> told_runs(log, events.push(event)) == told_runs(
            log,
            events,
        ).push((logged_argv(log, e.pid), e.exit_code, e.duration)),
{
    let read = |e: Event| event_run(log, e);
    let more = events.push(event);
    let n = events.len() as int;
    reveal(Seq::filter_map);
    more.lemma_filter_map_take_succ(read, n);
    assert(more.take(n) =~= events);
    assert(more.take(n + 1) =~= more);
    assert(told_runs(log, Seq::empty()) =~= Seq::<Run>::empty());
    if let Event::ProcessExited(e) = event {
        assert(told_runs(log, more) =~= told_runs(log, events).push(
            (logged_argv(log, e.pid), e.exit_code, e.duration),
        ));
    } else {
        assert(told_runs(log, more) =~= told_runs(log, events));
    }
}

/// The arguments logged for a process are those of the first event that tells of its start, wherever
/// in the log that stands; where none does, its number stands for them.
pub proof fn lemma_logged_arguments(log: Seq<Event>, pid: u32, i: int)
    ensures
        0 <= i < log.len() && (log[i] matches Event::ProcessSpawned(e) && e.pid == pid) && (
        forall|j: int|
            0 <= j < i ==> !(#[trigger] log[j] matches Event::ProcessSpawned(e) && e.pid == pid))
            ==> logged_argv(log, pid) == texts(log[i]->ProcessSpawned_0.argv@),
        (forall|j: int|
            0 <= j < log.len() ==> !(#[trigger] log[j] matches Event::ProcessSpawned(e) && e.pid
                == pid)) ==> logged_argv(log, pid) == seq!["<pid:"@ + decimal(pid as nat) + ">"@],
{
    if 0 <= i < log.len() && spawns(log[i], pid) && (forall|j: int|
        0 <= j < i ==> !spawns(#[trigger] log[j], pid)) {
        assert(is_first_spawn(log, pid, i));
        let k = choose|k: int| is_first_spawn(log, pid, k);
        assert(is_first_spawn(log, pid, k));
        if k < i {
            assert(!spawns(log[k], pid));
        }
        if i < k {
            assert(!spawns(log[i], pid));
        }
    }
    if forall|j: int| 0 <= j < log.len() ==> !spawns(#[trigger] log[j], pid) {
        assert forall|k: int| !is_first_spawn(log, pid, k) by {
            if is_first_spawn(log, pid, k) {
                assert(spawns(log[k], pid));
            }
        }
    }
}

/// What a name comes to. An empty name is refused; so is one with a separator in it or a dot at its
/// start; the very name of a session with a log stands for it; else the beginning of exactly one name
/// stands for that session, of none is told so, and of several is told with their number.
pub proof fn lemma_what_a_name_comes_to(
    id: Seq<char>,
    sessions_dir: Seq<char>,
    exact: bool,
    sessions: Seq<SessionEntry>,
    result: Result<String, ResolveError>,
    i: int,
    j: int,
)
    requires
        resolves(id, sessions_dir, exact, sessions, result),
    ensures
        id.len() == 0 ==> result matches Err(ResolveError::Empty),
        id.len() > 0 && (id.contains('/') || id.contains('\\') || id[0] == '.') ==> (result matches
            Err(ResolveError::Invalid(name)) && name@ == id),
        id.len() > 0 && !id.contains('/') && !id.contains('\\') && id[0] != '.' ==> ({
            &&& exact && sessions_dir.len() > 0 && sessions_dir.last() != '/' ==> (result matches
                Ok(path) && path@ == sessions_dir + seq!['/'] + id)
            &&& !exact && (forall|k: int|
                0 <= k < sessions.len() ==> !has_prefix((#[trigger] sessions[k]).name@, id)) ==> (
            result matches Err(ResolveError::NoMatch(name)) && name@ == id)
            &&& !exact && 0 <= i < sessions.len() && has_prefix(sessions[i].name@, id) && (
            forall|k: int|
                0 <= k < sessions.len() && k != i ==> !has_prefix(
                    (#[trigger] sessions[k]).name@,
                    id,
                )) ==> (result matches Ok(path) && path@ == sessions[i].path@)
            &&& !exact && 0 <= i < j < sessions.len() && has_prefix(sessions[i].name@, id)
                && has_prefix(sessions[j].name@, id) ==> (result matches Err(
                ResolveError::Ambiguous(name, n),
            ) && name@ == id && n >= 2 && n == sessions.filter(
                |s: SessionEntry| has_prefix(s.name@, id),
            ).len())
        }),
{
    let keep = begins_with(id);
    assert(keep =~= |s: SessionEntry| has_prefix(s.name@, id));
    let matching = sessions.filter(keep);
    if forall|k: int| 0 <= k < sessions.len() ==> !has_prefix((#[trigger] sessions[k]).name@, id) {
        lemma_no_match(sessions, keep);
    }
    if 0 <= i < sessions.len() && has_prefix(sessions[i].name@, id) && (forall|k: int|
        0 <= k < sessions.len() && k != i ==> !has_prefix((#[trigger] sessions[k]).name@, id)) {
        lemma_one_match(sessions, keep, i);
    }
    if 0 <= i < j < sessions.len() && has_prefix(sessions[i].name@, id) && has_prefix(
        sessions[j].name@,
        id,
    ) {
        lemma_two_match(sessions, keep, i, j);
    }
}

proof fn lemma_no_match(list: Seq<SessionEntry>, keep: spec_fn(SessionEntry) -> bool)
    requires
        forall|k: int| 0 <= k < list.len() ==> !keep(#[trigger] list[k]),
    ensures
        list.filter(keep) == Seq::<SessionEntry>::empty(),
{
    let kept = list.filter(keep);
    if kept.len() > 0 {
        list.lemma_filter_pred(keep, 0);
        assert(kept.contains(kept[0]));
        list.lemma_filter_contains_rev(keep, kept[0]);
    }
    assert(kept =~= Seq::empty());
}

proof fn lemma_one_match(list: Seq<SessionEntry>, keep: spec_fn(SessionEntry) -> bool, i: int)
    requires
        0 <= i < list.len(),
        keep(list[i]),
        forall|k: int| 0 <= k < list.len() && k != i ==> !keep(#[trigger] list[k]),
    ensures
        list.filter(keep) == seq![list[i]],
{
    let a = list.take(i);
    let b = list.skip(i + 1);
    assert forall|k: int| 0 <= k < a.len() implies !keep(#[trigger] a[k]) by {
        assert(!keep(list[k]));
    }
    assert forall|k: int| 0 <= k < b.len() implies !keep(#[trigger] b[k]) by {
        assert(!keep(list[i + 1 + k]));
    }
    lemma_no_match(a, keep);
    lemma_no_match(b, keep);
    a.lemma_filter_push(list[i], keep);
    Seq::filter_distributes_over_add(a.push(list[i]), b, keep);
    assert(list =~= a.push(list[i]) + b);
    assert(list.filter(keep) =~= seq![list[i]]);
}

proof fn lemma_two_match(
    list: Seq<SessionEntry>,
    keep: spec_fn(SessionEntry) -> bool,
    i: int,
    j: int,
)
    requires
        0 <= i < j < list.len(),
        keep(list[i]),
        keep(list[j]),
    ensures
        list.filter(keep).len() >= 2,
{
    let a = list.take(j);
    let b = list.skip(j);
    Seq::filter_distributes_over_add(a, b, keep);
    assert(list =~= a + b);
    assert(a[i] == list[i]);
    assert(b[0] == list[j]);
    a.lemma_filter_contains(keep, i);
    b.lemma_filter_contains(keep, 0);
    assert(a.filter(keep).len() > 0);
    assert(b.filter(keep).len() > 0);
}

/// A short length of time tells hours and minutes from an hour up, minutes and seconds from a minute
/// up, and seconds below.
pub proof fn lemma_short_durations(hours: nat, minutes: nat, seconds: nat)
    requires
        minutes < 60,
        seconds < 60,
    ensures
        ({
            let text = short_duration_text(hours * 3600 + minutes * 60 + seconds);
            &&& hours > 0 ==> text == decimal(hours) + "h"@ + decimal(minutes) + "m"@
            &&& hours == 0 && minutes > 0 ==> text == decimal(minutes) + "m"@ + decimal(seconds)
                + "s"@
            &&& hours == 0 && minutes == 0 ==> text == decimal(seconds) + "s"@
        }),
{
    let secs = hours * 3600 + minutes * 60 + seconds;
    assert(secs / 3600 == hours);
    assert(secs % 3600 == minutes * 60 + seconds);
    assert((secs % 3600) / 60 == minutes);
    assert(secs % 60 == seconds);
    if hours == 0 {
        assert(secs / 60 == minutes);
    }
}

/// A text that is cut keeps its first characters, as many as it may; a shorter one keeps them all.
pub proof fn lemma_truncated(text: Seq<char>, max: nat)
    ensures
        truncated(text, max).is_prefix_of(text),
        text.len() <= max ==> truncated(text, max) == text,
        text.len() > max ==> truncated(text, max).len() == max,
{
    assert(truncated(text, max) =~= text.subrange(0, truncated(text, max).len() as int));
}

/// A column is its text and blanks behind it, as wide as it should be, or wider where the text is.
pub proof fn lemma_padded(text: Seq<char>, width: nat)
    ensures
        text.is_prefix_of(padded(text, width)),
        padded(text, width).len() == (if text.len() > width {
            text.len()
        } else {
            width
        }),
        forall|i: int| text.len() <= i < padded(text, width).len() ==> padded(text, width)[i] == ' ',
{
    assert(text =~= padded(text, width).subrange(0, text.len() as int));
}

/// The columns of the table of sessions and their widths.
pub proof fn lemma_columns(
    id: Seq<char>,
    exit: Seq<char>,
    duration: Seq<char>,
    files: Seq<char>,
    command: Seq<char>,
)
    ensures
        row_text(id, exit, duration, files, command) == padded(id, 20) + seq![' '] + padded(exit, 6)
            + seq![' '] + padded(duration, 8) + seq![' '] + padded(files, 7) + seq![' '] + padded(
            command,
            30,
        ),
        table_heading() == row_text("SESSION"@, "EXIT"@, "DURATION"@, "FILES"@, "COMMAND"@),
        table_rule().len() == 75,
        forall|i: int| 0 <= i < 75 ==> table_rule()[i] == '\u{2500}',
        encode_utf8(command).len() <= 28 ==> command_column(command) == command,
        encode_utf8(command).len() > 28 && command.len() > 25 ==> command_column(command)
            == command.take(25) + "..."@,
        encode_utf8(command).len() > 28 && command.len() <= 25 ==> command_column(command)
            == command + "..."@,
{
    reveal_strlit(" ");
    assert(" "@ =~= seq![' ']);
}

/// The lines of the table of sessions that stand below its heading.
pub open spec fn told_sessions(
    rows: Seq<SessionRow>,
    filter: Option<Seq<char>>,
    failed: bool,
) -> Seq<Seq<char>> {
    if rows.len() == 0 {
        Seq::empty()
    } else {
        sessions_table(rows, filter, failed).skip(2)
    }
}

/// Which sessions the table shows, and what it says of them: with a summary, the exit code, how long
/// the session ran, how many files it created, modified or deleted, and the command; without one, that
/// there is none. A request for failed sessions leaves out those that went well and those without a
/// summary; a pattern, in lower case, leaves out those with a summary where neither the command,
/// in lower case, nor the name holds it.
pub proof fn lemma_what_the_table_shows(
    rows: Seq<SessionRow>,
    row: SessionRow,
    filter: Option<Seq<char>>,
    failed: bool,
)
    ensures
        sessions_table(Seq::empty(), filter, failed) == seq!["no sessions recorded yet"@],
        sessions_table(rows.push(row), filter, failed) == seq![table_heading(), table_rule()]
            + told_sessions(rows.push(row), filter, failed),
        ({
            let before = told_sessions(rows, filter, failed);
            let after = told_sessions(rows.push(row), filter, failed);
            match row.summary {
                None => {
                    &&& failed ==> after == before
                    &&& !failed ==> after == before.push(
                        row_text(row.id@, "?"@, "-"@, "-"@, "(no summary)"@),
                    )
                },
                Some(s) => {
                    let full = row_text(
                        row.id@,
                        signed_decimal(s.exit_code as int),
                        short_duration_text(s.duration@ / 1_000_000_000),
                        decimal(
                            s.files_created@.len() + s.files_modified@.len()
                                + s.files_deleted@.len(),
                        ),
                        command_column(s.command@),
                    );
                    let found = filter matches Some(pattern) ==> (has_infix(
                        lowercase(s.command@),
                        lowercase(pattern),
                    ) || has_infix(row.id@, lowercase(pattern)));
                    &&& failed && s.exit_code == 0 ==> after == before
                    &&& !found ==> after == before
                    &&& !(failed && s.exit_code == 0) && found ==> after == before.push(full)
                },
            }
        }),
{
    let head = seq![table_heading(), table_rule()];
    let read = |r: SessionRow| session_line(r, filter, failed);
    let more = rows.push(row);
    let n = rows.len() as int;
    reveal(Seq::filter_map);
    more.lemma_filter_map_take_succ(read, n);
    assert(more.take(n) =~= rows);
    assert(more.take(n + 1) =~= more);
    assert(told_sessions(rows, filter, failed) =~= rows.filter_map(read));
    assert(told_sessions(more, filter, failed) =~= more.filter_map(read));
    assert(sessions_table(more, filter, failed) =~= head + more.filter_map(read));
    assert(more.filter_map(read) =~= rows.filter_map(read) + (match read(row) {
        Some(line) => seq![line],
        None => Seq::empty(),
    }));
}

/// What the notes of the program say, without their looks.
pub proof fn lemma_what_notes_say(text: Seq<char>, emphasis: Seq<char>)
    ensures
        bare(note_pieces(text, emphasis)) == "postflight:"@ + text + emphasis,
        bare(plain_note_pieces(text)) == "postflight: "@ + text,
        note_pieces(text, emphasis).len() == 3 && note_pieces(text, emphasis)[0].1 == Style::Dimmed
            && note_pieces(text, emphasis)[2] == (emphasis, Style::Bold),
        plain_note_pieces(text)[0].1 == Style::Dimmed && plain_note_pieces(text)[1].1
            == Style::Plain,
{
    reveal_strlit("postflight:");
    reveal_strlit("postflight: ");
    reveal_strlit(" ");
    let none = Seq::<Piece>::empty();
    let name = ("postflight:"@, Style::Dimmed);
    lemma_bare_empty();
    lemma_bare_push(none, name);
    lemma_bare_push(none.push(name), plain(text));
    lemma_bare_push(none.push(name).push(plain(text)), (emphasis, Style::Bold));
    lemma_bare_push(none.push(name), plain(" "@ + text));
    assert(note_pieces(text, emphasis) =~= none.push(name).push(plain(text)).push(
        (emphasis, Style::Bold),
    ));
    assert(plain_note_pieces(text) =~= none.push(name).push(plain(" "@ + text)));
    assert(bare(note_pieces(text, emphasis)) =~= "postflight:"@ + text + emphasis);
    assert(bare(plain_note_pieces(text)) =~= "postflight: "@ + text);
}

/// A name that could lead out of the directory of sessions is refused: one with a separator of any
/// system in it, or with a dot at its start.
pub proof fn lemma_refused_names(id: Seq<char>)
    ensures
        is_unsafe_id(id) <==> id.contains('/') || id.contains('\\') || (id.len() > 0 && id[0]
            == '.'),
{
}

/// What a summary says of a connection is its host, its port and its protocol; what it says of a
/// subprocess is its arguments, its exit code and how long it ran.
pub proof fn lemma_what_summaries_hold(
    connections: Seq<ConnectionSummary>,
    connection: ConnectionSummary,
    subprocesses: Seq<SubprocessSummary>,
    subprocess: SubprocessSummary,
)
    ensures
        summaries(connections.push(connection)) == summaries(connections).push(
            (connection.remote_host@, connection.remote_port, connection.protocol@),
        ),
        summaries(connections).len() == connections.len(),
        runs(subprocesses.push(subprocess)) == runs(subprocesses).push(
            (texts(subprocess.argv@), subprocess.exit_code, subprocess.duration),
        ),
        runs(subprocesses).len() == subprocesses.len(),
{
    assert(summaries(connections.push(connection)) =~= summaries(connections).push(
        (connection.remote_host@, connection.remote_port, connection.protocol@),
    ));
    assert(runs(subprocesses.push(subprocess)) =~= runs(subprocesses).push(
        (texts(subprocess.argv@), subprocess.exit_code, subprocess.duration),
    ));
}

} // verus!
