use postflight::cli::{
    check_session_id, child_output, choose_workspace, cleaned_message, close_session, closing,
    diffs_title, format_duration_short, format_sessions, init_message, keeps_diff, pattern_found, pruned_note,
    recording_note, resolve_session_id, retention, saved_note, session_passes, stop_messages,
    summarize_connections, summarize_subprocesses, tells_pruned, total_bytes, truncate_str,
    workspace_note, Closing, ResolveError, SessionRow, Sink,
};
use postflight::diff::DiffResult;
use postflight::events::{Event, NetworkEvent, ProcessEvent, ProcessExitEvent, Protocol};
use postflight::pty::PtyResult;
use postflight::session::{Session, SessionEntry, SessionSummary};
use postflight::time::{Duration, Timestamp};

const EPOCH: Timestamp = Timestamp { secs: 0, nanos: 0 };

#[test]
fn the_workspace_is_the_first_that_is_given() {
    let some = |text: &str| Some(text.to_string());
    assert_eq!(choose_workspace(some("a"), some("b"), some("c")), "a");
    assert_eq!(choose_workspace(None, some("b"), some("c")), "b");
    assert_eq!(choose_workspace(None, None, some("c")), "c");
    assert_eq!(choose_workspace(None, None, None), ".");
}

#[test]
fn output_stays_out_of_the_way_of_the_summary() {
    assert!(child_output(true, true) == Sink::Nowhere);
    assert!(child_output(true, false) == Sink::Stderr);
    assert!(child_output(false, true) == Sink::Stdout);
    assert!(child_output(false, false) == Sink::Stdout);
    assert!(closing(true, true) == Closing::Json);
    assert!(closing(true, false) == Closing::Json);
    assert!(closing(false, true) == Closing::Nothing);
    assert!(closing(false, false) == Closing::Report);
}

#[test]
fn notes_begin_with_the_name_of_the_program() {
    colored::control::set_override(true);
    assert_eq!(
        recording_note("ls"),
        "\u{1b}[2mpostflight:\u{1b}[0m recording session for: \u{1b}[1mls\u{1b}[0m"
    );
    colored::control::set_override(false);
    assert_eq!(workspace_note("/w"), "postflight: workspace: /w");
    assert_eq!(saved_note("/s/1"), "postflight: session saved to /s/1");
    assert_eq!(pruned_note(3), "postflight: pruned 3 old session(s)");
    assert_eq!(diffs_title(), "\u{2501}\u{2501}\u{2501} diffs \u{2501}\u{2501}\u{2501}");
}

#[test]
fn blank_diffs_are_not_kept() {
    assert!(!keeps_diff(" \n"));
    assert!(keeps_diff("--- a/x\n"));
}

#[test]
fn sizes_are_summed_as_far_as_known() {
    assert_eq!(total_bytes(&vec![Some(3), None], &vec![Some(4)]), Some(7));
    assert_eq!(total_bytes(&vec![], &vec![]), Some(0));
    assert_eq!(total_bytes(&vec![Some(u64::MAX)], &vec![Some(1)]), None);
    assert_eq!(total_bytes(&vec![Some(u64::MAX), Some(1)], &vec![]), None);
}

fn connected(pid: u32, host: &str, port: u16, protocol: Protocol) -> Event {
    Event::NetworkConnection(NetworkEvent {
        pid,
        remote_host: host.to_string(),
        remote_port: port,
        protocol,
        timestamp: EPOCH,
    })
}

fn spawned(pid: u32, argv: &[&str]) -> Event {
    Event::ProcessSpawned(ProcessEvent {
        pid,
        ppid: 1,
        argv: argv.iter().map(|word| word.to_string()).collect(),
        timestamp: EPOCH,
    })
}

fn exited(pid: u32, exit_code: Option<i32>, secs: u64) -> Event {
    Event::ProcessExited(ProcessExitEvent {
        pid,
        exit_code,
        duration: Duration::from_secs(secs),
        timestamp: EPOCH,
    })
}

#[test]
fn connections_are_summed_up_whichever_process_made_them() {
    let events = vec![
        connected(1, "a", 443, Protocol::Tcp),
        spawned(1, &["x"]),
        connected(2, "a", 443, Protocol::Tcp),
        connected(1, "a", 443, Protocol::Udp),
        connected(1, "b", 443, Protocol::Tcp),
        connected(1, "a", 80, Protocol::Tcp),
    ];
    let summary: Vec<(String, u16, String)> = summarize_connections(&events)
        .into_iter()
        .map(|c| (c.remote_host, c.remote_port, c.protocol))
        .collect();
    let row = |host: &str, port: u16, protocol: &str| (host.to_string(), port, protocol.to_string());
    assert_eq!(
        summary,
        vec![row("a", 443, "tcp"), row("a", 443, "udp"), row("b", 443, "tcp"), row("a", 80, "tcp")]
    );
}

#[test]
fn subprocesses_are_summed_up_with_their_arguments() {
    let events = vec![
        spawned(5, &["cargo", "test"]),
        spawned(5, &["other"]),
        exited(5, None, 8),
        exited(6, Some(1), 2),
    ];
    let summary = summarize_subprocesses(&events);
    assert_eq!(summary.len(), 2);
    assert_eq!(summary[0].argv, vec!["cargo", "test"]);
    assert_eq!(summary[0].exit_code, None);
    assert!(summary[0].duration == Duration::from_secs(8));
    assert_eq!(summary[1].argv, vec!["<pid:6>"]);
    assert_eq!(summary[1].exit_code, Some(1));
}

fn entries() -> Vec<SessionEntry> {
    ["20260721_143022_456", "20260721_100000_000", "20260101_000000_000"]
        .iter()
        .map(|name| SessionEntry { name: name.to_string(), path: format!("/s/{name}") })
        .collect()
}

fn error_of(result: Result<String, ResolveError>) -> String {
    result.err().unwrap().message()
}

#[test]
fn a_name_or_its_beginning_stands_for_a_session() {
    let sessions = entries();
    assert_eq!(
        resolve_session_id("20260101", "/s", false, &sessions).ok(),
        Some("/s/20260101_000000_000".to_string())
    );
    assert_eq!(
        resolve_session_id("20260721", "/s", true, &sessions).ok(),
        Some("/s/20260721".to_string())
    );
}

#[test]
fn names_that_stand_for_no_session() {
    let sessions = entries();
    assert_eq!(
        error_of(resolve_session_id("", "/s", true, &sessions)),
        "session ID cannot be empty"
    );
    for id in ["../x", "a/b", "a\\b", ".hidden"] {
        assert_eq!(
            error_of(resolve_session_id(id, "/s", true, &sessions)),
            format!("invalid session ID: '{id}'")
        );
        assert!(matches!(check_session_id(id), Err(ResolveError::Invalid(_))));
    }
    assert_eq!(
        error_of(resolve_session_id("2027", "/s", false, &sessions)),
        "no session matching '2027'"
    );
    assert_eq!(
        error_of(resolve_session_id("20260721", "/s", false, &sessions)),
        "'20260721' is ambiguous (2 matches), be more specific"
    );
    assert!(check_session_id("20260721").is_ok());
    assert!(matches!(check_session_id(""), Err(ResolveError::Empty)));
}

#[test]
fn short_durations() {
    assert_eq!(format_duration_short(Duration::from_secs(59)), "59s");
    assert_eq!(format_duration_short(Duration::from_secs(65)), "1m5s");
    assert_eq!(format_duration_short(Duration::from_secs(3665)), "1h1m");
}

#[test]
fn texts_are_cut_by_characters() {
    assert_eq!(truncate_str("äöü", 2), "äö");
    assert_eq!(truncate_str("äöü", 3), "äöü");
    assert_eq!(truncate_str("abc", 9), "abc");
}

fn summary(command: &str, exit_code: i32) -> SessionSummary {
    SessionSummary {
        id: "i".to_string(),
        command: command.to_string(),
        workspace: "/w".to_string(),
        start_time: EPOCH,
        duration: Duration::from_secs(65),
        exit_code,
        files_created: vec!["/w/a".to_string()],
        files_modified: vec!["/w/b".to_string()],
        files_deleted: vec![],
        files_read: vec![],
        network_connections: vec![],
        subprocesses: vec![],
        total_bytes_written: 0,
    }
}

fn rows() -> Vec<SessionRow> {
    vec![
        SessionRow { id: "20260721_143022_456".to_string(), summary: Some(summary("Make Build", 0)) },
        SessionRow {
            id: "20260720".to_string(),
            summary: Some(summary("cargo test --workspace --all-features", 101)),
        },
        SessionRow { id: "20260719".to_string(), summary: None },
    ]
}

#[test]
fn sessions_are_listed_in_columns() {
    let lines = format_sessions(&rows(), &None, false);
    assert_eq!(lines.len(), 5);
    assert_eq!(
        lines[0],
        format!("{:<20} {:<6} {:<8} {:<7} {:<30}", "SESSION", "EXIT", "DURATION", "FILES", "COMMAND")
    );
    assert_eq!(lines[1], "\u{2500}".repeat(75));
    assert_eq!(
        lines[2],
        format!("{:<20} {:<6} {:<8} {:<7} {:<30}", "20260721_143022_456", 0, "1m5s", 2, "Make Build")
    );
    assert_eq!(
        lines[3],
        format!(
            "{:<20} {:<6} {:<8} {:<7} {:<30}",
            "20260720", 101, "1m5s", 2, "cargo test --workspace --..."
        )
    );
    assert_eq!(
        lines[4],
        format!("{:<20} {:<6} {:<8} {:<7} {:<30}", "20260719", "?", "-", "-", "(no summary)")
    );
}

#[test]
fn sessions_can_be_left_out() {
    let some = |text: &str| Some(text.to_string());
    assert_eq!(format_sessions(&vec![], &None, false), vec!["no sessions recorded yet"]);
    assert_eq!(format_sessions(&rows(), &None, true).len(), 3);
    assert_eq!(format_sessions(&rows(), &some("BUILD"), false).len(), 4);
    assert_eq!(format_sessions(&rows(), &some("20260720"), false).len(), 4);
    assert_eq!(format_sessions(&rows(), &some("nothing"), true).len(), 2);
}

#[test]
fn filters_compare_in_lower_case() {
    let some = |text: &str| Some(text.to_string());
    assert!(session_passes(&some("GRÜSS"), "id", "echo grüss"));
    assert!(session_passes(&some("make"), "id", "MAKE build"));
    assert!(!session_passes(&some("ID"), "ID", "x"));
    assert!(session_passes(&None, "id", "x"));
    assert!(pattern_found("b", "abc", "x"));
    assert!(pattern_found("x", "abc", "x"));
    assert!(!pattern_found("y", "abc", "x"));
}

#[test]
fn commands_are_measured_in_bytes_and_cut_by_characters() {
    let command = "ä".repeat(15);
    let row = SessionRow { id: "i".to_string(), summary: Some(summary(&command, 0)) };
    let lines = format_sessions(&vec![row], &None, false);
    assert!(lines[2].contains(&format!("{command}...")));
}

#[test]
fn messages_of_the_commands() {
    assert_eq!(retention(Some(5), 20), 5);
    assert_eq!(retention(None, 20), 20);
    assert_eq!(cleaned_message(2, 10), "removed 2 session(s), keeping 10");
    assert_eq!(init_message(true, "/c"), "config already exists at /c");
    assert_eq!(init_message(false, "/c"), "created config at /c");
    assert_eq!(stop_messages("/s/42", true), vec!["stop already requested for 42"]);
    assert_eq!(
        stop_messages("/s/42", false),
        vec![
            "graceful stop requested for session 42",
            "the agent will receive a wrap-up message and has a grace period to finish"
        ]
    );
    assert_eq!(stop_messages("/", true), vec!["stop already requested for "]);
}

#[test]
fn a_session_is_closed_with_what_was_found() {
    let session = Session {
        id: "20260721_143022_456".to_string(),
        dir: "/s/20260721_143022_456".to_string(),
        start_time: Timestamp { secs: 5, nanos: 6 },
    };
    let result = PtyResult { exit_code: 3, duration: Duration::from_secs(12) };
    let changes = DiffResult {
        created: vec!["/w/a".to_string()],
        modified: vec!["/w/b".to_string(), "/w/c".to_string()],
        deleted: vec!["/w/d".to_string()],
    };
    let connections = summarize_connections(&vec![connected(1, "h", 443, Protocol::Tcp)]);
    let processes = summarize_subprocesses(&vec![spawned(2, &["ls"]), exited(2, Some(0), 4)]);
    let (summary, end) = close_session(
        &session,
        "make",
        "/w",
        result,
        changes,
        vec!["/w/e".to_string()],
        connections,
        processes,
        890,
    );
    assert_eq!(summary.id, "20260721_143022_456");
    assert_eq!((summary.command.as_str(), summary.workspace.as_str()), ("make", "/w"));
    assert!(summary.start_time == session.start_time);
    assert!(summary.duration == Duration::from_secs(12));
    assert_eq!(summary.exit_code, 3);
    assert_eq!(summary.files_created, vec!["/w/a"]);
    assert_eq!(summary.files_modified, vec!["/w/b", "/w/c"]);
    assert_eq!(summary.files_deleted, vec!["/w/d"]);
    assert_eq!(summary.files_read, vec!["/w/e"]);
    assert_eq!(summary.network_connections.len(), 1);
    assert_eq!(summary.network_connections[0].remote_host, "h");
    assert_eq!(summary.subprocesses.len(), 1);
    assert_eq!(summary.subprocesses[0].argv, vec!["ls"]);
    assert_eq!(summary.total_bytes_written, 890);
    match end {
        Event::SessionEnd(end) => {
            assert_eq!(end.exit_code, 3);
            assert!(end.duration == Duration::from_secs(12));
            assert!(end.timestamp.secs > 1_700_000_000);
        }
        _ => panic!("not an end"),
    }
}

#[test]
fn removed_sessions_are_told_where_there_are_any() {
    assert!(tells_pruned(1, false));
    assert!(!tells_pruned(0, false));
    assert!(!tells_pruned(1, true));
}
