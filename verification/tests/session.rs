use postflight::events::{Event, SessionEndEvent};
use postflight::session::{
    find_active_session, is_stale_session, FoundEntry, ListedSession, LogAge, Session,
};
use postflight::time::{Duration, Timestamp};

#[test]
fn a_session_is_named_by_its_start() {
    let start = Timestamp { secs: 1_784_644_222, nanos: 456_789_000 };
    let (session, event) =
        Session::create_at("/h/sessions", start, "make build", "/w", 99).unwrap();
    assert_eq!(session.id, "20260721_143022_456");
    assert_eq!(session.dir, "/h/sessions/20260721_143022_456");
    assert!(session.start_time == start);
    match event {
        Event::SessionStart(e) => {
            assert_eq!(e.command, "make build");
            assert_eq!(e.workspace, "/w");
            assert_eq!(e.pid, 99);
            assert!(e.timestamp == start);
        }
        _ => panic!("not a start"),
    }
}

#[test]
fn a_time_without_a_date_starts_no_session() {
    let never = Timestamp { secs: i64::MAX, nanos: 0 };
    assert!(Session::create_at("/h", never, "c", "/w", 1).is_none());
    let odd = Timestamp { secs: 0, nanos: 2_000_000_000 };
    assert!(Session::create_at("/h", odd, "c", "/w", 1).is_none());
}

#[test]
fn the_first_and_the_last_second_of_four_digit_years() {
    let at = |secs: i64| {
        Session::create_at("/h", Timestamp { secs, nanos: 0 }, "c", "/w", 1).unwrap().0.id
    };
    assert_eq!(at(0), "19700101_000000_000");
    assert_eq!(at(253_402_300_799), "99991231_235959_000");
}

#[test]
fn a_session_that_starts_now() {
    let (session, _) = Session::create("c", "/w", 1).unwrap();
    assert_eq!(session.id.len(), 19);
    assert!(session.dir.ends_with(&format!(".postflight/sessions/{}", session.id)));
}

#[test]
fn files_of_a_session() {
    assert_eq!(Session::diffs_dir("/s"), "/s/diffs");
    assert_eq!(Session::events_path("/s"), "/s/events.jsonl");
    assert_eq!(Session::terminal_path("/s/"), "/s/terminal.raw");
    assert_eq!(Session::summary_path("/s"), "/s/summary.json");
    assert_eq!(Session::diff_path("/s", "/w/src/main.rs"), "/s/diffs/_w_src_main.rs.diff");
}

#[test]
fn the_terminal_is_recorded_up_to_a_limit() {
    assert!(Session::keeps_terminal(None));
    assert!(Session::keeps_terminal(Some(50 * 1024 * 1024 - 1)));
    assert!(!Session::keeps_terminal(Some(50 * 1024 * 1024)));
}

#[test]
fn a_log_that_was_written_is_read_back() {
    let entries = vec!["{\"type\":\"a\"}", "{\"path\":\"ä b\"}", "{}"];
    let log: String = entries.iter().map(|entry| Session::log_line(entry)).collect();
    assert_eq!(Session::log_entries(&log), entries);
}

#[test]
fn blank_lines_of_a_log_are_passed_over() {
    assert_eq!(Session::log_entries("\n{}\r\n  \t\n{\"a\":1}"), vec!["{}", "{\"a\":1}"]);
    assert!(Session::log_entries("").is_empty());
}

fn found(name: Option<&str>, is_dir: bool) -> FoundEntry {
    FoundEntry {
        name: name.map(str::to_string),
        path: format!("/s/{}", name.unwrap_or("?")),
        is_dir,
    }
}

#[test]
fn sessions_are_listed_from_the_newest() {
    let entries = vec![
        found(Some("20260101_000000_000"), true),
        found(Some("20260301_000000_000"), true),
        found(Some("notes.txt"), false),
        found(None, true),
        found(Some("20260201_000000_000"), true),
    ];
    let names: Vec<String> =
        Session::list_sessions(&entries).into_iter().map(|entry| entry.name).collect();
    assert_eq!(
        names,
        vec!["20260301_000000_000", "20260201_000000_000", "20260101_000000_000"]
    );
}

#[test]
fn sessions_of_one_name_stay_in_their_order() {
    let mut first = found(Some("x"), true);
    first.path = "/1".to_string();
    let mut second = found(Some("x"), true);
    second.path = "/2".to_string();
    let paths: Vec<String> = Session::list_sessions(&vec![first, found(Some("y"), true), second])
        .into_iter()
        .map(|entry| entry.path)
        .collect();
    assert_eq!(paths, vec!["/s/y", "/1", "/2"]);
}

fn listed(path: &str, has_summary: bool, has_events: bool, stale: bool) -> ListedSession {
    ListedSession { path: path.to_string(), has_summary, has_events, stale }
}

#[test]
fn the_latest_session_has_a_summary() {
    let list = vec![listed("a", false, true, false), listed("b", true, true, false)];
    assert_eq!(Session::latest_session(&list), Some("b".to_string()));
    assert_eq!(Session::latest_session(&vec![listed("a", false, true, false)]), None);
}

#[test]
fn the_active_session_has_a_log_and_no_summary() {
    let list = vec![
        listed("a", true, true, false),
        listed("b", false, false, false),
        listed("c", false, true, true),
        listed("d", false, true, false),
    ];
    assert_eq!(find_active_session(&list), Some("c".to_string()));
    assert_eq!(find_active_session(&vec![]), None);
}

#[test]
fn pruning_spares_the_newest_and_the_running() {
    let list = vec![
        listed("a", true, true, false),
        listed("b", true, true, false),
        listed("c", false, true, false),
        listed("d", false, true, true),
        listed("e", false, false, false),
        listed("f", true, true, false),
    ];
    assert_eq!(Session::prune_sessions(&list, 1), vec!["b", "d", "e", "f"]);
    assert_eq!(Session::prune_sessions(&list, 6), Vec::<String>::new());
    assert_eq!(Session::prune_sessions(&list, 0).len(), 5);
    let left = vec![list[0].clone(), list[2].clone()];
    assert!(Session::prune_sessions(&left, 1).is_empty());
}

#[test]
fn a_log_grows_stale_after_a_minute() {
    assert!(is_stale_session(LogAge::Unknown));
    assert!(!is_stale_session(LogAge::Future));
    assert!(!is_stale_session(LogAge::Past(Duration::from_secs(60))));
    assert!(is_stale_session(LogAge::Past(Duration::new(60, 1))));
}

#[test]
fn names_come_in_the_order_of_the_starts() {
    let starts = [
        (0, 0),
        (0, 999_999),
        (0, 1_000_000),
        (59, 999_000_000),
        (60, 0),
        (951_782_399, 0),
        (951_782_400, 0),
        (1_784_644_222, 456_000_000),
        (253_402_300_799, 999_999_999),
    ];
    let names: Vec<String> = starts
        .iter()
        .map(|(secs, nanos)| {
            let start = Timestamp { secs: *secs, nanos: *nanos };
            Session::create_at("/h", start, "c", "/w", 1).unwrap().0.id
        })
        .collect();
    assert_eq!(names[0], names[1]);
    for i in 1..names.len() - 1 {
        assert!(names[i] < names[i + 1]);
    }
    assert_eq!(names[3], "19700101_000059_999");
    assert_eq!(names[6], "20000229_000000_000");
}

fn ended(exit_code: i32) -> Event {
    Event::SessionEnd(SessionEndEvent {
        exit_code,
        duration: Duration::from_secs(1),
        timestamp: Timestamp { secs: 0, nanos: 0 },
    })
}

fn codes(events: &[Event]) -> Vec<i32> {
    let code = |event: &Event| match event {
        Event::SessionEnd(end) => end.exit_code,
        _ => panic!("not an end"),
    };
    events.iter().map(code).collect()
}

#[test]
fn the_events_of_a_log_are_read_in_order() {
    let entries = Session::log_entries("a\n\n  \nb\nc\n");
    assert_eq!(entries, vec!["a", "b", "c"]);
    let parsed = vec![Ok(ended(1)), Ok(ended(2)), Ok(ended(3))];
    let events = Session::load_events(&entries, parsed).unwrap();
    assert_eq!(codes(&events), vec![1, 2, 3]);
    assert!(Session::load_events(&vec![], vec![]).unwrap().is_empty());
}

#[test]
fn the_first_event_that_cannot_be_read_is_told() {
    let entries = Session::log_entries("a\nb\nc\n");
    let parsed =
        vec![Ok(ended(1)), Err("no object".to_string()), Err("another reason".to_string())];
    let error = Session::load_events(&entries, parsed).unwrap_err();
    assert_eq!(error.entry, "b");
    assert_eq!(error.reason, "no object");
    assert_eq!(error.message(), "failed to parse event: b");
}

#[test]
fn a_blank_line_in_a_log_changes_nothing() {
    for blank in ["", " ", "\t \t", "\r"] {
        let log = format!("one\ntwo\n{blank}\nthree\n");
        assert_eq!(Session::log_entries(&log), Session::log_entries("one\ntwo\nthree\n"));
    }
}

#[test]
fn a_session_that_starts_now_has_a_date() {
    let (session, event) = Session::create("make", "/w", 7).unwrap();
    assert!(session.start_time.secs > 1_700_000_000);
    assert!(session.start_time.nanos < 1_000_000_000);
    assert_eq!(&session.id[8..9], "_");
    assert_eq!(&session.id[15..16], "_");
    let (again, _) =
        Session::create_at("/h", session.start_time, "make", "/w", 7).unwrap();
    assert_eq!(again.id, session.id);
    match event {
        Event::SessionStart(start) => {
            assert_eq!((start.command.as_str(), start.workspace.as_str()), ("make", "/w"));
            assert_eq!(start.pid, 7);
            assert!(start.timestamp == session.start_time);
        }
        _ => panic!("not a start"),
    }
}
