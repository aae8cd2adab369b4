use postflight::shutdown::{Action, GracefulShutdown, Observation};
use postflight::time::Duration;

fn watchdog(max_secs: Option<u64>, grace_secs: u64) -> GracefulShutdown {
    GracefulShutdown::new(
        "/s/1".to_string(),
        max_secs.map(Duration::from_secs),
        Duration::from_secs(grace_secs),
        "wrap up\n".to_string(),
        77,
    )
}

fn look(rules: &mut GracefulShutdown, millis: u64, alive: bool, requested: bool) -> String {
    let seen = Observation {
        now: Duration::from_millis(millis),
        child_alive: alive,
        stop_requested: requested,
    };
    assert!(rules.can_step(seen.now));
    match rules.step(seen) {
        Action::Look => "look".to_string(),
        Action::Sleep(d) => format!("sleep {}", d.as_secs() * 1000 + d.subsec_nanos() as u64 / 1_000_000),
        Action::SendMessage => "message".to_string(),
        Action::Terminate => "term".to_string(),
        Action::Kill => "kill".to_string(),
        Action::Finish(clear) => format!("finish {clear}"),
    }
}

#[test]
fn a_stop_escalates_from_words_to_signals() {
    let mut rules = watchdog(None, 60);
    assert_eq!(look(&mut rules, 0, true, false), "sleep 1000");
    assert_eq!(look(&mut rules, 1000, true, false), "sleep 1000");
    assert_eq!(look(&mut rules, 2000, true, true), "look");
    assert_eq!(look(&mut rules, 2000, true, true), "message");
    assert_eq!(look(&mut rules, 2001, true, true), "sleep 500");
    assert_eq!(look(&mut rules, 62_000, true, true), "sleep 500");
    assert_eq!(look(&mut rules, 62_001, true, true), "term");
    assert_eq!(look(&mut rules, 62_002, true, true), "sleep 250");
    assert_eq!(look(&mut rules, 67_001, true, true), "sleep 250");
    assert_eq!(look(&mut rules, 67_002, true, true), "kill");
    assert_eq!(look(&mut rules, 67_003, true, true), "finish true");
    assert_eq!(look(&mut rules, 67_004, true, true), "finish false");
}

#[test]
fn a_session_that_runs_too_long_is_stopped() {
    let mut rules = watchdog(Some(3600), 60);
    assert_eq!(look(&mut rules, 0, true, false), "sleep 1000");
    assert_eq!(look(&mut rules, 3_599_999, true, false), "sleep 1000");
    assert_eq!(look(&mut rules, 3_600_000, true, false), "look");
    assert_eq!(look(&mut rules, 3_600_000, true, false), "message");
}

#[test]
fn a_child_that_ends_by_itself_is_left_alone() {
    let mut rules = watchdog(None, 60);
    look(&mut rules, 0, true, false);
    assert_eq!(look(&mut rules, 1000, false, true), "finish false");
}

#[test]
fn a_child_that_heeds_the_message_gets_no_signal() {
    let mut rules = watchdog(None, 60);
    look(&mut rules, 0, true, false);
    look(&mut rules, 1000, true, true);
    assert_eq!(look(&mut rules, 1000, true, true), "message");
    assert_eq!(look(&mut rules, 1001, true, true), "sleep 500");
    assert_eq!(look(&mut rules, 1501, false, true), "finish true");
}

#[test]
fn a_child_that_ends_before_the_message_gets_none() {
    let mut rules = watchdog(None, 60);
    look(&mut rules, 0, true, false);
    assert_eq!(look(&mut rules, 1000, true, true), "look");
    assert_eq!(look(&mut rules, 1000, false, true), "finish true");
}

#[test]
fn without_grace_the_signal_follows_at_once() {
    let mut rules = watchdog(None, 0);
    look(&mut rules, 0, true, false);
    look(&mut rules, 1000, true, true);
    look(&mut rules, 1000, true, true);
    assert_eq!(look(&mut rules, 1000, true, true), "term");
    assert_eq!(look(&mut rules, 1000, false, true), "finish true");
}

#[test]
fn a_grace_period_beyond_all_time_is_found_out() {
    let mut rules = watchdog(None, u64::MAX);
    look(&mut rules, 0, true, false);
    look(&mut rules, 1000, true, true);
    look(&mut rules, 1000, true, true);
    assert!(!rules.can_step(Duration::from_secs(1)));
    assert!(rules.can_step(Duration::from_secs(0)));
}

#[test]
fn the_process_group_is_signalled() {
    assert_eq!(watchdog(None, 1).signal_target(), -77);
}

#[test]
fn the_sentinel_lies_in_the_session() {
    assert_eq!(GracefulShutdown::sentinel_path("/s/1"), "/s/1/stop_requested");
}

#[test]
fn a_child_that_heeds_nothing_is_ended() {
    let mut rules = watchdog(None, 2);
    let mut done = Vec::new();
    for millis in (0..20_000).step_by(100) {
        let action = look(&mut rules, millis, true, true);
        if !action.starts_with("sleep") && action != "look" {
            done.push(action.clone());
        }
        if action.starts_with("finish") {
            break;
        }
    }
    assert_eq!(done, vec!["message", "term", "kill", "finish true"]);
}
