use postflight::pty::{
    extract_exit_code, ChildStatus, PtyCommand, PtyEvent, PtyLoop, PtyState, Readiness,
};

const QUIET: Readiness = Readiness { readable: false, hung_up: false };
const READABLE: Readiness = Readiness { readable: true, hung_up: false };
const CLOSED: Readiness = Readiness { readable: false, hung_up: true };
const LAST_WORDS: Readiness = Readiness { readable: true, hung_up: true };

fn play(events: &[PtyEvent]) -> PtyCommand {
    let (mut rules, mut command) = PtyLoop::start();
    for event in events {
        assert!(rules.accepts(*event), "{event:?} in {rules:?}");
        command = rules.step(*event);
    }
    command
}

#[test]
fn exit_codes_are_those_of_a_shell() {
    assert_eq!(extract_exit_code(ChildStatus::Exited(42)), 42);
    assert_eq!(extract_exit_code(ChildStatus::Signaled(15)), 143);
    assert_eq!(extract_exit_code(ChildStatus::Signaled(9)), 137);
    assert_eq!(extract_exit_code(ChildStatus::Other), -1);
}

#[test]
fn the_loop_begins_by_waiting() {
    assert!(play(&[]) == PtyCommand::Poll(100, true));
    assert!(play(&[PtyEvent::Interrupted]) == PtyCommand::Poll(100, true));
    assert!(play(&[PtyEvent::Failed]) == PtyCommand::Fail);
}

#[test]
fn output_is_read_and_handed_on() {
    let ready = PtyEvent::Ready(READABLE, false);
    assert!(play(&[ready]) == PtyCommand::ReadChild);
    assert!(play(&[ready, PtyEvent::Moved(17)]) == PtyCommand::Deliver(17));
    assert!(
        play(&[ready, PtyEvent::Moved(17), PtyEvent::Delivered]) == PtyCommand::Poll(100, true)
    );
    assert!(play(&[ready, PtyEvent::Moved(0)]) == PtyCommand::WaitChild);
    assert!(play(&[ready, PtyEvent::Ended]) == PtyCommand::WaitChild);
    assert!(play(&[ready, PtyEvent::Failed]) == PtyCommand::Fail);
    assert!(play(&[PtyEvent::Ready(LAST_WORDS, false)]) == PtyCommand::ReadChild);
    assert!(play(&[PtyEvent::Ready(CLOSED, false)]) == PtyCommand::WaitChild);
}

#[test]
fn input_is_forwarded_piece_by_piece() {
    let typed = PtyEvent::Ready(READABLE, true);
    assert!(play(&[typed]) == PtyCommand::ReadInput);
    assert!(play(&[typed, PtyEvent::Moved(10)]) == PtyCommand::WriteChild(0, 10));
    let partial = [typed, PtyEvent::Moved(10), PtyEvent::Moved(4)];
    assert!(play(&partial) == PtyCommand::WriteChild(4, 10));
    let interrupted = [partial[0], partial[1], partial[2], PtyEvent::Interrupted];
    assert!(play(&interrupted) == PtyCommand::WriteChild(4, 10));
    let whole = [partial[0], partial[1], partial[2], PtyEvent::Moved(6)];
    assert!(play(&whole) == PtyCommand::ReadChild);
    let given_up = [partial[0], partial[1], PtyEvent::Moved(0)];
    assert!(play(&given_up) == PtyCommand::ReadChild);
    assert!(play(&[typed, PtyEvent::Moved(10), PtyEvent::Failed]) == PtyCommand::ReadChild);
    assert!(play(&[typed, PtyEvent::Failed]) == PtyCommand::ReadChild);
}

#[test]
fn input_that_ends_is_not_waited_for() {
    let events = [PtyEvent::Ready(QUIET, true), PtyEvent::Moved(0)];
    assert!(play(&events) == PtyCommand::Poll(100, false));
    let later = [events[0], events[1], PtyEvent::Interrupted];
    assert!(play(&later) == PtyCommand::Poll(100, false));
}

#[test]
fn a_silent_child_is_looked_after() {
    assert!(play(&[PtyEvent::TimedOut]) == PtyCommand::CheckChild);
    let running = [PtyEvent::TimedOut, PtyEvent::StillRunning];
    assert!(play(&running) == PtyCommand::Poll(100, true));
    assert!(play(&[PtyEvent::TimedOut, PtyEvent::Failed]) == PtyCommand::WaitChild);
}

#[test]
fn what_a_gone_child_left_is_read() {
    let gone = PtyEvent::Gone(ChildStatus::Exited(3));
    let start = [PtyEvent::TimedOut, gone];
    assert!(play(&start) == PtyCommand::Poll(50, false));
    let left = [start[0], start[1], PtyEvent::Ready(LAST_WORDS, false)];
    assert!(play(&left) == PtyCommand::ReadChild);
    let read = [left[0], left[1], left[2], PtyEvent::Moved(5)];
    assert!(play(&read) == PtyCommand::Deliver(5));
    let again = [read[0], read[1], read[2], read[3], PtyEvent::Delivered];
    assert!(play(&again) == PtyCommand::Poll(50, false));
    assert!(play(&[start[0], start[1], PtyEvent::TimedOut]) == PtyCommand::Finish(3));
    assert!(play(&[start[0], start[1], PtyEvent::Failed]) == PtyCommand::Finish(3));
    let closed = [start[0], start[1], PtyEvent::Ready(CLOSED, false)];
    assert!(play(&closed) == PtyCommand::Finish(3));
    let nothing = [left[0], left[1], left[2], PtyEvent::Moved(0)];
    assert!(play(&nothing) == PtyCommand::Finish(3));
    let broken = [left[0], left[1], left[2], PtyEvent::Ended];
    assert!(play(&broken) == PtyCommand::Finish(3));
}

#[test]
fn the_end_of_the_child_is_waited_for() {
    let closed = PtyEvent::Ready(CLOSED, false);
    let gone = PtyEvent::Gone(ChildStatus::Signaled(2));
    assert!(play(&[closed, gone]) == PtyCommand::Finish(130));
    assert!(play(&[closed, PtyEvent::Failed]) == PtyCommand::Fail);
}

#[test]
fn events_out_of_turn_are_refused() {
    let (rules, _) = PtyLoop::start();
    assert!(!rules.accepts(PtyEvent::Delivered));
    assert!(!rules.accepts(PtyEvent::Moved(1)));
    let writing = PtyLoop { input_open: true, state: PtyState::Forwarding(4, 10, QUIET) };
    assert!(writing.accepts(PtyEvent::Moved(6)));
    assert!(!writing.accepts(PtyEvent::Moved(7)));
    let over = PtyLoop { input_open: true, state: PtyState::Over };
    assert!(!over.accepts(PtyEvent::TimedOut));
}

#[test]
fn every_positive_amount_that_was_read_is_delivered() {
    let ready = PtyEvent::Ready(READABLE, false);
    let typed = PtyEvent::Ready(READABLE, true);
    let events = [
        ready,
        PtyEvent::Moved(17),
        PtyEvent::Delivered,
        typed,
        PtyEvent::Moved(3),
        PtyEvent::Moved(3),
        PtyEvent::Moved(40),
        PtyEvent::Delivered,
        PtyEvent::TimedOut,
        PtyEvent::StillRunning,
        ready,
        PtyEvent::Moved(5),
        PtyEvent::Delivered,
        ready,
        PtyEvent::Moved(0),
    ];
    let (mut rules, mut command) = PtyLoop::start();
    let mut delivered = Vec::new();
    let mut written = 0;
    for event in events {
        assert!(rules.accepts(event), "{event:?} in {rules:?}");
        if let (PtyCommand::WriteChild(from, _), PtyEvent::Moved(n)) = (command, event) {
            assert_eq!(from, written);
            written += n;
        }
        command = rules.step(event);
        if let PtyCommand::Deliver(n) = command {
            delivered.push(n);
        }
    }
    assert_eq!(delivered, vec![17, 40, 5]);
    assert_eq!(written, 3);
}
