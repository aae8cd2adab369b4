//! Standing between a terminal and the child: what to read, what to pass on, and when to stop.
//!
//! The loop that does the reading and writing asks at every step what to do next, and reports what
//! came of it.

use vstd::prelude::*;

use crate::time::Duration;

verus! {

/// How a child ended, and how long it ran.
#[derive(Debug, Clone, Copy)]
pub struct PtyResult {
    pub exit_code: i32,
    pub duration: Duration,
}

/// What the system tells of a child that no longer runs.
#[derive(Debug, Clone, Copy, PartialEq, Eq, Structural)]
pub enum ChildStatus {
    /// It exited with this code.
    Exited(i32),
    /// It was ended by this signal.
    Signaled(u8),
    /// Anything else.
    Other,
}

/// The exit code that stands for a status: as shells have it, 128 and the number of the signal where
/// a signal ended the child.
pub open spec fn exit_code_of(status: ChildStatus) -> int {
    match status {
        ChildStatus::Exited(code) => code as int,
        ChildStatus::Signaled(signal) => 128 + signal,
        ChildStatus::Other => -1,
    }
}

/// The exit code that stands for a status.
pub fn extract_exit_code(status: ChildStatus) -> (r: i32)
    ensures
        r == exit_code_of(status),
{
    match status {
        ChildStatus::Exited(code) => code,
        ChildStatus::Signaled(signal) => 128 + signal as i32,
        ChildStatus::Other => -1,
    }
}

/// What the child's side of the terminal is ready for.
#[derive(Debug, Clone, Copy, PartialEq, Eq, Structural)]
pub struct Readiness {
    /// There is something to read.
    pub readable: bool,
    /// The other end was closed.
    pub hung_up: bool,
}

/// Where the loop stands.
#[derive(Debug, Clone, Copy, PartialEq, Eq, Structural)]
pub enum PtyState {
    /// Waiting for something to happen.
    Polling,
    /// Reading what was typed.
    ReadingInput(Readiness),
    /// Passing on what was typed: so many bytes are through, of so many.
    Forwarding(usize, usize, Readiness),
    /// Reading what the child wrote.
    ReadingChild,
    /// Handing on what the child wrote.
    Delivering,
    /// Asking whether the child still runs.
    Checking,
    /// The child is gone, with this exit code; waiting for what it left to be read.
    Draining(i32),
    /// Reading what the child left.
    ReadingRest(i32),
    /// Handing on what the child left.
    DeliveringRest(i32),
    /// Waiting for the child to end.
    Waiting,
    /// The loop is over.
    Over,
}

/// What came of the last command.
#[derive(Debug, Clone, Copy, PartialEq, Eq, Structural)]
pub enum PtyEvent {
    /// Something happened: on the child's side, and whether something was typed.
    Ready(Readiness, bool),
    /// Nothing happened in the given time.
    TimedOut,
    /// The waiting was interrupted.
    Interrupted,
    /// So many bytes were read or written.
    Moved(usize),
    /// Reading or writing failed because the other end is gone or has nothing more.
    Ended,
    /// What was handed on has arrived.
    Delivered,
    /// The child still runs.
    StillRunning,
    /// The child ended.
    Gone(ChildStatus),
    /// The command failed in any other way.
    Failed,
}

/// What to do next.
#[derive(Debug, Clone, Copy, PartialEq, Eq, Structural)]
pub enum PtyCommand {
    /// Wait up to so many milliseconds for the child's side, and for input where told so.
    Poll(u16, bool),
    /// Read what was typed.
    ReadInput,
    /// Write the bytes from the first number up to the second of what was typed.
    WriteChild(usize, usize),
    /// Read what the child wrote.
    ReadChild,
    /// Hand so many bytes of it on.
    Deliver(usize),
    /// Ask whether the child still runs.
    CheckChild,
    /// Wait for the child to end.
    WaitChild,
    /// Stop, with this exit code.
    Finish(i32),
    /// Stop with the error of the last command.
    Fail,
}

/// Whether an event can follow in a state.
pub open spec fn can_follow(state: PtyState, event: PtyEvent) -> bool {
    match state {
        PtyState::Polling => event is Ready || event is TimedOut || event is Interrupted || event
            is Failed,
        PtyState::ReadingInput(_) => event is Moved || event is Failed || event is Interrupted,
        PtyState::Forwarding(written, total, _) => {
            &&& written < total
            &&& match event {
                PtyEvent::Moved(n) => n <= total - written,
                PtyEvent::Interrupted => true,
                PtyEvent::Failed => true,
                _ => false,
            }
        },
        PtyState::ReadingChild => event is Moved || event is Ended || event is Failed,
        PtyState::Delivering => event is Delivered,
        PtyState::Checking => event is StillRunning || event is Gone || event is Failed,
        PtyState::Draining(_) => event is Ready || event is TimedOut || event is Interrupted || event
            is Failed,
        PtyState::ReadingRest(_) => event is Moved || event is Ended || event is Failed,
        PtyState::DeliveringRest(_) => event is Delivered,
        PtyState::Waiting => event is Gone || event is Failed,
        PtyState::Over => false,
    }
}

/// What follows when the input has been dealt with: the end where the child's side was closed and
/// has nothing to read, reading where it has something, and otherwise more waiting.
pub open spec fn after_input(ready: Readiness, input_open: bool) -> (PtyState, PtyCommand) {
    if ready.hung_up && !ready.readable {
        (PtyState::Waiting, PtyCommand::WaitChild)
    } else if ready.readable {
        (PtyState::ReadingChild, PtyCommand::ReadChild)
    } else {
        (PtyState::Polling, PtyCommand::Poll(100, input_open))
    }
}

/// What an event leads to: the next state, whether input is still open, and the next command.
pub open spec fn answer(state: PtyState, input_open: bool, event: PtyEvent) -> (
    PtyState,
    bool,
    PtyCommand,
) {
    let poll = (PtyState::Polling, input_open, PtyCommand::Poll(100, input_open));
    let wait = (PtyState::Waiting, input_open, PtyCommand::WaitChild);
    let fail = (PtyState::Over, input_open, PtyCommand::Fail);
    match (state, event) {
        (PtyState::Polling, PtyEvent::Ready(ready, typed)) => if typed && input_open {
            (PtyState::ReadingInput(ready), input_open, PtyCommand::ReadInput)
        } else {
            let (next, command) = after_input(ready, input_open);
            (next, input_open, command)
        },
        (PtyState::Polling, PtyEvent::TimedOut) => (
            PtyState::Checking,
            input_open,
            PtyCommand::CheckChild,
        ),
        (PtyState::Polling, PtyEvent::Interrupted) => poll,
        (PtyState::Polling, _) => fail,
        (PtyState::ReadingInput(ready), PtyEvent::Moved(n)) => if n > 0 {
            (PtyState::Forwarding(0, n, ready), input_open, PtyCommand::WriteChild(0, n))
        } else {
            let (next, command) = after_input(ready, false);
            (next, false, command)
        },
        (PtyState::ReadingInput(ready), _) => {
            let (next, command) = after_input(ready, input_open);
            (next, input_open, command)
        },
        (PtyState::Forwarding(written, total, ready), PtyEvent::Moved(n)) => if n > 0 && written + n
            < total {
            (
                PtyState::Forwarding((written + n) as usize, total, ready),
                input_open,
                PtyCommand::WriteChild((written + n) as usize, total),
            )
        } else {
            let (next, command) = after_input(ready, input_open);
            (next, input_open, command)
        },
        (PtyState::Forwarding(written, total, ready), PtyEvent::Interrupted) => (
            PtyState::Forwarding(written, total, ready),
            input_open,
            PtyCommand::WriteChild(written, total),
        ),
        (PtyState::Forwarding(_, _, ready), _) => {
            let (next, command) = after_input(ready, input_open);
            (next, input_open, command)
        },
        (PtyState::ReadingChild, PtyEvent::Moved(n)) => if n > 0 {
            (PtyState::Delivering, input_open, PtyCommand::Deliver(n))
        } else {
            wait
        },
        (PtyState::ReadingChild, PtyEvent::Ended) => wait,
        (PtyState::ReadingChild, _) => fail,
        (PtyState::Delivering, _) => poll,
        (PtyState::Checking, PtyEvent::StillRunning) => poll,
        (PtyState::Checking, PtyEvent::Gone(status)) => (
            PtyState::Draining(exit_code_of(status) as i32),
            input_open,
            PtyCommand::Poll(50, false),
        ),
        (PtyState::Checking, _) => wait,
        (PtyState::Draining(code), PtyEvent::Ready(ready, _)) => if ready.hung_up
            && !ready.readable {
            (PtyState::Over, input_open, PtyCommand::Finish(code))
        } else {
            (PtyState::ReadingRest(code), input_open, PtyCommand::ReadChild)
        },
        (PtyState::Draining(code), _) => (PtyState::Over, input_open, PtyCommand::Finish(code)),
        (PtyState::ReadingRest(code), PtyEvent::Moved(n)) => if n > 0 {
            (PtyState::DeliveringRest(code), input_open, PtyCommand::Deliver(n))
        } else {
            (PtyState::Over, input_open, PtyCommand::Finish(code))
        },
        (PtyState::ReadingRest(code), _) => (PtyState::Over, input_open, PtyCommand::Finish(code)),
        (PtyState::DeliveringRest(code), _) => (
            PtyState::Draining(code),
            input_open,
            PtyCommand::Poll(50, false),
        ),
        (PtyState::Waiting, PtyEvent::Gone(status)) => (
            PtyState::Over,
            input_open,
            PtyCommand::Finish(exit_code_of(status) as i32),
        ),
        (PtyState::Waiting, _) => fail,
        (PtyState::Over, _) => fail,
    }
}

/// The loop between a terminal and a child.
#[derive(Debug)]
pub struct PtyLoop {
    pub input_open: bool,
    pub state: PtyState,
}

impl PtyLoop {
    /// A loop that has just begun, and its first command.
    pub fn start() -> (r: (PtyLoop, PtyCommand))
        ensures
            r.0.input_open,
            r.0.state == PtyState::Polling,
            r.1 == PtyCommand::Poll(100, true),
    {
        (PtyLoop { input_open: true, state: PtyState::Polling }, PtyCommand::Poll(100, true))
    }

    /// Tests whether an event can follow now.
    pub fn accepts(&self, event: PtyEvent) -> (r: bool)
        ensures
            r == can_follow(self.state, event),
    {
        match self.state {
            PtyState::Polling | PtyState::Draining(_) => match event {
                PtyEvent::Ready(_, _) => true,
                PtyEvent::TimedOut => true,
                PtyEvent::Interrupted => true,
                PtyEvent::Failed => true,
                _ => false,
            },
            PtyState::ReadingInput(_) => match event {
                PtyEvent::Moved(_) => true,
                PtyEvent::Interrupted => true,
                PtyEvent::Failed => true,
                _ => false,
            },
            PtyState::Forwarding(written, total, _) => written < total && match event {
                PtyEvent::Moved(n) => n <= total - written,
                PtyEvent::Interrupted => true,
                PtyEvent::Failed => true,
                _ => false,
            },
            PtyState::ReadingChild | PtyState::ReadingRest(_) => match event {
                PtyEvent::Moved(_) => true,
                PtyEvent::Ended => true,
                PtyEvent::Failed => true,
                _ => false,
            },
            PtyState::Delivering | PtyState::DeliveringRest(_) => match event {
                PtyEvent::Delivered => true,
                _ => false,
            },
            PtyState::Checking => match event {
                PtyEvent::StillRunning => true,
                PtyEvent::Gone(_) => true,
                PtyEvent::Failed => true,
                _ => false,
            },
            PtyState::Waiting => match event {
                PtyEvent::Gone(_) => true,
                PtyEvent::Failed => true,
                _ => false,
            },
            PtyState::Over => false,
        }
    }

    fn go(&mut self, state: PtyState, command: PtyCommand) -> (r: PtyCommand)
        ensures
            final(self).state == state,
            final(self).input_open == old(self).input_open,
            r == command,
    {
        self.state = state;
        command
    }

    fn go_on(&mut self, ready: Readiness) -> (r: PtyCommand)
        ensures
            (final(self).state, r) == after_input(ready, old(self).input_open),
            final(self).input_open == old(self).input_open,
    {
        if ready.hung_up && !ready.readable {
            self.go(PtyState::Waiting, PtyCommand::WaitChild)
        } else if ready.readable {
            self.go(PtyState::ReadingChild, PtyCommand::ReadChild)
        } else {
            let open = self.input_open;
            self.go(PtyState::Polling, PtyCommand::Poll(100, open))
        }
    }

    /// Goes on from what came of the last command, and says what to do next.
    pub fn step(&mut self, event: PtyEvent) -> (r: PtyCommand)
        requires
            can_follow(old(self).state, event),
        ensures
            (final(self).state, final(self).input_open, r) == answer(
                old(self).state,
                old(self).input_open,
                event,
            ),
    {
        let open = self.input_open;
        match self.state {
            PtyState::Polling => match event {
                PtyEvent::Ready(ready, typed) => if typed && open {
                    self.go(PtyState::ReadingInput(ready), PtyCommand::ReadInput)
                } else {
                    self.go_on(ready)
                },
                PtyEvent::TimedOut => self.go(PtyState::Checking, PtyCommand::CheckChild),
                PtyEvent::Interrupted => self.go(PtyState::Polling, PtyCommand::Poll(100, open)),
                _ => self.go(PtyState::Over, PtyCommand::Fail),
            },
            PtyState::ReadingInput(ready) => match event {
                PtyEvent::Moved(n) => if n > 0 {
                    self.go(PtyState::Forwarding(0, n, ready), PtyCommand::WriteChild(0, n))
                } else {
                    self.input_open = false;
                    self.go_on(ready)
                },
                _ => self.go_on(ready),
            },
            PtyState::Forwarding(written, total, ready) => match event {
                PtyEvent::Moved(n) => if n > 0 && n < total - written {
                    let through: usize = written + n;
                    self.go(
                        PtyState::Forwarding(through, total, ready),
                        PtyCommand::WriteChild(through, total),
                    )
                } else {
                    self.go_on(ready)
                },
                PtyEvent::Interrupted => self.go(
                    PtyState::Forwarding(written, total, ready),
                    PtyCommand::WriteChild(written, total),
                ),
                _ => self.go_on(ready),
            },
            PtyState::ReadingChild => match event {
                PtyEvent::Moved(n) => if n > 0 {
                    self.go(PtyState::Delivering, PtyCommand::Deliver(n))
                } else {
                    self.go(PtyState::Waiting, PtyCommand::WaitChild)
                },
                PtyEvent::Ended => self.go(PtyState::Waiting, PtyCommand::WaitChild),
                _ => self.go(PtyState::Over, PtyCommand::Fail),
            },
            PtyState::Delivering => self.go(PtyState::Polling, PtyCommand::Poll(100, open)),
            PtyState::Checking => match event {
                PtyEvent::StillRunning => self.go(PtyState::Polling, PtyCommand::Poll(100, open)),
                PtyEvent::Gone(status) => self.go(
                    PtyState::Draining(extract_exit_code(status)),
                    PtyCommand::Poll(50, false),
                ),
                _ => self.go(PtyState::Waiting, PtyCommand::WaitChild),
            },
            PtyState::Draining(code) => match event {
                PtyEvent::Ready(ready, _) => if ready.hung_up && !ready.readable {
                    self.go(PtyState::Over, PtyCommand::Finish(code))
                } else {
                    self.go(PtyState::ReadingRest(code), PtyCommand::ReadChild)
                },
                _ => self.go(PtyState::Over, PtyCommand::Finish(code)),
            },
            PtyState::ReadingRest(code) => match event {
                PtyEvent::Moved(n) => if n > 0 {
                    self.go(PtyState::DeliveringRest(code), PtyCommand::Deliver(n))
                } else {
                    self.go(PtyState::Over, PtyCommand::Finish(code))
                },
                _ => self.go(PtyState::Over, PtyCommand::Finish(code)),
            },
            PtyState::DeliveringRest(code) => self.go(
                PtyState::Draining(code),
                PtyCommand::Poll(50, false),
            ),
            PtyState::Waiting => match event {
                PtyEvent::Gone(status) => self.go(
                    PtyState::Over,
                    PtyCommand::Finish(extract_exit_code(status)),
                ),
                _ => self.go(PtyState::Over, PtyCommand::Fail),
            },
            PtyState::Over => self.go(PtyState::Over, PtyCommand::Fail),
        }
    }
}

/// Where the loop stands after some events, and whether input is still open.
pub open spec fn state_after(events: Seq<PtyEvent>) -> (PtyState, bool)
    decreases events.len(),
{
    if events.len() == 0 {
        (PtyState::Polling, true)
    } else {
        let (state, open) = state_after(events.drop_last());
        let (next, next_open, _) = answer(state, open, events.last());
        (next, next_open)
    }
}

/// Whether each event can follow where the ones before it lead.
pub open spec fn all_follow(events: Seq<PtyEvent>) -> bool
    decreases events.len(),
{
    events.len() == 0 || (all_follow(events.drop_last()) && can_follow(
        state_after(events.drop_last()).0,
        events.last(),
    ))
}

/// Input that was closed stays closed, and is not waited for any more.
pub proof fn lemma_input_stays_closed(state: PtyState, event: PtyEvent)
    ensures
        ({
            let (next, open, command) = answer(state, false, event);
            &&& !open
            &&& command matches PtyCommand::Poll(_, with_input) ==> !with_input
        }),
{
}

/// Whatever the child wrote is handed on, in the very amount that was read.
pub proof fn lemma_output_is_delivered(state: PtyState, input_open: bool, n: usize)
    requires
        state is ReadingChild || state is ReadingRest,
        n > 0,
    ensures
        answer(state, input_open, PtyEvent::Moved(n)).2 == PtyCommand::Deliver(n),
{
}

/// The amounts that were read from the child over some events, but for empty reads.
pub open spec fn amounts_read(events: Seq<PtyEvent>) -> Seq<usize>
    decreases events.len(),
{
    if events.len() == 0 {
        Seq::empty()
    } else {
        let before = amounts_read(events.drop_last());
        let state = state_after(events.drop_last()).0;
        match events.last() {
            PtyEvent::Moved(n) if n > 0 && (state is ReadingChild || state is ReadingRest) =>
                before.push(n),
            _ => before,
        }
    }
}

/// The amounts that the loop had handed on over some events, in the order of its commands.
pub open spec fn amounts_delivered(events: Seq<PtyEvent>) -> Seq<usize>
    decreases events.len(),
{
    if events.len() == 0 {
        Seq::empty()
    } else {
        let before = amounts_delivered(events.drop_last());
        let (state, open) = state_after(events.drop_last());
        match answer(state, open, events.last()).2 {
            PtyCommand::Deliver(n) => before.push(n),
            _ => before,
        }
    }
}

/// How often something arrived over some events.
pub open spec fn arrivals(events: Seq<PtyEvent>) -> nat
    decreases events.len(),
{
    if events.len() == 0 {
        0
    } else {
        arrivals(events.drop_last()) + (if events.last() is Delivered {
            1nat
        } else {
            0
        })
    }
}

/// Over a whole run everything that the child wrote is handed on: the amounts are, in order, those
/// that were read. And each has arrived before the loop goes on.
pub proof fn lemma_all_output_is_delivered(events: Seq<PtyEvent>)
    requires
        all_follow(events),
    ensures
        amounts_delivered(events) == amounts_read(events),
        ({
            let state = state_after(events).0;
            let under_way = if state is Delivering || state is DeliveringRest {
                1nat
            } else {
                0
            };
            arrivals(events) + under_way == amounts_delivered(events).len()
        }),
    decreases events.len(),
{
    if events.len() > 0 {
        lemma_all_output_is_delivered(events.drop_last());
    }
}

/// What is left to write follows what was written, without a gap and without a repeat, until all of
/// it is through or writing fails.
pub proof fn lemma_input_is_forwarded(
    written: usize,
    total: usize,
    ready: Readiness,
    input_open: bool,
    n: usize,
)
    requires
        0 < n < total - written,
    ensures
        answer(
            PtyState::Forwarding(written, total, ready),
            input_open,
            PtyEvent::Moved(n),
        ).2 == PtyCommand::WriteChild((written + n) as usize, total),
{
}

/// How many bytes of what was typed last were passed on over some events.
pub open spec fn passed_on(events: Seq<PtyEvent>) -> nat
    decreases events.len(),
{
    if events.len() == 0 {
        0
    } else {
        let before = passed_on(events.drop_last());
        match (state_after(events.drop_last()).0, events.last()) {
            (PtyState::ReadingInput(_), PtyEvent::Moved(_)) => 0,
            (PtyState::Forwarding(_, _, _), PtyEvent::Moved(n)) => before + n as nat,
            _ => before,
        }
    }
}

/// Over a whole run the next byte to write is the one behind those that were passed on. The loop
/// stops writing when all that was typed is through, unless writing fails or moves nothing.
pub proof fn lemma_all_input_is_forwarded(events: Seq<PtyEvent>, event: PtyEvent)
    requires
        all_follow(events.push(event)),
    ensures
        state_after(events).0 matches PtyState::Forwarding(written, total, _) ==> {
            &&& written == passed_on(events)
            &&& written < total
            &&& event matches PtyEvent::Moved(n) ==> n > 0 ==> (state_after(
                events.push(event),
            ).0 is Forwarding <==> passed_on(events.push(event)) < total)
        },
{
    assert(events.push(event).drop_last() =~= events);
    lemma_written_is_passed_on(events);
}

proof fn lemma_written_is_passed_on(events: Seq<PtyEvent>)
    requires
        all_follow(events),
    ensures
        state_after(events).0 matches PtyState::Forwarding(written, total, _) ==> written
            == passed_on(events) && written < total,
    decreases events.len(),
{
    if events.len() > 0 {
        lemma_written_is_passed_on(events.drop_last());
    }
}

/// The code that a drain holds on to.
pub open spec fn held_code(state: PtyState) -> Option<i32> {
    match state {
        PtyState::Draining(code) => Some(code),
        PtyState::ReadingRest(code) => Some(code),
        PtyState::DeliveringRest(code) => Some(code),
        _ => None,
    }
}

/// Whether an event says that the child ended with this exit code.
pub open spec fn tells_code(event: PtyEvent, code: i32) -> bool {
    event matches PtyEvent::Gone(status) && exit_code_of(status) == code
}

/// The loop never makes an exit code up: it finishes with a code only after the system told of the
/// end of the child with that very code.
pub proof fn lemma_code_was_told(events: Seq<PtyEvent>, event: PtyEvent, code: i32)
    requires
        all_follow(events.push(event)),
        answer(state_after(events).0, state_after(events).1, event).2 == PtyCommand::Finish(code),
    ensures
        exists|i: int|
            0 <= i < events.push(event).len() && tells_code(#[trigger] events.push(event)[i], code),
{
    let all = events.push(event);
    assert(all.drop_last() =~= events);
    let (state, open) = state_after(events);
    if state is Waiting {
        assert(tells_code(all[events.len() as int], code));
    } else {
        lemma_held_code_was_told(events);
        let i = choose|i: int| 0 <= i < events.len() && tells_code(#[trigger] events[i], code);
        assert(tells_code(all[i], code));
    }
}

proof fn lemma_held_code_was_told(events: Seq<PtyEvent>)
    requires
        all_follow(events),
    ensures
        held_code(state_after(events).0) matches Some(code) ==> exists|i: int|
            0 <= i < events.len() && tells_code(#[trigger] events[i], code),
    decreases events.len(),
{
    if events.len() > 0 {
        let front = events.drop_last();
        lemma_held_code_was_told(front);
        let (state, open) = state_after(front);
        let next = state_after(events).0;
        if held_code(next) is Some {
            let code = held_code(next)->0;
            if held_code(state) is Some {
                let i = choose|i: int| 0 <= i < front.len() && tells_code(#[trigger] front[i], code);
                assert(tells_code(events[i], code));
            } else {
                assert(tells_code(events[events.len() - 1], code));
            }
        }
    }
}

/// The exit code of a child is its own where it exited, and 128 and the number of the signal where a
/// signal ended it.
pub proof fn lemma_exit_codes(code: i32, signal: u8)
    ensures
        exit_code_of(ChildStatus::Exited(code)) == code,
        exit_code_of(ChildStatus::Signaled(signal)) == 128 + signal,
        exit_code_of(ChildStatus::Other) == -1,
{
}

/// What follows when something happened: what was typed comes first, as long as input is open; then
/// whatever the child wrote is read, even where its side was closed; and only where it was closed with
/// nothing left to read is the child waited for.
pub proof fn lemma_something_happened(
    readable: bool,
    hung_up: bool,
    typed: bool,
    input_open: bool,
)
    ensures
        ({
            let ready = Readiness { readable, hung_up };
            let next = answer(PtyState::Polling, input_open, PtyEvent::Ready(ready, typed));
            &&& next.1 == input_open
            &&& typed && input_open ==> next.0 == PtyState::ReadingInput(ready) && next.2
                == PtyCommand::ReadInput
            &&& !(typed && input_open) && readable ==> next.0 == PtyState::ReadingChild && next.2
                == PtyCommand::ReadChild
            &&& !(typed && input_open) && !readable && hung_up ==> next.0 == PtyState::Waiting
                && next.2 == PtyCommand::WaitChild
            &&& !(typed && input_open) && !readable && !hung_up ==> next.0 == PtyState::Polling
                && next.2 == PtyCommand::Poll(100, input_open)
        }),
{
}

/// What was typed is passed on from its first byte to its last. An end of the input closes it; an
/// interruption or a failure closes nothing. Then the loop goes on with the child's side as it was
/// found.
pub proof fn lemma_input_is_dealt_with(
    readable: bool,
    hung_up: bool,
    input_open: bool,
    written: usize,
    total: usize,
    n: usize,
)
    requires
        written < total,
        n <= total - written,
    ensures
        ({
            let ready = Readiness { readable, hung_up };
            let reading = PtyState::ReadingInput(ready);
            let passing = PtyState::Forwarding(written, total, ready);
            let go_on = |open: bool|
                if readable {
                    (PtyState::ReadingChild, open, PtyCommand::ReadChild)
                } else if hung_up {
                    (PtyState::Waiting, open, PtyCommand::WaitChild)
                } else {
                    (PtyState::Polling, open, PtyCommand::Poll(100, open))
                };
            &&& n > 0 ==> answer(reading, input_open, PtyEvent::Moved(n)) == (
                PtyState::Forwarding(0, n, ready),
                input_open,
                PtyCommand::WriteChild(0, n),
            )
            &&& answer(reading, input_open, PtyEvent::Moved(0)) == go_on(false)
            &&& answer(reading, input_open, PtyEvent::Interrupted) == go_on(input_open)
            &&& answer(reading, input_open, PtyEvent::Failed) == go_on(input_open)
            &&& 0 < n < total - written ==> answer(passing, input_open, PtyEvent::Moved(n)) == (
                PtyState::Forwarding((written + n) as usize, total, ready),
                input_open,
                PtyCommand::WriteChild((written + n) as usize, total),
            )
            &&& n == 0 || n == total - written ==> answer(passing, input_open, PtyEvent::Moved(n))
                == go_on(input_open)
            &&& answer(passing, input_open, PtyEvent::Interrupted) == (
                passing,
                input_open,
                PtyCommand::WriteChild(written, total),
            )
            &&& answer(passing, input_open, PtyEvent::Failed) == go_on(input_open)
        }),
{
}

/// What the child wrote is handed on and more is waited for; the end of its output leads to waiting
/// for the child. A silence leads to asking whether it still runs; one that does is waited for again,
/// and one that has ended is drained, with its exit code kept.
pub proof fn lemma_output_is_dealt_with(input_open: bool, n: usize, status: ChildStatus)
    ensures
        ({
            let poll = (PtyState::Polling, input_open, PtyCommand::Poll(100, input_open));
            let wait = (PtyState::Waiting, input_open, PtyCommand::WaitChild);
            let fail = (PtyState::Over, input_open, PtyCommand::Fail);
            let code = exit_code_of(status) as i32;
            &&& n > 0 ==> answer(PtyState::ReadingChild, input_open, PtyEvent::Moved(n)) == (
                PtyState::Delivering,
                input_open,
                PtyCommand::Deliver(n),
            )
            &&& answer(PtyState::ReadingChild, input_open, PtyEvent::Moved(0)) == wait
            &&& answer(PtyState::ReadingChild, input_open, PtyEvent::Ended) == wait
            &&& answer(PtyState::ReadingChild, input_open, PtyEvent::Failed) == fail
            &&& answer(PtyState::Delivering, input_open, PtyEvent::Delivered) == poll
            &&& answer(PtyState::Polling, input_open, PtyEvent::Interrupted) == poll
            &&& answer(PtyState::Polling, input_open, PtyEvent::Failed) == fail
            &&& answer(PtyState::Polling, input_open, PtyEvent::TimedOut) == (
                PtyState::Checking,
                input_open,
                PtyCommand::CheckChild,
            )
            &&& answer(PtyState::Checking, input_open, PtyEvent::StillRunning) == poll
            &&& answer(PtyState::Checking, input_open, PtyEvent::Failed) == wait
            &&& answer(PtyState::Checking, input_open, PtyEvent::Gone(status)) == (
                PtyState::Draining(code),
                input_open,
                PtyCommand::Poll(50, false),
            )
            &&& answer(PtyState::Waiting, input_open, PtyEvent::Gone(status)) == (
                PtyState::Over,
                input_open,
                PtyCommand::Finish(code),
            )
            &&& answer(PtyState::Waiting, input_open, PtyEvent::Failed) == fail
        }),
{
}

/// What a child that has ended left behind is read and handed on until there is nothing more, and
/// then the loop finishes with the exit code of the child.
pub proof fn lemma_rest_is_drained(
    code: i32,
    input_open: bool,
    readable: bool,
    hung_up: bool,
    typed: bool,
    n: usize,
)
    ensures
        ({
            let ready = Readiness { readable, hung_up };
            let finish = (PtyState::Over, input_open, PtyCommand::Finish(code));
            let found = answer(PtyState::Draining(code), input_open, PtyEvent::Ready(ready, typed));
            &&& readable || !hung_up ==> found == (
                PtyState::ReadingRest(code),
                input_open,
                PtyCommand::ReadChild,
            )
            &&& !readable && hung_up ==> found == finish
            &&& answer(PtyState::Draining(code), input_open, PtyEvent::TimedOut) == finish
            &&& answer(PtyState::Draining(code), input_open, PtyEvent::Interrupted) == finish
            &&& answer(PtyState::Draining(code), input_open, PtyEvent::Failed) == finish
            &&& n > 0 ==> answer(PtyState::ReadingRest(code), input_open, PtyEvent::Moved(n)) == (
                PtyState::DeliveringRest(code),
                input_open,
                PtyCommand::Deliver(n),
            )
            &&& answer(PtyState::ReadingRest(code), input_open, PtyEvent::Moved(0)) == finish
            &&& answer(PtyState::ReadingRest(code), input_open, PtyEvent::Ended) == finish
            &&& answer(PtyState::ReadingRest(code), input_open, PtyEvent::Failed) == finish
            &&& answer(PtyState::DeliveringRest(code), input_open, PtyEvent::Delivered) == (
                PtyState::Draining(code),
                input_open,
                PtyCommand::Poll(50, false),
            )
        }),
{
}

/// Every outcome that a command can have is one that the loop goes on from.
pub proof fn lemma_outcomes_follow(
    ready: Readiness,
    typed: bool,
    n: usize,
    total: usize,
    code: i32,
    status: ChildStatus,
)
    requires
        n < total,
    ensures
        can_follow(PtyState::Polling, PtyEvent::Ready(ready, typed)),
        can_follow(PtyState::Polling, PtyEvent::TimedOut),
        can_follow(PtyState::Polling, PtyEvent::Interrupted),
        can_follow(PtyState::Polling, PtyEvent::Failed),
        can_follow(PtyState::ReadingInput(ready), PtyEvent::Moved(n)),
        can_follow(PtyState::ReadingInput(ready), PtyEvent::Interrupted),
        can_follow(PtyState::ReadingInput(ready), PtyEvent::Failed),
        can_follow(PtyState::Forwarding(0, total, ready), PtyEvent::Moved(n)),
        can_follow(PtyState::Forwarding(n, total, ready), PtyEvent::Moved((total - n) as usize)),
        can_follow(PtyState::Forwarding(n, total, ready), PtyEvent::Interrupted),
        can_follow(PtyState::Forwarding(n, total, ready), PtyEvent::Failed),
        can_follow(PtyState::ReadingChild, PtyEvent::Moved(n)),
        can_follow(PtyState::ReadingChild, PtyEvent::Ended),
        can_follow(PtyState::ReadingChild, PtyEvent::Failed),
        can_follow(PtyState::Delivering, PtyEvent::Delivered),
        can_follow(PtyState::Checking, PtyEvent::StillRunning),
        can_follow(PtyState::Checking, PtyEvent::Gone(status)),
        can_follow(PtyState::Checking, PtyEvent::Failed),
        can_follow(PtyState::Draining(code), PtyEvent::Ready(ready, typed)),
        can_follow(PtyState::Draining(code), PtyEvent::TimedOut),
        can_follow(PtyState::Draining(code), PtyEvent::Interrupted),
        can_follow(PtyState::Draining(code), PtyEvent::Failed),
        can_follow(PtyState::ReadingRest(code), PtyEvent::Moved(n)),
        can_follow(PtyState::ReadingRest(code), PtyEvent::Ended),
        can_follow(PtyState::ReadingRest(code), PtyEvent::Failed),
        can_follow(PtyState::DeliveringRest(code), PtyEvent::Delivered),
        can_follow(PtyState::Waiting, PtyEvent::Gone(status)),
        can_follow(PtyState::Waiting, PtyEvent::Failed),
{
}

} // verus!
