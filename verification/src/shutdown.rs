//! Bringing a session to its end: first in words, then by signals.
//!
//! A watchdog looks at the session again and again, and at every look the rules here say what to do
//! next. Times are counted from the start of the session.

use vstd::prelude::*;

use crate::path::{join_path, joined};
use crate::time::{longest, Duration};

verus! {

/// How far the shutdown of a session has gone.
#[derive(Debug, Clone, Copy)]
pub enum Phase {
    /// The watch has not begun.
    Idle,
    /// Nothing calls for a stop yet.
    Watching,
    /// A stop is called for.
    Stopping,
    /// The message has just been sent.
    Warned,
    /// The message was sent; signals wait until this time.
    Grace(Duration),
    /// The first signal has just been sent.
    Terminated,
    /// The first signal was sent; the last one waits until this time.
    Ending(Duration),
    /// The last signal has just been sent.
    Killed,
    /// The watch is over.
    Done,
}

/// What to do next.
#[derive(Debug, Clone, Copy)]
pub enum Action {
    /// Look again at once.
    Look,
    /// Sleep for so long, and look again.
    Sleep(Duration),
    /// Send the message, and look again.
    SendMessage,
    /// Ask the process group to end, and look again.
    Terminate,
    /// Make the process group end, and look again.
    Kill,
    /// Stop watching, and take the request to stop away if told so.
    Finish(bool),
}

/// `Phase`, with times in nanoseconds.
pub enum PhaseView {
    Idle,
    Watching,
    Stopping,
    Warned,
    Grace(nat),
    Terminated,
    Ending(nat),
    Killed,
    Done,
}

/// `Action`, with times in nanoseconds.
pub enum ActionView {
    Look,
    Sleep(nat),
    SendMessage,
    Terminate,
    Kill,
    Finish(bool),
}

impl View for Phase {
    type V = PhaseView;

    open spec fn view(&self) -> PhaseView {
        match *self {
            Phase::Idle => PhaseView::Idle,
            Phase::Watching => PhaseView::Watching,
            Phase::Stopping => PhaseView::Stopping,
            Phase::Warned => PhaseView::Warned,
            Phase::Grace(deadline) => PhaseView::Grace(deadline@),
            Phase::Terminated => PhaseView::Terminated,
            Phase::Ending(deadline) => PhaseView::Ending(deadline@),
            Phase::Killed => PhaseView::Killed,
            Phase::Done => PhaseView::Done,
        }
    }
}

impl View for Action {
    type V = ActionView;

    open spec fn view(&self) -> ActionView {
        match *self {
            Action::Look => ActionView::Look,
            Action::Sleep(length) => ActionView::Sleep(length@),
            Action::SendMessage => ActionView::SendMessage,
            Action::Terminate => ActionView::Terminate,
            Action::Kill => ActionView::Kill,
            Action::Finish(clear) => ActionView::Finish(clear),
        }
    }
}

/// What one look at the session shows.
#[derive(Debug, Clone, Copy)]
pub struct Observation {
    /// The time of the look.
    pub now: Duration,
    /// Whether the child still runs.
    pub child_alive: bool,
    /// Whether there is a request to stop.
    pub stop_requested: bool,
}

/// What one look at the session shows, with the time in nanoseconds.
pub struct Sight {
    pub now: nat,
    pub child_alive: bool,
    pub stop_requested: bool,
}

impl View for Observation {
    type V = Sight;

    open spec fn view(&self) -> Sight {
        Sight {
            now: self.now@,
            child_alive: self.child_alive,
            stop_requested: self.stop_requested,
        }
    }
}

/// The limits that a watch keeps to, in nanoseconds.
pub struct Limits {
    pub max_duration: Option<nat>,
    pub grace_period: nat,
}

/// A second, in nanoseconds: the time between two looks before a stop.
pub open spec fn second() -> nat {
    1_000_000_000
}

/// The time that the first signal is given to work, in nanoseconds.
pub open spec fn term_wait() -> nat {
    5_000_000_000
}

/// Whether a look shows a reason to stop: a request, or a session that has run for as long as it
/// may.
pub open spec fn calls_for_stop(limits: Limits, sight: Sight) -> bool {
    sight.stop_requested || (limits.max_duration is Some && sight.now >= limits.max_duration->0)
}

/// While the grace period lasts: wait for the child to end, and send the first signal when time is
/// up.
pub open spec fn in_grace(deadline: nat, sight: Sight) -> (PhaseView, ActionView) {
    if !sight.child_alive {
        (PhaseView::Done, ActionView::Finish(true))
    } else if sight.now < deadline {
        (PhaseView::Grace(deadline), ActionView::Sleep(500_000_000))
    } else {
        (PhaseView::Terminated, ActionView::Terminate)
    }
}

/// While the first signal is given time to work: wait for the child to end, and send the last
/// signal when time is up.
pub open spec fn in_ending(deadline: nat, sight: Sight) -> (PhaseView, ActionView) {
    if !sight.child_alive {
        (PhaseView::Done, ActionView::Finish(true))
    } else if sight.now < deadline {
        (PhaseView::Ending(deadline), ActionView::Sleep(250_000_000))
    } else {
        (PhaseView::Killed, ActionView::Kill)
    }
}

/// What a look leads to.
pub open spec fn reaction(limits: Limits, phase: PhaseView, sight: Sight) -> (
    PhaseView,
    ActionView,
) {
    match phase {
        PhaseView::Idle => (PhaseView::Watching, ActionView::Sleep(second())),
        PhaseView::Watching => if !sight.child_alive {
            (PhaseView::Done, ActionView::Finish(false))
        } else if calls_for_stop(limits, sight) {
            (PhaseView::Stopping, ActionView::Look)
        } else {
            (PhaseView::Watching, ActionView::Sleep(second()))
        },
        PhaseView::Stopping => if !sight.child_alive {
            (PhaseView::Done, ActionView::Finish(true))
        } else {
            (PhaseView::Warned, ActionView::SendMessage)
        },
        PhaseView::Warned => in_grace(sight.now + limits.grace_period, sight),
        PhaseView::Grace(deadline) => in_grace(deadline, sight),
        PhaseView::Terminated => in_ending(sight.now + term_wait(), sight),
        PhaseView::Ending(deadline) => in_ending(deadline, sight),
        PhaseView::Killed => (PhaseView::Done, ActionView::Finish(true)),
        PhaseView::Done => (PhaseView::Done, ActionView::Finish(false)),
    }
}

/// Whether the times that a look leads to can be told.
pub open spec fn times_fit(limits: Limits, phase: PhaseView, now: nat) -> bool {
    &&& phase is Warned ==> now + limits.grace_period <= longest()
    &&& phase is Terminated ==> now + term_wait() <= longest()
}

/// The watchdog of one session.
pub struct GracefulShutdown {
    pub session_dir: String,
    pub max_duration: Option<Duration>,
    pub grace_period: Duration,
    pub shutdown_message: String,
    pub child_pid: i32,
    pub phase: Phase,
}

/// The limits that a watchdog keeps to.
pub open spec fn limits_of(max_duration: Option<Duration>, grace_period: Duration) -> Limits {
    Limits {
        max_duration: match max_duration {
            Some(limit) => Some(limit@),
            None => None,
        },
        grace_period: grace_period@,
    }
}

impl GracefulShutdown {
    /// The limits that the watchdog keeps to.
    pub open spec fn limits(&self) -> Limits {
        limits_of(self.max_duration, self.grace_period)
    }

    /// A watchdog that has not begun its watch.
    pub fn new(
        session_dir: String,
        max_duration: Option<Duration>,
        grace_period: Duration,
        shutdown_message: String,
        child_pid: i32,
    ) -> (r: GracefulShutdown)
        ensures
            r == (GracefulShutdown {
                session_dir,
                max_duration,
                grace_period,
                shutdown_message,
                child_pid,
                phase: Phase::Idle,
            }),
    {
        GracefulShutdown {
            session_dir,
            max_duration,
            grace_period,
            shutdown_message,
            child_pid,
            phase: Phase::Idle,
        }
    }

    /// The file whose presence asks for a stop of the session in this directory.
    pub fn sentinel_path(session_dir: &str) -> (r: String)
        ensures
            r@ == joined(session_dir@, "stop_requested"@),
    {
        join_path(session_dir, "stop_requested")
    }

    /// What to signal: the process group that the child leads, as the number of the child below
    /// zero.
    pub fn signal_target(&self) -> (r: i32)
        requires
            self.child_pid > i32::MIN,
        ensures
            r == -self.child_pid,
    {
        -self.child_pid
    }

    /// Tests whether the times that a look at this time leads to can be told.
    pub fn can_step(&self, now: Duration) -> (r: bool)
        ensures
            r == times_fit(self.limits(), self.phase@, now@),
    {
        match self.phase {
            Phase::Warned => now.checked_add(self.grace_period).is_some(),
            Phase::Terminated => now.checked_add(Duration::from_secs(5)).is_some(),
            _ => true,
        }
    }

    /// Goes on from what a look shows, and says what to do next.
    pub fn step(&mut self, seen: Observation) -> (r: Action)
        requires
            times_fit(old(self).limits(), old(self).phase@, seen.now@),
        ensures
            (final(self).phase@, r@) == reaction(old(self).limits(), old(self).phase@, seen@),
            *final(self) == (GracefulShutdown { phase: final(self).phase, ..*old(self) }),
    {
        match self.phase {
            Phase::Idle => {
                self.phase = Phase::Watching;
                Action::Sleep(Duration::from_secs(1))
            },
            Phase::Watching => {
                let overdue = match self.max_duration {
                    Some(limit) => seen.now.at_least(limit),
                    None => false,
                };
                if !seen.child_alive {
                    self.phase = Phase::Done;
                    Action::Finish(false)
                } else if seen.stop_requested || overdue {
                    self.phase = Phase::Stopping;
                    Action::Look
                } else {
                    Action::Sleep(Duration::from_secs(1))
                }
            },
            Phase::Stopping => {
                if !seen.child_alive {
                    self.phase = Phase::Done;
                    Action::Finish(true)
                } else {
                    self.phase = Phase::Warned;
                    Action::SendMessage
                }
            },
            Phase::Warned => {
                match seen.now.checked_add(self.grace_period) {
                    Some(deadline) => self.wait_in_grace(deadline, seen),
                    None => Action::Look,
                }
            },
            Phase::Grace(deadline) => self.wait_in_grace(deadline, seen),
            Phase::Terminated => {
                match seen.now.checked_add(Duration::from_secs(5)) {
                    Some(deadline) => self.wait_for_end(deadline, seen),
                    None => Action::Look,
                }
            },
            Phase::Ending(deadline) => self.wait_for_end(deadline, seen),
            Phase::Killed => {
                self.phase = Phase::Done;
                Action::Finish(true)
            },
            Phase::Done => Action::Finish(false),
        }
    }

    fn wait_in_grace(&mut self, deadline: Duration, seen: Observation) -> (r: Action)
        ensures
            (final(self).phase@, r@) == in_grace(deadline@, seen@),
            *final(self) == (GracefulShutdown { phase: final(self).phase, ..*old(self) }),
    {
        if !seen.child_alive {
            self.phase = Phase::Done;
            Action::Finish(true)
        } else if !seen.now.at_least(deadline) {
            self.phase = Phase::Grace(deadline);
            Action::Sleep(Duration::from_millis(500))
        } else {
            self.phase = Phase::Terminated;
            Action::Terminate
        }
    }

    fn wait_for_end(&mut self, deadline: Duration, seen: Observation) -> (r: Action)
        ensures
            (final(self).phase@, r@) == in_ending(deadline@, seen@),
            *final(self) == (GracefulShutdown { phase: final(self).phase, ..*old(self) }),
    {
        if !seen.child_alive {
            self.phase = Phase::Done;
            Action::Finish(true)
        } else if !seen.now.at_least(deadline) {
            self.phase = Phase::Ending(deadline);
            Action::Sleep(Duration::from_millis(250))
        } else {
            self.phase = Phase::Killed;
            Action::Kill
        }
    }
}

/// The phase that a watch reaches over some looks.
pub open spec fn phase_after(limits: Limits, sights: Seq<Sight>) -> PhaseView
    decreases sights.len(),
{
    if sights.len() == 0 {
        PhaseView::Idle
    } else {
        reaction(limits, phase_after(limits, sights.drop_last()), sights.last()).0
    }
}

/// What a watch has done to the child: how often it did each thing, and when it last did so.
pub struct Record {
    pub called: bool,
    pub messages: nat,
    pub message_at: nat,
    pub terms: nat,
    pub term_at: nat,
    pub kills: nat,
    pub kill_at: nat,
}

/// What a watch does to the child over some looks.
pub open spec fn record_after(limits: Limits, sights: Seq<Sight>) -> Record
    decreases sights.len(),
{
    if sights.len() == 0 {
        Record {
            called: false,
            messages: 0,
            message_at: 0,
            terms: 0,
            term_at: 0,
            kills: 0,
            kill_at: 0,
        }
    } else {
        let before = record_after(limits, sights.drop_last());
        let sight = sights.last();
        let called = before.called || calls_for_stop(limits, sight);
        match reaction(limits, phase_after(limits, sights.drop_last()), sight).1 {
            ActionView::SendMessage => Record {
                called,
                messages: before.messages + 1,
                message_at: sight.now,
                ..before
            },
            ActionView::Terminate => Record {
                called,
                terms: before.terms + 1,
                term_at: sight.now,
                ..before
            },
            ActionView::Kill => Record {
                called,
                kills: before.kills + 1,
                kill_at: sight.now,
                ..before
            },
            _ => Record { called, ..before },
        }
    }
}

/// Whether the times of the looks never go back.
pub open spec fn in_order(sights: Seq<Sight>) -> bool {
    forall|i: int, j: int|
        0 <= i <= j < sights.len() ==> (#[trigger] sights[i]).now <= (#[trigger] sights[j]).now
}

/// What the phase tells about the record.
spec fn fits_phase(limits: Limits, phase: PhaseView, record: Record) -> bool {
    let warned = record.messages == 1 && record.called;
    let termed = warned && record.terms == 1 && record.term_at >= record.message_at
        + limits.grace_period;
    match phase {
        PhaseView::Idle => record.messages == 0 && record.terms == 0 && record.kills == 0,
        PhaseView::Watching => record.messages == 0 && record.terms == 0 && record.kills == 0,
        PhaseView::Stopping => record.messages == 0 && record.terms == 0 && record.kills == 0
            && record.called,
        PhaseView::Warned => warned && record.terms == 0 && record.kills == 0,
        PhaseView::Grace(deadline) => warned && record.terms == 0 && record.kills == 0 && deadline
            >= record.message_at + limits.grace_period,
        PhaseView::Terminated => termed && record.kills == 0,
        PhaseView::Ending(deadline) => termed && record.kills == 0 && deadline >= record.term_at
            + term_wait(),
        PhaseView::Killed => orderly(limits, record),
        PhaseView::Done => orderly(limits, record),
    }
}

/// Whether a record shows an escalation in order: the message at most once, and only after a call
/// to stop; the first signal at most once, and only when the grace period has passed since the
/// message; the last signal at most once, and only when the first was given its time to work.
pub open spec fn orderly(limits: Limits, record: Record) -> bool {
    &&& record.messages <= 1
    &&& record.terms <= record.messages
    &&& record.kills <= record.terms
    &&& record.messages == 1 ==> record.called
    &&& record.terms == 1 ==> record.term_at >= record.message_at + limits.grace_period
    &&& record.kills == 1 ==> record.kill_at >= record.term_at + term_wait()
}

/// Whatever a watch sees, it escalates in order: words before signals, never a signal before its
/// time, and nothing twice.
pub proof fn lemma_orderly(limits: Limits, sights: Seq<Sight>)
    requires
        in_order(sights),
    ensures
        orderly(limits, record_after(limits, sights)),
{
    lemma_fits_phase(limits, sights);
}

proof fn lemma_fits_phase(limits: Limits, sights: Seq<Sight>)
    requires
        in_order(sights),
    ensures
        fits_phase(limits, phase_after(limits, sights), record_after(limits, sights)),
        sights.len() > 0 ==> record_after(limits, sights).message_at <= sights.last().now
            && record_after(limits, sights).term_at <= sights.last().now,
        sights.len() == 0 ==> record_after(limits, sights).message_at == 0 && record_after(
            limits,
            sights,
        ).term_at == 0,
    decreases sights.len(),
{
    if sights.len() > 0 {
        let front = sights.drop_last();
        lemma_prefix(sights, sights.len() - 1);
        assert(front =~= sights.take(sights.len() - 1));
        lemma_fits_phase(limits, front);
        if front.len() > 0 {
            assert(sights[front.len() - 1].now <= sights[sights.len() - 1].now);
        }
    }
}

/// A child that has ended is left alone: no look that shows it so leads to the message or to a
/// signal.
pub proof fn lemma_dead_child_left_alone(limits: Limits, phase: PhaseView, sight: Sight)
    requires
        !sight.child_alive,
    ensures
        ({
            let action = reaction(limits, phase, sight).1;
            !(action is SendMessage) && !(action is Terminate) && !(action is Kill)
        }),
{
}

/// A watch that is over stays over.
pub proof fn lemma_done_is_done(limits: Limits, sights: Seq<Sight>, more: Seq<Sight>)
    requires
        phase_after(limits, sights) is Done,
    ensures
        phase_after(limits, sights + more) is Done,
        record_after(limits, sights + more) == (Record {
            called: record_after(limits, sights + more).called,
            ..record_after(limits, sights)
        }),
    decreases more.len(),
{
    if more.len() > 0 {
        lemma_done_is_done(limits, sights, more.drop_last());
        assert((sights + more).drop_last() =~= sights + more.drop_last());
        assert((sights + more).last() == more.last());
    } else {
        assert(sights + more =~= sights);
    }
}

/// A session that is asked to stop gets the message at the next look but one, if the child still
/// runs.
pub proof fn lemma_stop_is_heeded(limits: Limits, first: Sight, second_look: Sight)
    requires
        first.child_alive,
        second_look.child_alive,
        calls_for_stop(limits, first),
    ensures
        reaction(limits, PhaseView::Watching, first) == (PhaseView::Stopping, ActionView::Look),
        reaction(limits, PhaseView::Stopping, second_look) == (
            PhaseView::Warned,
            ActionView::SendMessage,
        ),
{
}

/// While nothing has called for a stop, a look at a child that still runs calls for one exactly where
/// it shows a request to stop, whatever the time and the limit, or a session that has run for as long
/// as it may, whatever was requested. A child that has ended ends the watch.
pub proof fn lemma_what_calls_for_a_stop(
    max_duration: Option<nat>,
    grace_period: nat,
    now: nat,
    child_alive: bool,
    stop_requested: bool,
)
    ensures
        ({
            let limits = Limits { max_duration, grace_period };
            let sight = Sight { now, child_alive, stop_requested };
            let answer = reaction(limits, PhaseView::Watching, sight);
            &&& child_alive && stop_requested ==> answer == (PhaseView::Stopping, ActionView::Look)
            &&& child_alive && (max_duration matches Some(limit) && now >= limit) ==> answer == (
                PhaseView::Stopping,
                ActionView::Look,
            )
            &&& child_alive && !stop_requested && (max_duration matches Some(limit) ==> now < limit)
                ==> answer == (PhaseView::Watching, ActionView::Sleep(1_000_000_000))
            &&& !child_alive ==> answer == (PhaseView::Done, ActionView::Finish(false))
        }),
{
}

/// A stop that was called for goes its way whatever is requested meanwhile and whatever the limit is:
/// the message, the grace period with a look every half second, the first signal, five seconds with
/// a look every quarter of one, the last signal, and the end with the request taken away.
pub proof fn lemma_steps_of_a_stop(limits: Limits, now: nat, stop_requested: bool, deadline: nat)
    ensures
        ({
            let sight = Sight { now, child_alive: true, stop_requested };
            &&& reaction(limits, PhaseView::Idle, sight) == (
                PhaseView::Watching,
                ActionView::Sleep(1_000_000_000),
            )
            &&& reaction(limits, PhaseView::Stopping, sight) == (
                PhaseView::Warned,
                ActionView::SendMessage,
            )
            &&& limits.grace_period > 0 ==> reaction(limits, PhaseView::Warned, sight) == (
                PhaseView::Grace(now + limits.grace_period),
                ActionView::Sleep(500_000_000),
            )
            &&& limits.grace_period == 0 ==> reaction(limits, PhaseView::Warned, sight) == (
                PhaseView::Terminated,
                ActionView::Terminate,
            )
            &&& now < deadline ==> reaction(limits, PhaseView::Grace(deadline), sight) == (
                PhaseView::Grace(deadline),
                ActionView::Sleep(500_000_000),
            )
            &&& now >= deadline ==> reaction(limits, PhaseView::Grace(deadline), sight) == (
                PhaseView::Terminated,
                ActionView::Terminate,
            )
            &&& reaction(limits, PhaseView::Terminated, sight) == (
                PhaseView::Ending(now + 5_000_000_000),
                ActionView::Sleep(250_000_000),
            )
            &&& now < deadline ==> reaction(limits, PhaseView::Ending(deadline), sight) == (
                PhaseView::Ending(deadline),
                ActionView::Sleep(250_000_000),
            )
            &&& now >= deadline ==> reaction(limits, PhaseView::Ending(deadline), sight) == (
                PhaseView::Killed,
                ActionView::Kill,
            )
            &&& reaction(limits, PhaseView::Killed, sight) == (
                PhaseView::Done,
                ActionView::Finish(true),
            )
            &&& reaction(limits, PhaseView::Done, sight) == (
                PhaseView::Done,
                ActionView::Finish(false),
            )
        }),
{
}

/// A child that ends after a stop was called for ends the watch at the next look, and the request is
/// taken away.
pub proof fn lemma_child_that_heeds(limits: Limits, now: nat, stop_requested: bool, deadline: nat)
    ensures
        ({
            let sight = Sight { now, child_alive: false, stop_requested };
            let over = (PhaseView::Done, ActionView::Finish(true));
            &&& reaction(limits, PhaseView::Stopping, sight) == over
            &&& reaction(limits, PhaseView::Warned, sight) == over
            &&& reaction(limits, PhaseView::Grace(deadline), sight) == over
            &&& reaction(limits, PhaseView::Terminated, sight) == over
            &&& reaction(limits, PhaseView::Ending(deadline), sight) == over
            &&& reaction(limits, PhaseView::Killed, sight) == over
            &&& reaction(limits, PhaseView::Idle, sight) == (
                PhaseView::Watching,
                ActionView::Sleep(1_000_000_000),
            )
            &&& reaction(limits, PhaseView::Done, sight) == (
                PhaseView::Done,
                ActionView::Finish(false),
            )
        }),
{
}

/// A watchdog keeps to the limits that it was made with, and only a deadline that cannot be told
/// stops it from going on.
pub proof fn lemma_limits_are_kept(
    max_duration: Option<Duration>,
    grace_period: Duration,
    phase: PhaseView,
    now: nat,
)
    ensures
        ({
            let limits = limits_of(max_duration, grace_period);
            &&& limits.grace_period == grace_period@
            &&& max_duration is None <==> limits.max_duration is None
            &&& max_duration matches Some(limit) ==> limits.max_duration == Some(limit@)
            &&& now + grace_period@ <= longest() && now + 5_000_000_000 <= longest() ==> times_fit(
                limits,
                phase,
                now,
            )
            &&& !(phase is Warned) && !(phase is Terminated) ==> times_fit(limits, phase, now)
        }),
{
}

/// Whether every look shows a child that still runs.
pub open spec fn always_alive(sights: Seq<Sight>) -> bool {
    forall|i: int| 0 <= i < sights.len() ==> (#[trigger] sights[i]).child_alive
}

/// Whether the first signal has been sent.
spec fn is_signalled(phase: PhaseView) -> bool {
    phase is Terminated || phase is Ending || phase is Killed || phase is Done
}

/// A stop comes to its end even where the child heeds nothing: the message is sent at the look after
/// the one that calls for it, the first signal at the latest at a look that comes a grace period
/// after the message was out, and the last signal at the latest at a look that comes the time to work
/// after the first was out. `asked`, `late` and `end` are the numbers of these looks.
pub proof fn lemma_stop_is_enforced(
    limits: Limits,
    sights: Seq<Sight>,
    asked: int,
    late: int,
    end: int,
)
    requires
        in_order(sights),
        always_alive(sights),
        0 <= asked,
        asked + 2 <= late,
        late + 2 <= end,
        end < sights.len(),
        phase_after(limits, sights.take(asked)) is Watching,
        calls_for_stop(limits, sights[asked]),
        sights[late].now >= sights[asked + 2].now + limits.grace_period,
        sights[end].now >= sights[late + 1].now + term_wait(),
    ensures
        record_after(limits, sights.take(asked + 2)).messages == 1,
        record_after(limits, sights.take(late + 1)).terms == 1,
        record_after(limits, sights.take(end + 1)).kills == 1,
{
    lemma_next_look(limits, sights, asked);
    lemma_next_look(limits, sights, asked + 1);
    lemma_prefix(sights, asked + 2);
    lemma_fits_phase(limits, sights.take(asked + 2));
    lemma_signalled_in_time(limits, sights, asked + 2, late);
    lemma_signals_sent(limits, sights, late + 1);
    lemma_killed_in_time(limits, sights, late, end);
    lemma_signals_sent(limits, sights, end + 1);
}

/// What one more look leads to.
proof fn lemma_next_look(limits: Limits, sights: Seq<Sight>, n: int)
    requires
        0 <= n < sights.len(),
    ensures
        phase_after(limits, sights.take(n + 1)) == reaction(
            limits,
            phase_after(limits, sights.take(n)),
            sights[n],
        ).0,
        sights.take(n + 1).drop_last() == sights.take(n),
        sights.take(n + 1).last() == sights[n],
{
    assert(sights.take(n + 1).drop_last() =~= sights.take(n));
}

proof fn lemma_prefix(sights: Seq<Sight>, n: int)
    requires
        in_order(sights),
        0 <= n <= sights.len(),
    ensures
        in_order(sights.take(n)),
{
    let front = sights.take(n);
    assert forall|i: int, j: int| 0 <= i <= j < front.len() implies (#[trigger] front[i]).now
        <= (#[trigger] front[j]).now by {
        assert(sights[i].now <= sights[j].now);
    }
}

/// Of a child that still runs, the phase tells which signals were sent.
proof fn lemma_signals_sent(limits: Limits, sights: Seq<Sight>, n: int)
    requires
        in_order(sights),
        always_alive(sights),
        0 <= n <= sights.len(),
    ensures
        ({
            let phase = phase_after(limits, sights.take(n));
            let record = record_after(limits, sights.take(n));
            &&& is_signalled(phase) ==> record.terms == 1
            &&& phase is Killed || phase is Done ==> record.kills == 1
        }),
    decreases n,
{
    lemma_prefix(sights, n);
    lemma_fits_phase(limits, sights.take(n));
    lemma_orderly(limits, sights.take(n));
    if n > 0 {
        lemma_signals_sent(limits, sights, n - 1);
        lemma_next_look(limits, sights, n - 1);
        lemma_prefix(sights, n - 1);
        lemma_fits_phase(limits, sights.take(n - 1));
        assert(sights[n - 1].child_alive);
    }
}

/// The first signal is sent in time, where the message was sent at the look before number `warned`.
proof fn lemma_signalled_in_time(limits: Limits, sights: Seq<Sight>, warned: int, late: int)
    requires
        in_order(sights),
        always_alive(sights),
        0 <= warned <= late < sights.len(),
        phase_after(limits, sights.take(warned)) is Warned,
        sights[late].now >= sights[warned].now + limits.grace_period,
    ensures
        is_signalled(phase_after(limits, sights.take(late + 1))),
{
    lemma_in_grace(limits, sights, warned, late);
    lemma_next_look(limits, sights, late);
    assert(sights[late].child_alive);
}

proof fn lemma_in_grace(limits: Limits, sights: Seq<Sight>, warned: int, n: int)
    requires
        always_alive(sights),
        0 <= warned <= n < sights.len(),
        phase_after(limits, sights.take(warned)) is Warned,
    ensures
        ({
            let phase = phase_after(limits, sights.take(n));
            ||| n == warned
            ||| phase == PhaseView::Grace(sights[warned].now + limits.grace_period)
            ||| is_signalled(phase)
        }),
    decreases n,
{
    if n > warned {
        lemma_in_grace(limits, sights, warned, n - 1);
        lemma_next_look(limits, sights, n - 1);
        assert(sights[n - 1].child_alive);
    }
}

/// The last signal is sent in time, where the first was out after look number `late`.
proof fn lemma_killed_in_time(limits: Limits, sights: Seq<Sight>, late: int, end: int)
    requires
        in_order(sights),
        always_alive(sights),
        0 <= late,
        late + 2 <= end < sights.len(),
        is_signalled(phase_after(limits, sights.take(late + 1))),
        sights[end].now >= sights[late + 1].now + term_wait(),
    ensures
        ({
            let phase = phase_after(limits, sights.take(end + 1));
            phase is Killed || phase is Done
        }),
{
    lemma_in_ending(limits, sights, late, end);
    lemma_next_look(limits, sights, end);
    assert(sights[end].child_alive);
}

proof fn lemma_in_ending(limits: Limits, sights: Seq<Sight>, late: int, n: int)
    requires
        in_order(sights),
        always_alive(sights),
        0 <= late,
        late + 2 <= n < sights.len(),
        is_signalled(phase_after(limits, sights.take(late + 1))),
    ensures
        match phase_after(limits, sights.take(n)) {
            PhaseView::Ending(deadline) => deadline <= sights[late + 1].now + term_wait(),
            PhaseView::Killed => true,
            PhaseView::Done => true,
            _ => false,
        },
    decreases n,
{
    lemma_next_look(limits, sights, n - 1);
    assert(sights[n - 1].child_alive);
    if n == late + 2 {
        lemma_deadline_is_near(limits, sights, late + 1);
        assert(sights[late].now <= sights[late + 1].now);
    } else {
        lemma_in_ending(limits, sights, late, n - 1);
    }
}

/// The last signal never waits longer than the time that the first is given to work.
proof fn lemma_deadline_is_near(limits: Limits, sights: Seq<Sight>, n: int)
    requires
        in_order(sights),
        0 < n <= sights.len(),
    ensures
        phase_after(limits, sights.take(n)) matches PhaseView::Ending(deadline) ==> deadline
            <= sights[n - 1].now + term_wait(),
    decreases n,
{
    lemma_next_look(limits, sights, n - 1);
    if n > 1 {
        lemma_deadline_is_near(limits, sights, n - 1);
        assert(sights[n - 2].now <= sights[n - 1].now);
    } else {
        assert(sights.take(0) =~= Seq::empty());
    }
}

} // verus!
