//! The processes below a root process: which there are, what they were started with, and how long
//! they ran.

use vstd::prelude::*;
use vstd::utf8::{decode_utf8, valid_utf8};

use crate::events::{ProcessEvent, ProcessExitEvent};
use crate::number::{
    all_digits, decimal, format_u128, is_digit, lemma_decimal_round_trip, lemma_decimal_value, parse_u32,
    unsigned_value,
};
use crate::text::{
    chars_of, clone_strings, is_space, is_word, lemma_filter_map_add, lemma_one_word, lemma_words_add,
    pieces, texts, words, words_of,
};
use crate::time::{is_clock_time, Duration, Timestamp};

verus! {

/// A process that is being followed.
struct TrackedProcess {
    pid: u32,
    started: Duration,
}

/// Follows the processes below a root process. Times are counted from a start that the caller
/// chooses and keeps to.
pub struct ProcessTracker {
    root_pid: u32,
    known: Vec<TrackedProcess>,
    poll_interval: Duration,
}

/// The process numbers in a list of processes with the times when they were first seen.
pub open spec fn pids_of(followed: Seq<(u32, nat)>) -> Seq<u32> {
    followed.map_values(|t: (u32, nat)| t.0)
}

/// The processes that `current` holds and `known` does not, each once, in the order of first
/// appearance.
pub open spec fn arrivals(known: Seq<u32>, current: Seq<u32>) -> Seq<u32>
    decreases current.len(),
{
    if current.len() == 0 {
        Seq::empty()
    } else {
        let before = arrivals(known, current.drop_last());
        let pid = current.last();
        if known.contains(pid) || current.drop_last().contains(pid) {
            before
        } else {
            before.push(pid)
        }
    }
}

/// The processes of `followed` that `current` still holds.
pub open spec fn staying(followed: Seq<(u32, nat)>, current: Seq<u32>) -> Seq<(u32, nat)> {
    followed.filter(|t: (u32, nat)| current.contains(t.0))
}

/// The processes of `followed` that `current` no longer holds.
pub open spec fn leaving(followed: Seq<(u32, nat)>, current: Seq<u32>) -> Seq<(u32, nat)> {
    followed.filter(|t: (u32, nat)| !current.contains(t.0))
}

/// Processes first seen at the time `now`.
pub open spec fn seen_at(pids: Seq<u32>, now: nat) -> Seq<(u32, nat)> {
    pids.map_values(|pid: u32| (pid, now))
}

/// The time from `start` to `now`; nothing where `start` is the later of the two.
pub open spec fn elapsed(start: nat, now: nat) -> nat {
    if start <= now {
        (now - start) as nat
    } else {
        0
    }
}

/// Processes with the time from when each was first seen to `now`.
pub open spec fn with_durations(list: Seq<(u32, nat)>, now: nat) -> Seq<(u32, nat)> {
    list.map_values(|t: (u32, nat)| (t.0, elapsed(t.1, now)))
}

/// The processes that some events tell of, with how long each was seen.
pub open spec fn exit_durations(events: Seq<ProcessExitEvent>) -> Seq<(u32, nat)> {
    events.map_values(|e: ProcessExitEvent| (e.pid, e.duration@))
}

/// The processes that some events tell of.
pub open spec fn spawned_pids(events: Seq<ProcessEvent>) -> Seq<u32> {
    events.map_values(|e: ProcessEvent| e.pid)
}

fn holds(list: &Vec<u32>, pid: u32) -> (r: bool)
    ensures
        r == list@.contains(pid),
{
    let mut i: usize = 0;
    while i < list.len()
        invariant
            i <= list@.len(),
            forall|j: int| 0 <= j < i ==> list@[j] != pid,
        decreases list@.len() - i,
    {
        if list[i] == pid {
            return true;
        }
        i += 1;
    }
    false
}

spec fn entries(list: Seq<TrackedProcess>) -> Seq<(u32, nat)> {
    list.map_values(|t: TrackedProcess| (t.pid, t.started@))
}

fn follows(list: &Vec<TrackedProcess>, pid: u32) -> (r: bool)
    ensures
        r == pids_of(entries(list@)).contains(pid),
{
    let ghost known = pids_of(entries(list@));
    let mut i: usize = 0;
    while i < list.len()
        invariant
            i <= list@.len(),
            known == pids_of(entries(list@)),
            forall|j: int| 0 <= j < i ==> #[trigger] known[j] != pid,
        decreases list@.len() - i,
    {
        assert(known[i as int] == list@[i as int].pid);
        if list[i].pid == pid {
            return true;
        }
        i += 1;
    }
    false
}

impl ProcessTracker {
    /// The processes that are being followed, with the times when they were first seen.
    pub closed spec fn followed(&self) -> Seq<(u32, nat)> {
        entries(self.known@)
    }

    /// The process at the root of what is followed.
    pub closed spec fn root(&self) -> u32 {
        self.root_pid
    }

    /// The time between two looks.
    pub closed spec fn interval(&self) -> Duration {
        self.poll_interval
    }

    #[verifier::type_invariant]
    spec fn distinct(&self) -> bool {
        pids_of(entries(self.known@)).no_duplicates()
    }

    /// A tracker that follows nothing yet.
    pub fn new(root_pid: u32, poll_interval_ms: u64) -> (r: ProcessTracker)
        ensures
            r.root() == root_pid,
            r.interval()@ == poll_interval_ms as nat * 1_000_000,
            r.followed() == Seq::<(u32, nat)>::empty(),
    {
        let known: Vec<TrackedProcess> = Vec::new();
        assert(entries(known@) =~= Seq::<(u32, nat)>::empty());
        ProcessTracker {
            root_pid,
            known,
            poll_interval: Duration::from_millis(poll_interval_ms),
        }
    }

    /// The time between two looks.
    pub fn poll_interval(&self) -> (r: Duration)
        ensures
            r == self.interval(),
    {
        self.poll_interval
    }

    /// The processes in `current` that are not followed yet, each once.
    pub fn new_pids(&self, current: &Vec<u32>) -> (r: Vec<u32>)
        ensures
            r@ == arrivals(pids_of(self.followed()), current@),
    {
        let ghost known = pids_of(self.followed());
        let mut out: Vec<u32> = Vec::new();
        let mut i: usize = 0;
        assert(out@ =~= arrivals(known, current@.take(0)));
        while i < current.len()
            invariant
                i <= current@.len(),
                known == pids_of(self.followed()),
                out@ == arrivals(known, current@.take(i as int)),
            decreases current@.len() - i,
        {
            proof {
                assert(current@.take(i + 1).drop_last() =~= current@.take(i as int));
                assert(current@.take(i + 1).last() == current@[i as int]);
                lemma_arrivals(known, current@.take(i as int));
            }
            if !follows(&self.known, current[i]) && !holds(&out, current[i]) {
                out.push(current[i]);
            }
            i += 1;
        }
        assert(current@.take(i as int) =~= current@);
        out
    }

    /// Takes note of the processes that run at the time `now`. Reports each that was not followed
    /// before, with what it was started with, and each that runs no longer, with how long it was
    /// seen. `argvs` holds the arguments of the new processes, in the order of `new_pids`.
    pub fn poll(&mut self, current: &Vec<u32>, argvs: Vec<Vec<String>>, now: Duration) -> (r: (
        Vec<ProcessEvent>,
        Vec<ProcessExitEvent>,
    ))
        requires
            argvs@.len() == arrivals(pids_of(old(self).followed()), current@).len(),
        ensures
            pids_of(final(self).followed()).no_duplicates(),
            final(self).root() == old(self).root(),
            final(self).interval() == old(self).interval(),
            spawned_pids(r.0@) == arrivals(pids_of(old(self).followed()), current@),
            forall|i: int|
                0 <= i < r.0@.len() ==> (#[trigger] r.0@[i]).ppid == old(self).root()
                    && r.0@[i].argv@ == argvs@[i]@ && is_clock_time(r.0@[i].timestamp),
            exit_durations(r.1@) == with_durations(leaving(old(self).followed(), current@), now@),
            forall|i: int|
                0 <= i < r.1@.len() ==> (#[trigger] r.1@[i]).exit_code is None && is_clock_time(
                    r.1@[i].timestamp,
                ),
            final(self).followed() == staying(old(self).followed(), current@) + seen_at(
                arrivals(pids_of(old(self).followed()), current@),
                now@,
            ),
    {
        proof {
            use_type_invariant(&*self);
        }
        let fresh = self.new_pids(current);
        let ghost followed = self.followed();
        let mut known: Vec<TrackedProcess> = Vec::new();
        let mut exits: Vec<ProcessExitEvent> = Vec::new();
        let mut i: usize = 0;
        proof {
            reveal(Seq::filter);
            assert(followed.take(0) =~= Seq::empty());
            assert(entries(known@) =~= staying(followed.take(0), current@));
            assert(exit_durations(exits@) =~= with_durations(
                leaving(followed.take(0), current@),
                now@,
            ));
        }
        while i < self.known.len()
            invariant
                i <= self.known@.len(),
                followed == entries(self.known@),
                entries(known@) == staying(followed.take(i as int), current@),
                exit_durations(exits@) == with_durations(
                    leaving(followed.take(i as int), current@),
                    now@,
                ),
                forall|j: int|
                    0 <= j < exits@.len() ==> (#[trigger] exits@[j]).exit_code is None
                        && is_clock_time(exits@[j].timestamp),
            decreases self.known@.len() - i,
        {
            let pid = self.known[i].pid;
            let started = self.known[i].started;
            let ghost entry = followed[i as int];
            let ghost known_before = entries(known@);
            let ghost exits_before = exit_durations(exits@);
            proof {
                assert(entry == (pid, started@));
                assert(followed.take(i + 1) =~= followed.take(i as int).push(entry));
                followed.take(i as int).lemma_filter_push(
                    entry,
                    |t: (u32, nat)| current@.contains(t.0),
                );
                followed.take(i as int).lemma_filter_push(
                    entry,
                    |t: (u32, nat)| !current@.contains(t.0),
                );
            }
            if holds(current, pid) {
                known.push(TrackedProcess { pid, started });
                assert(entries(known@) =~= known_before.push(entry));
            } else {
                exits.push(
                    ProcessExitEvent {
                        pid,
                        exit_code: None,
                        duration: now.saturating_sub(started),
                        timestamp: Timestamp::now(),
                    },
                );
                assert(exit_durations(exits@) =~= exits_before.push(
                    (entry.0, elapsed(entry.1, now@)),
                ));
                assert(exit_durations(exits@) =~= with_durations(
                    leaving(followed.take(i as int), current@).push(entry),
                    now@,
                ));
            }
            i += 1;
        }
        assert(followed.take(i as int) =~= followed);
        let ghost kept = entries(known@);
        let mut spawns: Vec<ProcessEvent> = Vec::new();
        let mut k: usize = 0;
        assert(spawned_pids(spawns@) =~= fresh@.take(0));
        assert(entries(known@) =~= kept + seen_at(fresh@.take(0), now@));
        while k < fresh.len()
            invariant
                k <= fresh@.len(),
                argvs@.len() == fresh@.len(),
                self.root_pid == old(self).root_pid,
                spawned_pids(spawns@) == fresh@.take(k as int),
                forall|j: int|
                    0 <= j < spawns@.len() ==> (#[trigger] spawns@[j]).ppid == self.root_pid
                        && spawns@[j].argv@ == argvs@[j]@ && is_clock_time(spawns@[j].timestamp),
                entries(known@) == kept + seen_at(fresh@.take(k as int), now@),
            decreases fresh@.len() - k,
        {
            let pid = fresh[k];
            let ghost known_before = entries(known@);
            let ghost spawns_before = spawned_pids(spawns@);
            spawns.push(
                ProcessEvent {
                    pid,
                    ppid: self.root_pid,
                    argv: clone_strings(&argvs[k]),
                    timestamp: Timestamp::now(),
                },
            );
            known.push(TrackedProcess { pid, started: now });
            k += 1;
            proof {
                assert(spawned_pids(spawns@) =~= spawns_before.push(pid));
                assert(spawned_pids(spawns@) =~= fresh@.take(k as int));
                assert(entries(known@) =~= known_before.push((pid, now@)));
                assert(entries(known@) =~= kept + seen_at(fresh@.take(k as int), now@));
            }
        }
        assert(fresh@.take(k as int) =~= fresh@);
        proof {
            lemma_follow_current(followed, current@, now@);
        }
        self.known = known;
        (spawns, exits)
    }

    /// Reports every process that is still followed as gone at the time `now`, and follows nothing
    /// any more.
    pub fn finish_all(&mut self, now: Duration) -> (r: Vec<ProcessExitEvent>)
        ensures
            pids_of(old(self).followed()).no_duplicates(),
            final(self).root() == old(self).root(),
            final(self).interval() == old(self).interval(),
            final(self).followed() == Seq::<(u32, nat)>::empty(),
            exit_durations(r@) == with_durations(old(self).followed(), now@),
            forall|i: int|
                0 <= i < r@.len() ==> (#[trigger] r@[i]).exit_code is None && is_clock_time(
                    r@[i].timestamp,
                ),
    {
        proof {
            use_type_invariant(&*self);
        }
        let ghost followed = self.followed();
        let mut exits: Vec<ProcessExitEvent> = Vec::new();
        let mut i: usize = 0;
        assert(exit_durations(exits@) =~= with_durations(followed.take(0), now@));
        while i < self.known.len()
            invariant
                i <= self.known@.len(),
                followed == entries(self.known@),
                exit_durations(exits@) == with_durations(followed.take(i as int), now@),
                forall|j: int|
                    0 <= j < exits@.len() ==> (#[trigger] exits@[j]).exit_code is None
                        && is_clock_time(exits@[j].timestamp),
            decreases self.known@.len() - i,
        {
            let ghost exits_before = exit_durations(exits@);
            let ghost entry = followed[i as int];
            exits.push(
                ProcessExitEvent {
                    pid: self.known[i].pid,
                    exit_code: None,
                    duration: now.saturating_sub(self.known[i].started),
                    timestamp: Timestamp::now(),
                },
            );
            i += 1;
            proof {
                assert(exit_durations(exits@) =~= exits_before.push(
                    (entry.0, elapsed(entry.1, now@)),
                ));
                assert(exit_durations(exits@) =~= with_durations(followed.take(i as int), now@));
            }
        }
        assert(followed.take(i as int) =~= followed);
        let known: Vec<TrackedProcess> = Vec::new();
        assert(entries(known@) =~= Seq::<(u32, nat)>::empty());
        self.known = known;
        exits
    }
}

/// What arrives was not known, is in the list, and arrives once; and whatever is in the list and
/// was not known arrives.
pub proof fn lemma_arrivals(known: Seq<u32>, current: Seq<u32>)
    ensures
        arrivals(known, current).no_duplicates(),
        forall|pid: u32| #[trigger]
            arrivals(known, current).contains(pid) <==> current.contains(pid) && !known.contains(pid),
    decreases current.len(),
{
    if current.len() > 0 {
        let front = current.drop_last();
        let before = arrivals(known, front);
        let all = arrivals(known, current);
        lemma_arrivals(known, front);
        assert(before.contains(current.last()) ==> front.contains(current.last()));
        assert(all.no_duplicates()) by {
            assert forall|i: int, j: int| 0 <= i < j < all.len() implies all[i] != all[j] by {
                assert(before.contains(all[i])) by {
                    assert(before[i] == all[i]);
                }
                if j < before.len() {
                    assert(before[j] == all[j]);
                }
            }
        }
        assert forall|pid: u32| #[trigger]
            all.contains(pid) <==> current.contains(pid) && !known.contains(pid) by {
            assert(before.contains(pid) <==> front.contains(pid) && !known.contains(pid));
            if front.contains(pid) {
                let j = choose|j: int| 0 <= j < front.len() && front[j] == pid;
                assert(current[j] == pid);
            }
            if current.contains(pid) {
                let j = choose|j: int| 0 <= j < current.len() && current[j] == pid;
                if j < front.len() {
                    assert(front[j] == pid);
                }
            }
            if before.contains(pid) {
                let j = choose|j: int| 0 <= j < before.len() && before[j] == pid;
                assert(all[j] == pid);
            }
            if all.contains(pid) {
                let j = choose|j: int| 0 <= j < all.len() && all[j] == pid;
                if j < before.len() {
                    assert(before[j] == pid);
                }
            }
            if pid == current.last() {
                assert(current[current.len() - 1] == pid);
                if all.len() > before.len() {
                    assert(all[before.len() as int] == pid);
                }
            }
        }
    }
}

/// Of processes that are each followed once, those that pass a filter on the process number are each
/// there once, and no others.
proof fn lemma_kept(
    followed: Seq<(u32, nat)>,
    keep: spec_fn((u32, nat)) -> bool,
    wanted: spec_fn(u32) -> bool,
)
    requires
        pids_of(followed).no_duplicates(),
        forall|t: (u32, nat)| #[trigger] keep(t) == wanted(t.0),
    ensures
        pids_of(followed.filter(keep)).no_duplicates(),
        forall|pid: u32| #[trigger]
            pids_of(followed.filter(keep)).contains(pid) <==> pids_of(followed).contains(pid)
                && wanted(pid),
    decreases followed.len(),
{
    reveal(Seq::filter);
    if followed.len() > 0 {
        let front = followed.drop_last();
        let last = followed.last();
        let known = pids_of(followed);
        assert(pids_of(front) =~= known.drop_last());
        assert(pids_of(front).no_duplicates());
        lemma_kept(front, keep, wanted);
        assert(front.push(last) =~= followed);
        front.lemma_filter_push(last, keep);
        let before = pids_of(front.filter(keep));
        let all = pids_of(followed.filter(keep));
        assert(keep(last) == wanted(last.0));
        if wanted(last.0) {
            assert(all =~= before.push(last.0));
        }
        assert(!pids_of(front).contains(last.0)) by {
            if pids_of(front).contains(last.0) {
                let j = choose|j: int| 0 <= j < front.len() && pids_of(front)[j] == last.0;
                assert(known[j] == known[known.len() - 1]);
            }
        }
        assert(!before.contains(last.0));
        assert(all.no_duplicates());
        assert forall|pid: u32| #[trigger]
            all.contains(pid) <==> known.contains(pid) && wanted(pid) by {
            assert(before.contains(pid) <==> pids_of(front).contains(pid) && wanted(pid));
            if pids_of(front).contains(pid) {
                let j = choose|j: int| 0 <= j < front.len() && pids_of(front)[j] == pid;
                assert(known[j] == pid);
            }
            if known.contains(pid) {
                let j = choose|j: int| 0 <= j < known.len() && known[j] == pid;
                if j < front.len() {
                    assert(pids_of(front)[j] == pid);
                }
            }
            if before.contains(pid) {
                let j = choose|j: int| 0 <= j < before.len() && before[j] == pid;
                assert(all[j] == pid);
            }
            if all.contains(pid) {
                let j = choose|j: int| 0 <= j < all.len() && all[j] == pid;
                if j < before.len() {
                    assert(before[j] == pid);
                }
            }
            if pid == last.0 {
                assert(known[known.len() - 1] == pid);
                if wanted(pid) {
                    assert(all[before.len() as int] == pid);
                }
            }
        }
    } else {
        assert(pids_of(followed) =~= Seq::empty());
        assert(pids_of(followed.filter(keep)) =~= Seq::empty());
    }
}

proof fn lemma_staying(followed: Seq<(u32, nat)>, current: Seq<u32>)
    requires
        pids_of(followed).no_duplicates(),
    ensures
        pids_of(staying(followed, current)).no_duplicates(),
        forall|pid: u32| #[trigger]
            pids_of(staying(followed, current)).contains(pid) <==> pids_of(followed).contains(pid)
                && current.contains(pid),
{
    let wanted = |pid: u32| current.contains(pid);
    lemma_kept(followed, |t: (u32, nat)| current.contains(t.0), wanted);
    assert forall|pid: u32| #[trigger]
        pids_of(staying(followed, current)).contains(pid) <==> pids_of(followed).contains(pid)
            && current.contains(pid) by {
        assert(wanted(pid) == current.contains(pid));
    }
}

proof fn lemma_leaving(followed: Seq<(u32, nat)>, current: Seq<u32>)
    requires
        pids_of(followed).no_duplicates(),
    ensures
        pids_of(leaving(followed, current)).no_duplicates(),
        forall|pid: u32| #[trigger]
            pids_of(leaving(followed, current)).contains(pid) <==> pids_of(followed).contains(pid)
                && !current.contains(pid),
{
    let wanted = |pid: u32| !current.contains(pid);
    lemma_kept(followed, |t: (u32, nat)| !current.contains(t.0), wanted);
    assert forall|pid: u32| #[trigger]
        pids_of(leaving(followed, current)).contains(pid) <==> pids_of(followed).contains(pid)
            && !current.contains(pid) by {
        assert(wanted(pid) == !current.contains(pid));
    }
}

/// After a look, exactly the processes that run are followed, each once. So what is reported as new
/// was not followed before, and what is reported as gone was: of one process, the two reports take
/// turns.
pub proof fn lemma_follow_current(followed: Seq<(u32, nat)>, current: Seq<u32>, now: nat)
    requires
        pids_of(followed).no_duplicates(),
    ensures
        ({
            let after = pids_of(
                staying(followed, current) + seen_at(arrivals(pids_of(followed), current), now),
            );
            &&& after.no_duplicates()
            &&& forall|pid: u32| #[trigger] after.contains(pid) <==> current.contains(pid)
        }),
{
    let known = pids_of(followed);
    let fresh = arrivals(known, current);
    let kept = pids_of(staying(followed, current));
    let after = pids_of(staying(followed, current) + seen_at(fresh, now));
    lemma_arrivals(known, current);
    lemma_staying(followed, current);
    assert(after =~= kept + fresh);
    assert forall|i: int, j: int| 0 <= i < j < after.len() implies after[i] != after[j] by {
        if i < kept.len() {
            assert(kept.contains(kept[i]));
            if j >= kept.len() {
                assert(fresh.contains(fresh[j - kept.len()]));
            }
        }
    }
    assert forall|pid: u32| #[trigger] after.contains(pid) <==> current.contains(pid) by {
        assert(kept.contains(pid) <==> known.contains(pid) && current.contains(pid));
        assert(fresh.contains(pid) <==> current.contains(pid) && !known.contains(pid));
        if kept.contains(pid) {
            let j = choose|j: int| 0 <= j < kept.len() && kept[j] == pid;
            assert(after[j] == pid);
        }
        if fresh.contains(pid) {
            let j = choose|j: int| 0 <= j < fresh.len() && fresh[j] == pid;
            assert(after[kept.len() + j] == pid);
        }
        if after.contains(pid) {
            let j = choose|j: int| 0 <= j < after.len() && after[j] == pid;
            if j < kept.len() {
                assert(kept[j] == pid);
            } else {
                assert(fresh[j - kept.len()] == pid);
            }
        }
    }
}

/// A look: the processes that run, and the time.
pub type Look = (Seq<u32>, nat);

/// The processes that a tracker follows after some looks.
pub open spec fn followed_after(looks: Seq<Look>) -> Seq<(u32, nat)>
    decreases looks.len(),
{
    if looks.len() == 0 {
        Seq::empty()
    } else {
        let before = followed_after(looks.drop_last());
        let (current, now) = looks.last();
        staying(before, current) + seen_at(arrivals(pids_of(before), current), now)
    }
}

/// A report on a process.
pub enum Turn {
    Spawned,
    Exited,
}

/// As many times the same report as a list holds a process.
pub open spec fn turns(turn: Turn, list: Seq<u32>, pid: u32) -> Seq<Turn> {
    Seq::new(list.to_multiset().count(pid), |i: int| turn)
}

/// The reports on one process over some looks, in their order.
pub open spec fn reports(looks: Seq<Look>, pid: u32) -> Seq<Turn>
    decreases looks.len(),
{
    if looks.len() == 0 {
        Seq::empty()
    } else {
        let before = followed_after(looks.drop_last());
        let current = looks.last().0;
        reports(looks.drop_last(), pid) + turns(
            Turn::Spawned,
            arrivals(pids_of(before), current),
            pid,
        ) + turns(Turn::Exited, pids_of(leaving(before, current)), pid)
    }
}

/// The reports on one process over some looks and the end of the tracking.
pub open spec fn all_reports(looks: Seq<Look>, pid: u32) -> Seq<Turn> {
    reports(looks, pid) + turns(Turn::Exited, pids_of(followed_after(looks)), pid)
}

/// Whether reports take turns, beginning with a spawn.
pub open spec fn take_turns(list: Seq<Turn>) -> bool {
    forall|i: int|
        0 <= i < list.len() ==> #[trigger] list[i] == (if i % 2 == 0 {
            Turn::Spawned
        } else {
            Turn::Exited
        })
}

/// Over any number of looks the spawns and exits of one process take turns, beginning with a spawn.
/// When the tracking has ended, every spawn has its exit, and nothing is left to be reported.
pub proof fn lemma_spawns_and_exits_take_turns(looks: Seq<Look>, pid: u32, now: nat)
    ensures
        take_turns(reports(looks, pid)),
        take_turns(all_reports(looks, pid)),
        all_reports(looks, pid).len() % 2 == 0,
        with_durations(Seq::empty(), now) == Seq::<(u32, nat)>::empty(),
{
    lemma_turns(looks, pid);
    lemma_counted_once(pids_of(followed_after(looks)), pid);
    assert(with_durations(Seq::empty(), now) =~= Seq::<(u32, nat)>::empty());
}

/// A list without repeats holds a process once or not at all.
proof fn lemma_counted_once(list: Seq<u32>, pid: u32)
    requires
        list.no_duplicates(),
    ensures
        list.to_multiset().count(pid) == (if list.contains(pid) {
            1nat
        } else {
            0nat
        }),
{
    list.to_multiset_ensures();
    list.lemma_multiset_has_no_duplicates();
    if list.contains(pid) {
        assert(list.to_multiset().contains(pid));
    } else {
        assert(!list.to_multiset().contains(pid));
    }
}

/// A process is followed exactly where the last report on it was a spawn.
proof fn lemma_turns(looks: Seq<Look>, pid: u32)
    ensures
        take_turns(reports(looks, pid)),
        pids_of(followed_after(looks)).no_duplicates(),
        pids_of(followed_after(looks)).contains(pid) <==> reports(looks, pid).len() % 2 == 1,
    decreases looks.len(),
{
    if looks.len() == 0 {
        assert(pids_of(followed_after(looks)) =~= Seq::empty());
    } else {
        let front = looks.drop_last();
        let before = followed_after(front);
        let known = pids_of(before);
        let (current, now) = looks.last();
        lemma_turns(front, pid);
        lemma_arrivals(known, current);
        lemma_leaving(before, current);
        lemma_follow_current(before, current, now);
        lemma_counted_once(arrivals(known, current), pid);
        lemma_counted_once(pids_of(leaving(before, current)), pid);
        let old_reports = reports(front, pid);
        let new_reports = reports(looks, pid);
        assert(arrivals(known, current).contains(pid) <==> current.contains(pid) && !known.contains(
            pid,
        ));
        assert(pids_of(leaving(before, current)).contains(pid) <==> known.contains(pid)
            && !current.contains(pid));
        assert(pids_of(followed_after(looks)).contains(pid) <==> current.contains(pid));
        assert forall|i: int| 0 <= i < new_reports.len() implies #[trigger] new_reports[i] == (if i
            % 2 == 0 {
            Turn::Spawned
        } else {
            Turn::Exited
        }) by {
            if i < old_reports.len() {
                assert(new_reports[i] == old_reports[i]);
            }
        }
    }
}

/// A walk through the tree of processes below a root. Like every walk that looks at the last thing on
/// its list, it has looked at everything it found when its list is empty: that is
/// `crate::walk::lemma_walk_balanced`.
pub struct PidWalk {
    /// The processes found so far, in the order in which they were found.
    pub found: Vec<u32>,
    /// The processes whose children are still to be looked for.
    pub to_check: Vec<u32>,
}

/// The process numbers among the words of a list of children; other words are passed over.
pub open spec fn child_pids(content: Seq<char>) -> Seq<u32> {
    words(content).filter_map(|word: Seq<char>| word_pid(word))
}

/// The process number that a word is the notation of.
pub open spec fn word_pid(word: Seq<char>) -> Option<u32> {
    match unsigned_value(word, u32::MAX as nat) {
        Some(n) => Some(n as u32),
        None => None,
    }
}

/// Reads the process numbers among the words of a list of children.
pub fn parse_children(content: &str) -> (r: Vec<u32>)
    ensures
        r@ == child_pids(content@),
{
    let list = words_of(&chars_of(content));
    let ghost all = words(content@);
    let ghost read = |word: Seq<char>| word_pid(word);
    let mut out: Vec<u32> = Vec::new();
    let mut i: usize = 0;
    proof {
        assert(pieces(list@).len() == list@.len());
        reveal(Seq::filter_map);
        assert(all.take(0) =~= Seq::empty());
        assert(out@ =~= all.take(0).filter_map(read));
    }
    while i < list.len()
        invariant
            i <= list@.len(),
            pieces(list@) == all,
            pieces(list@).len() == list@.len(),
            read == (|word: Seq<char>| word_pid(word)),
            out@ == all.take(i as int).filter_map(read),
        decreases list@.len() - i,
    {
        proof {
            assert(all[i as int] == list@[i as int]@);
            all.lemma_filter_map_take_succ(read, i as int);
        }
        match parse_u32(&list[i]) {
            Some(pid) => {
                out.push(pid);
            },
            None => {},
        }
        i += 1;
        assert(out@ =~= all.take(i as int).filter_map(read));
    }
    assert(all.take(i as int) =~= all);
    out
}

/// How many process numbers a listing of `count` bytes holds, in a buffer with `room` for so many.
pub fn listed_count(count: i32, room: usize) -> (r: usize)
    ensures
        r == (if count <= 0 {
            0int
        } else if count / 4 <= room {
            (count / 4) as int
        } else {
            room as int
        }),
{
    if count <= 0 {
        0
    } else {
        let n: usize = (count / 4) as usize;
        if n <= room {
            n
        } else {
            room
        }
    }
}

/// The process number in a slot of a listing, if the slot holds one.
pub open spec fn slot_pid(slot: i32) -> Option<u32> {
    if slot > 0 {
        Some(slot as u32)
    } else {
        None
    }
}

/// The process numbers in the first `n` slots of a listing: those above zero.
pub fn listed_pids(slots: &Vec<i32>, n: usize) -> (r: Vec<u32>)
    requires
        n <= slots@.len(),
    ensures
        r@ == slots@.take(n as int).filter_map(|slot: i32| slot_pid(slot)),
{
    let ghost read = |slot: i32| slot_pid(slot);
    let mut out: Vec<u32> = Vec::new();
    let mut i: usize = 0;
    proof {
        reveal(Seq::filter_map);
        assert(slots@.take(0) =~= Seq::empty());
        assert(out@ =~= slots@.take(0).filter_map(read));
    }
    while i < n
        invariant
            i <= n <= slots@.len(),
            read == (|slot: i32| slot_pid(slot)),
            out@ == slots@.take(i as int).filter_map(read),
        decreases n - i,
    {
        proof {
            slots@.lemma_filter_map_take_succ(read, i as int);
        }
        if slots[i] > 0 {
            out.push(slots[i] as u32);
        }
        i += 1;
        assert(out@ =~= slots@.take(i as int).filter_map(read));
    }
    out
}

/// The file that lists the children of a process.
pub open spec fn children_file(pid: nat) -> Seq<char> {
    "/proc/"@ + decimal(pid) + "/task/"@ + decimal(pid) + "/children"@
}

/// The file that lists the children of a process.
pub fn children_path(pid: u32) -> (r: String)
    ensures
        r@ == children_file(pid as nat),
{
    let notation = format_u128(pid as u128);
    let mut out = "/proc/".to_owned();
    out.append(notation.as_str());
    out.append("/task/");
    out.append(notation.as_str());
    out.append("/children");
    out
}

impl PidWalk {
    /// A walk that reports the root too.
    pub fn with_root(root_pid: u32) -> (r: PidWalk)
        ensures
            r.found@ == seq![root_pid],
            r.to_check@ == seq![root_pid],
    {
        let mut found: Vec<u32> = Vec::new();
        found.push(root_pid);
        let mut to_check: Vec<u32> = Vec::new();
        to_check.push(root_pid);
        PidWalk { found, to_check }
    }

    /// A walk that reports only what is below the root.
    pub fn below_root(root_pid: u32) -> (r: PidWalk)
        ensures
            r.found@ == Seq::<u32>::empty(),
            r.to_check@ == seq![root_pid],
    {
        let mut to_check: Vec<u32> = Vec::new();
        to_check.push(root_pid);
        PidWalk { found: Vec::new(), to_check }
    }

    /// The next process whose children are to be looked for: the last one found that was not looked
    /// at yet. There is none at the end of the walk.
    pub fn next_parent(&mut self) -> (r: Option<u32>)
        ensures
            final(self).found@ == old(self).found@,
            match r {
                Some(pid) => {
                    &&& old(self).to_check@.len() > 0
                    &&& pid == old(self).to_check@.last()
                    &&& final(self).to_check@ == old(self).to_check@.drop_last()
                },
                None => old(self).to_check@.len() == 0 && final(self).to_check@
                    == old(self).to_check@,
            },
    {
        self.to_check.pop()
    }

    /// Takes in the children of a process: each is found, and is to be looked at in its turn.
    pub fn take_children(&mut self, children: &Vec<u32>)
        ensures
            final(self).found@ == old(self).found@ + children@,
            final(self).to_check@ == old(self).to_check@ + children@,
    {
        let ghost found = self.found@;
        let ghost to_check = self.to_check@;
        let mut i: usize = 0;
        while i < children.len()
            invariant
                i <= children@.len(),
                self.found@ == found + children@.take(i as int),
                self.to_check@ == to_check + children@.take(i as int),
            decreases children@.len() - i,
        {
            self.found.push(children[i]);
            self.to_check.push(children[i]);
            i += 1;
            assert(self.found@ =~= found + children@.take(i as int));
            assert(self.to_check@ =~= to_check + children@.take(i as int));
        }
        assert(children@.take(i as int) =~= children@);
    }
}

/// The text of some bytes in UTF-8.
///
/// Calls `std::str::from_utf8`, which succeeds on exactly the byte sequences that are valid UTF-8
/// and gives back the text that they encode.
#[verifier::external_body]
fn utf8_text(bytes: &Vec<u8>) -> (r: Option<String>)
    ensures
        match r {
            Some(text) => valid_utf8(bytes@) && text@ == decode_utf8(bytes@),
            None => !valid_utf8(bytes@),
        },
{
    std::str::from_utf8(bytes).ok().map(|text| text.to_owned())
}

/// The runs of bytes between zero bytes.
pub open spec fn fields(data: Seq<u8>) -> Seq<Seq<u8>>
    decreases data.len(),
{
    if data.len() == 0 {
        seq![Seq::empty()]
    } else {
        let before = fields(data.drop_last());
        if data.last() == 0 {
            before.push(Seq::empty())
        } else {
            before.drop_last().push(before.last().push(data.last()))
        }
    }
}

/// The text of a field, unless it is empty or not UTF-8.
pub open spec fn field_text(field: Seq<u8>) -> Option<Seq<char>> {
    if field.len() > 0 && valid_utf8(field) {
        Some(decode_utf8(field))
    } else {
        None
    }
}

/// What stands for the arguments of a process that cannot be read.
pub open spec fn unknown_argv(pid: nat) -> Seq<Seq<char>> {
    seq!["<pid:"@ + decimal(pid) + ">"@]
}

/// These arguments, or what stands for them where there are none.
pub open spec fn argv_or_unknown(argv: Seq<Seq<char>>, pid: nat) -> Seq<Seq<char>> {
    if argv.len() == 0 {
        unknown_argv(pid)
    } else {
        argv
    }
}

/// What stands for the arguments of a process that cannot be read.
pub fn placeholder_argv(pid: u32) -> (r: Vec<String>)
    ensures
        texts(r@) == unknown_argv(pid as nat),
{
    let mut name = "<pid:".to_owned();
    name.append(format_u128(pid as u128).as_str());
    name.append(">");
    let mut out: Vec<String> = Vec::new();
    out.push(name);
    assert(texts(out@) =~= unknown_argv(pid as nat));
    out
}

/// The file that holds the arguments of a process.
pub fn cmdline_path(pid: u32) -> (r: String)
    ensures
        r@ == "/proc/"@ + decimal(pid as nat) + "/cmdline"@,
{
    let mut out = "/proc/".to_owned();
    out.append(format_u128(pid as u128).as_str());
    out.append("/cmdline");
    out
}

/// The arguments of a process, from the bytes that list them with a zero byte after each. Empty
/// ones and ones that are not UTF-8 are left out; where none is left, or nothing could be read, the
/// process number stands for them.
pub fn cmdline_argv(pid: u32, data: &Option<Vec<u8>>) -> (r: Vec<String>)
    ensures
        texts(r@) == (match *data {
            None => unknown_argv(pid as nat),
            Some(bytes) => argv_or_unknown(
                fields(bytes@).filter_map(|field: Seq<u8>| field_text(field)),
                pid as nat,
            ),
        }),
{
    let bytes = match data {
        None => {
            return placeholder_argv(pid);
        },
        Some(bytes) => bytes,
    };
    let ghost read = |field: Seq<u8>| field_text(field);
    let mut out: Vec<String> = Vec::new();
    let mut field: Vec<u8> = Vec::new();
    let ghost mut done: Seq<Seq<u8>> = Seq::empty();
    let mut i: usize = 0;
    proof {
        reveal(Seq::filter_map);
        assert(done.push(field@) =~= fields(bytes@.take(0)));
        assert(texts(out@) =~= done.filter_map(read));
    }
    while i < bytes.len()
        invariant
            i <= bytes@.len(),
            read == (|field: Seq<u8>| field_text(field)),
            done.push(field@) == fields(bytes@.take(i as int)),
            texts(out@) == done.filter_map(read),
        decreases bytes@.len() - i,
    {
        let ghost before = done.push(field@);
        let ghost done_before = done;
        let ghost out_before = texts(out@);
        let ghost current = field@;
        let b = bytes[i];
        proof {
            assert(bytes@.take(i + 1).drop_last() =~= bytes@.take(i as int));
            assert(bytes@.take(i + 1).last() == b);
            assert(before.drop_last() =~= done);
        }
        if b == 0 {
            proof {
                done = done.push(field@);
                lemma_read_more(done_before, current, read);
            }
            if field.len() > 0 {
                match utf8_text(&field) {
                    Some(text) => {
                        let ghost added = text@;
                        out.push(text);
                        assert(texts(out@) =~= out_before.push(added));
                    },
                    None => {},
                }
            }
            field = Vec::new();
        } else {
            field.push(b);
        }
        i += 1;
        assert(done.push(field@) =~= fields(bytes@.take(i as int)));
        assert(texts(out@) =~= done.filter_map(read));
    }
    let ghost out_before = texts(out@);
    let ghost current = field@;
    proof {
        assert(bytes@.take(i as int) =~= bytes@);
        lemma_read_more(done, current, read);
    }
    if field.len() > 0 {
        match utf8_text(&field) {
            Some(text) => {
                let ghost added = text@;
                out.push(text);
                assert(texts(out@) =~= out_before.push(added));
            },
            None => {},
        }
    }
    assert(texts(out@) =~= fields(bytes@).filter_map(read));
    if out.len() == 0 {
        placeholder_argv(pid)
    } else {
        out
    }
}

proof fn lemma_read_more(
    done: Seq<Seq<u8>>,
    field: Seq<u8>,
    read: spec_fn(Seq<u8>) -> Option<Seq<char>>,
)
    ensures
        done.push(field).filter_map(read) == done.filter_map(read) + (match read(field) {
            Some(text) => seq![text],
            None => Seq::empty(),
        }),
{
    let all = done.push(field);
    let n = done.len() as int;
    all.lemma_filter_map_take_succ(read, n);
    assert(all.take(n) =~= done);
    assert(all.take(n + 1) =~= all);
    assert(all[n] == field);
}

/// How many bytes before the first zero byte.
pub open spec fn run_length(data: Seq<u8>) -> nat
    decreases data.len(),
{
    if data.len() == 0 || data[0] == 0 {
        0
    } else {
        1 + run_length(data.skip(1))
    }
}

/// How many zero bytes at the start.
pub open spec fn zeros_length(data: Seq<u8>) -> nat
    decreases data.len(),
{
    if data.len() == 0 || data[0] != 0 {
        0
    } else {
        1 + zeros_length(data.skip(1))
    }
}

/// `data` without its first `n` bytes, or nothing where there are fewer.
pub open spec fn beyond(data: Seq<u8>, n: nat) -> Seq<u8> {
    if n <= data.len() {
        data.skip(n as int)
    } else {
        Seq::empty()
    }
}

/// The texts of the first `count` runs that end with a zero byte or with the data, without those
/// that are not UTF-8.
pub open spec fn leading_texts(data: Seq<u8>, count: nat) -> Seq<Seq<char>>
    decreases count,
{
    if count == 0 || data.len() == 0 {
        Seq::empty()
    } else {
        let run = data.take(run_length(data) as int);
        let rest = leading_texts(beyond(data, run_length(data) + 1), (count - 1) as nat);
        if valid_utf8(run) {
            seq![decode_utf8(run)] + rest
        } else {
            rest
        }
    }
}

/// The data behind the path of the program: behind the first run of bytes and the zero bytes that
/// follow it.
pub open spec fn behind_path(data: Seq<u8>) -> Seq<u8> {
    let after = data.skip(run_length(data) as int);
    after.skip(zeros_length(after) as int)
}

proof fn lemma_run_length(data: Seq<u8>)
    ensures
        run_length(data) <= data.len(),
        zeros_length(data) <= data.len(),
    decreases data.len(),
{
    if data.len() > 0 {
        lemma_run_length(data.skip(1));
    }
}

fn run_end(data: &Vec<u8>, from: usize) -> (r: usize)
    requires
        from <= data@.len(),
    ensures
        from <= r <= data@.len(),
        r - from == run_length(data@.skip(from as int)),
{
    let mut at: usize = from;
    while at < data.len() && data[at] != 0
        invariant
            from <= at <= data@.len(),
            run_length(data@.skip(from as int)) == (at - from) + run_length(data@.skip(at as int)),
        decreases data@.len() - at,
    {
        assert(data@.skip(at as int).skip(1) =~= data@.skip(at + 1));
        at += 1;
    }
    at
}

fn zeros_end(data: &Vec<u8>, from: usize) -> (r: usize)
    requires
        from <= data@.len(),
    ensures
        from <= r <= data@.len(),
        r - from == zeros_length(data@.skip(from as int)),
{
    let mut at: usize = from;
    while at < data.len() && data[at] == 0
        invariant
            from <= at <= data@.len(),
            zeros_length(data@.skip(from as int)) == (at - from) + zeros_length(
                data@.skip(at as int),
            ),
        decreases data@.len() - at,
    {
        assert(data@.skip(at as int).skip(1) =~= data@.skip(at + 1));
        at += 1;
    }
    at
}

fn bytes_between(data: &Vec<u8>, from: usize, to: usize) -> (r: Vec<u8>)
    requires
        from <= to <= data@.len(),
    ensures
        r@ == data@.subrange(from as int, to as int),
{
    let mut out: Vec<u8> = Vec::new();
    let mut i: usize = from;
    while i < to
        invariant
            from <= i <= to <= data@.len(),
            out@ == data@.subrange(from as int, i as int),
        decreases to - i,
    {
        out.push(data[i]);
        i += 1;
        assert(out@ =~= data@.subrange(from as int, i as int));
    }
    out
}

/// The arguments of a process, from the block of bytes that macOS keeps of them: four bytes that
/// hold `argc`, the path of the program, zero bytes, and then the arguments with a zero byte after
/// each. Arguments that are not UTF-8 are left out; where none is left, the process number stands
/// for them.
pub fn procargs_argv(pid: u32, argc: i32, data: &Vec<u8>) -> (r: Vec<String>)
    ensures
        texts(r@) == (if data@.len() < 4 {
            unknown_argv(pid as nat)
        } else {
            argv_or_unknown(
                leading_texts(
                    behind_path(data@.skip(4)),
                    (if argc < 0 {
                        0
                    } else {
                        argc as nat
                    }),
                ),
                pid as nat,
            )
        }),
{
    if data.len() < 4 {
        return placeholder_argv(pid);
    }
    let path_end = run_end(data, 4);
    let mut at: usize = zeros_end(data, path_end);
    let count: u32 = if argc < 0 {
        0
    } else {
        argc as u32
    };
    let ghost block = behind_path(data@.skip(4));
    proof {
        lemma_run_length(data@.skip(4));
        assert(data@.skip(4).skip(path_end - 4) =~= data@.skip(path_end as int));
        assert(data@.skip(path_end as int).skip(at - path_end) =~= data@.skip(at as int));
    }
    let mut out: Vec<String> = Vec::new();
    let mut left: u32 = count;
    let ghost mut rest: Seq<u8> = block;
    assert(texts(out@) + leading_texts(rest, left as nat) =~= leading_texts(block, count as nat));
    while left > 0 && at < data.len()
        invariant
            at <= data@.len(),
            left <= count,
            rest == data@.skip(at as int),
            texts(out@) + leading_texts(rest, left as nat) == leading_texts(block, count as nat),
        decreases left,
    {
        let ghost out_before = texts(out@);
        let ghost rest_before = rest;
        let end = run_end(data, at);
        let run = bytes_between(data, at, end);
        proof {
            assert(rest.take(run_length(rest) as int) =~= run@);
        }
        let next: usize = if end < data.len() {
            end + 1
        } else {
            data.len()
        };
        proof {
            rest = data@.skip(next as int);
            assert(rest =~= beyond(rest_before, run_length(rest_before) + 1));
        }
        match utf8_text(&run) {
            Some(text) => {
                let ghost added = text@;
                out.push(text);
                assert(texts(out@) =~= out_before.push(added));
                assert(texts(out@) + leading_texts(rest, (left - 1) as nat) =~= out_before
                    + leading_texts(rest_before, left as nat));
            },
            None => {},
        }
        at = next;
        left -= 1;
    }
    assert(leading_texts(rest, left as nat) =~= Seq::empty());
    assert(texts(out@) =~= leading_texts(block, count as nat));
    assert(texts(out@).len() == out@.len());
    if out.len() == 0 {
        placeholder_argv(pid)
    } else {
        out
    }
}

/// What a look makes of one more process that was followed: it stays, with the time when it was first
/// seen, where it is still there, and leaves where it is not; one that leaves ran from when it was
/// first seen until now, or for no time where the clock went back.
pub proof fn lemma_one_more_followed(
    followed: Seq<(u32, nat)>,
    current: Seq<u32>,
    pid: u32,
    start: nat,
    now: nat,
)
    ensures
        staying(Seq::empty(), current) == Seq::<(u32, nat)>::empty(),
        leaving(Seq::empty(), current) == Seq::<(u32, nat)>::empty(),
        current.contains(pid) ==> staying(followed.push((pid, start)), current) == staying(
            followed,
            current,
        ).push((pid, start)) && leaving(followed.push((pid, start)), current) == leaving(
            followed,
            current,
        ),
        !current.contains(pid) ==> staying(followed.push((pid, start)), current) == staying(
            followed,
            current,
        ) && leaving(followed.push((pid, start)), current) == leaving(followed, current).push(
            (pid, start),
        ),
        with_durations(Seq::empty(), now) == Seq::<(u32, nat)>::empty(),
        start <= now ==> with_durations(followed.push((pid, start)), now) == with_durations(
            followed,
            now,
        ).push((pid, (now - start) as nat)),
        start > now ==> with_durations(followed.push((pid, start)), now) == with_durations(
            followed,
            now,
        ).push((pid, 0)),
        pids_of(followed.push((pid, start))) == pids_of(followed).push(pid),
{
    reveal(Seq::filter);
    followed.lemma_filter_push((pid, start), |t: (u32, nat)| current.contains(t.0));
    followed.lemma_filter_push((pid, start), |t: (u32, nat)| !current.contains(t.0));
    assert(with_durations(Seq::empty(), now) =~= Seq::<(u32, nat)>::empty());
    assert(with_durations(followed.push((pid, start)), now) =~= with_durations(followed, now).push(
        (pid, elapsed(start, now)),
    ));
    assert(pids_of(followed.push((pid, start))) =~= pids_of(followed).push(pid));
}

/// What a look makes of one more process that it finds: it is new unless it was followed before or
/// stands in the list already, and is then followed from now on, behind those found before it.
pub proof fn lemma_one_more_found(known: Seq<u32>, current: Seq<u32>, pid: u32, now: nat)
    ensures
        arrivals(known, Seq::empty()) == Seq::<u32>::empty(),
        known.contains(pid) || current.contains(pid) ==> arrivals(known, current.push(pid))
            == arrivals(known, current),
        !known.contains(pid) && !current.contains(pid) ==> arrivals(known, current.push(pid))
            == arrivals(known, current).push(pid),
        seen_at(Seq::empty(), now) == Seq::<(u32, nat)>::empty(),
        seen_at(current.push(pid), now) == seen_at(current, now).push((pid, now)),
{
    assert(current.push(pid).drop_last() =~= current);
    assert(seen_at(Seq::empty(), now) =~= Seq::<(u32, nat)>::empty());
    assert(seen_at(current.push(pid), now) =~= seen_at(current, now).push((pid, now)));
}

/// A list of children is read word by word: the notation of a process number adds that number, a word
/// that holds anything but digits adds nothing, and what stands behind white space is read as it would
/// be alone.
pub proof fn lemma_children_read(
    before: Seq<char>,
    space: char,
    after: Seq<char>,
    pid: u32,
    word: Seq<char>,
)
    requires
        is_space(space),
        is_word(word),
        word.len() > 0,
        word[0] != '+',
        exists|i: int| 0 <= i < word.len() && !is_digit(#[trigger] word[i]),
    ensures
        child_pids(Seq::empty()) == Seq::<u32>::empty(),
        child_pids(before.push(space) + after) == child_pids(before) + child_pids(after),
        child_pids(decimal(pid as nat)) == seq![pid],
        child_pids(word) == Seq::<u32>::empty(),
{
    let read = |word: Seq<char>| word_pid(word);
    reveal(Seq::filter_map);
    lemma_words_add(before, space, after);
    lemma_filter_map_add(words(before), words(after), read);
    assert(child_pids(Seq::empty()) =~= Seq::<u32>::empty());
    let digits = decimal(pid as nat);
    lemma_decimal_value(pid as nat);
    lemma_decimal_round_trip(pid as nat, u32::MAX as nat);
    assert forall|i: int| 0 <= i < digits.len() implies !is_space(#[trigger] digits[i]) by {
        assert(is_digit(digits[i]));
    }
    lemma_one_word(digits);
    lemma_one_word(word);
    assert(!all_digits(word));
    assert(word_pid(word) is None);
    Seq::lemma_filter_map_singleton(digits, read);
    Seq::lemma_filter_map_singleton(word, read);
    assert(child_pids(digits) =~= seq![pid]);
    assert(child_pids(word) =~= Seq::<u32>::empty());
}

/// The arguments that some bytes list, with a zero byte between one and the next.
pub open spec fn listed_argv(data: Seq<u8>) -> Seq<Seq<char>> {
    fields(data).filter_map(|field: Seq<u8>| field_text(field))
}

/// The arguments of a process are read run by run, in their order: what stands behind a zero byte is
/// read as it would be alone, a run without zero bytes is the text that it is the UTF-8 of, and one
/// that is empty or is the UTF-8 of no text is left out.
pub proof fn lemma_arguments_read(before: Seq<u8>, after: Seq<u8>, run: Seq<u8>)
    requires
        !run.contains(0),
    ensures
        listed_argv(before.push(0) + after) == listed_argv(before) + listed_argv(after),
        run.len() > 0 && valid_utf8(run) ==> listed_argv(run) == seq![decode_utf8(run)],
        run.len() == 0 || !valid_utf8(run) ==> listed_argv(run) == Seq::<Seq<char>>::empty(),
{
    let read = |field: Seq<u8>| field_text(field);
    lemma_fields_add(before, after);
    lemma_filter_map_add(fields(before), fields(after), read);
    lemma_one_field(run);
    Seq::lemma_filter_map_singleton(run, read);
    if run.len() > 0 && valid_utf8(run) {
        assert(listed_argv(run) =~= seq![decode_utf8(run)]);
    } else {
        assert(listed_argv(run) =~= Seq::<Seq<char>>::empty());
    }
}

proof fn lemma_fields_add(before: Seq<u8>, after: Seq<u8>)
    ensures
        fields(after).len() > 0,
        fields(before.push(0) + after) == fields(before) + fields(after),
    decreases after.len(),
{
    let data = before.push(0) + after;
    if after.len() == 0 {
        assert(data =~= before.push(0));
        assert(data.drop_last() =~= before);
        assert(fields(data) =~= fields(before) + fields(after));
    } else {
        lemma_fields_add(before, after.drop_last());
        assert(data.drop_last() =~= before.push(0) + after.drop_last());
        assert(data.last() == after.last());
        assert(fields(data) =~= fields(before) + fields(after));
    }
}

proof fn lemma_one_field(run: Seq<u8>)
    requires
        !run.contains(0),
    ensures
        fields(run) == seq![run],
    decreases run.len(),
{
    if run.len() == 0 {
        assert(run =~= Seq::empty());
    } else {
        let front = run.drop_last();
        assert forall|i: int| 0 <= i < front.len() implies front[i] != 0 by {
            assert(run.contains(run[i]));
        }
        assert(run.contains(run.last()));
        lemma_one_field(front);
        assert(front.push(run.last()) =~= run);
        assert(fields(run) =~= seq![run]);
    }
}

/// The data behind the path of a program begins where the zero bytes behind the path end.
pub proof fn lemma_path_passed_over(path: Seq<u8>, zeros: Seq<u8>, rest: Seq<u8>)
    requires
        !path.contains(0),
        zeros.len() > 0,
        forall|i: int| 0 <= i < zeros.len() ==> zeros[i] == 0,
        rest.len() == 0 || rest[0] != 0,
    ensures
        behind_path(path + zeros + rest) == rest,
        behind_path(path) == Seq::<u8>::empty(),
{
    let data = path + zeros + rest;
    assert(data =~= path + (zeros + rest));
    lemma_run_of(path, zeros + rest);
    lemma_run_of(path, Seq::empty());
    assert(path + Seq::<u8>::empty() =~= path);
    assert(data.skip(path.len() as int) =~= zeros + rest);
    lemma_zeros_of(zeros, rest);
    assert((zeros + rest).skip(zeros.len() as int) =~= rest);
    assert(path.skip(path.len() as int) =~= Seq::<u8>::empty());
    assert(Seq::<u8>::empty().skip(0) =~= Seq::<u8>::empty());
}

proof fn lemma_run_of(run: Seq<u8>, rest: Seq<u8>)
    requires
        !run.contains(0),
        rest.len() == 0 || rest[0] == 0,
    ensures
        run_length(run + rest) == run.len(),
    decreases run.len(),
{
    if run.len() == 0 {
        assert(run + rest =~= rest);
    } else {
        let tail = run.skip(1);
        assert(run.contains(run[0]));
        assert forall|i: int| 0 <= i < tail.len() implies tail[i] != 0 by {
            assert(run.contains(run[i + 1]));
        }
        lemma_run_of(tail, rest);
        assert((run + rest).skip(1) =~= tail + rest);
    }
}

proof fn lemma_zeros_of(zeros: Seq<u8>, rest: Seq<u8>)
    requires
        forall|i: int| 0 <= i < zeros.len() ==> zeros[i] == 0,
        rest.len() == 0 || rest[0] != 0,
    ensures
        zeros_length(zeros + rest) == zeros.len(),
    decreases zeros.len(),
{
    if zeros.len() == 0 {
        assert(zeros + rest =~= rest);
    } else {
        lemma_zeros_of(zeros.skip(1), rest);
        assert((zeros + rest).skip(1) =~= zeros.skip(1) + rest);
    }
}

/// Of a block of arguments as many are read as are asked for, in their order; one that is the UTF-8 of
/// no text counts and is left out, an empty one is an empty text, and the last one needs no zero byte
/// behind it.
pub proof fn lemma_leading_arguments(run: Seq<u8>, rest: Seq<u8>, count: nat)
    requires
        !run.contains(0),
    ensures
        leading_texts(run, 0) == Seq::<Seq<char>>::empty(),
        leading_texts(Seq::empty(), count) == Seq::<Seq<char>>::empty(),
        valid_utf8(run) ==> leading_texts(run.push(0) + rest, count + 1) == seq![decode_utf8(run)]
            + leading_texts(rest, count),
        !valid_utf8(run) ==> leading_texts(run.push(0) + rest, count + 1) == leading_texts(
            rest,
            count,
        ),
        valid_utf8(run) && run.len() > 0 ==> leading_texts(run, count + 1) == seq![decode_utf8(run)],
        !valid_utf8(run) ==> leading_texts(run, count + 1) == Seq::<Seq<char>>::empty(),
{
    let data = run.push(0) + rest;
    let ended = seq![0u8] + rest;
    assert(data =~= run + ended);
    lemma_run_of(run, ended);
    assert(data.take(run.len() as int) =~= run);
    assert(beyond(data, run.len() + 1) =~= rest);
    lemma_run_of(run, Seq::empty());
    assert(run + Seq::<u8>::empty() =~= run);
    assert(run.take(run.len() as int) =~= run);
    assert(beyond(run, run.len() + 1) =~= Seq::<u8>::empty());
    assert(leading_texts(Seq::<u8>::empty(), count) =~= Seq::<Seq<char>>::empty());
    if run.len() > 0 {
        assert(leading_texts(run, count + 1) =~= (if valid_utf8(run) {
            seq![decode_utf8(run)]
        } else {
            Seq::empty()
        }));
    } else {
        assert(leading_texts(run, count + 1) =~= Seq::<Seq<char>>::empty());
    }
}

/// Some arguments stand for themselves; where there are none, one that holds the process number
/// stands for them. The children of a process are listed in a file of its own, and a slot of a listing
/// holds a process number where it is above zero.
pub proof fn lemma_process_names(argv: Seq<Seq<char>>, pid: u32, slot: i32)
    ensures
        argv.len() > 0 ==> argv_or_unknown(argv, pid as nat) == argv,
        argv_or_unknown(Seq::empty(), pid as nat) == seq!["<pid:"@ + decimal(pid as nat) + ">"@],
        unknown_argv(pid as nat) == seq!["<pid:"@ + decimal(pid as nat) + ">"@],
        children_file(pid as nat) == "/proc/"@ + decimal(pid as nat) + "/task/"@ + decimal(
            pid as nat,
        ) + "/children"@,
        slot <= 0 ==> slot_pid(slot) is None,
        slot > 0 ==> (slot_pid(slot) matches Some(n) && n as int == slot as int),
{
}

/// What events tell of processes: of a new one its number, and of one that is gone its number and how
/// long it was seen.
pub proof fn lemma_what_process_events_tell(
    starts: Seq<ProcessEvent>,
    start: ProcessEvent,
    ends: Seq<ProcessExitEvent>,
    end: ProcessExitEvent,
)
    ensures
        spawned_pids(starts.push(start)) == spawned_pids(starts).push(start.pid),
        spawned_pids(starts).len() == starts.len(),
        exit_durations(ends.push(end)) == exit_durations(ends).push((end.pid, end.duration@)),
        exit_durations(ends).len() == ends.len(),
{
    assert(spawned_pids(starts.push(start)) =~= spawned_pids(starts).push(start.pid));
    assert(exit_durations(ends.push(end)) =~= exit_durations(ends).push((end.pid, end.duration@)));
}

} // verus!
