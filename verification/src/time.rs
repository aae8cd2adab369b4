//! Points in time and lengths of time.

use vstd::prelude::*;

use crate::number::digit;
use crate::order::text_less;

verus! {

/// The number of nanoseconds in a second.
pub const NANOS_PER_SEC: u32 = 1_000_000_000;

/// A length of time, to the nanosecond.
#[derive(Debug, Clone, Copy, PartialEq, Eq, Structural)]
pub struct Duration {
    secs: u64,
    nanos: u32,
}

impl View for Duration {
    type V = nat;

    /// The length in nanoseconds.
    closed spec fn view(&self) -> nat {
        self.secs as nat * 1_000_000_000 + self.nanos as nat
    }
}

/// The longest `Duration`, in nanoseconds.
pub open spec fn longest() -> nat {
    u64::MAX as nat * 1_000_000_000 + 999_999_999
}

impl Duration {
    #[verifier::type_invariant]
    spec fn normal(self) -> bool {
        self.nanos < NANOS_PER_SEC
    }

    /// Makes a duration of whole seconds and a part of a second.
    pub fn new(secs: u64, nanos: u32) -> (r: Duration)
        requires
            nanos < NANOS_PER_SEC,
        ensures
            r@ == secs as nat * 1_000_000_000 + nanos as nat,
    {
        Duration { secs, nanos }
    }

    /// Makes a duration of whole seconds.
    pub fn from_secs(secs: u64) -> (r: Duration)
        ensures
            r@ == secs as nat * 1_000_000_000,
    {
        Duration { secs, nanos: 0 }
    }

    /// Makes a duration of whole milliseconds.
    pub fn from_millis(millis: u64) -> (r: Duration)
        ensures
            r@ == millis as nat * 1_000_000,
    {
        Duration { secs: millis / 1000, nanos: (millis % 1000) as u32 * 1_000_000 }
    }

    /// The whole seconds of the duration.
    pub fn as_secs(&self) -> (r: u64)
        ensures
            r == self@ / 1_000_000_000,
    {
        proof {
            use_type_invariant(self);
        }
        self.secs
    }

    /// What is left of the duration after its whole seconds, in nanoseconds.
    pub fn subsec_nanos(&self) -> (r: u32)
        ensures
            r == self@ % 1_000_000_000,
    {
        proof {
            use_type_invariant(self);
        }
        self.nanos
    }

    /// Tests whether this duration is at least as long as `other`.
    pub fn at_least(&self, other: Duration) -> (r: bool)
        ensures
            r == (self@ >= other@),
    {
        proof {
            use_type_invariant(self);
            use_type_invariant(other);
        }
        self.secs > other.secs || (self.secs == other.secs && self.nanos >= other.nanos)
    }

    /// The sum of two durations, where it can be represented.
    pub fn checked_add(&self, other: Duration) -> (r: Option<Duration>)
        ensures
            match r {
                Some(sum) => sum@ == self@ + other@ && sum@ <= longest(),
                None => self@ + other@ > longest(),
            },
    {
        proof {
            use_type_invariant(self);
            use_type_invariant(other);
        }
        let nanos: u32 = self.nanos + other.nanos;
        let (carry, rest): (u64, u32) = if nanos >= NANOS_PER_SEC {
            (1, (nanos - NANOS_PER_SEC) as u32)
        } else {
            (0, nanos)
        };
        match self.secs.checked_add(other.secs) {
            None => None,
            Some(secs) => match secs.checked_add(carry) {
                None => None,
                Some(secs) => Some(Duration { secs, nanos: rest }),
            },
        }
    }

    /// The time from `earlier` to this one, both counted from one start;
    /// nothing where `earlier` is the later of the two.
    pub fn saturating_sub(&self, earlier: Duration) -> (r: Duration)
        ensures
            r@ == (if self@ >= earlier@ {
                (self@ - earlier@) as nat
            } else {
                0
            }),
    {
        proof {
            use_type_invariant(self);
            use_type_invariant(earlier);
        }
        if !self.at_least(earlier) {
            Duration { secs: 0, nanos: 0 }
        } else if self.nanos >= earlier.nanos {
            Duration { secs: self.secs - earlier.secs, nanos: self.nanos - earlier.nanos }
        } else {
            Duration {
                secs: self.secs - earlier.secs - 1,
                nanos: (self.nanos + NANOS_PER_SEC - earlier.nanos) as u32,
            }
        }
    }
}

/// A point in time: seconds since 1970-01-01 00:00:00 UTC, and the
/// nanoseconds since the last of them. In a leap second the nanoseconds go
/// past one second.
#[derive(Debug, Clone, Copy, PartialEq, Eq, Structural)]
pub struct Timestamp {
    pub secs: i64,
    pub nanos: u32,
}

/// Reads the clock: seconds and nanoseconds since 1970-01-01 00:00:00 UTC.
///
/// Calls `chrono::Utc::now`, and takes the result apart with
/// `DateTime::timestamp` and `DateTime::timestamp_subsec_nanos`. It makes the
/// moment of the whole seconds and the part of a second that the system tells,
/// and no leap second. So the contract claims that the part of a second stays
/// below one second, and, since chrono guarantees that what was taken apart
/// can be put together again, that the moment has a date. Which moment it is,
/// is up to the clock.
#[verifier::external_body]
fn read_clock() -> (r: (i64, u32))
    ensures
        r.1 < NANOS_PER_SEC,
        has_date(r.0, r.1),
{
    let now = chrono::Utc::now();
    (now.timestamp(), now.timestamp_subsec_nanos())
}

impl Timestamp {
    /// The present moment, as the clock gives it: never in a leap second, and always one that has a
    /// date. Which moment it is, is up to the clock.
    pub fn now() -> (r: Timestamp)
        ensures
            is_clock_time(r),
    {
        let (secs, nanos) = read_clock();
        Timestamp { secs, nanos }
    }

    /// The time from the start of 1970, in nanoseconds; below nought for a moment before it.
    pub open spec fn offset(&self) -> int {
        self.secs * 1_000_000_000 + self.nanos
    }

    /// The moment so long after the start of 1970, where its seconds can be counted.
    pub fn after_epoch(length: Duration) -> (r: Option<Timestamp>)
        ensures
            match r {
                Some(moment) => moment.offset() == length@ && moment.nanos < NANOS_PER_SEC,
                None => length@ >= 0x8000_0000_0000_0000 * 1_000_000_000,
            },
    {
        let secs: u64 = length.as_secs();
        if secs > 0x7fff_ffff_ffff_ffff {
            None
        } else {
            Some(Timestamp { secs: secs as i64, nanos: length.subsec_nanos() })
        }
    }

    /// The moment so long before the start of 1970, where its seconds can be counted.
    pub fn before_epoch(length: Duration) -> (r: Option<Timestamp>)
        ensures
            match r {
                Some(moment) => moment.offset() == -length@ && moment.nanos < NANOS_PER_SEC,
                None => length@ >= 0x7fff_ffff_ffff_ffff * 1_000_000_000,
            },
    {
        let secs: u64 = length.as_secs();
        let nanos: u32 = length.subsec_nanos();
        if secs >= 0x7fff_ffff_ffff_ffff {
            None
        } else if nanos == 0 {
            Some(Timestamp { secs: -(secs as i64), nanos: 0 })
        } else {
            Some(Timestamp { secs: -(secs as i64) - 1, nanos: NANOS_PER_SEC - nanos })
        }
    }
}

/// The text that chrono writes for a point in time under a pattern, in UTC;
/// `None` where the seconds lie outside chrono's calendar or the nanoseconds
/// name no moment.
pub uninterp spec fn utc_text(secs: i64, nanos: u32, pattern: Seq<char>) -> Option<Seq<char>>;

/// The pattern of a date and time of day, `YYYYMMDD_HHMMSS`.
pub open spec fn second_pattern() -> Seq<char> {
    "%Y%m%d_%H%M%S"@
}

/// The pattern of the milliseconds of a second, in three digits.
pub open spec fn milli_pattern() -> Seq<char> {
    "%3f"@
}

/// Whether chrono has a date, a time of day and milliseconds for a moment.
pub open spec fn has_date(secs: i64, nanos: u32) -> bool {
    utc_text(secs, nanos, second_pattern()) is Some && utc_text(secs, nanos, milli_pattern()) is Some
}

/// Whether a moment is one that the clock can tell: it has a date, and is in no leap second.
pub open spec fn is_clock_time(moment: Timestamp) -> bool {
    moment.nanos < NANOS_PER_SEC && has_date(moment.secs, moment.nanos)
}

/// The last second of the year 9999.
pub open spec fn last_four_digit_second() -> int {
    253_402_300_799
}

/// Whether a moment lies in the years from 1970 to 9999, and in no leap second.
pub open spec fn in_four_digit_years(secs: i64, nanos: u32) -> bool {
    0 <= secs <= last_four_digit_second() && nanos < NANOS_PER_SEC
}

/// A number below a hundred in two digits.
pub open spec fn two_digits(n: nat) -> Seq<char> {
    seq![digit(n / 10), digit(n % 10)]
}

/// The time of day of a second since 1970, in UTC: hour, minute and second, two digits each.
pub open spec fn clock_text(secs: nat) -> Seq<char> {
    two_digits(secs / 3600 % 24) + two_digits(secs / 60 % 60) + two_digits(secs % 60)
}

/// The milliseconds in a part of a second, in three digits.
pub open spec fn millis_text(nanos: nat) -> Seq<char> {
    let n = nanos / 1_000_000;
    seq![digit(n / 100)] + two_digits(n % 100)
}

/// What the text under one of the two patterns above counts: seconds, or the milliseconds of one.
pub open spec fn counted(secs: i64, nanos: u32, pattern: Seq<char>) -> int {
    if pattern == second_pattern() {
        secs as int
    } else {
        nanos as int / 1_000_000
    }
}

/// Whether another text stands to `text` as what it counts stands to what `text` counts: it is as
/// long, it comes before `text` where it counts less, and it is the same where it counts the same.
pub open spec fn keeps_step(text: Seq<char>, count: int, other: Option<Seq<char>>, less: int) -> bool {
    &&& other is Some
    &&& other->0.len() == text.len()
    &&& less < count ==> text_less(other->0, text)
    &&& less == count ==> other->0 == text
}

/// Writes a point in time in UTC under one of the two patterns above.
///
/// Calls `chrono::DateTime::from_timestamp`, `DateTime::format` and the
/// `Display` of what that returns. The text is named; of the date, which
/// takes a calendar, nothing more is spelled out. Beside the name the
/// contract claims that a moment from 1970 to 9999 has a text; that a date
/// and time of day in those years takes 15 characters and a count of
/// milliseconds 3; what the time of day and the milliseconds are; and that
/// the texts of those years come in the order of the seconds, or
/// milliseconds, that they count. That is what chrono documents of `%Y`,
/// `%m`, `%d`, `%H`, `%M`, `%S` and `%3f`: numbers with zeros in front, up to
/// a fixed width, the larger unit before the smaller.
#[verifier::external_body]
pub(crate) fn format_utc(secs: i64, nanos: u32, pattern: &str) -> (r: Option<String>)
    requires
        pattern@ == second_pattern() || pattern@ == milli_pattern(),
    ensures
        match r {
            Some(text) => utc_text(secs, nanos, pattern@) == Some(text@),
            None => utc_text(secs, nanos, pattern@) is None,
        },
        in_four_digit_years(secs, nanos) ==> r is Some,
        r is Some && 0 <= secs <= last_four_digit_second() ==> r->0@.len() == (if pattern@
            == second_pattern() {
            15int
        } else {
            3int
        }),
        in_four_digit_years(secs, nanos) && pattern@ == second_pattern() ==> r->0@.skip(8)
            == seq!['_'] + clock_text(secs as nat),
        in_four_digit_years(secs, nanos) && pattern@ == milli_pattern() ==> r->0@ == millis_text(
            nanos as nat,
        ),
        in_four_digit_years(secs, nanos) ==> forall|s: i64, n: u32|
            in_four_digit_years(s, n) ==> keeps_step(
                r->0@,
                counted(secs, nanos, pattern@),
                #[trigger] utc_text(s, n, pattern@),
                counted(s, n, pattern@),
            ),
{
    chrono::DateTime::from_timestamp(secs, nanos).map(|t| t.format(pattern).to_string())
}

} // verus!
