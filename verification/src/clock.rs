//! Spans of time, and the time since the Unix epoch.

use std::time::SystemTime;
use vstd::prelude::*;

verus! {

/// A span of time in whole seconds and the nanoseconds beyond them.
#[derive(Clone, Copy)]
pub struct TimeSpan {
    pub secs: u64,
    pub nanos: u32,
}

impl TimeSpan {
    /// The nanoseconds make up less than a second.
    pub open spec fn valid(self) -> bool {
        self.nanos < 1_000_000_000
    }

    /// The whole span in nanoseconds.
    pub open spec fn total_nanos(self) -> nat {
        (self.secs * 1_000_000_000 + self.nanos) as nat
    }

    /// The whole span in nanoseconds.
    pub fn as_nanos(&self) -> (nanos: u128)
        ensures
            nanos == self.total_nanos(),
            nanos == self.secs * 1_000_000_000 + self.nanos,
    {
        self.secs as u128 * 1_000_000_000 + self.nanos as u128
    }

    /// The whole microseconds of the span.
    pub fn as_micros(&self) -> (micros: u128)
        ensures
            micros == self.total_nanos() / 1_000,
            micros == (self.secs * 1_000_000_000 + self.nanos) / 1_000,
    {
        self.as_nanos() / 1_000
    }

    /// The whole milliseconds of the span.
    pub fn as_millis(&self) -> (millis: u128)
        ensures
            millis == self.total_nanos() / 1_000_000,
            millis == (self.secs * 1_000_000_000 + self.nanos) / 1_000_000,
    {
        self.as_nanos() / 1_000_000
    }
}

/// `SystemTime::elapsed` of `SystemTime::UNIX_EPOCH`: the time since the Unix epoch as the clock
/// of the machine shows it, or nothing where the clock stands before the epoch. All that is
/// claimed of a reading is that its nanoseconds make up less than a second.
#[verifier::external_body]
fn read_clock() -> (reading: Option<TimeSpan>)
    ensures
        reading matches Some(span) ==> span.valid(),
{
    match SystemTime::UNIX_EPOCH.elapsed() {
        Ok(span) => Some(TimeSpan { secs: span.as_secs(), nanos: span.subsec_nanos() }),
        Err(_) => None,
    }
}

/// The nanoseconds since the Unix epoch for what a clock showed. A clock that stands before the
/// epoch counts as standing at it.
pub open spec fn epoch_nanos(reading: Option<TimeSpan>) -> nat {
    match reading {
        Some(shown) => shown.total_nanos(),
        None => 0,
    }
}

/// What a clock can show: nothing, or a valid span.
pub open spec fn valid_reading(reading: Option<TimeSpan>) -> bool {
    reading matches Some(span) ==> span.valid()
}

/// The nanoseconds since the Unix epoch for what a clock showed.
pub fn nanos_since_epoch(reading: Option<TimeSpan>) -> (nanos: u128)
    ensures
        nanos == epoch_nanos(reading),
        reading matches Some(shown) ==> nanos == shown.secs * 1_000_000_000 + shown.nanos,
        reading is None ==> nanos == 0,
{
    match reading {
        Some(shown) => shown.as_nanos(),
        None => 0,
    }
}

/// The milliseconds since the Unix epoch for what a clock showed.
pub fn millis_since_epoch(reading: Option<TimeSpan>) -> (millis: u128)
    ensures
        millis == epoch_nanos(reading) / 1_000_000,
        reading matches Some(shown) ==> millis == (shown.secs * 1_000_000_000 + shown.nanos)
            / 1_000_000,
        reading is None ==> millis == 0,
{
    match reading {
        Some(shown) => shown.as_millis(),
        None => 0,
    }
}

/// Reads a clock once and gives the milliseconds since the Unix epoch for what it showed.
fn stamp_ms<C: Fn() -> Option<TimeSpan>>(clock: C) -> (millis: u128)
    requires
        clock.requires(()),
    ensures
        exists|reading: Option<TimeSpan>| #[trigger]
            clock.ensures((), reading) && millis == (match reading {
                Some(shown) => (shown.secs * 1_000_000_000 + shown.nanos) / 1_000_000,
                None => 0,
            }),
{
    let reading = clock();
    millis_since_epoch(reading)
}

/// Reads a clock once and gives the nanoseconds since the Unix epoch for what it showed.
fn stamp_ns<C: Fn() -> Option<TimeSpan>>(clock: C) -> (nanos: u128)
    requires
        clock.requires(()),
    ensures
        exists|reading: Option<TimeSpan>| #[trigger]
            clock.ensures((), reading) && nanos == (match reading {
                Some(shown) => shown.secs * 1_000_000_000 + shown.nanos,
                None => 0,
            }),
{
    let reading = clock();
    nanos_since_epoch(reading)
}

/// The clock of the machine showed this when it was read.
pub closed spec fn was_shown(reading: Option<TimeSpan>) -> bool {
    call_ensures(read_clock, (), reading)
}

/// The milliseconds since the Unix epoch: what [`millis_since_epoch`] gives for the clock of the
/// machine.
pub fn unix_timestamp_ms() -> (millis: u128)
    ensures
        exists|reading: Option<TimeSpan>| #[trigger]
            was_shown(reading) && valid_reading(reading) && millis == epoch_nanos(reading)
                / 1_000_000,
{
    let millis: u128 = stamp_ms(read_clock);
    proof {
        let reading = choose|reading: Option<TimeSpan>| #[trigger]
            call_ensures(read_clock, (), reading) && millis == (match reading {
                Some(shown) => (shown.secs * 1_000_000_000 + shown.nanos) / 1_000_000,
                None => 0,
            });
        assert(was_shown(reading) && valid_reading(reading));
    }
    millis
}

/// The nanoseconds since the Unix epoch: what [`nanos_since_epoch`] gives for the clock of the
/// machine.
pub fn unix_timestamp_ns() -> (nanos: u128)
    ensures
        exists|reading: Option<TimeSpan>| #[trigger]
            was_shown(reading) && valid_reading(reading) && nanos == epoch_nanos(reading),
{
    let nanos: u128 = stamp_ns(read_clock);
    proof {
        let reading = choose|reading: Option<TimeSpan>| #[trigger]
            call_ensures(read_clock, (), reading) && nanos == (match reading {
                Some(shown) => shown.secs * 1_000_000_000 + shown.nanos,
                None => 0,
            });
        assert(was_shown(reading) && valid_reading(reading));
    }
    nanos
}

/// A time stamp in milliseconds is the number of whole milliseconds of what the clock of the
/// machine was read to show, and zero where that was a time before the epoch.
proof fn law_stamp_ms_is_read_from_the_clock(millis: u128)
    requires
        call_ensures(unix_timestamp_ms, (), millis),
    ensures
        exists|reading: Option<TimeSpan>| #[trigger]
            call_ensures(read_clock, (), reading) && match reading {
                Some(shown) => shown.nanos < 1_000_000_000 && millis == shown.secs * 1_000
                    + shown.nanos / 1_000_000,
                None => millis == 0,
            },
{
    let reading = choose|reading: Option<TimeSpan>| #[trigger]
        was_shown(reading) && valid_reading(reading) && millis == epoch_nanos(reading) / 1_000_000;
    assert(call_ensures(read_clock, (), reading));
}

/// A time stamp in nanoseconds is the number of nanoseconds of what the clock of the machine was
/// read to show, and zero where that was a time before the epoch.
proof fn law_stamp_ns_is_read_from_the_clock(nanos: u128)
    requires
        call_ensures(unix_timestamp_ns, (), nanos),
    ensures
        exists|reading: Option<TimeSpan>| #[trigger]
            call_ensures(read_clock, (), reading) && match reading {
                Some(shown) => shown.nanos < 1_000_000_000 && nanos == shown.secs * 1_000_000_000
                    + shown.nanos,
                None => nanos == 0,
            },
{
    let reading = choose|reading: Option<TimeSpan>| #[trigger]
        was_shown(reading) && valid_reading(reading) && nanos == epoch_nanos(reading);
    assert(call_ensures(read_clock, (), reading));
}

/// The units of a span fit into each other: a nanosecond is the thousandth part of a microsecond,
/// and that of a millisecond, and a second is a thousand of these. What is cut off is less than
/// one unit.
pub proof fn law_units_of_a_span(span: TimeSpan, nanos: u128, micros: u128, millis: u128)
    requires
        call_ensures(TimeSpan::as_nanos, (&span,), nanos),
        call_ensures(TimeSpan::as_micros, (&span,), micros),
        call_ensures(TimeSpan::as_millis, (&span,), millis),
    ensures
        nanos == span.secs * 1_000_000_000 + span.nanos,
        micros * 1_000 <= nanos < (micros + 1) * 1_000,
        millis * 1_000 <= micros < (millis + 1) * 1_000,
{
}

/// What shows a later time gives no smaller a stamp, and what shows a time that is later by a
/// number of seconds gives one that is larger by that.
pub proof fn law_stamps_follow_the_clock(a: TimeSpan, b: TimeSpan, x: u128, y: u128)
    requires
        a.secs <= b.secs,
        a.nanos <= b.nanos,
        call_ensures(millis_since_epoch, (Some(a),), x),
        call_ensures(millis_since_epoch, (Some(b),), y),
    ensures
        x <= y,
        a.nanos == b.nanos ==> y - x == (b.secs - a.secs) * 1_000,
{
}

/// A clock that shows nothing stands at the epoch, as one that shows an empty span does.
pub proof fn law_no_reading_is_the_epoch(x: u128, y: u128)
    requires
        call_ensures(millis_since_epoch, (None,), x),
        call_ensures(nanos_since_epoch, (None,), y),
    ensures
        x == 0,
        y == 0,
{
}

} // verus!
