use vstd::prelude::*;

verus! {

/// Relies on `random_number::random_inclusively`: returns a value drawn from
/// the inclusive range `[lo, hi]`; the call panics when `lo > hi`.
#[verifier::external_body]
fn draw_inclusive(lo: u8, hi: u8) -> (r: u8)
    requires
        lo <= hi,
    ensures
        lo <= r <= hi,
{
    random_number::random_inclusively(lo, hi)
}

/// Whether a drawn value falls under the threshold: the decision that
/// turns one uniform draw from a hundred values into a percentage chance.
pub fn below_threshold(draw: u8, percent: u8) -> (r: bool)
    ensures
        r == (draw < percent),
{
    draw < percent
}

/// Decides "true with probability `percent` / 100" by drawing one of the
/// hundred values `0..=99` and testing the draw against the threshold.
pub fn probability(percent: u8) -> (r: bool)
    requires
        percent <= 100,
    ensures
        percent == 0 ==> !r,
        percent == 100 ==> r,
{
    let draw = draw_inclusive(0, 99);
    below_threshold(draw, percent)
}

/// Relies on `std::time::Instant` as an opaque timestamp type; nothing of
/// its inner representation is assumed.
#[verifier::external_type_specification]
#[verifier::external_body]
pub struct ExInstant(std::time::Instant);

/// Relies on `std::time::Instant::now`: an opaque timestamp for the present
/// moment; nothing further can be said of a reading of the clock.
#[verifier::external_body]
fn instant_now() -> (r: std::time::Instant) {
    std::time::Instant::now()
}

/// Relies on `std::time::Instant::saturating_duration_since`: the time that
/// passed from `earlier` to `later`, or zero when `earlier` is in fact the
/// later of the two; the call never panics.
#[verifier::external_body]
fn elapsed_between(earlier: std::time::Instant, later: std::time::Instant) -> (r: std::time::Duration) {
    later.saturating_duration_since(earlier)
}

/// A stopwatch over the system clock: record a start and a stop instant,
/// then ask for the time between them.
pub struct TimeCounter {
    pub start_time: Option<std::time::Instant>,
    pub stop_time: Option<std::time::Instant>,
}

impl TimeCounter {
    pub fn new() -> (r: TimeCounter)
        ensures
            r.start_time is None,
            r.stop_time is None,
    {
        TimeCounter { start_time: None, stop_time: None }
    }

    pub fn start(&mut self)
        ensures
            final(self).start_time is Some,
            final(self).stop_time == old(self).stop_time,
    {
        self.start_time = Some(instant_now());
    }

    pub fn stop(&mut self)
        ensures
            final(self).stop_time is Some,
            final(self).start_time == old(self).start_time,
    {
        self.stop_time = Some(instant_now());
    }

    /// The recorded span; present exactly when both a start and a stop
    /// instant have been recorded.
    pub fn duration(&self) -> (r: Option<std::time::Duration>)
        ensures
            r is Some <==> (self.start_time is Some && self.stop_time is Some),
    {
        match (&self.start_time, &self.stop_time) {
            (Some(start), Some(stop)) => Some(elapsed_between(*start, *stop)),
            _ => None,
        }
    }
}

} // verus!
