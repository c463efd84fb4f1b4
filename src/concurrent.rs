use vstd::prelude::*;

verus! {

/// `std::time::Instant`, a point on the monotonic clock; carried, never
/// inspected.
#[verifier::external_type_specification]
#[verifier::external_body]
pub struct ExInstant(std::time::Instant);

/// An action that performs `inner` again and again, without end.
#[derive(Clone)]
pub struct RecIo<I> {
    pub inner: I,
}

/// An action that sleeps for `duration`.
#[derive(Clone, Copy)]
pub struct DelayForIo {
    pub duration: std::time::Duration,
}

/// An action that sleeps until `instant`, if it lies ahead.
#[derive(Clone, Copy)]
pub struct DelayUntilIo {
    pub instant: std::time::Instant,
}

/// Returns the action that repeats `io` forever.
pub fn rec<I>(io: I) -> (r: RecIo<I>)
    ensures
        r.inner == io,
{
    RecIo { inner: io }
}

/// Returns the action that sleeps for `duration`.
pub fn delay_for(duration: std::time::Duration) -> (r: DelayForIo)
    ensures
        r.duration == duration,
{
    DelayForIo { duration }
}

/// Returns the action that sleeps until `instant`.
pub fn delay_until(instant: std::time::Instant) -> (r: DelayUntilIo)
    ensures
        r.instant == instant,
{
    DelayUntilIo { instant }
}

} // verus!
