use vstd::prelude::*;

verus! {

/// A point in time, in whole seconds since the Unix epoch.
#[derive(Clone, Copy, Debug, PartialEq, Eq, Structural)]
pub struct Timestamp(u64);

impl View for Timestamp {
    type V = u64;

    /// The seconds since the Unix epoch.
    closed spec fn view(&self) -> u64 {
        self.0
    }
}

impl Timestamp {
    pub fn new(unix_seconds: u64) -> (r: Self)
        ensures
            r@ == unix_seconds,
    {
        Self(unix_seconds)
    }

    pub fn as_secs(&self) -> (r: u64)
        ensures
            r == self@,
    {
        self.0
    }

    /// The time `secs` seconds later (the addition of a duration).
    pub fn add_secs(&self, secs: u64) -> (r: Timestamp)
        requires
            self@ + secs <= u64::MAX,
        ensures
            r@ == self@ + secs,
    {
        Timestamp(self.0 + secs)
    }

    /// The time `secs` seconds earlier, or the epoch when that is before
    /// it (the subtraction of a duration).
    pub fn sub_secs(&self, secs: u64) -> (r: Timestamp)
        ensures
            r@ == if secs <= self@ {
                (self@ - secs) as u64
            } else {
                0u64
            },
    {
        Timestamp(self.0.saturating_sub(secs))
    }

    /// The seconds from `earlier` to this time, or zero when `earlier` is
    /// later (the difference of two timestamps).
    pub fn secs_since(&self, earlier: &Timestamp) -> (r: u64)
        ensures
            r == if earlier@ <= self@ {
                (self@ - earlier@) as u64
            } else {
                0u64
            },
    {
        self.0.saturating_sub(earlier.0)
    }
}

/// Going back by a duration undoes going forward by it.
pub proof fn law_timestamp_add_then_sub(t: u64, secs: u64)
    requires
        t + secs <= u64::MAX,
    ensures
        ((t + secs) as u64 - secs) as u64 == t,
        (t + secs) as u64 - t == secs,
{
}

} // verus!
