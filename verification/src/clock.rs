//! The wall clock, read as nanoseconds since the Unix epoch.

use vstd::prelude::*;

verus! {

pub struct Clock;

impl Clock {
    /// Relies on `std::time::SystemTime::now` and `duration_since`:
    /// nanoseconds since the Unix epoch by the machine clock.  The reading
    /// depends on the machine and the moment, so nothing is promised of it;
    /// a clock before the epoch reads as zero.
    #[verifier::external_body]
    pub fn now() -> u128 {
        std::time::SystemTime::now()
            .duration_since(std::time::UNIX_EPOCH)
            .map(|d| d.as_nanos())
            .unwrap_or(0)
    }
}

impl Default for Clock {
    fn default() -> (r: Self)
        ensures
            r == (Clock {}),
    {
        Clock {}
    }
}

} // verus!
