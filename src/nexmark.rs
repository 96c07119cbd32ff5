use vstd::prelude::*;

verus! {

/// Converts between input epochs and event times, which run `time_dilation` times faster.
#[derive(Copy, Clone)]
pub struct NexmarkTimer {
    pub time_dilation: u64,
}

impl NexmarkTimer {
    /// The event time of epoch `x`.
    pub fn to_nexmark_time(self, x: u64) -> (r: u64)
        requires
            x * self.time_dilation <= u64::MAX,
        ensures
            r == x * self.time_dilation,
    {
        x * self.time_dilation
    }

    /// The epoch that event time `x` falls in.
    pub fn from_nexmark_time(self, x: u64) -> (r: u64)
        requires
            self.time_dilation > 0,
        ensures
            r == x / self.time_dilation,
    {
        x / self.time_dilation
    }
}

} // verus!
