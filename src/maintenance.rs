use vstd::prelude::*;

verus! {

/// Operations between two refreshes of an engine with asynchronous completions.
pub const REFRESH_EVERY: u64 = 16;

/// Operations between two waits for all pending completions.
pub const COMPLETE_EVERY: u64 = 1024;

/// Operations between two reports of the engine's size.
pub const REPORT_EVERY: u64 = 1048576;

/// What an engine with asynchronous completions is owed after one operation.
#[derive(Copy, Clone, PartialEq, Eq, Structural, Debug)]
pub struct Maintenance {
    /// Drain the completions that are ready.
    pub refresh: bool,
    /// Wait for every pending completion.
    pub complete_pending: bool,
    /// Report the engine's size.
    pub report_size: bool,
}

/// The upkeep due after the operation with serial number `serial`: a refresh every
/// sixteen operations, a full wait every 1024, a size report every 2^20.
pub fn maintenance_for(serial: u64) -> (m: Maintenance)
    ensures
        m.refresh == (serial % REFRESH_EVERY == 0),
        m.complete_pending == (serial % COMPLETE_EVERY == 0),
        m.report_size == (serial % REPORT_EVERY == 0),
{
    let refresh = serial % REFRESH_EVERY == 0;
    let complete_pending = refresh && serial % COMPLETE_EVERY == 0;
    proof {
        assert(serial % 1024 == 0 ==> serial % 16 == 0) by (bit_vector);
    }
    Maintenance { refresh, complete_pending, report_size: serial % REPORT_EVERY == 0 }
}

/// A monotonic operation counter: hands out serial numbers one after another.
pub struct SerialCounter {
    pub next: u64,
}

impl SerialCounter {
    pub fn new() -> (r: Self)
        ensures
            r.next == 1,
    {
        SerialCounter { next: 1 }
    }

    /// The serial number of the next operation, with the upkeep due after it.
    pub fn take(&mut self) -> (r: (u64, Maintenance))
        requires
            old(self).next < u64::MAX,
        ensures
            r.0 == old(self).next,
            final(self).next == old(self).next + 1,
            r.1 == maintenance_spec(old(self).next),
    {
        let serial = self.next;
        self.next = serial + 1;
        (serial, maintenance_for(serial))
    }
}

/// The upkeep due after the operation with serial number `serial`.
pub open spec fn maintenance_spec(serial: u64) -> Maintenance {
    Maintenance {
        refresh: serial % REFRESH_EVERY == 0,
        complete_pending: serial % COMPLETE_EVERY == 0,
        report_size: serial % REPORT_EVERY == 0,
    }
}

} // verus!
