//! The bijection between the substrate's logical time and NEXMark event time:
//! event time is logical time dilated by a process-wide integer factor.

use vstd::prelude::*;
use crate::event::Date;

verus! {

#[derive(Eq, PartialEq, Structural, Clone, Copy, Debug)]
pub struct NexmarkTimer {
    pub time_dilation: usize,
}

impl NexmarkTimer {
    /// Logical time to event time: multiply by the dilation factor.
    pub fn to_nexmark_time(self, x: usize) -> (d: Date)
        requires
            x * self.time_dilation <= usize::MAX,
        ensures
            d.0 == x * self.time_dilation,
    {
        proof {
            assert(x * self.time_dilation >= 0) by (nonlinear_arith);
        }
        Date::new(x * self.time_dilation)
    }

    /// Event time back to logical time: divide by the dilation factor.
    pub fn from_nexmark_time(self, x: Date) -> (t: usize)
        requires
            self.time_dilation > 0,
        ensures
            t == x.0 / self.time_dilation,
    {
        x.0 / self.time_dilation
    }
}

/// Round trip: dilating a logical time and mapping back returns the time
/// itself, so notification times computed from event times are exact.
pub proof fn lemma_timer_round_trip(nt: NexmarkTimer, x: usize)
    requires
        nt.time_dilation > 0,
        x * nt.time_dilation <= usize::MAX,
    ensures
        (x * nt.time_dilation) as usize / nt.time_dilation == x,
{
    assert((x * nt.time_dilation) as usize / nt.time_dilation == x) by (nonlinear_arith)
        requires
            nt.time_dilation > 0,
            x * nt.time_dilation <= usize::MAX,
    ;
}

} // verus!
