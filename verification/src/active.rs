//! Edge activity records: edge `eid` is active at time `time`.
use vstd::prelude::*;

verus! {

/// Edge `eid` is active at time point `time`.
#[derive(Debug, Clone, Copy)]
pub struct Active {
    pub eid: usize,
    pub time: usize,
}

impl Active {
    /// An activity record of edge `eid` at `time`.
    pub fn new(eid: usize, time: usize) -> (r: Self)
        ensures
            r.eid == eid,
            r.time == time,
    {
        Self { eid, time }
    }
}

} // verus!
