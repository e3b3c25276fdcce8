//! What a stopping policy is told of the clock and the budget left.
use vstd::prelude::*;

verus! {

/// Hints for a search-specific stopper: the time and playouts left, and the
/// speed seen so far.
#[derive(Clone, Copy, Debug, PartialEq, Eq, Structural)]
pub struct StoppersHints {
    pub remaining_time: u64,
    pub remaining_playouts: u64,
    /// Nodes per second, once measured.
    pub estimated_nps: Option<u64>,
}

impl StoppersHints {
    pub fn new(remaining_time: u64, remaining_playouts: u64, estimated_nps: Option<u64>) -> (r: StoppersHints)
        ensures
            r == (StoppersHints { remaining_time, remaining_playouts, estimated_nps }),
    {
        StoppersHints { remaining_time, remaining_playouts, estimated_nps }
    }

    /// The time left, in milliseconds.
    pub fn remaining_time_ms(&self) -> (r: u64)
        ensures
            r == self.remaining_time,
    {
        self.remaining_time
    }

    pub fn remaining_time_mut(&mut self) -> (r: &mut u64)
        ensures
            *r == old(self).remaining_time,
            *final(self) == (StoppersHints { remaining_time: *final(r), ..*old(self) }),
    {
        &mut self.remaining_time
    }

    pub fn remaining_playouts(&self) -> (r: u64)
        ensures
            r == self.remaining_playouts,
    {
        self.remaining_playouts
    }

    pub fn remaining_playouts_mut(&mut self) -> (r: &mut u64)
        ensures
            *r == old(self).remaining_playouts,
            *final(self) == (StoppersHints { remaining_playouts: *final(r), ..*old(self) }),
    {
        &mut self.remaining_playouts
    }

    pub fn estimated_nps(&self) -> (r: Option<u64>)
        ensures
            r == self.estimated_nps,
    {
        self.estimated_nps
    }

    pub fn estimated_nps_mut(&mut self) -> (r: &mut Option<u64>)
        ensures
            *r == old(self).estimated_nps,
            *final(self) == (StoppersHints { estimated_nps: *final(r), ..*old(self) }),
    {
        &mut self.estimated_nps
    }
}

} // verus!
