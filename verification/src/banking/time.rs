use vstd::prelude::*;
use crate::banking::types::Timestamp;

verus! {

/// A local physical clock: each reading returns the current time and then
/// advances it by one, so that tests need no global state.
#[derive(Debug)]
pub struct PhysicalClock {
    current: Timestamp,
}

impl View for PhysicalClock {
    type V = nat;

    closed spec fn view(&self) -> nat {
        self.current as nat
    }
}

impl PhysicalClock {
    /// A clock whose first reading is zero.
    pub fn new() -> (c: Self)
        ensures
            c@ == 0,
    {
        PhysicalClock { current: 0 }
    }

    /// Read the time, then advance the clock by one.
    pub fn now(&mut self) -> (t: Timestamp)
        requires
            old(self)@ < u64::MAX,
        ensures
            t == old(self)@,
            final(self)@ == old(self)@ + 1,
    {
        let old = self.current;
        self.current = self.current + 1;
        old
    }

    /// Start again from zero.
    pub fn reset(&mut self)
        ensures
            final(self)@ == 0,
    {
        self.current = 0;
    }
}

impl Default for PhysicalClock {
    fn default() -> (c: Self)
        ensures
            c@ == 0,
    {
        PhysicalClock::new()
    }
}

} // verus!
