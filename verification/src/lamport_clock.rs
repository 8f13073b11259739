use vstd::prelude::*;

verus! {

/// A Lamport logical clock: a counter advanced by local events and
/// synchronised with the timestamps carried by received messages.
#[derive(Debug, Clone, Copy, PartialEq, Eq)]
pub struct LamportClock {
    time: u64,
}

impl View for LamportClock {
    type V = nat;

    closed spec fn view(&self) -> nat {
        self.time as nat
    }
}

/// The larger of two timestamps.
pub open spec fn later(a: nat, b: nat) -> nat {
    if a < b { b } else { a }
}

impl LamportClock {
    /// A clock at time zero.
    pub fn new() -> (clock: Self)
        ensures
            clock@ == 0,
    {
        LamportClock { time: 0 }
    }

    /// Local event (rule R1): advance the clock by one and return the new time.
    pub fn increment(&mut self) -> (t: u64)
        requires
            old(self)@ < u64::MAX,
        ensures
            final(self)@ == old(self)@ + 1,
            t == final(self)@,
    {
        self.time = self.time + 1;
        self.time
    }

    /// Receive event (rule R2): move to `max(local, received) + 1` and return it.
    pub fn update(&mut self, received_time: u64) -> (t: u64)
        requires
            later(old(self)@, received_time as nat) < u64::MAX,
        ensures
            final(self)@ == later(old(self)@, received_time as nat) + 1,
            t == final(self)@,
    {
        if self.time < received_time {
            self.time = received_time;
        }
        self.time = self.time + 1;
        self.time
    }

    /// The current time; the clock is left as it is.
    pub fn get(&self) -> (t: u64)
        ensures
            t == self@,
    {
        self.time
    }

    /// Put the clock back to zero.
    pub fn reset(&mut self)
        ensures
            final(self)@ == 0,
    {
        self.time = 0;
    }

    /// Put the clock at the given time.
    pub fn set(&mut self, time: u64)
        ensures
            final(self)@ == time,
    {
        self.time = time;
    }

    /// The text `LamportClock(<time>)`.
    pub fn to_display_string(&self) -> (s: String)
        ensures
            s@ == "LamportClock("@ + crate::text::decimal(self@) + ")"@,
    {
        let mut s = String::from_str("LamportClock(");
        crate::text::push_decimal(&mut s, self.time);
        s.append(")");
        s
    }
}

impl Default for LamportClock {
    fn default() -> (clock: Self)
        ensures
            clock@ == 0,
    {
        LamportClock::new()
    }
}

/// Whether a transfer has completed on the logical time line: both the
/// debit at the source (`send_time`) and the credit at the destination
/// (`recv_time`) have happened, a timestamp of zero meaning "not yet".
pub fn is_transfer_complete(send_time: u64, recv_time: u64) -> (done: bool)
    ensures
        done <==> (send_time > 0 && recv_time > 0),
{
    send_time > 0 && recv_time > 0
}

/// A received message is stamped later than its send: whatever the receiver's
/// clock, `update(send_time)` yields a time greater than both `send_time` and
/// the receiver's previous time.
pub proof fn lemma_receive_after_send(local: nat, send_time: nat)
    ensures
        later(local, send_time) + 1 > send_time,
        later(local, send_time) + 1 > local,
{
}

} // verus!
