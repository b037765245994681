use vstd::prelude::*;

verus! {

/// Cumulative receive/send byte counters of one network interface, as
/// exposed by the kernel statistics table. Each counter is non-decreasing
/// within a boot but may jump back to zero on an interface reset or reboot.
#[derive(Clone, Copy, Debug, PartialEq, Eq, Structural)]
pub struct ByteState {
    pub recv: u64,
    pub send: u64,
}

/// Reset-safe subtraction of one counter field: the arithmetic difference
/// when the counter has not gone backwards, and zero otherwise (counter
/// reset, interface restart, reboot). Never underflows.
pub open spec fn reset_safe_sub(cur: u64, prev: u64) -> u64 {
    if cur >= prev {
        (cur - prev) as u64
    } else {
        0u64
    }
}

/// Field-wise reset-safe delta of two counter states.
pub open spec fn spec_delta(cur: ByteState, prev: ByteState) -> ByteState {
    ByteState {
        recv: reset_safe_sub(cur.recv, prev.recv),
        send: reset_safe_sub(cur.send, prev.send),
    }
}

impl ByteState {
    /// The per-interval delta since `rhs`, clamped at zero per field: equal
    /// to the arithmetic difference whenever the current value is at least
    /// the previous one, and zero otherwise, so a counter reset can never
    /// produce an underflowing (wrapped) delta.
    pub fn sub(self, rhs: ByteState) -> (r: ByteState)
        ensures
            r == spec_delta(self, rhs),
    {
        let mut result = ByteState { recv: 0, send: 0 };
        if self.recv >= rhs.recv {
            result.recv = self.recv - rhs.recv;
        }
        if self.send >= rhs.send {
            result.send = self.send - rhs.send;
        }
        result
    }
}

} // verus!
