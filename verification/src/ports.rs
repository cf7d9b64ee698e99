//! Allocation of local ephemeral ports for outbound connects.
//!
//! The allocator walks the ephemeral range [49152, 65535] monotonically and
//! wraps back to the bottom of the range on overflow. There is no free list:
//! the stack's socket pool is far smaller than the range, so a collision
//! would require more concurrent sockets than the pool can hold.

use vstd::prelude::*;

verus! {

/// Lowest port of the ephemeral range.
pub const EPHEMERAL_FIRST: u16 = 49152;

/// A monotonic wrap-around counter over the ephemeral port range.
pub struct PortAllocator {
    next: u16,
}

impl PortAllocator {
    /// The allocator only ever holds ports inside the ephemeral range.
    pub open spec fn wf(self) -> bool {
        EPHEMERAL_FIRST <= self.next_port()
    }

    /// The port the next call to `allocate` will hand out.
    pub closed spec fn next_port(self) -> u16 {
        self.next
    }

    /// The allocator state after one allocation: the successor port, or the
    /// bottom of the ephemeral range when the range is exhausted.
    pub closed spec fn stepped(self) -> PortAllocator {
        if self.next_port() == u16::MAX {
            PortAllocator { next: EPHEMERAL_FIRST }
        } else {
            PortAllocator { next: (self.next_port() + 1) as u16 }
        }
    }

    /// Seeds the allocator from a clock-derived value, somewhere in the
    /// ephemeral range.
    pub fn new(seed_millis: u64) -> (a: PortAllocator)
        ensures
            a.wf(),
            a.next_port() == (seed_millis % 16383) + EPHEMERAL_FIRST,
    {
        PortAllocator { next: ((seed_millis % 16383) + (EPHEMERAL_FIRST as u64)) as u16 }
    }

    /// Hands out the current port and advances, wrapping to the bottom of
    /// the ephemeral range past its top.
    pub fn allocate(&mut self) -> (p: u16)
        requires
            old(self).wf(),
        ensures
            final(self).wf(),
            p == old(self).next_port(),
            EPHEMERAL_FIRST <= p,
            *final(self) == old(self).stepped(),
    {
        let p = self.next;
        let bumped = self.next.wrapping_add(1);
        self.next = if bumped < EPHEMERAL_FIRST { EPHEMERAL_FIRST } else { bumped };
        p
    }
}

/// Law: consecutive allocations produce strictly increasing ports until the
/// top of the range, where the allocator wraps back to 49152; every port it
/// ever hands out lies in [49152, 65535], so the wrap skips [0, 49151].
pub proof fn lemma_ports_strictly_increase(a: PortAllocator)
    requires
        a.wf(),
    ensures
        a.stepped().wf(),
        a.next_port() != u16::MAX ==> a.stepped().next_port() == a.next_port() + 1,
        a.next_port() == u16::MAX ==> a.stepped().next_port() == EPHEMERAL_FIRST,
        EPHEMERAL_FIRST <= a.next_port(),
        EPHEMERAL_FIRST <= a.stepped().next_port(),
{
}

} // verus!
