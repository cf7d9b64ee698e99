//! The virtual link device's packet queues: two of these carry IP frames
//! between the TCP/IP stack and the tunnel, one inbound and one outbound.
//! The queue is strictly first-in first-out, so frames cross the link in
//! the order they were produced. The stack's device trait itself cannot be
//! implemented here; the driver wraps these queues in the trait glue.

use vstd::prelude::*;

verus! {

/// The link's maximum transmission unit: the tunnel adds 32 bytes of
/// data-packet overhead and the encrypted datagram must fit a common
/// 1,500-byte UDP path, with margin for the outer headers.
pub const LINK_MTU: usize = 1420;

/// A first-in first-out queue of IP frames.
pub struct PacketQueue {
    frames: Vec<Vec<u8>>,
}

impl View for PacketQueue {
    type V = Seq<Seq<u8>>;

    closed spec fn view(&self) -> Seq<Seq<u8>> {
        Seq::new(self.frames@.len(), |i: int| self.frames@[i]@)
    }
}

impl PacketQueue {
    /// An empty queue.
    pub fn new() -> (q: PacketQueue)
        ensures
            q@ == Seq::<Seq<u8>>::empty(),
    {
        let q = PacketQueue { frames: Vec::new() };
        proof {
            assert(q@ =~= Seq::<Seq<u8>>::empty());
        }
        q
    }

    /// Appends a frame at the back.
    pub fn push_back(&mut self, frame: Vec<u8>)
        ensures
            final(self)@ == old(self)@.push(frame@),
    {
        let ghost d = frame@;
        self.frames.push(frame);
        proof {
            assert(self@ =~= old(self)@.push(d));
        }
    }

    /// Takes the oldest frame, if one is queued.
    pub fn pop_front(&mut self) -> (r: Option<Vec<u8>>)
        ensures
            old(self)@.len() == 0 ==> r is None && final(self)@ == old(self)@,
            old(self)@.len() > 0 ==> (r matches Some(f) && f@ == old(self)@[0] && final(self)@
                == old(self)@.drop_first()),
    {
        if self.frames.len() == 0 {
            proof {
                assert(self@ =~= old(self)@);
            }
            None
        } else {
            let f = self.frames.remove(0);
            proof {
                assert(self@ =~= old(self)@.drop_first());
            }
            Some(f)
        }
    }

    /// How many frames are queued.
    pub fn len(&self) -> (n: usize)
        ensures
            n == self@.len(),
    {
        self.frames.len()
    }
}

} // verus!
