//! Packets and packet pools. A packet is a pooled, typed data buffer; the
//! routing layer sees it in type-erased form, as a payload together with a
//! runtime type tag that is checked on downcast. A packet pool is a
//! fixed-capacity ring of such buffers: exhaustion refuses allocation, which
//! is the framework's back-pressure mechanism.

use vstd::prelude::*;

verus! {

/// A type-erased packet: the payload plus the runtime tag of the packet type
/// it was drawn for. Conversion between the typed and the erased view is a
/// relabeling; the tag is checked on downcast.
#[derive(Clone, PartialEq, Eq, Debug)]
pub struct PacketAny {
    pub type_tag: u64,
    pub data: Vec<u64>,
}

impl PacketAny {
    pub fn new(type_tag: u64, data: Vec<u64>) -> (r: PacketAny)
        ensures
            r.type_tag == type_tag,
            r.data == data,
    {
        PacketAny { type_tag, data }
    }

    /// Downcast to the payload of the expected packet type. A tag mismatch is
    /// a programmer error, excluded up front rather than handled.
    pub fn downcast(self, expected_tag: u64) -> (r: Vec<u64>)
        requires
            self.type_tag == expected_tag,
        ensures
            r == self.data,
    {
        self.data
    }
}

/// Fixed-capacity pool of packet buffers for one producing executor type.
/// Buffers start pooled; `alloc` moves one to the live side and `release`
/// moves it back, cleared. The pool is strict: when every buffer is live,
/// allocation refuses and the producer blocks.
pub struct PacketsPool {
    /// Number of buffers the pool was created with.
    pub capacity: usize,
    /// Buffers resting in the pool.
    pub pooled: usize,
    /// Buffers currently out as live packets.
    pub live: usize,
    /// Runtime tag of the packet type this pool serves.
    pub type_tag: u64,
}

impl PacketsPool {
    /// Accounting invariant: every buffer is either pooled or live.
    pub open spec fn wf(self) -> bool {
        self.pooled + self.live == self.capacity
    }

    pub fn new(capacity: usize, type_tag: u64) -> (r: PacketsPool)
        ensures
            r.wf(),
            r.capacity == capacity,
            r.pooled == capacity,
            r.live == 0,
            r.type_tag == type_tag,
    {
        PacketsPool { capacity, pooled: capacity, live: 0, type_tag }
    }

    /// Draws one empty packet from the pool. Returns nothing exactly when the
    /// pool is exhausted; the caller then blocks until a packet returns.
    pub fn alloc_packet(&mut self) -> (r: Option<PacketAny>)
        requires
            old(self).wf(),
        ensures
            final(self).wf(),
            final(self).capacity == old(self).capacity,
            final(self).type_tag == old(self).type_tag,
            r is Some <==> old(self).pooled > 0,
            r matches Some(p) ==> p.type_tag == old(self).type_tag && p.data@ == Seq::<u64>::empty()
                && final(self).pooled == old(self).pooled - 1
                && final(self).live == old(self).live + 1,
            r is None ==> *final(self) == *old(self),
    {
        if self.pooled > 0 {
            self.pooled = self.pooled - 1;
            self.live = self.live + 1;
            Some(PacketAny { type_tag: self.type_tag, data: Vec::new() })
        } else {
            None
        }
    }

    /// Returns a live packet: the payload is cleared and the buffer is pooled
    /// again. Releasing a packet of another type, or more packets than are
    /// live, is a programmer error and excluded up front.
    pub fn release_packet(&mut self, p: PacketAny)
        requires
            old(self).wf(),
            old(self).live > 0,
            p.type_tag == old(self).type_tag,
        ensures
            final(self).wf(),
            final(self).capacity == old(self).capacity,
            final(self).type_tag == old(self).type_tag,
            final(self).pooled == old(self).pooled + 1,
            final(self).live == old(self).live - 1,
    {
        let _ = p;
        self.pooled = self.pooled + 1;
        self.live = self.live - 1;
    }
}

/// Pool return: the count of live packets plus the count of pooled packets
/// equals the pool's capacity at every point where the invariant holds, in
/// particular after every `alloc` and every `release`.
pub proof fn lemma_pool_return(p: PacketsPool)
    requires
        p.wf(),
    ensures
        p.live + p.pooled == p.capacity,
{
}

} // verus!
