//! Bounded reusable-object allocator, modelled by its accounting: how many
//! objects sit in the pool and how many are outstanding. Two modes: *strict*
//! (an exhausted pool refuses allocation, which the caller turns into
//! blocking back-pressure) and *elastic* (allocation beyond the capacity is
//! allowed; excess returns are dropped instead of pooled).

use vstd::prelude::*;

verus! {

pub struct ObjectsPool {
    /// Capacity the pool was created with.
    pub capacity: usize,
    /// Objects currently resting in the pool, ready for reuse.
    pub pooled: usize,
    /// Objects currently handed out.
    pub outstanding: usize,
    /// Strict pools refuse allocation once `capacity` objects are out.
    pub strict: bool,
}

impl ObjectsPool {
    /// Accounting invariant: a pool never holds more than its capacity, and a
    /// strict pool never has more than `capacity` objects in circulation.
    pub open spec fn wf(self) -> bool {
        &&& self.pooled <= self.capacity
        &&& self.strict ==> self.pooled + self.outstanding <= self.capacity
    }

    /// A new pool starts empty: objects are created on demand up to the
    /// capacity (and beyond it in elastic mode).
    pub fn new(capacity: usize, strict: bool) -> (r: ObjectsPool)
        ensures
            r.wf(),
            r.capacity == capacity,
            r.pooled == 0,
            r.outstanding == 0,
            r.strict == strict,
    {
        ObjectsPool { capacity, pooled: 0, outstanding: 0, strict }
    }

    /// Takes one object out of the pool, reusing a pooled one when available
    /// and creating a fresh one otherwise. Returns false exactly when a
    /// strict pool is exhausted: the caller then blocks until a return.
    pub fn try_alloc(&mut self) -> (r: bool)
        requires
            old(self).wf(),
            old(self).outstanding < usize::MAX,
        ensures
            final(self).wf(),
            final(self).capacity == old(self).capacity,
            final(self).strict == old(self).strict,
            r ==> final(self).outstanding == old(self).outstanding + 1,
            r ==> final(self).pooled == if old(self).pooled > 0 {
                (old(self).pooled - 1) as int
            } else {
                0int
            },
            !r ==> *final(self) == *old(self),
            !r <==> (old(self).strict && old(self).pooled == 0
                && old(self).outstanding >= old(self).capacity),
    {
        if self.pooled > 0 {
            self.pooled = self.pooled - 1;
            self.outstanding = self.outstanding + 1;
            true
        } else if self.strict && self.outstanding >= self.capacity {
            false
        } else {
            self.outstanding = self.outstanding + 1;
            true
        }
    }

    /// Returns one outstanding object. The object is reset and pooled for
    /// reuse; in elastic mode an excess object is dropped instead.
    pub fn return_object(&mut self)
        requires
            old(self).wf(),
            old(self).outstanding > 0,
        ensures
            final(self).wf(),
            final(self).capacity == old(self).capacity,
            final(self).strict == old(self).strict,
            final(self).outstanding == old(self).outstanding - 1,
            final(self).pooled == if old(self).pooled < old(self).capacity {
                old(self).pooled + 1
            } else {
                old(self).pooled as int
            },
    {
        self.outstanding = self.outstanding - 1;
        if self.pooled < self.capacity {
            self.pooled = self.pooled + 1;
        }
    }
}

/// In strict mode the number of outstanding objects plus the number of pooled
/// objects never exceeds the pool's capacity.
pub proof fn lemma_strict_pool_bound(p: ObjectsPool)
    requires
        p.wf(),
        p.strict,
    ensures
        p.pooled + p.outstanding <= p.capacity,
{
}

} // verus!
