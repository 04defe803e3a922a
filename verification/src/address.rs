//! Executor addresses: opaque routing keys identifying a logical stream
//! within an executor type. An address has a strong form (held by queues and
//! executors) and a weak form (used as a map key).

use vstd::prelude::*;

verus! {

/// Routing key for a logical stream: the owning executor type, a logical
/// index within that type, and a nonce distinguishing regenerated streams.
#[derive(Clone, Copy, PartialEq, Eq, Structural, Hash, Debug)]
pub struct ExecutorAddress {
    pub executor_type_id: u64,
    pub index: u64,
    pub nonce: u64,
}

/// Weak form of an address: the same routing key, used purely as a map key
/// and carrying no keep-alive obligation.
#[derive(Clone, Copy, PartialEq, Eq, Structural, Hash, Debug)]
pub struct WeakExecutorAddress {
    pub executor_type_id: u64,
    pub index: u64,
    pub nonce: u64,
}

impl ExecutorAddress {
    pub fn new(executor_type_id: u64, index: u64, nonce: u64) -> (r: ExecutorAddress)
        ensures
            r.executor_type_id == executor_type_id,
            r.index == index,
            r.nonce == nonce,
    {
        ExecutorAddress { executor_type_id, index, nonce }
    }

    /// The weak key carrying the same routing fields.
    pub open spec fn weak_spec(self) -> WeakExecutorAddress {
        WeakExecutorAddress {
            executor_type_id: self.executor_type_id,
            index: self.index,
            nonce: self.nonce,
        }
    }

    pub fn to_weak(&self) -> (r: WeakExecutorAddress)
        ensures
            r == self.weak_spec(),
    {
        WeakExecutorAddress {
            executor_type_id: self.executor_type_id,
            index: self.index,
            nonce: self.nonce,
        }
    }
}

impl WeakExecutorAddress {
    /// The strong address carrying the same routing fields.
    pub open spec fn strong_spec(self) -> ExecutorAddress {
        ExecutorAddress {
            executor_type_id: self.executor_type_id,
            index: self.index,
            nonce: self.nonce,
        }
    }

    pub fn to_strong(&self) -> (r: ExecutorAddress)
        ensures
            r == self.strong_spec(),
    {
        ExecutorAddress {
            executor_type_id: self.executor_type_id,
            index: self.index,
            nonce: self.nonce,
        }
    }
}

/// Round trips between the strong and the weak form of an address keep the
/// routing fields unchanged.
pub proof fn lemma_weak_strong_round_trip(a: ExecutorAddress, w: WeakExecutorAddress)
    ensures
        a.weak_spec().strong_spec() == a,
        w.strong_spec().weak_spec() == w,
{
}

} // verus!
