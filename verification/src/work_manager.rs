//! The central scheduler: registration of executor types, packet routing,
//! the find-work policy and executor lifetime accounting.
//!
//! The manager is a sequential state machine. Worker threads outside the
//! library serialize their access to it and drive it one step at a time;
//! parking, timeouts and wake-ups live with them, every decision lives here.

use vstd::prelude::*;
use crossbeam::queue::SegQueue;
use crate::address::{ExecutorAddress, WeakExecutorAddress};
use crate::objects_pool::ObjectsPool;
use crate::packet::{PacketAny, PacketsPool};
use crate::split_queue::{
    split_queue_contents, split_queue_len, split_queue_new, split_queue_pop, split_queue_push,
};

verus! {

/// How many executor instances an address of a type may have, and what an
/// instance needs at construction.
#[derive(Clone, Copy, PartialEq, Eq, Structural, Debug)]
pub enum ExecutorType {
    /// At most one instance per address; no packet needed to construct.
    SingleUnit,
    /// Any number of instances may share an address; no packet needed.
    MultipleUnits,
    /// Construction of the first instance per address consumes an initial
    /// packet (the group opener); further instances clone from the first.
    MultipleCommonPacketUnits,
}

/// Insertion order of newly waiting addresses at a consuming stage.
#[derive(Clone, Copy, PartialEq, Eq, Structural, Debug)]
pub enum ExecOutputMode {
    FIFO,
    LIFO,
}

/// Upper bound policy for a type's executor instances.
#[derive(Clone, Copy, PartialEq, Eq, Structural, Debug)]
pub enum ExecutorAllocMode {
    Fixed { count: usize },
    MemoryLimited { min_count: usize, max_count: usize, max_memory: u64 },
}

/// How output packet buffers are pooled for a registered type.
#[derive(Clone, Copy, PartialEq, Eq, Structural, Debug)]
pub enum PoolAllocMode {
    /// The type emits no packets.
    NoPool,
    /// One pool serves every instance of the type.
    Shared { capacity: usize },
    /// Each instance draws its own pool of this capacity.
    Instance { capacity: usize },
}

/// The packet-pool state a registration installed.
pub enum PoolModeState {
    NoPool,
    Shared { pool: PacketsPool },
    Instance { capacity: usize, type_tag: u64 },
}

/// Per-type registration record: the declared capabilities, the downstream
/// wiring, and the FIFO of addresses waiting for their first executor.
pub struct ExecutorTypeEntry {
    pub type_id: u64,
    pub executor_type: ExecutorType,
    /// Whether instances of this type tolerate concurrent siblings for the
    /// same address (and so may be duplicated by idle workers).
    pub splittable: bool,
    pub alloc_mode: ExecutorAllocMode,
    pub pool_mode: PoolModeState,
    /// Downstream executor type, set by `set_output`.
    pub output_type_id: Option<u64>,
    /// Where a newly waiting address is inserted at this stage.
    pub arrival_order: ExecOutputMode,
    /// Addresses with queued packets and no instance yet, oldest first.
    pub waiting: Vec<ExecutorAddress>,
}

/// A live executor instance handed to a worker: the bound address, the
/// splittability it declared, and its own output packet pool when the type
/// uses per-instance pools.
pub struct ExecutorHandle {
    pub address: ExecutorAddress,
    pub splittable: bool,
    pub pool: Option<PacketsPool>,
}

/// The scheduler state.
pub struct WorkManager {
    /// Registration records, one per executor type.
    pub types: Vec<ExecutorTypeEntry>,
    /// Per-address input queues, created lazily on first packet.
    pub queues: Vec<(WeakExecutorAddress, Vec<PacketAny>)>,
    /// How many live executor instances each address has.
    pub bound: Vec<(WeakExecutorAddress, u64)>,
    /// Addresses whose bound executor declared itself splittable; idle
    /// workers rotate through this queue to duplicate hot executors.
    pub duplicable_executors: SegQueue<(u64, u64, u64)>,
    /// Packets queued anywhere in the fabric.
    pub pending_packets_count: u64,
    /// Capacity of each per-address input queue.
    pub queue_capacity: usize,
    /// Accounting pool for the input-queue buffers.
    pub queues_pool: ObjectsPool,
    /// Packets accepted through `add_input_packet` since creation.
    pub accepted: Ghost<int>,
    /// Packets handed out to executors (including group openers).
    pub delivered: Ghost<int>,
}

/// First position whose record carries `tid`, or -1.
pub open spec fn find_type_idx(s: Seq<ExecutorTypeEntry>, tid: u64) -> int
    decreases s.len(),
{
    if s.len() == 0 {
        -1
    } else if s[0].type_id == tid {
        0
    } else {
        let r = find_type_idx(s.drop_first(), tid);
        if r < 0 {
            -1
        } else {
            r + 1
        }
    }
}

/// First position keyed by `w`, or -1.
pub open spec fn find_pair_idx<V>(s: Seq<(WeakExecutorAddress, V)>, w: WeakExecutorAddress) -> int
    decreases s.len(),
{
    if s.len() == 0 {
        -1
    } else if s[0].0 == w {
        0
    } else {
        let r = find_pair_idx(s.drop_first(), w);
        if r < 0 {
            -1
        } else {
            r + 1
        }
    }
}

pub proof fn lemma_find_type_props(s: Seq<ExecutorTypeEntry>, tid: u64)
    ensures
        find_type_idx(s, tid) < s.len(),
        find_type_idx(s, tid) >= 0 ==> s[find_type_idx(s, tid)].type_id == tid
            && forall|j: int| 0 <= j < find_type_idx(s, tid) ==> s[j].type_id != tid,
        find_type_idx(s, tid) < 0 ==> forall|j: int| 0 <= j < s.len() ==> s[j].type_id != tid,
    decreases s.len(),
{
    if s.len() > 0 && s[0].type_id != tid {
        lemma_find_type_props(s.drop_first(), tid);
        assert(forall|j: int| 1 <= j < s.len() ==> #[trigger] s[j] == s.drop_first()[j - 1]);
    }
}

pub proof fn lemma_find_type_unique(s: Seq<ExecutorTypeEntry>, tid: u64, i: int)
    requires
        forall|a: int, b: int|
            0 <= a < b < s.len() ==> s[a].type_id != s[b].type_id,
        0 <= i < s.len(),
        s[i].type_id == tid,
    ensures
        find_type_idx(s, tid) == i,
    decreases s.len(),
{
    if i > 0 {
        lemma_find_type_unique(s.drop_first(), tid, i - 1);
    }
}

pub proof fn lemma_find_type_same_keys(s1: Seq<ExecutorTypeEntry>, s2: Seq<ExecutorTypeEntry>, tid: u64)
    requires
        s1.len() == s2.len(),
        forall|j: int| 0 <= j < s1.len() ==> s1[j].type_id == s2[j].type_id,
    ensures
        find_type_idx(s1, tid) == find_type_idx(s2, tid),
    decreases s1.len(),
{
    if s1.len() > 0 {
        assert(forall|j: int| 0 <= j < s1.drop_first().len()
            ==> s1.drop_first()[j].type_id == s2.drop_first()[j].type_id);
        lemma_find_type_same_keys(s1.drop_first(), s2.drop_first(), tid);
    }
}

pub proof fn lemma_find_pair_props<V>(s: Seq<(WeakExecutorAddress, V)>, w: WeakExecutorAddress)
    ensures
        find_pair_idx(s, w) < s.len(),
        find_pair_idx(s, w) >= 0 ==> s[find_pair_idx(s, w)].0 == w
            && forall|j: int| 0 <= j < find_pair_idx(s, w) ==> s[j].0 != w,
        find_pair_idx(s, w) < 0 ==> forall|j: int| 0 <= j < s.len() ==> s[j].0 != w,
    decreases s.len(),
{
    if s.len() > 0 && s[0].0 != w {
        lemma_find_pair_props(s.drop_first(), w);
        assert(forall|j: int| 1 <= j < s.len() ==> #[trigger] s[j] == s.drop_first()[j - 1]);
    }
}

pub proof fn lemma_find_pair_unique<V>(s: Seq<(WeakExecutorAddress, V)>, w: WeakExecutorAddress, i: int)
    requires
        forall|a: int, b: int| 0 <= a < b < s.len() ==> s[a].0 != s[b].0,
        0 <= i < s.len(),
        s[i].0 == w,
    ensures
        find_pair_idx(s, w) == i,
    decreases s.len(),
{
    if i > 0 {
        lemma_find_pair_unique(s.drop_first(), w, i - 1);
    }
}

pub proof fn lemma_find_pair_same_keys<V1, V2>(
    s1: Seq<(WeakExecutorAddress, V1)>,
    s2: Seq<(WeakExecutorAddress, V2)>,
    w: WeakExecutorAddress,
)
    requires
        s1.len() == s2.len(),
        forall|j: int| 0 <= j < s1.len() ==> s1[j].0 == s2[j].0,
    ensures
        find_pair_idx(s1, w) == find_pair_idx(s2, w),
    decreases s1.len(),
{
    if s1.len() > 0 {
        assert(forall|j: int| 0 <= j < s1.drop_first().len()
            ==> s1.drop_first()[j].0 == s2.drop_first()[j].0);
        lemma_find_pair_same_keys(s1.drop_first(), s2.drop_first(), w);
    }
}

/// Total number of packets sitting in the input queues.
pub open spec fn sum_queue_lens(s: Seq<(WeakExecutorAddress, Vec<PacketAny>)>) -> nat
    decreases s.len(),
{
    if s.len() == 0 {
        0
    } else {
        s[0].1@.len() + sum_queue_lens(s.drop_first())
    }
}

pub proof fn lemma_sum_queue_update(
    s: Seq<(WeakExecutorAddress, Vec<PacketAny>)>,
    i: int,
    e: (WeakExecutorAddress, Vec<PacketAny>),
)
    requires
        0 <= i < s.len(),
    ensures
        sum_queue_lens(s.update(i, e)) == sum_queue_lens(s) - s[i].1@.len() + e.1@.len(),
    decreases s.len(),
{
    if i == 0 {
        assert(s.update(0, e).drop_first() =~= s.drop_first());
    } else {
        lemma_sum_queue_update(s.drop_first(), i - 1, e);
        assert(s.update(i, e).drop_first() =~= s.drop_first().update(i - 1, e));
    }
}

pub proof fn lemma_sum_queue_push(
    s: Seq<(WeakExecutorAddress, Vec<PacketAny>)>,
    e: (WeakExecutorAddress, Vec<PacketAny>),
)
    ensures
        sum_queue_lens(s.push(e)) == sum_queue_lens(s) + e.1@.len(),
    decreases s.len(),
{
    reveal_with_fuel(sum_queue_lens, 2);
    assert(s.push(e)[0] == if s.len() == 0 { e } else { s[0] });
    if s.len() == 0 {
        assert(s.push(e).drop_first() =~= Seq::<(WeakExecutorAddress, Vec<PacketAny>)>::empty());
        assert(s.push(e).len() == 1);
    } else {
        lemma_sum_queue_push(s.drop_first(), e);
        assert(s.push(e).drop_first() =~= s.drop_first().push(e));
        assert(sum_queue_lens(s.push(e))
            == s[0].1@.len() + sum_queue_lens(s.push(e).drop_first()));
    }
}

pub proof fn lemma_sum_queue_remove(s: Seq<(WeakExecutorAddress, Vec<PacketAny>)>, i: int)
    requires
        0 <= i < s.len(),
    ensures
        sum_queue_lens(s.remove(i)) == sum_queue_lens(s) - s[i].1@.len(),
    decreases s.len(),
{
    if i == 0 {
        assert(s.remove(0) =~= s.drop_first());
    } else {
        lemma_sum_queue_remove(s.drop_first(), i - 1);
        assert(s.remove(i).drop_first() =~= s.drop_first().remove(i - 1));
    }
}

/// Any single queue is no longer than the total.
pub proof fn lemma_sum_queue_lower(s: Seq<(WeakExecutorAddress, Vec<PacketAny>)>, i: int)
    requires
        0 <= i < s.len(),
    ensures
        sum_queue_lens(s) >= s[i].1@.len(),
    decreases s.len(),
{
    if i > 0 {
        lemma_sum_queue_lower(s.drop_first(), i - 1);
    }
}

/// Total number of addresses waiting across all types.
pub open spec fn sum_waiting_lens(s: Seq<ExecutorTypeEntry>) -> nat
    decreases s.len(),
{
    if s.len() == 0 {
        0
    } else {
        s[0].waiting@.len() + sum_waiting_lens(s.drop_first())
    }
}

pub proof fn lemma_sum_waiting_update(s: Seq<ExecutorTypeEntry>, i: int, e: ExecutorTypeEntry)
    requires
        0 <= i < s.len(),
    ensures
        sum_waiting_lens(s.update(i, e)) == sum_waiting_lens(s) - s[i].waiting@.len()
            + e.waiting@.len(),
    decreases s.len(),
{
    if i == 0 {
        assert(s.update(0, e).drop_first() =~= s.drop_first());
    } else {
        lemma_sum_waiting_update(s.drop_first(), i - 1, e);
        assert(s.update(i, e).drop_first() =~= s.drop_first().update(i - 1, e));
    }
}

pub proof fn lemma_sum_waiting_push(s: Seq<ExecutorTypeEntry>, e: ExecutorTypeEntry)
    ensures
        sum_waiting_lens(s.push(e)) == sum_waiting_lens(s) + e.waiting@.len(),
    decreases s.len(),
{
    reveal_with_fuel(sum_waiting_lens, 2);
    assert(s.push(e)[0] == if s.len() == 0 { e } else { s[0] });
    if s.len() == 0 {
        assert(s.push(e).drop_first() =~= Seq::<ExecutorTypeEntry>::empty());
        assert(s.push(e).len() == 1);
    } else {
        lemma_sum_waiting_push(s.drop_first(), e);
        assert(s.push(e).drop_first() =~= s.drop_first().push(e));
        assert(sum_waiting_lens(s.push(e))
            == s[0].waiting@.len() + sum_waiting_lens(s.push(e).drop_first()));
    }
}

/// Total number of live executor instances.
pub open spec fn sum_bound_counts(s: Seq<(WeakExecutorAddress, u64)>) -> nat
    decreases s.len(),
{
    if s.len() == 0 {
        0
    } else {
        s[0].1 as nat + sum_bound_counts(s.drop_first())
    }
}

pub proof fn lemma_sum_bound_update(s: Seq<(WeakExecutorAddress, u64)>, i: int, e: (WeakExecutorAddress, u64))
    requires
        0 <= i < s.len(),
    ensures
        sum_bound_counts(s.update(i, e)) == sum_bound_counts(s) - s[i].1 + e.1,
    decreases s.len(),
{
    if i == 0 {
        assert(s.update(0, e).drop_first() =~= s.drop_first());
    } else {
        lemma_sum_bound_update(s.drop_first(), i - 1, e);
        assert(s.update(i, e).drop_first() =~= s.drop_first().update(i - 1, e));
    }
}

pub proof fn lemma_sum_bound_push(s: Seq<(WeakExecutorAddress, u64)>, e: (WeakExecutorAddress, u64))
    ensures
        sum_bound_counts(s.push(e)) == sum_bound_counts(s) + e.1,
    decreases s.len(),
{
    reveal_with_fuel(sum_bound_counts, 2);
    assert(s.push(e)[0] == if s.len() == 0 { e } else { s[0] });
    if s.len() == 0 {
        assert(s.push(e).drop_first() =~= Seq::<(WeakExecutorAddress, u64)>::empty());
        assert(s.push(e).len() == 1);
    } else {
        lemma_sum_bound_push(s.drop_first(), e);
        assert(s.push(e).drop_first() =~= s.drop_first().push(e));
        assert(sum_bound_counts(s.push(e))
            == s[0].1 as nat + sum_bound_counts(s.push(e).drop_first()));
    }
}

pub proof fn lemma_sum_bound_remove(s: Seq<(WeakExecutorAddress, u64)>, i: int)
    requires
        0 <= i < s.len(),
    ensures
        sum_bound_counts(s.remove(i)) == sum_bound_counts(s) - s[i].1,
    decreases s.len(),
{
    if i == 0 {
        assert(s.remove(0) =~= s.drop_first());
    } else {
        lemma_sum_bound_remove(s.drop_first(), i - 1);
        assert(s.remove(i).drop_first() =~= s.drop_first().remove(i - 1));
    }
}

/// A table whose entries all count at least one instance has no more entries
/// than instances.
pub proof fn lemma_sum_bound_len(s: Seq<(WeakExecutorAddress, u64)>)
    requires
        forall|i: int| 0 <= i < s.len() ==> (#[trigger] s[i]).1 >= 1,
    ensures
        sum_bound_counts(s) >= s.len(),
    decreases s.len(),
{
    if s.len() > 0 {
        assert(forall|j: int| 0 <= j < s.drop_first().len()
            ==> (#[trigger] s.drop_first()[j]) == s[j + 1]);
        lemma_sum_bound_len(s.drop_first());
    }
}

/// When every waiting list is empty the waiting total is zero.
pub proof fn lemma_sum_waiting_zero(s: Seq<ExecutorTypeEntry>)
    requires
        forall|t: int| 0 <= t < s.len() ==> (#[trigger] s[t]).waiting@.len() == 0,
    ensures
        sum_waiting_lens(s) == 0,
    decreases s.len(),
{
    if s.len() > 0 {
        assert(forall|j: int| 0 <= j < s.drop_first().len()
            ==> (#[trigger] s.drop_first()[j]) == s[j + 1]);
        lemma_sum_waiting_zero(s.drop_first());
    }
}

/// A positive total means some queue is non-empty.
pub proof fn lemma_sum_queue_pos(s: Seq<(WeakExecutorAddress, Vec<PacketAny>)>) -> (i: int)
    requires
        sum_queue_lens(s) > 0,
    ensures
        0 <= i < s.len(),
        s[i].1@.len() > 0,
    decreases s.len(),
{
    if s[0].1@.len() > 0 {
        0
    } else {
        let j = lemma_sum_queue_pos(s.drop_first());
        j + 1
    }
}

/// If some key's count is positive, the total is positive.
pub proof fn lemma_sum_bound_lower(s: Seq<(WeakExecutorAddress, u64)>, i: int)
    requires
        0 <= i < s.len(),
    ensures
        sum_bound_counts(s) >= s[i].1,
    decreases s.len(),
{
    if i > 0 {
        lemma_sum_bound_lower(s.drop_first(), i - 1);
    }
}

/// The count recorded for key `w`, or zero when the key is absent.
pub open spec fn count_of(s: Seq<(WeakExecutorAddress, u64)>, w: WeakExecutorAddress) -> nat {
    if find_pair_idx(s, w) >= 0 {
        s[find_pair_idx(s, w)].1 as nat
    } else {
        0
    }
}

/// Removing one entry from a table with distinct keys leaves every other
/// key's record in place and erases the removed key.
pub proof fn lemma_pair_remove_congruence<V>(s: Seq<(WeakExecutorAddress, V)>, i: int)
    requires
        forall|a: int, b: int| 0 <= a < b < s.len() ==> s[a].0 != s[b].0,
        0 <= i < s.len(),
    ensures
        forall|a: int, b: int| 0 <= a < b < s.remove(i).len()
            ==> s.remove(i)[a].0 != s.remove(i)[b].0,
        forall|w2: WeakExecutorAddress| w2 != s[i].0
            ==> ((#[trigger] find_pair_idx(s.remove(i), w2) >= 0) <==> find_pair_idx(s, w2) >= 0),
        forall|w2: WeakExecutorAddress| w2 != s[i].0 && find_pair_idx(s, w2) >= 0
            ==> s.remove(i)[#[trigger] find_pair_idx(s.remove(i), w2)] == s[find_pair_idx(s, w2)],
        find_pair_idx(s.remove(i), s[i].0) < 0,
{
    let t = s.remove(i);
    assert(forall|j: int| 0 <= j < i ==> #[trigger] t[j] == s[j]);
    assert(forall|j: int| i <= j < t.len() ==> #[trigger] t[j] == s[j + 1]);
    assert forall|a: int, b: int| 0 <= a < b < t.len() implies t[a].0 != t[b].0 by {
        let a2 = if a < i { a } else { a + 1 };
        let b2 = if b < i { b } else { b + 1 };
        assert(t[a] == s[a2] && t[b] == s[b2]);
    }
    assert forall|w2: WeakExecutorAddress| w2 != s[i].0 && find_pair_idx(s, w2) >= 0 implies
        #[trigger] find_pair_idx(t, w2) >= 0 && t[find_pair_idx(t, w2)] == s[find_pair_idx(
        s,
        w2,
    )] by {
        lemma_find_pair_props(s, w2);
        let f = find_pair_idx(s, w2);
        assert(f != i);
        let f2 = if f < i { f } else { f - 1 };
        assert(t[f2] == s[f]);
        lemma_find_pair_unique(t, w2, f2);
    }
    assert forall|w2: WeakExecutorAddress| w2 != s[i].0 && find_pair_idx(t, w2) >= 0 implies
        find_pair_idx(s, w2) >= 0 by {
        lemma_find_pair_props(t, w2);
        let f = find_pair_idx(t, w2);
        let f2 = if f < i { f } else { f + 1 };
        assert(s[f2].0 == w2);
        lemma_find_pair_props(s, w2);
    }
    assert(find_pair_idx(t, s[i].0) < 0) by {
        lemma_find_pair_props(t, s[i].0);
        if find_pair_idx(t, s[i].0) >= 0 {
            let f = find_pair_idx(t, s[i].0);
            let f2 = if f < i { f } else { f + 1 };
            assert(s[f2].0 == s[i].0);
            assert(f2 != i);
        }
    }
}

/// Raises the instance count recorded for `w` by one, creating the record on
/// first use.
fn count_increment(b: &mut Vec<(WeakExecutorAddress, u64)>, w: WeakExecutorAddress)
    requires
        forall|x: int, y: int| 0 <= x < y < old(b)@.len() ==> old(b)@[x].0 != old(b)@[y].0,
        count_of(old(b)@, w) < u64::MAX,
        old(b)@.len() < usize::MAX,
    ensures
        forall|x: int, y: int| 0 <= x < y < final(b)@.len()
            ==> final(b)@[x].0 != final(b)@[y].0,
        count_of(final(b)@, w) == count_of(old(b)@, w) + 1,
        forall|w2: WeakExecutorAddress| w2 != w
            ==> #[trigger] count_of(final(b)@, w2) == count_of(old(b)@, w2),
        sum_bound_counts(final(b)@) == sum_bound_counts(old(b)@) + 1,
        forall|w2: WeakExecutorAddress|
            (#[trigger] find_pair_idx(final(b)@, w2) >= 0) <==> (find_pair_idx(old(b)@, w2) >= 0
                || w2 == w),
{
    let ghost pre = b@;
    proof {
        lemma_find_pair_props(pre, w);
    }
    let n = b.len();
    let mut i: usize = 0;
    while i < n
        invariant
            n == b@.len(),
            b@ == pre,
            pre == old(b)@,
            i <= n,
            forall|x: int, y: int| 0 <= x < y < pre.len() ==> pre[x].0 != pre[y].0,
            count_of(pre, w) < u64::MAX,
            pre.len() < usize::MAX,
            forall|j: int| 0 <= j < i ==> b@[j].0 != w,
        decreases n - i,
    {
        if b[i].0 == w {
            proof {
                lemma_find_pair_unique(pre, w, i as int);
            }
            let e = &mut b[i];
            e.1 = e.1 + 1;
            proof {
                assert(forall|j: int| 0 <= j < b@.len() ==> (#[trigger] b@[j]).0 == pre[j].0);
                assert(forall|x: int, y: int| 0 <= x < y < b@.len()
                    ==> b@[x].0 != b@[y].0);
                lemma_sum_bound_update(pre, i as int, b@[i as int]);
                assert forall|w2: WeakExecutorAddress|
                    #[trigger] find_pair_idx(b@, w2) == find_pair_idx(pre, w2) by {
                    lemma_find_pair_same_keys(pre, b@, w2);
                }
                assert forall|w2: WeakExecutorAddress| w2 != w implies
                    #[trigger] count_of(b@, w2) == count_of(pre, w2) by {
                    if find_pair_idx(pre, w2) >= 0 {
                        lemma_find_pair_props(pre, w2);
                    }
                }
            }
            return ;
        }
        i = i + 1;
    }
    proof {
        lemma_find_pair_props(pre, w);
        assert(find_pair_idx(pre, w) < 0);
        lemma_sum_bound_push(pre, (w, 1));
    }
    b.push((w, 1));
    proof {
        assert(forall|j: int| 0 <= j < pre.len() ==> #[trigger] b@[j] == pre[j]);
        assert forall|x: int, y: int| 0 <= x < y < b@.len() implies b@[x].0 != b@[y].0 by {
            if y == pre.len() {
                assert(b@[x].0 != w);
            }
        }
        lemma_find_pair_unique(b@, w, pre.len() as int);
        assert forall|w2: WeakExecutorAddress| w2 != w implies
            #[trigger] find_pair_idx(b@, w2) == find_pair_idx(pre, w2) by {
            lemma_find_pair_props(pre, w2);
            if find_pair_idx(pre, w2) >= 0 {
                lemma_find_pair_unique(b@, w2, find_pair_idx(pre, w2));
            } else {
                lemma_find_pair_props(b@, w2);
                if find_pair_idx(b@, w2) >= 0 {
                    assert(b@[find_pair_idx(b@, w2)].0 == w2);
                }
            }
        }
        assert forall|w2: WeakExecutorAddress| w2 != w implies
            #[trigger] count_of(b@, w2) == count_of(pre, w2) by {
            if find_pair_idx(pre, w2) >= 0 {
                lemma_find_pair_props(pre, w2);
            }
        }
    }
}

/// Lowers the instance count recorded for `w` by one, erasing the record
/// when it reaches zero.
fn count_decrement(b: &mut Vec<(WeakExecutorAddress, u64)>, w: WeakExecutorAddress)
    requires
        forall|x: int, y: int| 0 <= x < y < old(b)@.len() ==> old(b)@[x].0 != old(b)@[y].0,
        count_of(old(b)@, w) >= 1,
    ensures
        forall|x: int, y: int| 0 <= x < y < final(b)@.len()
            ==> final(b)@[x].0 != final(b)@[y].0,
        count_of(final(b)@, w) == count_of(old(b)@, w) - 1,
        forall|w2: WeakExecutorAddress| w2 != w
            ==> #[trigger] count_of(final(b)@, w2) == count_of(old(b)@, w2),
        sum_bound_counts(final(b)@) == sum_bound_counts(old(b)@) - 1,
        forall|w2: WeakExecutorAddress|
            (#[trigger] find_pair_idx(final(b)@, w2) >= 0) <==> (find_pair_idx(old(b)@, w2) >= 0
                && !(w2 == w && count_of(old(b)@, w) == 1)),
{
    let ghost pre = b@;
    proof {
        lemma_find_pair_props(pre, w);
    }
    let n = b.len();
    let mut i: usize = 0;
    while i < n
        invariant
            n == b@.len(),
            b@ == pre,
            pre == old(b)@,
            i <= n,
            find_pair_idx(pre, w) >= 0,
            count_of(pre, w) >= 1,
            forall|x: int, y: int| 0 <= x < y < pre.len() ==> pre[x].0 != pre[y].0,
            forall|j: int| 0 <= j < i ==> b@[j].0 != w,
        decreases n - i,
    {
        if b[i].0 == w {
            proof {
                lemma_find_pair_unique(pre, w, i as int);
            }
            if b[i].1 == 1 {
                proof {
                    lemma_sum_bound_remove(pre, i as int);
                    lemma_pair_remove_congruence(pre, i as int);
                }
                let _ = b.remove(i);
                proof {
                    assert(find_pair_idx(b@, w) < 0);
                    assert forall|w2: WeakExecutorAddress| w2 != w implies
                        #[trigger] count_of(b@, w2) == count_of(pre, w2) by {
                        if find_pair_idx(pre, w2) >= 0 {
                            assert(b@[find_pair_idx(b@, w2)] == pre[find_pair_idx(pre, w2)]);
                        } else {
                            if find_pair_idx(b@, w2) >= 0 {
                                assert(find_pair_idx(pre, w2) >= 0);
                            }
                        }
                    }
                }
            } else {
                let e = &mut b[i];
                e.1 = e.1 - 1;
                proof {
                    assert(forall|j: int| 0 <= j < b@.len() ==> (#[trigger] b@[j]).0 == pre[j].0);
                    assert(forall|x: int, y: int| 0 <= x < y < b@.len()
                        ==> b@[x].0 != b@[y].0);
                    lemma_sum_bound_update(pre, i as int, b@[i as int]);
                    assert forall|w2: WeakExecutorAddress|
                        #[trigger] find_pair_idx(b@, w2) == find_pair_idx(pre, w2) by {
                        lemma_find_pair_same_keys(pre, b@, w2);
                    }
                    assert forall|w2: WeakExecutorAddress| w2 != w implies
                        #[trigger] count_of(b@, w2) == count_of(pre, w2) by {
                        if find_pair_idx(pre, w2) >= 0 {
                            lemma_find_pair_props(pre, w2);
                        }
                    }
                }
            }
            return ;
        }
        i = i + 1;
    }
    proof {
        lemma_find_pair_props(pre, w);
        assert(false);
    }
}

/// The routing triple carried through the duplicable-address queue.
pub open spec fn weak_triple(w: WeakExecutorAddress) -> (u64, u64, u64) {
    (w.executor_type_id, w.index, w.nonce)
}

pub open spec fn triple_weak(t: (u64, u64, u64)) -> WeakExecutorAddress {
    WeakExecutorAddress { executor_type_id: t.0, index: t.1, nonce: t.2 }
}

impl WorkManager {
    pub open spec fn registered(self, tid: u64) -> bool {
        find_type_idx(self.types@, tid) >= 0
    }

    pub open spec fn entry_of(self, tid: u64) -> ExecutorTypeEntry {
        self.types@[find_type_idx(self.types@, tid)]
    }

    pub open spec fn has_queue(self, w: WeakExecutorAddress) -> bool {
        find_pair_idx(self.queues@, w) >= 0
    }

    pub open spec fn queue_seq(self, w: WeakExecutorAddress) -> Seq<PacketAny> {
        if self.has_queue(w) {
            self.queues@[find_pair_idx(self.queues@, w)].1@
        } else {
            Seq::empty()
        }
    }

    /// Number of live executor instances bound to `w`.
    pub open spec fn bound_count(self, w: WeakExecutorAddress) -> nat {
        count_of(self.bound@, w)
    }

    pub open spec fn in_waiting(self, w: WeakExecutorAddress) -> bool {
        self.registered(w.executor_type_id) && exists|i: int|
            0 <= i < self.entry_of(w.executor_type_id).waiting@.len()
                && self.entry_of(w.executor_type_id).waiting@[i].weak_spec() == w
    }

    pub open spec fn waiting_total(self) -> nat {
        sum_waiting_lens(self.types@)
    }

    pub open spec fn total_queued(self) -> nat {
        sum_queue_lens(self.queues@)
    }

    pub open spec fn bound_total(self) -> nat {
        sum_bound_counts(self.bound@)
    }

    pub open spec fn dup_view(self) -> Seq<(u64, u64, u64)> {
        split_queue_contents(self.duplicable_executors)
    }

    pub open spec fn wf_types(self) -> bool {
        &&& forall|a: int, b: int|
            0 <= a < b < self.types@.len()
                ==> self.types@[a].type_id != self.types@[b].type_id
        &&& forall|i: int| 0 <= i < self.types@.len()
            ==> ((#[trigger] self.types@[i]).pool_mode matches PoolModeState::Shared { pool }
                ==> pool.wf())
    }

    pub open spec fn wf_queues(self) -> bool {
        &&& forall|a: int, b: int|
            0 <= a < b < self.queues@.len() ==> self.queues@[a].0 != self.queues@[b].0
        &&& forall|i: int| 0 <= i < self.queues@.len()
            ==> self.registered((#[trigger] self.queues@[i]).0.executor_type_id)
        &&& forall|i: int| 0 <= i < self.queues@.len()
            ==> (#[trigger] self.queues@[i]).1@.len() <= self.queue_capacity
        &&& forall|i: int| 0 <= i < self.queues@.len()
            ==> ((#[trigger] self.queues@[i]).1@.len() > 0 ==> self.in_waiting(self.queues@[i].0)
                || self.bound_count(self.queues@[i].0) >= 1)
        &&& forall|i: int| 0 <= i < self.queues@.len()
            ==> ((#[trigger] self.queues@[i]).1@.len() == 0
                ==> self.bound_count(self.queues@[i].0) >= 1)
    }

    pub open spec fn wf_waiting(self) -> bool {
        &&& forall|t: int, i: int|
            0 <= t < self.types@.len() && 0 <= i < self.types@[t].waiting@.len()
                ==> (#[trigger] self.types@[t].waiting@[i]).executor_type_id
                    == self.types@[t].type_id
        &&& forall|t: int, i: int|
            0 <= t < self.types@.len() && 0 <= i < self.types@[t].waiting@.len()
                ==> self.has_queue((#[trigger] self.types@[t].waiting@[i]).weak_spec())
                    && self.queue_seq(self.types@[t].waiting@[i].weak_spec()).len() > 0
                    && self.bound_count(self.types@[t].waiting@[i].weak_spec()) == 0
        &&& forall|t: int, i: int, j: int|
            0 <= t < self.types@.len() && 0 <= i < j < self.types@[t].waiting@.len()
                ==> (#[trigger] self.types@[t].waiting@[i])
                    != (#[trigger] self.types@[t].waiting@[j])
    }

    pub open spec fn wf_bound(self) -> bool {
        &&& forall|a: int, b: int|
            0 <= a < b < self.bound@.len() ==> self.bound@[a].0 != self.bound@[b].0
        &&& forall|i: int| 0 <= i < self.bound@.len()
            ==> (#[trigger] self.bound@[i]).1 >= 1
        &&& forall|i: int| 0 <= i < self.bound@.len()
            ==> self.registered((#[trigger] self.bound@[i]).0.executor_type_id)
                && find_pair_idx(self.queues@, self.bound@[i].0) >= 0
    }

    pub open spec fn wf_dup(self) -> bool {
        &&& forall|a: int, b: int|
            0 <= a < b < self.dup_view().len() ==> self.dup_view()[a] != self.dup_view()[b]
        &&& forall|i: int| 0 <= i < self.dup_view().len()
            ==> {
                let w = triple_weak(#[trigger] self.dup_view()[i]);
                self.registered(w.executor_type_id)
                    && self.entry_of(w.executor_type_id).splittable
                    && self.bound_count(w) >= 1
            }
    }

    pub open spec fn wf_counts(self) -> bool {
        &&& self.pending_packets_count == self.total_queued()
        &&& self.accepted@ - self.delivered@ == self.pending_packets_count
        &&& self.delivered@ >= 0
        &&& self.queues_pool.wf()
        &&& !self.queues_pool.strict
        &&& self.queues_pool.outstanding == self.queues@.len()
        &&& self.queue_capacity >= 1
    }

    /// The scheduler's well-formedness: unique registrations, consistent
    /// routing tables, conservation of packets, and the waiting/bound
    /// coverage that guarantees progress.
    pub open spec fn wf(self) -> bool {
        &&& self.wf_types()
        &&& self.wf_queues()
        &&& self.wf_waiting()
        &&& self.wf_bound()
        &&& self.wf_dup()
        &&& self.wf_counts()
    }

    /// A handle is consistent with the manager that issued it.
    pub open spec fn handle_wf(self, h: ExecutorHandle) -> bool {
        &&& self.registered(h.address.executor_type_id)
        &&& self.bound_count(h.address.weak_spec()) >= 1
        &&& h.splittable == self.entry_of(h.address.executor_type_id).splittable
        &&& match self.entry_of(h.address.executor_type_id).pool_mode {
            PoolModeState::Instance { capacity, type_tag } => h.pool matches Some(p)
                && p.wf() && p.capacity == capacity && p.type_tag == type_tag,
            _ => h.pool is None,
        }
    }

    pub open spec fn opt_handle_wf(self, lo: Option<ExecutorHandle>) -> bool {
        match lo {
            Some(h) => self.handle_wf(h),
            None => true,
        }
    }

    /// A fresh manager: no registrations, no queues, no pending packets.
    pub fn new(queue_buffers_pool_size: usize, executor_buffer_capacity: usize) -> (r: WorkManager)
        requires
            executor_buffer_capacity >= 1,
        ensures
            r.wf(),
            r.types@.len() == 0,
            r.queues@.len() == 0,
            r.bound@.len() == 0,
            r.dup_view().len() == 0,
            r.pending_packets_count == 0,
            r.queue_capacity == executor_buffer_capacity,
            r.accepted@ == 0,
            r.delivered@ == 0,
    {
        WorkManager {
            types: Vec::new(),
            queues: Vec::new(),
            bound: Vec::new(),
            duplicable_executors: split_queue_new(),
            pending_packets_count: 0,
            queue_capacity: executor_buffer_capacity,
            queues_pool: ObjectsPool::new(queue_buffers_pool_size, false),
            accepted: Ghost(0),
            delivered: Ghost(0),
        }
    }

    /// Position of a type's registration record.
    fn type_pos(&self, tid: u64) -> (r: Option<usize>)
        ensures
            match r {
                Some(i) => i == find_type_idx(self.types@, tid) && i < self.types@.len()
                    && self.types@[i as int].type_id == tid,
                None => !self.registered(tid),
            },
    {
        proof {
            lemma_find_type_props(self.types@, tid);
        }
        let n = self.types.len();
        let mut i: usize = 0;
        while i < n
            invariant
                n == self.types@.len(),
                i <= n,
                forall|j: int| 0 <= j < i ==> self.types@[j].type_id != tid,
            decreases n - i,
        {
            if self.types[i].type_id == tid {
                proof {
                    if find_type_idx(self.types@, tid) != i {
                        lemma_find_type_props(self.types@, tid);
                    }
                }
                return Some(i);
            }
            i = i + 1;
        }
        None
    }

    /// Position of an address's input queue.
    fn queue_pos(&self, w: &WeakExecutorAddress) -> (r: Option<usize>)
        ensures
            match r {
                Some(i) => i == find_pair_idx(self.queues@, *w) && i < self.queues@.len()
                    && self.queues@[i as int].0 == *w,
                None => !self.has_queue(*w),
            },
    {
        proof {
            lemma_find_pair_props(self.queues@, *w);
        }
        let n = self.queues.len();
        let mut i: usize = 0;
        while i < n
            invariant
                n == self.queues@.len(),
                i <= n,
                forall|j: int| 0 <= j < i ==> self.queues@[j].0 != *w,
            decreases n - i,
        {
            if self.queues[i].0 == *w {
                proof {
                    if find_pair_idx(self.queues@, *w) != i {
                        lemma_find_pair_props(self.queues@, *w);
                    }
                }
                return Some(i);
            }
            i = i + 1;
        }
        None
    }

    /// Position of an address's instance-count record.
    fn bound_pos(&self, w: &WeakExecutorAddress) -> (r: Option<usize>)
        ensures
            match r {
                Some(i) => i == find_pair_idx(self.bound@, *w) && i < self.bound@.len()
                    && self.bound@[i as int].0 == *w,
                None => find_pair_idx(self.bound@, *w) < 0,
            },
    {
        proof {
            lemma_find_pair_props(self.bound@, *w);
        }
        let n = self.bound.len();
        let mut i: usize = 0;
        while i < n
            invariant
                n == self.bound@.len(),
                i <= n,
                forall|j: int| 0 <= j < i ==> self.bound@[j].0 != *w,
            decreases n - i,
        {
            if self.bound[i].0 == *w {
                proof {
                    if find_pair_idx(self.bound@, *w) != i {
                        lemma_find_pair_props(self.bound@, *w);
                    }
                }
                return Some(i);
            }
            i = i + 1;
        }
        None
    }

    pub fn is_registered(&self, tid: u64) -> (r: bool)
        ensures
            r == self.registered(tid),
    {
        self.type_pos(tid).is_some()
    }

    /// Registers an executor type: its capabilities, its instance bound and
    /// its output packet pool. Registering a type twice is a programmer
    /// error, excluded up front; the unverified shell checks and aborts.
    pub fn add_executors(
        &mut self,
        type_id: u64,
        executor_type: ExecutorType,
        splittable: bool,
        alloc_mode: ExecutorAllocMode,
        pool_alloc_mode: PoolAllocMode,
        output_packet_tag: u64,
    )
        requires
            old(self).wf(),
            !old(self).registered(type_id),
        ensures
            final(self).wf(),
            final(self).registered(type_id),
            final(self).entry_of(type_id).type_id == type_id,
            final(self).entry_of(type_id).executor_type == executor_type,
            final(self).entry_of(type_id).splittable == splittable,
            final(self).entry_of(type_id).alloc_mode == alloc_mode,
            final(self).entry_of(type_id).output_type_id is None,
            final(self).entry_of(type_id).arrival_order == ExecOutputMode::FIFO,
            final(self).entry_of(type_id).waiting@.len() == 0,
            match pool_alloc_mode {
                PoolAllocMode::NoPool => final(self).entry_of(type_id).pool_mode is NoPool,
                PoolAllocMode::Shared { capacity } => final(self).entry_of(
                    type_id,
                ).pool_mode matches PoolModeState::Shared { pool }
                    && pool.capacity == capacity && pool.pooled == capacity
                    && pool.type_tag == output_packet_tag,
                PoolAllocMode::Instance { capacity } => final(self).entry_of(
                    type_id,
                ).pool_mode matches PoolModeState::Instance { capacity: c, type_tag: t }
                    && c == capacity && t == output_packet_tag,
            },
            forall|tid2: u64| tid2 != type_id
                ==> #[trigger] final(self).registered(tid2) == old(self).registered(tid2)
                    && (old(self).registered(tid2)
                        ==> final(self).entry_of(tid2) == old(self).entry_of(tid2)),
            final(self).queues@ == old(self).queues@,
            final(self).bound@ == old(self).bound@,
            final(self).dup_view() == old(self).dup_view(),
            final(self).pending_packets_count == old(self).pending_packets_count,
            final(self).queue_capacity == old(self).queue_capacity,
            final(self).accepted@ == old(self).accepted@,
            final(self).delivered@ == old(self).delivered@,
            final(self).waiting_total() == old(self).waiting_total(),
    {
        let pool_mode = match pool_alloc_mode {
            PoolAllocMode::NoPool => PoolModeState::NoPool,
            PoolAllocMode::Shared { capacity } => PoolModeState::Shared {
                pool: PacketsPool::new(capacity, output_packet_tag),
            },
            PoolAllocMode::Instance { capacity } => PoolModeState::Instance {
                capacity,
                type_tag: output_packet_tag,
            },
        };
        let entry = ExecutorTypeEntry {
            type_id,
            executor_type,
            splittable,
            alloc_mode,
            pool_mode,
            output_type_id: None,
            arrival_order: ExecOutputMode::FIFO,
            waiting: Vec::new(),
        };
        proof {
            lemma_find_type_props(self.types@, type_id);
            lemma_sum_waiting_push(self.types@, entry);
        }
        let ghost pre = *self;
        self.types.push(entry);
        proof {
            let s = self.types@;
            let n = s.len() - 1;
            assert(forall|a: int, b: int| 0 <= a < b < s.len()
                ==> s[a].type_id != s[b].type_id);
            lemma_find_type_unique(s, type_id, n);
            assert forall|tid2: u64| tid2 != type_id implies
                #[trigger] find_type_idx(s, tid2) == find_type_idx(pre.types@, tid2) by {
                lemma_find_type_props(pre.types@, tid2);
                if pre.registered(tid2) {
                    lemma_find_type_unique(s, tid2, find_type_idx(pre.types@, tid2));
                } else {
                    lemma_find_type_props(s, tid2);
                    if find_type_idx(s, tid2) >= 0 {
                        assert(s[find_type_idx(s, tid2)].type_id == tid2);
                    }
                }
            }
            assert forall|tid2: u64| tid2 != type_id && pre.registered(tid2) implies
                #[trigger] self.entry_of(tid2) == pre.entry_of(tid2) by {
                lemma_find_type_props(pre.types@, tid2);
                assert(find_type_idx(s, tid2) == find_type_idx(pre.types@, tid2));
                assert(s[find_type_idx(pre.types@, tid2)]
                    == pre.types@[find_type_idx(pre.types@, tid2)]);
            }
            assert forall|w: WeakExecutorAddress| #[trigger] self.in_waiting(w)
                == pre.in_waiting(w) by {
                let tid2 = w.executor_type_id;
                if tid2 == type_id {
                    assert(!pre.registered(tid2));
                    assert(self.entry_of(tid2) == entry);
                    assert(self.entry_of(tid2).waiting@.len() == 0);
                    assert(!self.in_waiting(w));
                } else {
                    if pre.registered(tid2) {
                        assert(self.entry_of(tid2) == pre.entry_of(tid2));
                    }
                }
            }
            assert(self.wf_queues()) by {
                assert(forall|i: int| 0 <= i < self.queues@.len()
                    ==> #[trigger] self.queue_seq(self.queues@[i].0)
                        == pre.queue_seq(self.queues@[i].0));
            }
        }
    }

    /// Wires a registered type to its downstream stage: records the output
    /// type and sets the order in which newly waiting addresses are inserted
    /// at that downstream stage.
    pub fn set_output(&mut self, target_id: u64, output_id: u64, mode: ExecOutputMode)
        requires
            old(self).wf(),
            old(self).registered(target_id),
            old(self).registered(output_id),
        ensures
            final(self).wf(),
            final(self).registered(target_id),
            final(self).registered(output_id),
            final(self).entry_of(target_id).output_type_id == Some(output_id),
            final(self).entry_of(output_id).arrival_order == mode,
            target_id != output_id ==> final(self).entry_of(target_id).arrival_order
                == old(self).entry_of(target_id).arrival_order,
            target_id != output_id ==> final(self).entry_of(output_id).output_type_id
                == old(self).entry_of(output_id).output_type_id,
            forall|tid2: u64|
                #[trigger] final(self).registered(tid2) == old(self).registered(tid2),
            forall|tid2: u64| tid2 != target_id && tid2 != output_id
                && old(self).registered(tid2)
                ==> #[trigger] final(self).entry_of(tid2) == old(self).entry_of(tid2),
            forall|tid2: u64| old(self).registered(tid2)
                ==> (#[trigger] final(self).entry_of(tid2)).waiting@
                    == old(self).entry_of(tid2).waiting@
                    && final(self).entry_of(tid2).type_id == old(self).entry_of(tid2).type_id
                    && final(self).entry_of(tid2).executor_type
                        == old(self).entry_of(tid2).executor_type
                    && final(self).entry_of(tid2).splittable
                        == old(self).entry_of(tid2).splittable
                    && final(self).entry_of(tid2).pool_mode == old(self).entry_of(tid2).pool_mode,
            final(self).queues@ == old(self).queues@,
            final(self).bound@ == old(self).bound@,
            final(self).dup_view() == old(self).dup_view(),
            final(self).pending_packets_count == old(self).pending_packets_count,
            final(self).queue_capacity == old(self).queue_capacity,
            final(self).accepted@ == old(self).accepted@,
            final(self).delivered@ == old(self).delivered@,
            final(self).waiting_total() == old(self).waiting_total(),
    {
        let ghost pre = *self;
        let ti = match self.type_pos(target_id) {
            Some(i) => i,
            None => {
                proof {
                    assert(false);
                }
                0
            },
        };
        let e = &mut self.types[ti];
        e.output_type_id = Some(output_id);
        proof {
            lemma_types_same_keys_congruence(pre, *self);
        }
        let ghost mid = *self;
        let oi = match self.type_pos(output_id) {
            Some(i) => i,
            None => {
                proof {
                    assert(false);
                }
                0
            },
        };
        let e2 = &mut self.types[oi];
        e2.arrival_order = mode;
        proof {
            lemma_types_same_keys_congruence(mid, *self);
            lemma_sum_waiting_update(pre.types@, ti as int, mid.types@[ti as int]);
            lemma_sum_waiting_update(mid.types@, oi as int, self.types@[oi as int]);
            assert forall|tid2: u64| pre.registered(tid2) implies {
                let a = #[trigger] self.entry_of(tid2);
                let b = pre.entry_of(tid2);
                a.type_id == b.type_id && a.executor_type == b.executor_type
                    && a.splittable == b.splittable && a.alloc_mode == b.alloc_mode
                    && a.pool_mode == b.pool_mode && a.waiting == b.waiting
            } by {
                let f = find_type_idx(pre.types@, tid2);
                lemma_find_type_props(pre.types@, tid2);
                assert(find_type_idx(mid.types@, tid2) == f);
                assert(find_type_idx(self.types@, tid2) == f);
                assert(self.types@[f] == if f == oi {
                    self.types@[oi as int]
                } else if f == ti {
                    mid.types@[ti as int]
                } else {
                    pre.types@[f]
                });
            }
            assert forall|tid2: u64| tid2 != target_id && tid2 != output_id
                && pre.registered(tid2) implies
                #[trigger] self.entry_of(tid2) == pre.entry_of(tid2) by {
                let f = find_type_idx(pre.types@, tid2);
                lemma_find_type_props(pre.types@, tid2);
                assert(pre.types@[f].type_id == tid2);
                assert(f != ti && f != oi);
                assert(self.types@[f] == pre.types@[f]);
            }
            assert forall|w: WeakExecutorAddress| #[trigger] self.in_waiting(w)
                == pre.in_waiting(w) by {
                if pre.registered(w.executor_type_id) {
                    assert(self.entry_of(w.executor_type_id).waiting@
                        == pre.entry_of(w.executor_type_id).waiting@);
                }
            }
            assert(self.wf_queues()) by {
                assert(forall|i: int| 0 <= i < self.queues@.len()
                    ==> #[trigger] self.queue_seq(self.queues@[i].0)
                        == pre.queue_seq(self.queues@[i].0));
            }
        }
    }
}

impl WorkManager {
    /// Routes one packet to the input queue of its target address,
    /// incrementing the pending count. The queue is created on first arrival
    /// and the address then joins its type's waiting list, at the position
    /// the stage's arrival order dictates. Returns the packet untouched when
    /// the target queue is full; the caller spins, throttled upstream by the
    /// packet pools' back-pressure.
    pub fn add_input_packet(&mut self, address: ExecutorAddress, packet: PacketAny) -> (r: Result<
        (),
        (ExecutorAddress, PacketAny),
    >)
        requires
            old(self).wf(),
            old(self).registered(address.executor_type_id),
            old(self).pending_packets_count < u64::MAX,
            old(self).queues@.len() < usize::MAX,
        ensures
            final(self).wf(),
            final(self).queue_capacity == old(self).queue_capacity,
            final(self).bound@ == old(self).bound@,
            final(self).dup_view() == old(self).dup_view(),
            final(self).delivered@ == old(self).delivered@,
            wiring_unchanged(*old(self), *final(self)),
            forall|tid: u64| #[trigger] final(self).registered(tid) == old(self).registered(tid),
            r is Err <==> old(self).has_queue(address.weak_spec()) && old(self).queue_seq(
                address.weak_spec(),
            ).len() >= old(self).queue_capacity,
            match r {
                Ok(()) => {
                    let w = address.weak_spec();
                    &&& final(self).has_queue(w)
                    &&& final(self).queue_seq(w) == old(self).queue_seq(w).push(packet)
                    &&& final(self).pending_packets_count == old(self).pending_packets_count + 1
                    &&& final(self).accepted@ == old(self).accepted@ + 1
                    &&& queues_unchanged_except(*old(self), *final(self), w)
                    &&& (old(self).has_queue(w) ==> forall|tid: u64|
                        old(self).registered(tid) ==> (#[trigger] final(self).entry_of(
                            tid,
                        )).waiting@ == old(self).entry_of(tid).waiting@)
                    &&& (!old(self).has_queue(w) ==> {
                        let tid = address.executor_type_id;
                        &&& final(self).entry_of(tid).waiting@ == (if old(self).entry_of(
                            tid,
                        ).arrival_order == ExecOutputMode::LIFO {
                            old(self).entry_of(tid).waiting@.insert(0, address)
                        } else {
                            old(self).entry_of(tid).waiting@.push(address)
                        })
                        &&& forall|tid2: u64|
                            tid2 != tid && old(self).registered(tid2)
                                ==> (#[trigger] final(self).entry_of(tid2)).waiting@ == old(self).entry_of(tid2).waiting@
                    })
                },
                Err(ret) => {
                    &&& ret.0 == address
                    &&& ret.1 == packet
                    &&& *final(self) == *old(self)
                },
            },
    {
        let ghost pre = *self;
        let w = address.to_weak();
        match self.queue_pos(&w) {
            Some(qi) => {
                if self.queues[qi].1.len() >= self.queue_capacity {
                    return Err((address, packet));
                }
                let q = &mut self.queues[qi];
                q.1.push(packet);
                self.pending_packets_count = self.pending_packets_count + 1;
                self.accepted = Ghost(self.accepted@ + 1);
                proof {
                    lemma_sum_queue_update(pre.queues@, qi as int, self.queues@[qi as int]);
                    assert forall|w2: WeakExecutorAddress|
                        #[trigger] find_pair_idx(self.queues@, w2) == find_pair_idx(
                            pre.queues@,
                            w2,
                        ) by {
                        lemma_find_pair_same_keys(pre.queues@, self.queues@, w2);
                    }
                    assert forall|w2: WeakExecutorAddress| w2 != w implies #[trigger] self
                        .queue_seq(w2) == pre.queue_seq(w2) by {
                        if find_pair_idx(pre.queues@, w2) >= 0 {
                            lemma_find_pair_props(pre.queues@, w2);
                            assert(pre.queues@[find_pair_idx(pre.queues@, w2)].0 == w2);
                        }
                    }
                    assert(self.queue_seq(w) == pre.queue_seq(w).push(packet));
                    assert(self.wf_queues());
                    assert(self.wf_waiting()) by {
                        assert(forall|t: int, i: int|
                            0 <= t < self.types@.len() && 0 <= i < self.types@[t].waiting@.len()
                                ==> #[trigger] self.queue_seq(
                                self.types@[t].waiting@[i].weak_spec(),
                            ).len() >= pre.queue_seq(self.types@[t].waiting@[i].weak_spec()).len());
                    }
                }
                Ok(())
            },
            None => {
                let created = self.queues_pool.try_alloc();
                proof {
                    assert(created);
                }
                let mut qv: Vec<PacketAny> = Vec::new();
                qv.push(packet);
                self.queues.push((w, qv));
                let ghost mid = *self;
                let ti = match self.type_pos(address.executor_type_id) {
                    Some(i) => i,
                    None => {
                        proof {
                            assert(false);
                        }
                        0
                    },
                };
                let e = &mut self.types[ti];
                match e.arrival_order {
                    ExecOutputMode::LIFO => e.waiting.insert(0, address),
                    ExecOutputMode::FIFO => e.waiting.push(address),
                }
                self.pending_packets_count = self.pending_packets_count + 1;
                self.accepted = Ghost(self.accepted@ + 1);
                proof {
                    let tid = address.executor_type_id;
                    lemma_find_pair_props(pre.queues@, w);
                    lemma_sum_queue_push(pre.queues@, (w, mid.queues@[pre.queues@.len() as int].1));
                    lemma_types_same_keys_congruence(pre, *self);
                    lemma_sum_waiting_update(pre.types@, ti as int, self.types@[ti as int]);
                    // The new queue key was absent, so every lookup is stable
                    // and the new key resolves to the appended slot.
                    assert(forall|j: int| 0 <= j < pre.queues@.len()
                        ==> #[trigger] self.queues@[j] == pre.queues@[j]);
                    assert forall|a: int, b: int| 0 <= a < b < self.queues@.len() implies
                        self.queues@[a].0 != self.queues@[b].0 by {
                        if b == pre.queues@.len() {
                            assert(self.queues@[a].0 != w);
                        }
                    }
                    lemma_find_pair_unique(self.queues@, w, pre.queues@.len() as int);
                    assert forall|w2: WeakExecutorAddress| w2 != w implies #[trigger]
                        find_pair_idx(self.queues@, w2) == find_pair_idx(pre.queues@, w2) by {
                        lemma_find_pair_props(pre.queues@, w2);
                        if find_pair_idx(pre.queues@, w2) >= 0 {
                            lemma_find_pair_unique(self.queues@, w2, find_pair_idx(pre.queues@, w2));
                        } else {
                            lemma_find_pair_props(self.queues@, w2);
                            if find_pair_idx(self.queues@, w2) >= 0 {
                                assert(self.queues@[find_pair_idx(self.queues@, w2)].0 == w2);
                            }
                        }
                    }
                    assert forall|w2: WeakExecutorAddress| w2 != w implies #[trigger] self
                        .queue_seq(w2) == pre.queue_seq(w2) by {
                        if find_pair_idx(pre.queues@, w2) >= 0 {
                            lemma_find_pair_props(pre.queues@, w2);
                        }
                    }
                    assert(self.queue_seq(w) =~= pre.queue_seq(w).push(packet));
                    // The address had no instance: every bound key owns a queue.
                    assert(self.bound_count(w) == 0) by {
                        lemma_find_pair_props(pre.bound@, w);
                        if find_pair_idx(pre.bound@, w) >= 0 {
                            assert(find_pair_idx(pre.queues@, pre.bound@[find_pair_idx(
                                pre.bound@,
                                w,
                            )].0) >= 0);
                        }
                    }
                    // The address was not waiting: waiting addresses own queues.
                    assert(forall|i: int| 0 <= i < pre.entry_of(tid).waiting@.len()
                        ==> #[trigger] pre.entry_of(tid).waiting@[i] != address);
                    assert(self.entry_of(tid).waiting@ == (if pre.entry_of(tid).arrival_order
                        == ExecOutputMode::LIFO {
                        pre.entry_of(tid).waiting@.insert(0, address)
                    } else {
                        pre.entry_of(tid).waiting@.push(address)
                    }));
                    assert forall|tid2: u64| tid2 != tid && pre.registered(tid2) implies
                        #[trigger] self.entry_of(tid2) == pre.entry_of(tid2) by {
                        lemma_find_type_props(pre.types@, tid2);
                        assert(pre.types@[find_type_idx(pre.types@, tid2)].type_id == tid2);
                        assert(find_type_idx(pre.types@, tid2) != ti);
                    }
                    assert forall|w2: WeakExecutorAddress| pre.in_waiting(w2) implies
                        #[trigger] self.in_waiting(w2) by {
                        let t2 = w2.executor_type_id;
                        if t2 == tid {
                            let i = choose|i: int|
                                0 <= i < pre.entry_of(tid).waiting@.len()
                                    && pre.entry_of(tid).waiting@[i].weak_spec() == w2;
                            if pre.entry_of(tid).arrival_order == ExecOutputMode::LIFO {
                                assert(self.entry_of(tid).waiting@[i + 1].weak_spec() == w2);
                            } else {
                                assert(self.entry_of(tid).waiting@[i].weak_spec() == w2);
                            }
                        }
                    }
                    assert(self.in_waiting(w)) by {
                        if pre.entry_of(tid).arrival_order == ExecOutputMode::LIFO {
                            assert(self.entry_of(tid).waiting@[0].weak_spec() == w);
                        } else {
                            let n = pre.entry_of(tid).waiting@.len() as int;
                            assert(self.entry_of(tid).waiting@[n].weak_spec() == w);
                        }
                    }
                    assert(self.wf_types());
                    assert(self.wf_queues()) by {
                        assert(forall|i: int| 0 <= i < pre.queues@.len()
                            ==> #[trigger] self.queue_seq(self.queues@[i].0) == pre.queue_seq(
                                pre.queues@[i].0,
                            ));
                        assert(forall|i: int| 0 <= i < pre.queues@.len()
                            ==> pre.in_waiting(#[trigger] self.queues@[i].0) ==> self.in_waiting(
                                self.queues@[i].0,
                            ));
                    }
                    assert(self.wf_waiting()) by {
                        assert forall|t: int, i: int|
                            0 <= t < self.types@.len() && 0 <= i
                                < self.types@[t].waiting@.len() implies {
                            let a = #[trigger] self.types@[t].waiting@[i];
                            &&& a.executor_type_id == self.types@[t].type_id
                            &&& self.has_queue(a.weak_spec())
                            &&& self.queue_seq(a.weak_spec()).len() > 0
                            &&& self.bound_count(a.weak_spec()) == 0
                        } by {
                            let a = self.types@[t].waiting@[i];
                            if t == ti as int {
                                if a != address {
                                    let wl = pre.types@[t].waiting@;
                                    if pre.entry_of(tid).arrival_order == ExecOutputMode::LIFO {
                                        assert(a == wl[i - 1]);
                                    } else {
                                        assert(a == wl[i]);
                                    }
                                }
                            }
                            if a != address {
                                assert(pre.has_queue(a.weak_spec()));
                                assert(a.weak_spec() != w || !pre.has_queue(w));
                                assert(self.queue_seq(a.weak_spec()) == pre.queue_seq(
                                    a.weak_spec(),
                                ));
                            }
                        }
                        assert forall|t: int, i: int, j: int|
                            0 <= t < self.types@.len() && 0 <= i < j
                                < self.types@[t].waiting@.len() implies (#[trigger] self
                            .types@[t].waiting@[i]) != (#[trigger] self.types@[t].waiting@[j]) by {
                            if t == ti as int {
                                let wl = pre.types@[t].waiting@;
                                if pre.entry_of(tid).arrival_order == ExecOutputMode::LIFO {
                                    assert(j >= 1);
                                    assert(self.types@[t].waiting@[j] == wl[j - 1]);
                                    if i >= 1 {
                                        assert(self.types@[t].waiting@[i] == wl[i - 1]);
                                    }
                                } else {
                                    assert(self.types@[t].waiting@[i] == wl[i]);
                                    if j < wl.len() {
                                        assert(self.types@[t].waiting@[j] == wl[j]);
                                    }
                                }
                            }
                        }
                    }
                    assert(self.wf_bound()) by {
                        assert(forall|i: int| 0 <= i < self.bound@.len()
                            ==> find_pair_idx(self.queues@, (#[trigger] self.bound@[i]).0) >= 0);
                    }
                    assert(self.wf_counts());
                }
                Ok(())
            },
        }
    }

    /// Takes the packet at the front of an address's input queue and counts
    /// it as delivered. Callers only drain queues of addresses that hold a
    /// live executor.
    fn get_packet_from_addr(&mut self, w: &WeakExecutorAddress) -> (r: PacketAny)
        requires
            old(self).wf(),
            old(self).has_queue(*w),
            old(self).queue_seq(*w).len() > 0,
            old(self).bound_count(*w) >= 1,
        ensures
            final(self).wf(),
            r == old(self).queue_seq(*w)[0],
            final(self).queue_seq(*w) == old(self).queue_seq(*w).drop_first(),
            final(self).has_queue(*w),
            queues_unchanged_except(*old(self), *final(self), *w),
            final(self).pending_packets_count == old(self).pending_packets_count - 1,
            final(self).delivered@ == old(self).delivered@ + 1,
            final(self).accepted@ == old(self).accepted@,
            final(self).types@ == old(self).types@,
            final(self).bound@ == old(self).bound@,
            final(self).dup_view() == old(self).dup_view(),
            final(self).queue_capacity == old(self).queue_capacity,
            final(self).queues_pool == old(self).queues_pool,
    {
        let ghost pre = *self;
        let qi = match self.queue_pos(w) {
            Some(i) => i,
            None => {
                proof {
                    assert(false);
                }
                0
            },
        };
        proof {
            lemma_sum_queue_lower(pre.queues@, qi as int);
        }
        let q = &mut self.queues[qi];
        let p = q.1.remove(0);
        self.pending_packets_count = self.pending_packets_count - 1;
        self.delivered = Ghost(self.delivered@ + 1);
        proof {
            lemma_sum_queue_update(pre.queues@, qi as int, self.queues@[qi as int]);
            assert forall|w2: WeakExecutorAddress|
                #[trigger] find_pair_idx(self.queues@, w2) == find_pair_idx(pre.queues@, w2) by {
                lemma_find_pair_same_keys(pre.queues@, self.queues@, w2);
            }
            assert forall|w2: WeakExecutorAddress| w2 != *w implies #[trigger] self.queue_seq(w2)
                == pre.queue_seq(w2) by {
                if find_pair_idx(pre.queues@, w2) >= 0 {
                    lemma_find_pair_props(pre.queues@, w2);
                    assert(pre.queues@[find_pair_idx(pre.queues@, w2)].0 == w2);
                }
            }
            assert(self.queue_seq(*w) == pre.queue_seq(*w).drop_first());
            assert(self.wf_waiting()) by {
                assert forall|t: int, i: int|
                    0 <= t < self.types@.len() && 0 <= i
                        < self.types@[t].waiting@.len() implies #[trigger] self.queue_seq(
                    self.types@[t].waiting@[i].weak_spec(),
                ).len() > 0 by {
                    let a = self.types@[t].waiting@[i];
                    assert(pre.bound_count(a.weak_spec()) == 0);
                    assert(a.weak_spec() != *w);
                }
            }
            assert(self.wf_queues());
        }
        p
    }

    /// Builds the handle for a live executor of a registered type, with a
    /// fresh output pool when the type uses per-instance pools.
    fn new_handle_for(&self, address: ExecutorAddress) -> (h: ExecutorHandle)
        requires
            self.wf(),
            self.registered(address.executor_type_id),
            self.bound_count(address.weak_spec()) >= 1,
        ensures
            self.handle_wf(h),
            h.address == address,
            h.splittable == self.entry_of(address.executor_type_id).splittable,
    {
        let ti = match self.type_pos(address.executor_type_id) {
            Some(i) => i,
            None => {
                proof {
                    assert(false);
                }
                0
            },
        };
        let e = &self.types[ti];
        let pool = match &e.pool_mode {
            PoolModeState::Instance { capacity, type_tag } => Some(
                PacketsPool::new(*capacity, *type_tag),
            ),
            _ => None,
        };
        ExecutorHandle { address, splittable: e.splittable, pool }
    }

    /// Removes every occurrence of one routing triple from the duplicable
    /// rotation by cycling the queue once, keeping all other entries.
    #[verifier::loop_isolation(false)]
    #[verifier::rlimit(60)]
    fn purge_duplicable(&mut self, trip: (u64, u64, u64))
        requires
            forall|a: int, b: int| 0 <= a < b < old(self).dup_view().len()
                ==> old(self).dup_view()[a] != old(self).dup_view()[b],
        ensures
            forall|k: int| 0 <= k < final(self).dup_view().len()
                ==> #[trigger] final(self).dup_view()[k] != trip,
            forall|k: int| 0 <= k < final(self).dup_view().len()
                ==> old(self).dup_view().contains(#[trigger] final(self).dup_view()[k]),
            forall|a: int, b: int| 0 <= a < b < final(self).dup_view().len()
                ==> final(self).dup_view()[a] != final(self).dup_view()[b],
            final(self).types@ == old(self).types@,
            final(self).queues@ == old(self).queues@,
            final(self).bound@ == old(self).bound@,
            final(self).pending_packets_count == old(self).pending_packets_count,
            final(self).queue_capacity == old(self).queue_capacity,
            final(self).queues_pool == old(self).queues_pool,
            final(self).accepted@ == old(self).accepted@,
            final(self).delivered@ == old(self).delivered@,
    {
        let ghost frame = *self;
        let ghost orig = self.dup_view();
        let n = split_queue_len(&self.duplicable_executors);
        let mut i: usize = 0;
        let ghost mut kept: Seq<(u64, u64, u64)> = Seq::empty();
        let ghost mut srcs: Seq<int> = Seq::empty();
        while i < n
            invariant
                i <= n,
                n == orig.len(),
                self.dup_view() =~= orig.subrange(i as int, n as int) + kept,
                forall|k: int| 0 <= k < kept.len() ==> #[trigger] kept[k] != trip,
                srcs.len() == kept.len(),
                forall|k: int| 0 <= k < kept.len()
                    ==> 0 <= #[trigger] srcs[k] < i && kept[k] == orig[srcs[k]],
                forall|a: int, b: int| 0 <= a < b < kept.len() ==> kept[a] != kept[b],
                self.types@ == frame.types@,
                self.queues@ == frame.queues@,
                self.bound@ == frame.bound@,
                self.pending_packets_count == frame.pending_packets_count,
                self.queue_capacity == frame.queue_capacity,
                self.queues_pool == frame.queues_pool,
                self.accepted@ == frame.accepted@,
                self.delivered@ == frame.delivered@,
            decreases n - i,
        {
            let popped = split_queue_pop(&mut self.duplicable_executors);
            let ghost dup_before = orig.subrange(i as int, n as int) + kept;
            match popped {
                Some(t) => {
                    proof {
                        assert(dup_before[0] == orig[i as int]);
                    }
                    if !(t.0 == trip.0 && t.1 == trip.1 && t.2 == trip.2) {
                        split_queue_push(&mut self.duplicable_executors, t);
                        proof {
                            assert(self.dup_view() =~= orig.subrange(i + 1 as int, n as int)
                                + kept.push(t));
                            assert forall|k: int| 0 <= k < kept.len() implies #[trigger] kept[k]
                                != t by {
                                let m = srcs[k];
                                assert(orig[m] != orig[i as int]);
                            }
                            kept = kept.push(t);
                            srcs = srcs.push(i as int);
                        }
                    } else {
                        proof {
                            assert(t == trip);
                            assert(self.dup_view() =~= orig.subrange(i + 1 as int, n as int)
                                + kept);
                        }
                    }
                },
                None => {
                    proof {
                        assert(dup_before.len() == 0);
                        assert(false);
                    }
                },
            }
            i = i + 1;
        }
        proof {
            assert(i == n);
            assert(self.dup_view() =~= kept);
            assert(orig == old(self).dup_view());
            assert forall|k: int| 0 <= k < self.dup_view().len() implies old(
                self,
            ).dup_view().contains(#[trigger] self.dup_view()[k]) by {
                assert(self.dup_view()[k] == kept[k]);
                let m = srcs[k];
                assert(0 <= m < old(self).dup_view().len());
                assert(old(self).dup_view()[m] == self.dup_view()[k]);
            }
        }
    }

    /// Releases one executor instance. When the last instance of an address
    /// goes, the address leaves the duplicable rotation; its queue is
    /// destroyed if drained, and rejoins the waiting list otherwise, so no
    /// queued packet is ever stranded.
    #[verifier::rlimit(100)]
    #[verifier::spinoff_prover]
    pub fn retire_executor(&mut self, h: ExecutorHandle)
        requires
            old(self).wf(),
            old(self).handle_wf(h),
        ensures
            final(self).wf(),
            final(self).bound_count(h.address.weak_spec()) == old(self).bound_count(
                h.address.weak_spec(),
            ) - 1,
            forall|w2: WeakExecutorAddress| w2 != h.address.weak_spec()
                ==> #[trigger] final(self).bound_count(w2) == old(self).bound_count(w2),
            final(self).bound_total() == old(self).bound_total() - 1,
            final(self).pending_packets_count == old(self).pending_packets_count,
            final(self).accepted@ == old(self).accepted@,
            final(self).delivered@ == old(self).delivered@,
            forall|w2: WeakExecutorAddress| #[trigger] final(self).queue_seq(w2) == old(self).queue_seq(w2),
            wiring_unchanged(*old(self), *final(self)),
            forall|tid: u64| #[trigger] final(self).registered(tid) == old(self).registered(tid),
            final(self).queue_capacity == old(self).queue_capacity,
            final(self).waiting_total() >= old(self).waiting_total(),
            (old(self).bound_count(h.address.weak_spec()) > 1 || old(self).queue_seq(
                h.address.weak_spec(),
            ).len() == 0) ==> final(self).waiting_total() == old(self).waiting_total(),
    {
        let ghost pre = *self;
        let w = h.address.to_weak();
        let bi = match self.bound_pos(&w) {
            Some(i) => i,
            None => {
                proof {
                    assert(false);
                }
                0
            },
        };
        let cnt = self.bound[bi].1;
        proof {
            lemma_sum_bound_lower(pre.bound@, bi as int);
        }
        count_decrement(&mut self.bound, w);
        if cnt == 1 {
            // The address is fully retired: purge it from the duplicable
            // rotation so no worker duplicates a dead stream.
            if h.splittable {
                let trip = (h.address.executor_type_id, h.address.index, h.address.nonce);
                self.purge_duplicable(trip);
                proof {
                    assert forall|k: int| 0 <= k < self.dup_view().len() implies {
                        let e = triple_weak(#[trigger] self.dup_view()[k]);
                        &&& e != w
                        &&& pre.registered(e.executor_type_id)
                        &&& pre.entry_of(e.executor_type_id).splittable
                        &&& pre.bound_count(e) >= 1
                    } by {
                        assert(pre.dup_view().contains(self.dup_view()[k]));
                        let m = choose|m: int|
                            0 <= m < pre.dup_view().len() && pre.dup_view()[m]
                                == self.dup_view()[k];
                        let e = triple_weak(self.dup_view()[k]);
                        assert(pre.bound_count(triple_weak(pre.dup_view()[m])) >= 1);
                        if e == w {
                            assert(self.dup_view()[k] == trip);
                        }
                    }
                }
            } else {
                proof {
                    assert forall|k: int| 0 <= k < self.dup_view().len() implies
                        #[trigger] self.dup_view()[k] != weak_triple(w) by {
                        let e = triple_weak(self.dup_view()[k]);
                        assert(pre.entry_of(e.executor_type_id).splittable);
                        if e == w {
                            assert(pre.entry_of(w.executor_type_id).splittable);
                        }
                    }
                }
            }
            // Destroy a drained queue, or hand a still-loaded address back to
            // its type's waiting list.
            let qi = match self.queue_pos(&w) {
                Some(i) => i,
                None => {
                    proof {
                        assert(false);
                    }
                    0
                },
            };
            let ghost mid = *self;
            if self.queues[qi].1.len() == 0 {
                proof {
                    lemma_sum_queue_remove(mid.queues@, qi as int);
                    lemma_pair_remove_congruence(mid.queues@, qi as int);
                }
                let _ = self.queues.remove(qi);
                self.queues_pool.return_object();
                proof {
                    assert forall|w2: WeakExecutorAddress| #[trigger] self.queue_seq(w2)
                        == pre.queue_seq(w2) by {
                        if w2 == w {
                            assert(!self.has_queue(w));
                            assert(self.queue_seq(w) =~= pre.queue_seq(w));
                        } else {
                            if find_pair_idx(mid.queues@, w2) >= 0 {
                                assert(self.queues@[find_pair_idx(self.queues@, w2)]
                                    == mid.queues@[find_pair_idx(mid.queues@, w2)]);
                            } else {
                                if find_pair_idx(self.queues@, w2) >= 0 {
                                    assert(find_pair_idx(mid.queues@, w2) >= 0);
                                }
                            }
                        }
                    }
                    assert(self.wf_queues()) by {
                        assert forall|i2: int| 0 <= i2 < self.queues@.len() implies {
                            let k = (#[trigger] self.queues@[i2]).0;
                            &&& self.registered(k.executor_type_id)
                            &&& self.queues@[i2].1@.len() <= self.queue_capacity
                            &&& (self.queues@[i2].1@.len() > 0 ==> self.in_waiting(k)
                                || self.bound_count(k) >= 1)
                            &&& (self.queues@[i2].1@.len() == 0 ==> self.bound_count(k) >= 1)
                        } by {
                            let k = self.queues@[i2].0;
                            let j2 = if i2 < qi as int { i2 } else { i2 + 1 };
                            assert(self.queues@[i2] == mid.queues@[j2]);
                            assert(k != w);
                            assert(self.queue_seq(k) == pre.queue_seq(k));
                            assert(self.bound_count(k) == pre.bound_count(k));
                            assert(self.in_waiting(k) == pre.in_waiting(k));
                        }
                    }
                    assert(self.wf_waiting()) by {
                        assert forall|t: int, i2: int|
                            0 <= t < self.types@.len() && 0 <= i2
                                < self.types@[t].waiting@.len() implies {
                            let a = #[trigger] self.types@[t].waiting@[i2];
                            &&& self.has_queue(a.weak_spec())
                            &&& self.queue_seq(a.weak_spec()).len() > 0
                            &&& self.bound_count(a.weak_spec()) == 0
                        } by {
                            let a = self.types@[t].waiting@[i2];
                            assert(pre.bound_count(a.weak_spec()) == 0);
                            assert(a.weak_spec() != w);
                            assert(self.queue_seq(a.weak_spec()) == pre.queue_seq(a.weak_spec()));
                        }
                    }
                    assert(self.wf_bound()) by {
                        assert forall|i2: int| 0 <= i2 < self.bound@.len() implies
                            (#[trigger] self.bound@[i2]).1 >= 1 && find_pair_idx(
                            self.queues@,
                            self.bound@[i2].0,
                        ) >= 0 && self.registered(self.bound@[i2].0.executor_type_id) by {
                            let k = self.bound@[i2].0;
                            lemma_find_pair_unique(self.bound@, k, i2);
                            assert(find_pair_idx(self.bound@, k) >= 0);
                            assert(k != w);
                            assert(count_of(self.bound@, k) == count_of(pre.bound@, k));
                            assert(find_pair_idx(pre.bound@, k) >= 0);
                            lemma_find_pair_props(pre.bound@, k);
                            assert(count_of(pre.bound@, k) >= 1);
                            assert(find_pair_idx(pre.queues@, k) >= 0);
                            assert(self.has_queue(k) == pre.has_queue(k));
                        }
                    }
                    assert(self.wf_dup()) by {
                        assert forall|k: int| 0 <= k < self.dup_view().len() implies {
                            let e = triple_weak(#[trigger] self.dup_view()[k]);
                            &&& self.registered(e.executor_type_id)
                            &&& self.entry_of(e.executor_type_id).splittable
                            &&& self.bound_count(e) >= 1
                        } by {
                            let e = triple_weak(self.dup_view()[k]);
                            assert(e != w);
                            assert(pre.bound_count(e) >= 1);
                        }
                    }
                }
            } else {
                let ti = match self.type_pos(h.address.executor_type_id) {
                    Some(i) => i,
                    None => {
                        proof {
                            assert(false);
                        }
                        0
                    },
                };
                let e = &mut self.types[ti];
                match e.arrival_order {
                    ExecOutputMode::LIFO => e.waiting.insert(0, h.address),
                    ExecOutputMode::FIFO => e.waiting.push(h.address),
                }
                proof {
                    let tid = h.address.executor_type_id;
                    lemma_types_same_keys_congruence(mid, *self);
                    lemma_sum_waiting_update(mid.types@, ti as int, self.types@[ti as int]);
                    assert(forall|i2: int| 0 <= i2 < pre.entry_of(tid).waiting@.len()
                        ==> #[trigger] pre.entry_of(tid).waiting@[i2] != h.address);
                    assert forall|tid2: u64| tid2 != tid && pre.registered(tid2) implies
                        #[trigger] self.entry_of(tid2) == pre.entry_of(tid2) by {
                        lemma_find_type_props(pre.types@, tid2);
                        assert(pre.types@[find_type_idx(pre.types@, tid2)].type_id == tid2);
                        assert(find_type_idx(pre.types@, tid2) != ti);
                    }
                    assert forall|w2: WeakExecutorAddress| pre.in_waiting(w2) implies
                        #[trigger] self.in_waiting(w2) by {
                        let t2 = w2.executor_type_id;
                        if t2 == tid {
                            let i2 = choose|i2: int|
                                0 <= i2 < pre.entry_of(tid).waiting@.len()
                                    && pre.entry_of(tid).waiting@[i2].weak_spec() == w2;
                            if pre.entry_of(tid).arrival_order == ExecOutputMode::LIFO {
                                assert(self.entry_of(tid).waiting@[i2 + 1].weak_spec() == w2);
                            } else {
                                assert(self.entry_of(tid).waiting@[i2].weak_spec() == w2);
                            }
                        }
                    }
                    assert(self.in_waiting(w)) by {
                        if pre.entry_of(tid).arrival_order == ExecOutputMode::LIFO {
                            assert(self.entry_of(tid).waiting@[0].weak_spec() == w);
                        } else {
                            let n2 = pre.entry_of(tid).waiting@.len() as int;
                            assert(self.entry_of(tid).waiting@[n2].weak_spec() == w);
                        }
                    }
                    assert(self.wf_queues()) by {
                        assert forall|i2: int| 0 <= i2 < self.queues@.len() implies {
                            let k = (#[trigger] self.queues@[i2]).0;
                            &&& (self.queues@[i2].1@.len() > 0 ==> self.in_waiting(k)
                                || self.bound_count(k) >= 1)
                            &&& (self.queues@[i2].1@.len() == 0 ==> self.bound_count(k) >= 1)
                        } by {
                            let k = self.queues@[i2].0;
                            if k == w {
                                assert(self.in_waiting(w));
                            } else {
                                assert(self.bound_count(k) == pre.bound_count(k));
                                if pre.in_waiting(k) {
                                    assert(self.in_waiting(k));
                                }
                            }
                        }
                    }
                    assert(self.wf_waiting()) by {
                        assert forall|t: int, i2: int|
                            0 <= t < self.types@.len() && 0 <= i2
                                < self.types@[t].waiting@.len() implies {
                            let a = #[trigger] self.types@[t].waiting@[i2];
                            &&& a.executor_type_id == self.types@[t].type_id
                            &&& self.has_queue(a.weak_spec())
                            &&& self.queue_seq(a.weak_spec()).len() > 0
                            &&& self.bound_count(a.weak_spec()) == 0
                        } by {
                            let a = self.types@[t].waiting@[i2];
                            if t == ti as int && a != h.address {
                                let wl = pre.types@[t].waiting@;
                                if pre.entry_of(tid).arrival_order == ExecOutputMode::LIFO {
                                    assert(a == wl[i2 - 1]);
                                } else {
                                    assert(a == wl[i2]);
                                }
                            }
                            if a == h.address {
                                assert(self.bound_count(w) == 0);
                            } else {
                                assert(pre.bound_count(a.weak_spec()) == 0);
                                assert(a.weak_spec() != w);
                            }
                        }
                        assert forall|t: int, i2: int, j2: int|
                            0 <= t < self.types@.len() && 0 <= i2 < j2
                                < self.types@[t].waiting@.len() implies (#[trigger] self
                            .types@[t].waiting@[i2]) != (#[trigger] self
                            .types@[t].waiting@[j2]) by {
                            if t == ti as int {
                                let wl = pre.types@[t].waiting@;
                                if pre.entry_of(tid).arrival_order == ExecOutputMode::LIFO {
                                    assert(j2 >= 1);
                                    assert(self.types@[t].waiting@[j2] == wl[j2 - 1]);
                                    if i2 >= 1 {
                                        assert(self.types@[t].waiting@[i2] == wl[i2 - 1]);
                                    }
                                } else {
                                    assert(self.types@[t].waiting@[i2] == wl[i2]);
                                    if j2 < wl.len() {
                                        assert(self.types@[t].waiting@[j2] == wl[j2]);
                                    }
                                }
                            }
                        }
                    }
                    assert(self.wf_bound()) by {
                        assert forall|i2: int| 0 <= i2 < self.bound@.len() implies
                            (#[trigger] self.bound@[i2]).1 >= 1 && find_pair_idx(
                            self.queues@,
                            self.bound@[i2].0,
                        ) >= 0 && self.registered(self.bound@[i2].0.executor_type_id) by {
                            let k = self.bound@[i2].0;
                            lemma_find_pair_unique(self.bound@, k, i2);
                            assert(count_of(self.bound@, k) == self.bound@[i2].1 as nat);
                            assert(k != w);
                            assert(find_pair_idx(pre.bound@, k) >= 0);
                            lemma_find_pair_props(pre.bound@, k);
                            assert(count_of(pre.bound@, k) >= 1);
                        }
                    }
                    assert(self.wf_dup()) by {
                        assert forall|k: int| 0 <= k < self.dup_view().len() implies {
                            let e = triple_weak(#[trigger] self.dup_view()[k]);
                            &&& self.registered(e.executor_type_id)
                            &&& self.entry_of(e.executor_type_id).splittable
                            &&& self.bound_count(e) >= 1
                        } by {
                            let e = triple_weak(self.dup_view()[k]);
                            assert(e != w);
                            assert(pre.bound_count(e) >= 1);
                            assert(self.entry_of(e.executor_type_id).splittable == pre.entry_of(
                                e.executor_type_id,
                            ).splittable);
                        }
                    }
                }
            }
        } else {
            proof {
                assert forall|i2: int| 0 <= i2 < self.bound@.len() implies
                    (#[trigger] self.bound@[i2]).1 >= 1 && find_pair_idx(
                    self.queues@,
                    self.bound@[i2].0,
                ) >= 0 && self.registered(self.bound@[i2].0.executor_type_id) by {
                    let k = self.bound@[i2].0;
                    lemma_find_pair_unique(self.bound@, k, i2);
                    assert(count_of(self.bound@, k) == self.bound@[i2].1 as nat);
                    assert(find_pair_idx(pre.bound@, k) >= 0);
                    lemma_find_pair_props(pre.bound@, k);
                    if k == w {
                        lemma_find_pair_unique(pre.bound@, w, bi as int);
                        assert(count_of(pre.bound@, w) == cnt);
                        assert(count_of(self.bound@, k) == count_of(pre.bound@, k) - 1);
                    } else {
                        assert(count_of(pre.bound@, k) >= 1);
                    }
                }
                assert(self.wf_queues()) by {
                    assert forall|i2: int| 0 <= i2 < self.queues@.len() implies {
                        let k = (#[trigger] self.queues@[i2]).0;
                        &&& (self.queues@[i2].1@.len() > 0 ==> self.in_waiting(k)
                            || self.bound_count(k) >= 1)
                        &&& (self.queues@[i2].1@.len() == 0 ==> self.bound_count(k) >= 1)
                    } by {
                        let k = self.queues@[i2].0;
                        if k == w {
                            assert(self.bound_count(w) == pre.bound_count(w) - 1);
                            assert(pre.bound_count(w) == cnt);
                            assert(self.bound_count(w) >= 1);
                        } else {
                            assert(self.bound_count(k) == pre.bound_count(k));
                        }
                    }
                }
                assert(self.wf_waiting()) by {
                    assert forall|t: int, i2: int|
                        0 <= t < self.types@.len() && 0 <= i2
                            < self.types@[t].waiting@.len() implies #[trigger] self.bound_count(
                        self.types@[t].waiting@[i2].weak_spec(),
                    ) == 0 by {
                        let a = self.types@[t].waiting@[i2];
                        assert(pre.bound_count(a.weak_spec()) == 0);
                        assert(a.weak_spec() != w);
                    }
                }
                assert(self.wf_dup()) by {
                    assert forall|k: int| 0 <= k < self.dup_view().len() implies
                        #[trigger] self.bound_count(triple_weak(self.dup_view()[k])) >= 1 by {
                        let e = triple_weak(self.dup_view()[k]);
                        assert(pre.bound_count(e) >= 1);
                        if e == w {
                            assert(self.bound_count(w) == pre.bound_count(w) - 1);
                            assert(pre.bound_count(w) == cnt);
                        }
                    }
                }
            }
        }
        proof {
            assert(pre.bound_count(w) == cnt) by {
                lemma_find_pair_unique(pre.bound@, w, bi as int);
            }
        }
    }

    /// Binds one more executor instance to an address that is not waiting.
    fn bind_instance(&mut self, address: ExecutorAddress) -> (h: ExecutorHandle)
        requires
            old(self).wf(),
            old(self).registered(address.executor_type_id),
            old(self).has_queue(address.weak_spec()),
            !old(self).in_waiting(address.weak_spec()),
            old(self).bound_count(address.weak_spec()) < u64::MAX,
            old(self).bound@.len() < usize::MAX,
        ensures
            final(self).wf(),
            final(self).handle_wf(h),
            h.address == address,
            final(self).bound_count(address.weak_spec()) == old(self).bound_count(
                address.weak_spec(),
            ) + 1,
            forall|w2: WeakExecutorAddress| w2 != address.weak_spec()
                ==> #[trigger] final(self).bound_count(w2) == old(self).bound_count(w2),
            final(self).bound_total() == old(self).bound_total() + 1,
            final(self).types@ == old(self).types@,
            final(self).queues@ == old(self).queues@,
            final(self).dup_view() == old(self).dup_view(),
            final(self).pending_packets_count == old(self).pending_packets_count,
            final(self).accepted@ == old(self).accepted@,
            final(self).delivered@ == old(self).delivered@,
            final(self).queue_capacity == old(self).queue_capacity,
            final(self).queues_pool == old(self).queues_pool,
    {
        let ghost pre = *self;
        let w = address.to_weak();
        count_increment(&mut self.bound, w);
        proof {
            assert(self.wf_bound()) by {
                assert forall|i2: int| 0 <= i2 < self.bound@.len() implies
                    (#[trigger] self.bound@[i2]).1 >= 1 && find_pair_idx(
                    self.queues@,
                    self.bound@[i2].0,
                ) >= 0 && self.registered(self.bound@[i2].0.executor_type_id) by {
                    let k = self.bound@[i2].0;
                    lemma_find_pair_unique(self.bound@, k, i2);
                    assert(count_of(self.bound@, k) == self.bound@[i2].1 as nat);
                    if k == w {
                        assert(count_of(self.bound@, w) == count_of(pre.bound@, w) + 1);
                    } else {
                        assert(count_of(self.bound@, k) == count_of(pre.bound@, k));
                        assert(find_pair_idx(pre.bound@, k) >= 0);
                        lemma_find_pair_props(pre.bound@, k);
                        assert(count_of(pre.bound@, k) >= 1);
                    }
                }
            }
            assert(self.wf_waiting()) by {
                assert forall|t: int, i2: int|
                    0 <= t < self.types@.len() && 0 <= i2
                        < self.types@[t].waiting@.len() implies #[trigger] self.bound_count(
                    self.types@[t].waiting@[i2].weak_spec(),
                ) == 0 by {
                    let a = self.types@[t].waiting@[i2];
                    assert(a == pre.types@[t].waiting@[i2]);
                    assert(pre.bound_count(a.weak_spec()) == 0);
                    lemma_find_type_unique(pre.types@, pre.types@[t].type_id, t);
                    if a.weak_spec() == w {
                        assert(pre.entry_of(w.executor_type_id) == pre.types@[t]);
                        assert(pre.in_waiting(w));
                    }
                    assert(a.weak_spec() != w);
                }
            }
            assert(self.wf_queues()) by {
                assert(forall|i2: int| 0 <= i2 < self.queues@.len()
                    ==> #[trigger] self.queue_seq(self.queues@[i2].0) == pre.queue_seq(
                        self.queues@[i2].0,
                    ));
                assert forall|i2: int| 0 <= i2 < self.queues@.len() implies {
                    let k = (#[trigger] self.queues@[i2]).0;
                    &&& (self.queues@[i2].1@.len() > 0 ==> self.in_waiting(k) || self.bound_count(
                        k,
                    ) >= 1)
                    &&& (self.queues@[i2].1@.len() == 0 ==> self.bound_count(k) >= 1)
                } by {
                    let k = self.queues@[i2].0;
                    if k != w {
                        assert(self.bound_count(k) == pre.bound_count(k));
                    }
                }
            }
            assert(self.wf_dup()) by {
                assert forall|k: int| 0 <= k < self.dup_view().len() implies
                    #[trigger] self.bound_count(triple_weak(self.dup_view()[k])) >= 1 by {
                    let e = triple_weak(self.dup_view()[k]);
                    if e != w {
                        assert(self.bound_count(e) == pre.bound_count(e));
                    }
                }
            }
        }
        self.new_handle_for(address)
    }

    /// Takes the oldest waiting address of a type and binds its first
    /// executor instance.
    fn activate_front(&mut self, ti: usize) -> (addr: ExecutorAddress)
        requires
            old(self).wf(),
            ti < old(self).types@.len(),
            old(self).types@[ti as int].waiting@.len() > 0,
            old(self).bound@.len() < usize::MAX,
        ensures
            final(self).wf(),
            addr == old(self).types@[ti as int].waiting@[0],
            final(self).registered(addr.executor_type_id),
            addr.executor_type_id == old(self).types@[ti as int].type_id,
            final(self).has_queue(addr.weak_spec()),
            final(self).queue_seq(addr.weak_spec()).len() > 0,
            final(self).bound_count(addr.weak_spec()) == 1,
            forall|w2: WeakExecutorAddress| w2 != addr.weak_spec()
                ==> #[trigger] final(self).bound_count(w2) == old(self).bound_count(w2),
            final(self).bound_total() == old(self).bound_total() + 1,
            final(self).types@.len() == old(self).types@.len(),
            entry_same_fields(old(self).types@[ti as int], final(self).types@[ti as int]),
            final(self).types@[ti as int].waiting@ == old(self).types@[
                ti as int
            ].waiting@.drop_first(),
            forall|t: int| 0 <= t < old(self).types@.len() && t != ti
                ==> #[trigger] final(self).types@[t] == old(self).types@[t],
            final(self).waiting_total() == old(self).waiting_total() - 1,
            forall|w2: WeakExecutorAddress| #[trigger] final(self).queue_seq(w2) == old(self).queue_seq(w2),
            forall|w2: WeakExecutorAddress| #[trigger] final(self).has_queue(w2) == old(self).has_queue(w2),
            final(self).dup_view() == old(self).dup_view(),
            final(self).pending_packets_count == old(self).pending_packets_count,
            final(self).accepted@ == old(self).accepted@,
            final(self).delivered@ == old(self).delivered@,
            final(self).queue_capacity == old(self).queue_capacity,
            final(self).queues_pool == old(self).queues_pool,
            final(self).entry_of(addr.executor_type_id).splittable == old(self).types@[
                ti as int
            ].splittable,
            final(self).handle_wf_fields(addr),
    {
        let ghost pre = *self;
        let addr = self.types[ti].waiting[0];
        let e = &mut self.types[ti];
        let _ = e.waiting.remove(0);
        let ghost mid = *self;
        proof {
            lemma_types_same_keys_congruence(pre, *self);
            lemma_sum_waiting_update(pre.types@, ti as int, self.types@[ti as int]);
            lemma_find_type_unique(pre.types@, pre.types@[ti as int].type_id, ti as int);
        }
        count_increment(&mut self.bound, addr.to_weak());
        proof {
            let w = addr.weak_spec();
            let tid = addr.executor_type_id;
            assert(tid == pre.types@[ti as int].type_id);
            assert(pre.in_waiting(w));
            assert(pre.bound_count(w) == 0);
            assert(pre.has_queue(w));
            assert forall|tid2: u64| tid2 != tid && pre.registered(tid2) implies
                #[trigger] self.entry_of(tid2) == pre.entry_of(tid2) by {
                lemma_find_type_props(pre.types@, tid2);
                assert(pre.types@[find_type_idx(pre.types@, tid2)].type_id == tid2);
                assert(find_type_idx(pre.types@, tid2) != ti);
            }
            // The popped address occurred only once, so it is waiting no more;
            // every other waiting occurrence survives with a shifted position.
            assert(forall|i2: int| 0 <= i2 < self.types@[ti as int].waiting@.len()
                ==> #[trigger] self.types@[ti as int].waiting@[i2]
                    == pre.types@[ti as int].waiting@[i2 + 1]);
            assert(!self.in_waiting(w)) by {
                if self.in_waiting(w) {
                    let i2 = choose|i2: int|
                        0 <= i2 < self.entry_of(tid).waiting@.len() && self.entry_of(
                            tid,
                        ).waiting@[i2].weak_spec() == w;
                    assert(pre.types@[ti as int].waiting@[i2 + 1].weak_spec() == w);
                    assert(pre.types@[ti as int].waiting@[i2 + 1]
                        == pre.types@[ti as int].waiting@[0]);
                }
            }
            assert forall|w2: WeakExecutorAddress| w2 != w && pre.in_waiting(w2) implies
                #[trigger] self.in_waiting(w2) by {
                let t2 = w2.executor_type_id;
                if t2 == tid {
                    let i2 = choose|i2: int|
                        0 <= i2 < pre.entry_of(tid).waiting@.len() && pre.entry_of(
                            tid,
                        ).waiting@[i2].weak_spec() == w2;
                    assert(i2 != 0);
                    assert(self.entry_of(tid).waiting@[i2 - 1].weak_spec() == w2);
                }
            }
            assert(self.wf_bound()) by {
                assert forall|i2: int| 0 <= i2 < self.bound@.len() implies
                    (#[trigger] self.bound@[i2]).1 >= 1 && find_pair_idx(
                    self.queues@,
                    self.bound@[i2].0,
                ) >= 0 && self.registered(self.bound@[i2].0.executor_type_id) by {
                    let k = self.bound@[i2].0;
                    lemma_find_pair_unique(self.bound@, k, i2);
                    assert(count_of(self.bound@, k) == self.bound@[i2].1 as nat);
                    if k == w {
                        assert(count_of(self.bound@, w) == 1);
                    } else {
                        assert(count_of(self.bound@, k) == count_of(pre.bound@, k));
                        assert(find_pair_idx(pre.bound@, k) >= 0);
                        lemma_find_pair_props(pre.bound@, k);
                        assert(count_of(pre.bound@, k) >= 1);
                    }
                }
            }
            assert(self.wf_waiting()) by {
                assert forall|t: int, i2: int|
                    0 <= t < self.types@.len() && 0 <= i2
                        < self.types@[t].waiting@.len() implies {
                    let a = #[trigger] self.types@[t].waiting@[i2];
                    &&& a.executor_type_id == self.types@[t].type_id
                    &&& self.has_queue(a.weak_spec())
                    &&& self.queue_seq(a.weak_spec()).len() > 0
                    &&& self.bound_count(a.weak_spec()) == 0
                } by {
                    let a = self.types@[t].waiting@[i2];
                    if t == ti as int {
                        assert(a == pre.types@[t].waiting@[i2 + 1]);
                        assert(a != addr);
                        assert(a.weak_spec() != w) by {
                            if a.weak_spec() == w {
                                assert(a == addr);
                            }
                        }
                    } else {
                        assert(a == pre.types@[t].waiting@[i2]);
                        assert(pre.bound_count(a.weak_spec()) == 0);
                        assert(a.weak_spec() != w);
                    }
                }
            }
            assert(self.wf_queues()) by {
                assert(forall|i2: int| 0 <= i2 < self.queues@.len()
                    ==> #[trigger] self.queue_seq(self.queues@[i2].0) == pre.queue_seq(
                        self.queues@[i2].0,
                    ));
                assert forall|i2: int| 0 <= i2 < self.queues@.len() implies {
                    let k = (#[trigger] self.queues@[i2]).0;
                    &&& (self.queues@[i2].1@.len() > 0 ==> self.in_waiting(k) || self.bound_count(
                        k,
                    ) >= 1)
                    &&& (self.queues@[i2].1@.len() == 0 ==> self.bound_count(k) >= 1)
                } by {
                    let k = self.queues@[i2].0;
                    if k == w {
                        assert(self.bound_count(w) == 1);
                    } else {
                        assert(self.bound_count(k) == pre.bound_count(k));
                        if pre.in_waiting(k) {
                            assert(self.in_waiting(k));
                        }
                    }
                }
            }
            assert(self.wf_dup()) by {
                assert forall|k: int| 0 <= k < self.dup_view().len() implies {
                    let e = triple_weak(#[trigger] self.dup_view()[k]);
                    &&& self.registered(e.executor_type_id)
                    &&& self.entry_of(e.executor_type_id).splittable
                    &&& self.bound_count(e) >= 1
                } by {
                    let e = triple_weak(self.dup_view()[k]);
                    assert(pre.bound_count(e) >= 1);
                    assert(e != w);
                    assert(self.entry_of(e.executor_type_id).splittable == pre.entry_of(
                        e.executor_type_id,
                    ).splittable);
                }
            }
            assert(self.queue_seq(w).len() > 0) by {
                assert(self.queue_seq(w) == pre.queue_seq(w));
            }
        }
        addr
    }

    /// The handle-shaping facts a caller needs to build a handle for `addr`.
    pub open spec fn handle_wf_fields(self, addr: ExecutorAddress) -> bool {
        self.registered(addr.executor_type_id)
    }

    /// Allocates one executor instance for an address, as the find-work paths
    /// do. When the address already has a live instance the new one clones
    /// the existing group and consumes nothing. A first instance is built
    /// fresh; a group-opening type with no instance finds no opener packet
    /// here (its queue is already drained) and refuses.
    pub fn alloc_executor(&mut self, address: &ExecutorAddress) -> (r: Option<ExecutorHandle>)
        requires
            old(self).wf(),
            old(self).registered(address.executor_type_id),
            old(self).has_queue(address.weak_spec()),
            !old(self).in_waiting(address.weak_spec()),
            old(self).bound_count(address.weak_spec()) < u64::MAX,
            old(self).bound@.len() < usize::MAX,
        ensures
            final(self).wf(),
            final(self).pending_packets_count == old(self).pending_packets_count,
            final(self).accepted@ == old(self).accepted@,
            final(self).delivered@ == old(self).delivered@,
            final(self).types@ == old(self).types@,
            final(self).queues@ == old(self).queues@,
            final(self).dup_view() == old(self).dup_view(),
            r is Some <==> (old(self).bound_count(address.weak_spec()) >= 1 || old(self).entry_of(
                address.executor_type_id,
            ).executor_type != ExecutorType::MultipleCommonPacketUnits),
            r is None ==> *final(self) == *old(self),
            match r {
                Some(h) => {
                    &&& final(self).handle_wf(h)
                    &&& h.address == *address
                    &&& final(self).bound_count(address.weak_spec()) == old(self).bound_count(
                        address.weak_spec(),
                    ) + 1
                    &&& forall|w2: WeakExecutorAddress|
                        w2 != address.weak_spec() ==> #[trigger] final(self).bound_count(w2)
                            == old(self).bound_count(w2)
                    &&& final(self).bound_total() == old(self).bound_total() + 1
                },
                None => true,
            },
    {
        let w = address.to_weak();
        let already = self.bound_pos(&w).is_some();
        if !already {
            let ti = match self.type_pos(address.executor_type_id) {
                Some(i) => i,
                None => {
                    proof {
                        assert(false);
                    }
                    0
                },
            };
            let mcpu = match self.types[ti].executor_type {
                ExecutorType::MultipleCommonPacketUnits => true,
                _ => false,
            };
            if mcpu {
                proof {
                    lemma_find_pair_props(self.bound@, w);
                }
                return None;
            }
        }
        proof {
            lemma_find_pair_props(self.bound@, w);
        }
        Some(self.bind_instance(*address))
    }


    /// The duplication path of `find_work`: clone the executor of another
    /// worker's splittable address that has visible backlog, make it the
    /// worker's executor, and deliver the front packet of its queue.
    #[verifier::rlimit(100)]
    fn duplicate_step(
        &mut self,
        last_executor: &mut Option<ExecutorHandle>,
        t: (u64, u64, u64),
        Ghost(pre): Ghost<WorkManager>,
    ) -> (p: PacketAny)
        requires
            old(self).wf(),
            old(self).opt_handle_wf(*old(last_executor)),
            old(self).registered(triple_weak(t).executor_type_id),
            old(self).bound_count(triple_weak(t)) >= 1,
            old(self).queue_seq(triple_weak(t)).len() > 0,
            match *old(last_executor) {
                Some(h) => h.address.weak_spec() != triple_weak(t),
                None => true,
            },
            old(self).accepted@ == pre.accepted@,
            old(self).queue_capacity == pre.queue_capacity,
            wiring_unchanged(pre, *old(self)),
            forall|tid: u64| #[trigger] old(self).registered(tid) == pre.registered(tid),
            old(self).delivered@ - pre.delivered@ == pre.pending_packets_count - old(self).pending_packets_count,
            old(self).pending_packets_count <= pre.pending_packets_count,
            old(self).pending_packets_count > 0,
            pre.bound_total() + pre.pending_packets_count + 2 < u64::MAX,
            pre.bound_total() + pre.pending_packets_count + 2 < usize::MAX,
            forall|w2: WeakExecutorAddress| #[trigger] old(self).queue_seq(w2).len()
                <= pre.queue_seq(w2).len(),
            forall|w2: WeakExecutorAddress| #[trigger] old(self).queue_seq(w2) == pre.queue_seq(
                w2,
            ).skip(pre.queue_seq(w2).len() - old(self).queue_seq(w2).len()),
            *old(last_executor) is None ==> old(self).bound_total() <= pre.bound_total() + (
            pre.pending_packets_count - old(self).pending_packets_count),
            *old(last_executor) is Some ==> old(self).bound_total() <= pre.bound_total() + 1 + (
            pre.pending_packets_count - old(self).pending_packets_count),
        ensures
            final(self).wf(),
            final(self).opt_handle_wf(*final(last_executor)),
            *final(last_executor) is Some,
            final(self).accepted@ == pre.accepted@,
            final(self).queue_capacity == pre.queue_capacity,
            wiring_unchanged(pre, *final(self)),
            forall|tid: u64| #[trigger] final(self).registered(tid) == pre.registered(tid),
            final(self).delivered@ - pre.delivered@ == pre.pending_packets_count - final(self).pending_packets_count,
            final(self).pending_packets_count == old(self).pending_packets_count - 1,
            forall|w2: WeakExecutorAddress| #[trigger] final(self).queue_seq(w2).len()
                <= pre.queue_seq(w2).len(),
            forall|w2: WeakExecutorAddress| #[trigger] final(self).queue_seq(w2) == pre.queue_seq(
                w2,
            ).skip(pre.queue_seq(w2).len() - final(self).queue_seq(w2).len()),
            final(self).bound_total() <= pre.bound_total() + 1 + (pre.pending_packets_count
                - final(self).pending_packets_count),
            exists|w2: WeakExecutorAddress, i: int|
                pre.has_queue(w2) && 0 <= i < pre.queue_seq(w2).len() && pre.queue_seq(w2)[i]
                    == p,
    {
        let ghost head = *self;
        let cand = WeakExecutorAddress { executor_type_id: t.0, index: t.1, nonce: t.2 };
        proof {
            lemma_find_pair_props(head.queues@, cand);
        }
        let cand_strong = ExecutorAddress {
            executor_type_id: t.0,
            index: t.1,
            nonce: t.2,
        };
        proof {
            assert(!self.in_waiting(cand)) by {
                if self.in_waiting(cand) {
                    let i2 = choose|i2: int|
                        0 <= i2 < self.entry_of(cand.executor_type_id).waiting@.len()
                            && self.entry_of(cand.executor_type_id).waiting@[
                            i2
                        ].weak_spec() == cand;
                    let ti3 = find_type_idx(self.types@, cand.executor_type_id);
                    lemma_find_type_props(self.types@, cand.executor_type_id);
                    assert(self.entry_of(cand.executor_type_id)
                        == self.types@[ti3]);
                    assert(self.types@[ti3].waiting@[i2].weak_spec() == cand);
                    assert(self.bound_count(cand) == 0);
                }
            }
            lemma_count_le_sum(self.bound@, cand);
            lemma_sum_bound_len(self.bound@);
        }
        let h_new = self.bind_instance(cand_strong);
        let ghost after_bind = *self;
        let prev2 = last_executor.take();
        let prev2_is_some = prev2.is_some();
        *last_executor = Some(h_new);
        match prev2 {
            Some(ph) => {
                proof {
                    assert(self.handle_wf(ph)) by {
                        assert(head.handle_wf(ph));
                        assert(ph.address.weak_spec() != cand);
                        assert(self.types@ == head.types@);
                        assert(self.bound_count(ph.address.weak_spec())
                            == head.bound_count(ph.address.weak_spec()));
                        assert(self.registered(ph.address.executor_type_id)
                            == head.registered(ph.address.executor_type_id));
                        assert(self.entry_of(ph.address.executor_type_id)
                            == head.entry_of(ph.address.executor_type_id));
                    }
                }
                self.retire_executor(ph);
            },
            None => {},
        }
        proof {
            assert(self.handle_wf(h_new)) by {
                assert(after_bind.handle_wf(h_new));
                match prev2 {
                    Some(ph) => {
                        assert(h_new.address.weak_spec() != ph.address.weak_spec());
                        assert(self.bound_count(h_new.address.weak_spec())
                            == after_bind.bound_count(h_new.address.weak_spec()));
                        assert(entry_same_fields(
                            after_bind.entry_of(h_new.address.executor_type_id),
                            self.entry_of(h_new.address.executor_type_id),
                        )) by {
                            let tid = h_new.address.executor_type_id;
                            lemma_find_type_props(after_bind.types@, tid);
                            assert(forall|j: int| 0 <= j < after_bind.types@.len()
                                ==> after_bind.types@[j].type_id
                                    == (#[trigger] self.types@[j]).type_id);
                            lemma_find_type_same_keys(
                                after_bind.types@,
                                self.types@,
                                tid,
                            );
                            let f = find_type_idx(after_bind.types@, tid);
                            assert(entry_same_fields(
                                after_bind.types@[f],
                                self.types@[f],
                            ));
                        }
                    },
                    None => {},
                }
            }
            assert(self.queue_seq(cand).len() > 0) by {
                assert(self.queue_seq(cand) == head.queue_seq(cand));
            }
            assert(self.has_queue(cand)) by {
                lemma_find_pair_props(self.queues@, cand);
                lemma_find_pair_props(self.bound@, cand);
            }
        }
        let p = self.get_packet_from_addr(&cand);
        proof {
            assert(self.opt_handle_wf(*last_executor));
            let ghost d = pre.queue_seq(cand).len() - head.queue_seq(cand).len();
            assert forall|w2: WeakExecutorAddress| #[trigger] self.queue_seq(w2)
                == pre.queue_seq(w2).skip(
                pre.queue_seq(w2).len() - self.queue_seq(w2).len(),
            ) by {
                if w2 == cand {
                    assert(self.queue_seq(cand) == head.queue_seq(cand).drop_first());
                    assert(pre.queue_seq(cand).skip(d).drop_first() =~= pre.queue_seq(
                        cand,
                    ).skip(d + 1));
                } else {
                    assert(self.queue_seq(w2) == head.queue_seq(w2));
                }
            }
            assert(exists|w2: WeakExecutorAddress, i: int|
                pre.has_queue(w2) && 0 <= i < pre.queue_seq(w2).len()
                    && pre.queue_seq(w2)[i] == p) by {
                assert(p == head.queue_seq(cand)[0]);
                assert(head.queue_seq(cand) == pre.queue_seq(cand).skip(d));
                assert(pre.queue_seq(cand)[d] == p);
                assert(pre.queue_seq(cand).len() > 0);
                assert(pre.has_queue(cand));
            }
            lemma_registered_congruence(pre, *self);
        }
        proof {
            assert forall|w2: WeakExecutorAddress| #[trigger] self.queue_seq(w2).len()
                <= pre.queue_seq(w2).len() by {
                if w2 == cand {
                    assert(self.queue_seq(cand).len() == head.queue_seq(cand).len() - 1);
                } else {
                    assert(self.queue_seq(w2) == head.queue_seq(w2));
                }
                assert(head.queue_seq(w2).len() <= pre.queue_seq(w2).len());
            }
            if prev2_is_some {
                assert(self.bound_total() == after_bind.bound_total() - 1);
            } else {
                assert(self.bound@ == after_bind.bound@);
            }
        }
        p
    }

    /// The allocation half of the fairness path: activate the oldest
    /// waiting address of type slot `tf`, consume its opener when the type
    /// opens groups, advertise a splittable executor for duplication, and
    /// retire the worker's previous executor.
    #[verifier::rlimit(100)]
    fn fairness_alloc(
        &mut self,
        last_executor: &mut Option<ExecutorHandle>,
        tf: usize,
        Ghost(pre): Ghost<WorkManager>,
    ) -> (addr: ExecutorAddress)
        requires
            old(self).wf(),
            old(self).opt_handle_wf(*old(last_executor)),
            tf < old(self).types@.len(),
            old(self).types@[tf as int].waiting@.len() > 0,
            old(self).accepted@ == pre.accepted@,
            old(self).queue_capacity == pre.queue_capacity,
            wiring_unchanged(pre, *old(self)),
            forall|tid: u64| #[trigger] old(self).registered(tid) == pre.registered(tid),
            old(self).delivered@ - pre.delivered@ == pre.pending_packets_count - old(self).pending_packets_count,
            old(self).pending_packets_count <= pre.pending_packets_count,
            old(self).pending_packets_count > 0,
            pre.bound_total() + pre.pending_packets_count + 2 < u64::MAX,
            pre.bound_total() + pre.pending_packets_count + 2 < usize::MAX,
            forall|w2: WeakExecutorAddress| #[trigger] old(self).queue_seq(w2).len()
                <= pre.queue_seq(w2).len(),
            forall|w2: WeakExecutorAddress| #[trigger] old(self).queue_seq(w2) == pre.queue_seq(
                w2,
            ).skip(pre.queue_seq(w2).len() - old(self).queue_seq(w2).len()),
            *old(last_executor) is None ==> old(self).bound_total() <= pre.bound_total() + (
            pre.pending_packets_count - old(self).pending_packets_count),
            *old(last_executor) is Some ==> old(self).bound_total() <= pre.bound_total() + 1 + (
            pre.pending_packets_count - old(self).pending_packets_count),
        ensures
            final(self).wf(),
            final(self).opt_handle_wf(*final(last_executor)),
            match *final(last_executor) {
                Some(h) => h.address == addr,
                None => false,
            },
            final(self).accepted@ == pre.accepted@,
            final(self).queue_capacity == pre.queue_capacity,
            wiring_unchanged(pre, *final(self)),
            forall|tid: u64| #[trigger] final(self).registered(tid) == pre.registered(tid),
            final(self).delivered@ - pre.delivered@ == pre.pending_packets_count - final(self).pending_packets_count,
            final(self).pending_packets_count <= old(self).pending_packets_count,
            final(self).pending_packets_count >= old(self).pending_packets_count - 1,
            forall|w2: WeakExecutorAddress| #[trigger] final(self).queue_seq(w2).len()
                <= pre.queue_seq(w2).len(),
            forall|w2: WeakExecutorAddress| #[trigger] final(self).queue_seq(w2) == pre.queue_seq(
                w2,
            ).skip(pre.queue_seq(w2).len() - final(self).queue_seq(w2).len()),
            final(self).bound_total() <= pre.bound_total() + 1 + (pre.pending_packets_count
                - final(self).pending_packets_count),
            final(self).bound_total() > 0,
            final(self).registered(addr.executor_type_id),
            final(self).has_queue(addr.weak_spec()),
            final(self).bound_count(addr.weak_spec()) >= 1,
            final(self).queue_seq(addr.weak_spec()).len() == 0 ==> final(self).pending_packets_count
                < old(self).pending_packets_count,
    {
        let ghost head = *self;
        proof {
            lemma_sum_bound_len(self.bound@);
            lemma_count_le_sum(self.bound@, self.types@[tf as int].waiting@[0].weak_spec());
        }
        let addr = self.activate_front(tf);
        let ghost after_act = *self;
        let w3 = addr.to_weak();
        let ti3 = match self.type_pos(addr.executor_type_id) {
            Some(i) => i,
            None => {
                proof {
                    assert(false);
                }
                0
            },
        };
        let mcpu = match self.types[ti3].executor_type {
            ExecutorType::MultipleCommonPacketUnits => true,
            _ => false,
        };
        if mcpu {
            // Group opening: the first packet is consumed by the
            // construction of the executor group.
            let opener = self.get_packet_from_addr(&w3);
            let _ = opener;
        }
        let ghost after_open = *self;
        let h_new = self.new_handle_for(addr);
        let is_split = h_new.splittable;
        if is_split {
            let trip2 = (addr.executor_type_id, addr.index, addr.nonce);
            let ghost dup_now = self.dup_view();
            split_queue_push(&mut self.duplicable_executors, trip2);
            proof {
                assert(triple_weak(trip2) == w3);
                assert(self.dup_view() == dup_now.push(trip2));
                assert(self.wf_dup()) by {
                    assert forall|k: int| 0 <= k < dup_now.len() implies
                        #[trigger] dup_now[k] != trip2 by {
                        if dup_now[k] == trip2 {
                            assert(head.bound_count(triple_weak(dup_now[k]))
                                >= 1);
                            assert(head.bound_count(w3) == 0);
                        }
                    }
                    assert(forall|k: int| 0 <= k < self.dup_view().len()
                        ==> #[trigger] self.dup_view()[k] == if k < dup_now.len() {
                            dup_now[k]
                        } else {
                            trip2
                        });
                }
            }
        }
        let prev = last_executor.take();
        let prev_is_some = prev.is_some();
        *last_executor = Some(h_new);
        let ghost before_ret = *self;
        match prev {
            Some(ph) => {
                proof {
                    assert(before_ret.handle_wf(ph)) by {
                        assert(head.handle_wf(ph));
                        assert(ph.address.weak_spec() != w3) by {
                            if ph.address.weak_spec() == w3 {
                                assert(head.bound_count(w3) == 0);
                            }
                        }
                        assert(entry_same_fields(
                            head.entry_of(ph.address.executor_type_id),
                            before_ret.entry_of(ph.address.executor_type_id),
                        )) by {
                            let tid = ph.address.executor_type_id;
                            lemma_find_type_props(head.types@, tid);
                            assert(before_ret.types@ == after_act.types@);
                            assert(forall|j: int| 0 <= j < head.types@.len()
                                ==> head.types@[j].type_id
                                    == (#[trigger] before_ret.types@[j]).type_id);
                            lemma_find_type_same_keys(head.types@, before_ret.types@, tid);
                            let f = find_type_idx(head.types@, tid);
                            assert(entry_same_fields(head.types@[f], before_ret.types@[f]));
                        }
                        assert(before_ret.registered(ph.address.executor_type_id)) by {
                            assert(forall|j: int| 0 <= j < head.types@.len()
                                ==> head.types@[j].type_id
                                    == (#[trigger] before_ret.types@[j]).type_id);
                            lemma_find_type_same_keys(
                                head.types@,
                                before_ret.types@,
                                ph.address.executor_type_id,
                            );
                        }
                        assert(before_ret.bound@ == after_act.bound@);
                        assert(after_act.bound_count(ph.address.weak_spec())
                            == head.bound_count(ph.address.weak_spec()));
                        assert(before_ret.bound_count(ph.address.weak_spec())
                            == after_act.bound_count(ph.address.weak_spec()));
                    }
                    assert(self.handle_wf(ph)) by {
                        assert(*self == before_ret);
                    }
                }
                self.retire_executor(ph);
            },
            None => {},
        }
        proof {
            assert(self.handle_wf(h_new)) by {
                assert(before_ret.handle_wf(h_new));
                match prev {
                    Some(ph) => {
                        assert(h_new.address.weak_spec() != ph.address.weak_spec());
                        assert(entry_same_fields(
                            before_ret.entry_of(h_new.address.executor_type_id),
                            self.entry_of(h_new.address.executor_type_id),
                        )) by {
                            let tid2 = h_new.address.executor_type_id;
                            lemma_find_type_props(before_ret.types@, tid2);
                            assert(forall|j: int| 0 <= j < before_ret.types@.len()
                                ==> before_ret.types@[j].type_id
                                    == (#[trigger] self.types@[j]).type_id);
                            lemma_find_type_same_keys(before_ret.types@, self.types@, tid2);
                            let f2 = find_type_idx(before_ret.types@, tid2);
                            assert(entry_same_fields(before_ret.types@[f2], self.types@[f2]));
                        }
                        assert(self.bound_count(h_new.address.weak_spec())
                            == before_ret.bound_count(h_new.address.weak_spec()));
                        assert(self.registered(h_new.address.executor_type_id)) by {
                            lemma_find_type_same_keys(
                                before_ret.types@,
                                self.types@,
                                h_new.address.executor_type_id,
                            );
                        }
                    },
                    None => {},
                }
            }
        }

        proof {
            assert(self.pending_packets_count == head.pending_packets_count - (
            if mcpu {
                1int
            } else {
                0int
            }));
            // Queues: the activation left every queue as it stood, except
            // that a group opener was taken from the front of the new
            // address's queue.
            if !mcpu {
                assert(forall|w2: WeakExecutorAddress| #[trigger] after_open.queue_seq(w2)
                    == after_act.queue_seq(w2)) by {
                    assert(after_open.queues@ == after_act.queues@);
                }
            }
            assert(forall|w2: WeakExecutorAddress| #[trigger] before_ret.queue_seq(w2)
                == after_open.queue_seq(w2)) by {
                assert(before_ret.queues@ == after_open.queues@);
            }
            assert(forall|w2: WeakExecutorAddress| #[trigger] self.queue_seq(w2)
                == before_ret.queue_seq(w2)) by {
                match prev {
                    Some(ph) => {},
                    None => {
                        assert(self.queues@ == before_ret.queues@);
                    },
                }
            }
            lemma_fairness_suffix(pre, head, after_act, after_open, before_ret, *self, w3, mcpu);
            assert forall|tid: u64| #[trigger] self.registered(tid) == pre.registered(tid) by {
                assert(forall|j: int| 0 <= j < head.types@.len()
                    ==> head.types@[j].type_id == (#[trigger] self.types@[j]).type_id);
                lemma_find_type_same_keys(head.types@, self.types@, tid);
                assert(head.registered(tid) == pre.registered(tid));
            }
            assert(self.bound_count(w3) >= 1) by {
                match prev {
                    Some(ph) => {
                        assert(ph.address.weak_spec() != w3);
                        assert(self.bound_count(w3) == before_ret.bound_count(w3));
                    },
                    None => {},
                }
                assert(before_ret.bound_count(w3) == after_act.bound_count(w3)) by {
                    assert(before_ret.bound@ == after_act.bound@);
                }
            }
            assert(self.has_queue(w3)) by {
                lemma_find_pair_props(self.bound@, w3);
                assert(find_pair_idx(self.bound@, w3) >= 0);
            }
            assert(self.bound_total() > 0) by {
                lemma_count_le_sum(self.bound@, w3);
            }
            assert(after_act.bound_total() == head.bound_total() + 1);
            if prev_is_some {
                assert(self.bound_total() == before_ret.bound_total() - 1);
                assert(before_ret.bound_total() == after_act.bound_total()) by {
                    assert(before_ret.bound@ == after_act.bound@);
                }
            } else {
                assert(self.bound_total() == after_act.bound_total()) by {
                    assert(self.bound@ == after_act.bound@);
                }
            }
            assert(self.queue_seq(w3).len() == 0 ==> self.pending_packets_count
                < head.pending_packets_count) by {
                if !mcpu {
                    assert(self.queue_seq(w3) == after_act.queue_seq(w3));
                    assert(after_act.queue_seq(w3).len() > 0);
                }
            }
        }
        addr
    }

    /// The fairness path of `find_work`: allocate an executor for the oldest
    /// waiting address, then deliver a packet from its queue when one is
    /// ready. Returns the delivery, the end of work, or nothing when the
    /// caller should try another pass.
    #[verifier::rlimit(100)]
    fn fairness_step(
        &mut self,
        last_executor: &mut Option<ExecutorHandle>,
        tf: usize,
        Ghost(pre): Ghost<WorkManager>,
    ) -> (r: Option<Option<PacketAny>>)
        requires
            old(self).wf(),
            old(self).opt_handle_wf(*old(last_executor)),
            tf < old(self).types@.len(),
            old(self).types@[tf as int].waiting@.len() > 0,
            old(self).accepted@ == pre.accepted@,
            old(self).queue_capacity == pre.queue_capacity,
            wiring_unchanged(pre, *old(self)),
            forall|tid: u64| #[trigger] old(self).registered(tid) == pre.registered(tid),
            old(self).delivered@ - pre.delivered@ == pre.pending_packets_count - old(self).pending_packets_count,
            old(self).pending_packets_count <= pre.pending_packets_count,
            old(self).pending_packets_count > 0,
            pre.bound_total() + pre.pending_packets_count + 2 < u64::MAX,
            pre.bound_total() + pre.pending_packets_count + 2 < usize::MAX,
            forall|w2: WeakExecutorAddress| #[trigger] old(self).queue_seq(w2).len()
                <= pre.queue_seq(w2).len(),
            forall|w2: WeakExecutorAddress| #[trigger] old(self).queue_seq(w2) == pre.queue_seq(
                w2,
            ).skip(pre.queue_seq(w2).len() - old(self).queue_seq(w2).len()),
            *old(last_executor) is None ==> old(self).bound_total() <= pre.bound_total() + (
            pre.pending_packets_count - old(self).pending_packets_count),
            *old(last_executor) is Some ==> old(self).bound_total() <= pre.bound_total() + 1 + (
            pre.pending_packets_count - old(self).pending_packets_count),
        ensures
            final(self).wf(),
            final(self).opt_handle_wf(*final(last_executor)),
            *final(last_executor) is Some,
            final(self).accepted@ == pre.accepted@,
            final(self).queue_capacity == pre.queue_capacity,
            wiring_unchanged(pre, *final(self)),
            forall|tid: u64| #[trigger] final(self).registered(tid) == pre.registered(tid),
            final(self).delivered@ - pre.delivered@ == pre.pending_packets_count - final(self).pending_packets_count,
            final(self).pending_packets_count <= pre.pending_packets_count,
            forall|w2: WeakExecutorAddress| #[trigger] final(self).queue_seq(w2).len()
                <= pre.queue_seq(w2).len(),
            forall|w2: WeakExecutorAddress| #[trigger] final(self).queue_seq(w2) == pre.queue_seq(
                w2,
            ).skip(pre.queue_seq(w2).len() - final(self).queue_seq(w2).len()),
            final(self).bound_total() <= pre.bound_total() + 1 + (pre.pending_packets_count
                - final(self).pending_packets_count),
            final(self).bound_total() > 0,
            match r {
                Some(ro) => match ro {
                    Some(p) => final(self).pending_packets_count < old(self).pending_packets_count
                        && exists|w2: WeakExecutorAddress, i: int|
                        pre.has_queue(w2) && 0 <= i < pre.queue_seq(w2).len() && pre.queue_seq(
                            w2,
                        )[i] == p,
                    None => final(self).pending_packets_count == 0 && final(self).waiting_total()
                        == 0,
                },
                None => final(self).pending_packets_count < old(self).pending_packets_count
                    && final(self).pending_packets_count > 0,
            },
    {
        let addr = self.fairness_alloc(last_executor, tf, Ghost(pre));
        let w3 = addr.to_weak();
        let ghost mid = *self;
        let mut deliverable = false;
        match self.queue_pos(&w3) {
            Some(qi) => {
                if self.queues[qi].1.len() > 0 {
                    deliverable = true;
                }
            },
            None => {},
        }
        if deliverable {
            let p = self.get_packet_from_addr(&w3);
            proof {
                assert(self.opt_handle_wf(*last_executor)) by {
                    match *last_executor {
                        Some(h) => {
                            assert(mid.handle_wf(h));
                            assert(self.types@ == mid.types@);
                            assert(self.bound@ == mid.bound@);
                        },
                        None => {},
                    }
                }
                let d = pre.queue_seq(w3).len() - mid.queue_seq(w3).len();
                assert(mid.queue_seq(w3) == pre.queue_seq(w3).skip(d));
                assert forall|w2: WeakExecutorAddress| #[trigger] self.queue_seq(w2)
                    == pre.queue_seq(w2).skip(
                    pre.queue_seq(w2).len() - self.queue_seq(w2).len(),
                ) && self.queue_seq(w2).len() <= pre.queue_seq(w2).len() by {
                    if w2 == w3 {
                        assert(self.queue_seq(w3) == mid.queue_seq(w3).drop_first());
                        assert(pre.queue_seq(w3).skip(d).drop_first() =~= pre.queue_seq(w3).skip(
                            d + 1,
                        ));
                    } else {
                        assert(self.queue_seq(w2) == mid.queue_seq(w2));
                        assert(mid.queue_seq(w2) == pre.queue_seq(w2).skip(
                            pre.queue_seq(w2).len() - mid.queue_seq(w2).len(),
                        ));
                    }
                }
                assert(exists|w2: WeakExecutorAddress, i: int|
                    pre.has_queue(w2) && 0 <= i < pre.queue_seq(w2).len() && pre.queue_seq(w2)[i]
                        == p) by {
                    assert(p == mid.queue_seq(w3)[0]);
                    assert(pre.queue_seq(w3)[d] == p);
                    assert(pre.queue_seq(w3).len() > 0);
                    assert(pre.has_queue(w3));
                }
                assert forall|tid: u64| #[trigger] self.registered(tid) == pre.registered(
                    tid,
                ) by {
                    assert(mid.registered(tid) == pre.registered(tid));
                    assert(self.registered(tid) == mid.registered(tid)) by {
                        assert(self.types@ == mid.types@);
                    }
                }
            }
            return Some(Some(p));
        }
        if self.pending_packets_count == 0 {
            proof {
                lemma_no_pending_no_waiting(*self);
            }
            return Some(None);
        }
        proof {
            assert(self.queue_seq(w3).len() == 0);
            assert(self.pending_packets_count < old(self).pending_packets_count);
        }
        None
    }

    /// The worker's previous executor still has queued input.
    pub open spec fn locality_hit(self, lo: Option<ExecutorHandle>) -> bool {
        match lo {
            Some(h) => self.has_queue(h.address.weak_spec()) && self.queue_seq(
                h.address.weak_spec(),
            ).len() > 0,
            None => false,
        }
    }

    /// One pass of the worker scheduling policy: locality first (keep feeding
    /// the worker's previous executor), then duplication (clone a splittable
    /// executor another worker left in the rotation), then fairness (allocate
    /// the oldest waiting address, consuming its opener packet for a
    /// group-opening type). Returns the packet to process, or nothing when no
    /// path can deliver; the caller then parks on its condition variable and
    /// calls again.
    #[verifier::rlimit(100)]
    #[verifier::loop_isolation(false)]
    pub fn find_work(&mut self, last_executor: &mut Option<ExecutorHandle>) -> (r: Option<
        PacketAny,
    >)
        requires
            old(self).wf(),
            old(self).opt_handle_wf(*old(last_executor)),
            old(self).bound_total() + old(self).pending_packets_count + 2 < u64::MAX,
            old(self).bound_total() + old(self).pending_packets_count + 2 < usize::MAX,
        ensures
            final(self).wf(),
            final(self).opt_handle_wf(*final(last_executor)),
            final(self).accepted@ == old(self).accepted@,
            final(self).queue_capacity == old(self).queue_capacity,
            wiring_unchanged(*old(self), *final(self)),
            forall|tid: u64| #[trigger] final(self).registered(tid) == old(self).registered(tid),
            final(self).delivered@ - old(self).delivered@ == old(self).pending_packets_count
                - final(self).pending_packets_count,
            final(self).pending_packets_count <= old(self).pending_packets_count,
            old(self).pending_packets_count == 0 ==> r is None && *final(self) == *old(self)
                && *final(last_executor) == *old(last_executor),
            r is None ==> final(self).waiting_total() == 0,
            r is Some ==> final(self).pending_packets_count < old(self).pending_packets_count,
            r is Some ==> *final(last_executor) is Some,
            old(self).locality_hit(*old(last_executor)) ==> match *old(last_executor) {
                Some(h) => {
                    &&& r == Some(old(self).queue_seq(h.address.weak_spec())[0])
                    &&& *final(last_executor) == *old(last_executor)
                    &&& final(self).pending_packets_count == old(self).pending_packets_count - 1
                    &&& final(self).queue_seq(h.address.weak_spec()) == old(self).queue_seq(
                        h.address.weak_spec(),
                    ).drop_first()
                    &&& queues_unchanged_except(*old(self), *final(self), h.address.weak_spec())
                },
                None => false,
            },
            match r {
                Some(p) => exists|w2: WeakExecutorAddress, i: int|
                    old(self).has_queue(w2) && 0 <= i < old(self).queue_seq(w2).len()
                        && old(self).queue_seq(w2)[i] == p,
                None => true,
            },
            old(self).pending_packets_count > 0 && old(self).bound_total() == 0 ==> (r is Some
                || final(self).bound_total() > 0),
    {
        let ghost pre = *self;
        let ghost pre_last = *last_executor;
        if self.pending_packets_count == 0 {
            proof {
                lemma_no_pending_no_waiting(*self);
                if pre.locality_hit(pre_last) {
                    match pre_last {
                        Some(h) => {
                            let f = find_pair_idx(pre.queues@, h.address.weak_spec());
                            lemma_find_pair_props(pre.queues@, h.address.weak_spec());
                            lemma_sum_queue_lower(pre.queues@, f);
                        },
                        None => {},
                    }
                }
            }
            return None;
        }
        proof {
            assert forall|w2: WeakExecutorAddress| #[trigger] self.queue_seq(w2)
                == pre.queue_seq(w2).skip(
                pre.queue_seq(w2).len() - self.queue_seq(w2).len(),
            ) by {
                assert(pre.queue_seq(w2).skip(0) =~= pre.queue_seq(w2));
            }
        }
        loop
            invariant
                self.wf(),
                self.opt_handle_wf(*last_executor),
                self.accepted@ == pre.accepted@,
                self.queue_capacity == pre.queue_capacity,
                wiring_unchanged(pre, *self),
                forall|tid: u64| #[trigger] self.registered(tid) == pre.registered(tid),
                self.delivered@ - pre.delivered@ == pre.pending_packets_count
                    - self.pending_packets_count,
                self.pending_packets_count <= pre.pending_packets_count,
                self.pending_packets_count > 0,
                pre.bound_total() + pre.pending_packets_count + 2 < u64::MAX,
                pre.bound_total() + pre.pending_packets_count + 2 < usize::MAX,
                pre.locality_hit(pre_last) ==> *self == pre && *last_executor == pre_last,
                forall|w2: WeakExecutorAddress| #[trigger] self.queue_seq(w2).len()
                    <= pre.queue_seq(w2).len(),
                forall|w2: WeakExecutorAddress| #[trigger] self.queue_seq(w2)
                    == pre.queue_seq(w2).skip(
                    pre.queue_seq(w2).len() - self.queue_seq(w2).len(),
                ),
                pre.bound_total() == 0 && *last_executor is None ==> self.bound_total() == 0,
                *last_executor is None ==> self.bound_total() <= pre.bound_total() + (
                pre.pending_packets_count - self.pending_packets_count),
                *last_executor is Some ==> self.bound_total() <= pre.bound_total() + 1 + (
                pre.pending_packets_count - self.pending_packets_count),
            decreases self.pending_packets_count,
        {
            let ghost head = *self;
            let ghost head_last = *last_executor;
            // Locality: resume the worker's previous executor when its queue
            // still holds packets.
            let la: Option<ExecutorAddress> = match &*last_executor {
                Some(h) => Some(h.address),
                None => None,
            };
            if let Some(addr) = la {
                let w = addr.to_weak();
                let mut hit = false;
                match self.queue_pos(&w) {
                    Some(qi) => {
                        if self.queues[qi].1.len() > 0 {
                            hit = true;
                        }
                    },
                    None => {},
                }
                if hit {
                    let p = self.get_packet_from_addr(&w);
                    proof {
                        assert(self.opt_handle_wf(*last_executor)) by {
                            match *last_executor {
                                Some(h) => {
                                    assert(head.handle_wf(h));
                                },
                                None => {},
                            }
                        }
                        let ghost d = pre.queue_seq(w).len() - head.queue_seq(w).len();
                        assert forall|w2: WeakExecutorAddress| #[trigger] self.queue_seq(w2)
                            == pre.queue_seq(w2).skip(
                            pre.queue_seq(w2).len() - self.queue_seq(w2).len(),
                        ) by {
                            if w2 == w {
                                assert(self.queue_seq(w) == head.queue_seq(w).drop_first());
                                assert(pre.queue_seq(w).skip(d).drop_first() =~= pre.queue_seq(
                                    w,
                                ).skip(d + 1));
                            } else {
                                assert(self.queue_seq(w2) == head.queue_seq(w2));
                            }
                        }
                        assert(exists|w2: WeakExecutorAddress, i: int|
                            pre.has_queue(w2) && 0 <= i < pre.queue_seq(w2).len()
                                && pre.queue_seq(w2)[i] == p) by {
                            assert(p == head.queue_seq(w)[0]);
                            assert(head.queue_seq(w) == pre.queue_seq(w).skip(d));
                            assert(pre.queue_seq(w)[d] == p);
                            assert(pre.queue_seq(w).len() > 0);
                            assert(pre.has_queue(w));
                        }
                        if pre.locality_hit(pre_last) {
                            assert(head == pre && head_last == pre_last);
                            assert(d == 0);
                            assert(pre.queue_seq(w).skip(0) =~= pre.queue_seq(w));
                            assert(p == pre.queue_seq(w)[0]);
                        }
                        lemma_registered_congruence(pre, *self);
                    }
                    return Some(p);
                }
            }
            proof {
                assert(!pre.locality_hit(pre_last)) by {
                    if pre.locality_hit(pre_last) {
                        assert(*self == pre && *last_executor == pre_last);
                        match pre_last {
                            Some(h) => {
                                lemma_find_pair_props(pre.queues@, h.address.weak_spec());
                            },
                            None => {},
                        }
                    }
                }
            }
            // Duplication: rotate one candidate through the splittable-address
            // queue and clone its executor when it is another worker's stream
            // with visible backlog.
            let ghost dup_orig = self.dup_view();
            let popped = split_queue_pop(&mut self.duplicable_executors);
            if let Some(t) = popped {
                let cand = WeakExecutorAddress { executor_type_id: t.0, index: t.1, nonce: t.2 };
                proof {
                    assert(triple_weak(dup_orig[0]) == cand);
                    assert(head.bound_count(cand) >= 1);
                    assert(head.registered(cand.executor_type_id));
                    assert(head.entry_of(cand.executor_type_id).splittable);
                }
                let own = match &*last_executor {
                    Some(h) => h.address.to_weak() == cand,
                    None => false,
                };
                let mut take = false;
                if !own {
                    match self.queue_pos(&cand) {
                        Some(qi) => {
                            if self.queues[qi].1.len() > 0 {
                                take = true;
                            }
                        },
                        None => {},
                    }
                }
                split_queue_push(&mut self.duplicable_executors, t);
                proof {
                    assert(self.dup_view() =~= dup_orig.drop_first().push(t));
                    assert(self.wf_dup()) by {
                        assert(forall|k: int| 0 <= k < self.dup_view().len()
                            ==> #[trigger] self.dup_view()[k] == if k < dup_orig.len() - 1 {
                                dup_orig[k + 1]
                            } else {
                                dup_orig[0]
                            });
                    }
                }
                if take {
                    proof {
                        assert forall|tid: u64| #[trigger] self.registered(tid)
                            == pre.registered(tid) by {
                            assert(head.registered(tid) == pre.registered(tid));
                            assert(self.registered(tid) == head.registered(tid)) by {
                                assert(self.types@ == head.types@);
                            }
                        }
                        assert forall|w2: WeakExecutorAddress| #[trigger] self.queue_seq(w2)
                            == pre.queue_seq(w2).skip(
                            pre.queue_seq(w2).len() - self.queue_seq(w2).len(),
                        ) && self.queue_seq(w2).len() <= pre.queue_seq(w2).len() by {
                            assert(self.queue_seq(w2) == head.queue_seq(w2)) by {
                                assert(self.queues@ == head.queues@);
                            }
                            assert(head.queue_seq(w2) == pre.queue_seq(w2).skip(
                                pre.queue_seq(w2).len() - head.queue_seq(w2).len(),
                            ));
                        }
                    }
                    let p = self.duplicate_step(last_executor, t, Ghost(pre));
                    return Some(p);
                }
            }
            // Fairness: allocate an executor for the oldest waiting address
            // of the first type that has one.
            let ghost before_scan = *self;
            let n = self.types.len();
            let mut tfound: Option<usize> = None;
            let mut t2: usize = 0;
            while t2 < n
                invariant
                    n == self.types@.len(),
                    t2 <= n,
                    *self == before_scan,
                    tfound is None ==> forall|j: int|
                        0 <= j < t2 ==> (#[trigger] self.types@[j]).waiting@.len() == 0,
                    match tfound {
                        Some(tf) => tf < n && self.types@[tf as int].waiting@.len() > 0,
                        None => true,
                    },
                decreases n - t2,
            {
                if self.types[t2].waiting.len() > 0 {
                    tfound = Some(t2);
                    break ;
                }
                t2 = t2 + 1;
            }
            proof {
                assert forall|tid: u64| #[trigger] self.registered(tid) == pre.registered(
                    tid,
                ) by {
                    assert(head.registered(tid) == pre.registered(tid));
                    assert(self.registered(tid) == head.registered(tid)) by {
                        assert(self.types@ == head.types@);
                    }
                }
                assert forall|w2: WeakExecutorAddress| #[trigger] self.queue_seq(w2)
                    == pre.queue_seq(w2).skip(
                    pre.queue_seq(w2).len() - self.queue_seq(w2).len(),
                ) && self.queue_seq(w2).len() <= pre.queue_seq(w2).len() by {
                    assert(self.queue_seq(w2) == head.queue_seq(w2)) by {
                        assert(self.queues@ == head.queues@);
                    }
                    assert(head.queue_seq(w2) == pre.queue_seq(w2).skip(
                        pre.queue_seq(w2).len() - head.queue_seq(w2).len(),
                    ));
                }
            }
            match tfound {
                Some(tf) => {
                    match self.fairness_step(last_executor, tf, Ghost(pre)) {
                        Some(ro) => {
                            return ro;
                        },
                        None => {},
                    }
                },
                None => {
                    proof {
                        assert(self.opt_handle_wf(*last_executor)) by {
                            match *last_executor {
                                Some(hh) => {
                                    assert(head.handle_wf(hh));
                                    assert(self.types@ == head.types@);
                                    assert(self.bound@ == head.bound@);
                                },
                                None => {},
                            }
                        }
                        lemma_sum_waiting_zero(self.types@);
                        lemma_registered_congruence(pre, *self);
                        if pre.bound_total() == 0 {
                            let qi = lemma_sum_queue_pos(self.queues@);
                            let k = self.queues@[qi].0;
                            assert(!self.in_waiting(k)) by {
                                if self.in_waiting(k) {
                                    let i2 = choose|i2: int|
                                        0 <= i2 < self.entry_of(
                                            k.executor_type_id,
                                        ).waiting@.len() && self.entry_of(
                                            k.executor_type_id,
                                        ).waiting@[i2].weak_spec() == k;
                                    let tk = find_type_idx(self.types@, k.executor_type_id);
                                    lemma_find_type_props(self.types@, k.executor_type_id);
                                    assert(self.types@[tk].waiting@.len() == 0);
                                }
                            }
                            assert(self.bound_count(k) >= 1);
                            lemma_count_le_sum(self.bound@, k);
                            assert(self.bound_total() > 0);
                        }
                    }
                    return None;
                },
            }
        }
    }
}

/// Every input queue but the one keyed by `w` is the same in `post` as in
/// `pre`.
pub open spec fn queues_unchanged_except(pre: WorkManager, post: WorkManager, w: WeakExecutorAddress) -> bool {
    &&& forall|w2: WeakExecutorAddress|
        w2 != w ==> #[trigger] post.queue_seq(w2) == pre.queue_seq(w2)
    &&& forall|w2: WeakExecutorAddress|
        w2 != w ==> #[trigger] post.has_queue(w2) == pre.has_queue(w2)
}

/// Two registrations for the same type with the same capabilities and
/// wiring; only the waiting list may differ.
pub open spec fn entry_same_fields(a: ExecutorTypeEntry, b: ExecutorTypeEntry) -> bool {
    &&& a.type_id == b.type_id
    &&& a.executor_type == b.executor_type
    &&& a.splittable == b.splittable
    &&& a.alloc_mode == b.alloc_mode
    &&& a.pool_mode == b.pool_mode
    &&& a.output_type_id == b.output_type_id
    &&& a.arrival_order == b.arrival_order
}

/// No single address binds more instances than exist in total.
pub proof fn lemma_count_le_sum(s: Seq<(WeakExecutorAddress, u64)>, w: WeakExecutorAddress)
    ensures
        count_of(s, w) <= sum_bound_counts(s),
{
    lemma_find_pair_props(s, w);
    if find_pair_idx(s, w) >= 0 {
        lemma_sum_bound_lower(s, find_pair_idx(s, w));
    }
}

/// With no pending packet, no address is waiting: every waiting address owns
/// a non-empty queue, and conservation says all queues are drained.
pub proof fn lemma_no_pending_no_waiting(m: WorkManager)
    requires
        m.wf(),
        m.pending_packets_count == 0,
    ensures
        m.waiting_total() == 0,
{
    assert forall|t: int| 0 <= t < m.types@.len() implies (#[trigger] m.types@[t]).waiting@.len()
        == 0 by {
        if m.types@[t].waiting@.len() > 0 {
            let a = m.types@[t].waiting@[0];
            assert(m.queue_seq(a.weak_spec()).len() > 0);
            let f = find_pair_idx(m.queues@, a.weak_spec());
            lemma_find_pair_props(m.queues@, a.weak_spec());
            lemma_sum_queue_lower(m.queues@, f);
        }
    }
    lemma_sum_waiting_zero(m.types@);
}

/// The registration table of `post` matches `pre` except possibly for the
/// waiting lists.
pub open spec fn wiring_unchanged(pre: WorkManager, post: WorkManager) -> bool {
    &&& post.types@.len() == pre.types@.len()
    &&& forall|i: int| 0 <= i < pre.types@.len()
        ==> entry_same_fields(pre.types@[i], #[trigger] post.types@[i])
}


/// Chains the per-step queue effects of a fairness allocation into the
/// suffix relation against the state the whole pass started from.
pub proof fn lemma_fairness_suffix(
    pre: WorkManager,
    head: WorkManager,
    after_act: WorkManager,
    after_open: WorkManager,
    before_ret: WorkManager,
    fin: WorkManager,
    w3: WeakExecutorAddress,
    mcpu: bool,
)
    requires
        forall|w2: WeakExecutorAddress| #[trigger] head.queue_seq(w2).len() <= pre.queue_seq(
            w2,
        ).len(),
        forall|w2: WeakExecutorAddress| #[trigger] head.queue_seq(w2) == pre.queue_seq(w2).skip(
            pre.queue_seq(w2).len() - head.queue_seq(w2).len(),
        ),
        forall|w2: WeakExecutorAddress| #[trigger] after_act.queue_seq(w2) == head.queue_seq(w2),
        mcpu ==> after_open.queue_seq(w3) == after_act.queue_seq(w3).drop_first()
            && after_act.queue_seq(w3).len() > 0,
        mcpu ==> (forall|w2: WeakExecutorAddress|
            w2 != w3 ==> #[trigger] after_open.queue_seq(w2) == after_act.queue_seq(w2)),
        !mcpu ==> (forall|w2: WeakExecutorAddress| #[trigger] after_open.queue_seq(w2)
            == after_act.queue_seq(w2)),
        forall|w2: WeakExecutorAddress| #[trigger] before_ret.queue_seq(w2) == after_open.queue_seq(
            w2,
        ),
        forall|w2: WeakExecutorAddress| #[trigger] fin.queue_seq(w2) == before_ret.queue_seq(w2),
    ensures
        forall|w2: WeakExecutorAddress| #[trigger] fin.queue_seq(w2).len() <= pre.queue_seq(
            w2,
        ).len(),
        forall|w2: WeakExecutorAddress| #[trigger] fin.queue_seq(w2) == pre.queue_seq(w2).skip(
            pre.queue_seq(w2).len() - fin.queue_seq(w2).len(),
        ),
{
    assert forall|w2: WeakExecutorAddress| #[trigger] fin.queue_seq(w2) == pre.queue_seq(w2).skip(
        pre.queue_seq(w2).len() - fin.queue_seq(w2).len(),
    ) && fin.queue_seq(w2).len() <= pre.queue_seq(w2).len() by {
        if mcpu && w2 == w3 {
            let dh = pre.queue_seq(w3).len() - head.queue_seq(w3).len();
            assert(head.queue_seq(w3) == pre.queue_seq(w3).skip(dh));
            assert(after_act.queue_seq(w3) == head.queue_seq(w3));
            assert(fin.queue_seq(w3) == after_act.queue_seq(w3).drop_first());
            assert(pre.queue_seq(w3).skip(dh).drop_first() =~= pre.queue_seq(w3).skip(dh + 1));
        } else {
            assert(after_open.queue_seq(w2) == after_act.queue_seq(w2));
            assert(fin.queue_seq(w2) == head.queue_seq(w2));
        }
    }
}

/// A table whose entries keep their keys keeps every registration.
pub proof fn lemma_registered_congruence(a: WorkManager, b: WorkManager)
    requires
        a.types@.len() == b.types@.len(),
        forall|j: int| 0 <= j < a.types@.len()
            ==> a.types@[j].type_id == (#[trigger] b.types@[j]).type_id,
    ensures
        forall|tid: u64| #[trigger] b.registered(tid) == a.registered(tid),
{
    lemma_types_same_keys_congruence(a, b);
    assert forall|tid: u64| #[trigger] b.registered(tid) == a.registered(tid) by {
        assert(find_type_idx(b.types@, tid) == find_type_idx(a.types@, tid));
    }
}

/// Two type tables with the same keys at every position resolve every lookup
/// to the same index.
pub proof fn lemma_types_same_keys_congruence(pre: WorkManager, post: WorkManager)
    requires
        pre.types@.len() == post.types@.len(),
        forall|j: int| 0 <= j < pre.types@.len()
            ==> pre.types@[j].type_id == #[trigger] post.types@[j].type_id,
    ensures
        forall|tid: u64|
            #[trigger] find_type_idx(post.types@, tid) == find_type_idx(pre.types@, tid),
{
    assert forall|tid: u64|
        #[trigger] find_type_idx(post.types@, tid) == find_type_idx(pre.types@, tid) by {
        lemma_find_type_same_keys(pre.types@, post.types@, tid);
    }
}

} // verus!
