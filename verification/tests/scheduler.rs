//! End-to-end runs of the scheduler and its helper types, driven as a worker
//! thread would drive them: register types, feed packets, pull work, retire.

use exec_core::address::ExecutorAddress;
use exec_core::objects_pool::ObjectsPool;
use exec_core::packet::{PacketAny, PacketsPool};
use exec_core::work_manager::{
    ExecOutputMode, ExecutorAllocMode, ExecutorHandle, ExecutorType, PoolAllocMode, WorkManager,
};

fn single_unit(m: &mut WorkManager, type_id: u64) {
    m.add_executors(
        type_id,
        ExecutorType::SingleUnit,
        false,
        ExecutorAllocMode::Fixed { count: 4 },
        PoolAllocMode::NoPool,
        0,
    );
}

#[test]
fn registration_is_visible() {
    let mut m = WorkManager::new(16, 8);
    assert!(!m.is_registered(1));
    single_unit(&mut m, 1);
    assert!(m.is_registered(1));
    assert!(!m.is_registered(2));
}

#[test]
fn echo_stage_delivers_every_packet_once() {
    let mut m = WorkManager::new(16, 32);
    single_unit(&mut m, 1);
    let a = ExecutorAddress::new(1, 0, 7);
    let n: u64 = 10;
    for i in 0..n {
        let r = m.add_input_packet(a, PacketAny::new(5, vec![i]));
        assert!(r.is_ok());
        assert_eq!(m.pending_packets_count, i + 1);
    }
    let mut last: Option<ExecutorHandle> = None;
    let mut got: Vec<u64> = Vec::new();
    let mut spins = 0;
    while m.pending_packets_count > 0 {
        if let Some(p) = m.find_work(&mut last) {
            assert_eq!(p.type_tag, 5);
            got.extend(p.data.iter());
        }
        spins += 1;
        assert!(spins < 1000, "scheduler failed to drain");
    }
    got.sort();
    assert_eq!(got, (0..n).collect::<Vec<u64>>());
    assert_eq!(m.pending_packets_count, 0);
}

#[test]
fn echo_stage_ten_thousand_packets() {
    let mut m = WorkManager::new(16, 8);
    single_unit(&mut m, 1);
    let a = ExecutorAddress::new(1, 0, 7);
    let mut last: Option<ExecutorHandle> = None;
    let mut delivered: u64 = 0;
    for i in 0..10_000u64 {
        assert!(m.add_input_packet(a, PacketAny::new(5, vec![i])).is_ok());
        // The first pull may only bind the executor; the next one must
        // deliver from its queue.
        let mut p = None;
        for _ in 0..3 {
            p = m.find_work(&mut last);
            if p.is_some() {
                break;
            }
        }
        let p = p.expect("a queued packet must be deliverable");
        assert_eq!(p.data, vec![i]);
        delivered += 1;
        assert_eq!(m.pending_packets_count, 0);
    }
    assert_eq!(delivered, 10_000);
}

#[test]
fn splittable_type_binds_concurrent_siblings() {
    let mut m = WorkManager::new(16, 8);
    m.add_executors(
        1,
        ExecutorType::MultipleUnits,
        true,
        ExecutorAllocMode::Fixed { count: 4 },
        PoolAllocMode::NoPool,
        0,
    );
    let a = ExecutorAddress::new(1, 0, 1);
    assert!(m.add_input_packet(a, PacketAny::new(0, vec![1])).is_ok());
    let mut last: Option<ExecutorHandle> = None;
    let mut p = None;
    for _ in 0..3 {
        p = m.find_work(&mut last);
        if p.is_some() {
            break;
        }
    }
    assert!(p.is_some());
    let h1 = last.take().expect("delivery binds an executor");
    // A second worker may bind a sibling to the same splittable address.
    let h2 = m.alloc_executor(&a).expect("a splittable address re-binds");
    assert_eq!(h2.address, a);
    let w = a.to_weak();
    let count = m.bound.iter().find(|e| e.0 == w).map(|e| e.1);
    assert_eq!(count, Some(2));
    m.retire_executor(h2);
    m.retire_executor(h1);
    assert!(m.bound.iter().all(|e| e.0 != w));
}

#[test]
fn drained_scheduler_reports_no_work() {
    let mut m = WorkManager::new(16, 8);
    single_unit(&mut m, 1);
    let a = ExecutorAddress::new(1, 3, 11);
    assert!(m.add_input_packet(a, PacketAny::new(2, vec![42])).is_ok());
    let mut last: Option<ExecutorHandle> = None;
    let mut spins = 0;
    while m.pending_packets_count > 0 {
        let _ = m.find_work(&mut last);
        spins += 1;
        assert!(spins < 100);
    }
    // No new inputs: every further pull observes emptiness and changes nothing.
    assert!(m.find_work(&mut last).is_none());
    assert!(m.find_work(&mut last).is_none());
    assert_eq!(m.pending_packets_count, 0);
    if let Some(h) = last.take() {
        m.retire_executor(h);
    }
}

#[test]
fn full_queue_rejects_and_returns_the_packet() {
    let mut m = WorkManager::new(16, 2);
    single_unit(&mut m, 1);
    let a = ExecutorAddress::new(1, 0, 0);
    assert!(m.add_input_packet(a, PacketAny::new(9, vec![1])).is_ok());
    assert!(m.add_input_packet(a, PacketAny::new(9, vec![2])).is_ok());
    match m.add_input_packet(a, PacketAny::new(9, vec![3])) {
        Ok(()) => panic!("a full queue must reject the packet"),
        Err((addr, p)) => {
            assert_eq!(addr, a);
            assert_eq!(p.data, vec![3]);
        },
    }
    assert_eq!(m.pending_packets_count, 2);
}

fn waiting_of(m: &WorkManager, type_id: u64) -> Vec<ExecutorAddress> {
    for e in m.types.iter() {
        if e.type_id == type_id {
            return e.waiting.clone();
        }
    }
    panic!("type {} is not registered", type_id);
}

#[test]
fn lifo_wiring_reverses_waiting_order() {
    let mut m = WorkManager::new(16, 8);
    single_unit(&mut m, 1);
    single_unit(&mut m, 2);
    m.set_output(1, 2, ExecOutputMode::LIFO);
    let b1 = ExecutorAddress::new(2, 1, 0);
    let b2 = ExecutorAddress::new(2, 2, 0);
    let b3 = ExecutorAddress::new(2, 3, 0);
    for b in [b1, b2, b3] {
        assert!(m.add_input_packet(b, PacketAny::new(0, vec![b.index])).is_ok());
    }
    // Last-in first-out: the newest address stands at the head of the line.
    assert_eq!(waiting_of(&m, 2), vec![b3, b2, b1]);
}

#[test]
fn fifo_wiring_keeps_arrival_order() {
    let mut m = WorkManager::new(16, 8);
    single_unit(&mut m, 1);
    single_unit(&mut m, 2);
    m.set_output(1, 2, ExecOutputMode::FIFO);
    let b1 = ExecutorAddress::new(2, 1, 0);
    let b2 = ExecutorAddress::new(2, 2, 0);
    let b3 = ExecutorAddress::new(2, 3, 0);
    for b in [b1, b2, b3] {
        assert!(m.add_input_packet(b, PacketAny::new(0, vec![b.index])).is_ok());
    }
    assert_eq!(waiting_of(&m, 2), vec![b1, b2, b3]);
}

#[test]
fn every_waiting_address_is_eventually_served() {
    let mut m = WorkManager::new(16, 8);
    single_unit(&mut m, 1);
    let addrs: Vec<ExecutorAddress> =
        (0..5).map(|i| ExecutorAddress::new(1, i, 0)).collect();
    for a in addrs.iter() {
        assert!(m.add_input_packet(*a, PacketAny::new(0, vec![a.index])).is_ok());
    }
    let mut last: Option<ExecutorHandle> = None;
    let mut seen: Vec<u64> = Vec::new();
    let mut spins = 0;
    while m.pending_packets_count > 0 {
        if let Some(p) = m.find_work(&mut last) {
            seen.extend(p.data.iter());
        }
        spins += 1;
        assert!(spins < 1000);
    }
    seen.sort();
    assert_eq!(seen, vec![0, 1, 2, 3, 4]);
}

#[test]
fn packet_pool_balances_live_and_pooled() {
    let mut pool = PacketsPool::new(4, 3);
    let mut held: Vec<PacketAny> = Vec::new();
    for _ in 0..4 {
        assert_eq!(pool.live + pool.pooled, 4);
        let p = pool.alloc_packet().expect("pool must serve within capacity");
        assert_eq!(p.type_tag, 3);
        held.push(p);
    }
    // Exhausted: the producer would now block; here the caller sees the miss.
    assert!(pool.alloc_packet().is_none());
    assert_eq!(pool.live, 4);
    pool.release_packet(held.pop().unwrap());
    assert_eq!(pool.live + pool.pooled, 4);
    assert!(pool.alloc_packet().is_some());
}

#[test]
fn objects_pool_counts_outstanding_buffers() {
    let mut pool = ObjectsPool::new(2, true);
    assert!(pool.try_alloc());
    assert!(pool.try_alloc());
    assert!(!pool.try_alloc());
    assert_eq!(pool.outstanding, 2);
    pool.return_object();
    assert!(pool.try_alloc());
}

#[test]
fn weak_address_round_trip() {
    let a = ExecutorAddress::new(4, 9, 2);
    let w = a.to_weak();
    assert_eq!(w.executor_type_id, 4);
    assert_eq!(w.index, 9);
    assert_eq!(w.nonce, 2);
    assert_eq!(w.to_strong(), a);
}
