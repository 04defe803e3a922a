//! Concrete runs of the k-mer transform planner: bucket ordering, thread
//! split, and progress accounting.

use exec_core::address::ExecutorAddress;
use exec_core::transform::{plan_bucket_order, plan_threads, sort_files_desc, FileSize, KmersTransform};

fn files(sizes: &[(u64, u64)]) -> Vec<FileSize> {
    sizes.iter().map(|&(file_id, size)| FileSize { file_id, size }).collect()
}

#[test]
fn sort_is_largest_first() {
    let f = files(&[(1, 3), (2, 1), (3, 2)]);
    let sorted = sort_files_desc(&f);
    let sizes: Vec<u64> = sorted.iter().map(|x| x.size).collect();
    assert_eq!(sizes, vec![3, 2, 1]);
}

#[test]
fn bucket_order_alternates_large_and_small() {
    // Sizes sorted largest first: 10, 6, 3, 2, 1. The plan takes the next
    // large file, then small files from the other end while their combined
    // size stays below it: 10 first, then 1, 2 and 3 against the debt of 10,
    // then the remaining 6.
    let f = files(&[(1, 10), (2, 6), (3, 3), (4, 2), (5, 1)]);
    let plan = plan_bucket_order(&f);
    let ids: Vec<u64> = plan.iter().map(|b| b.file_id).collect();
    assert_eq!(ids, vec![1, 5, 4, 3, 2]);
    assert!(plan.iter().all(|b| !b.resplitted));
}

#[test]
fn bucket_order_schedules_every_file_once() {
    let f = files(&[(7, 5), (8, 5), (9, 1), (10, 0)]);
    let plan = plan_bucket_order(&f);
    let mut ids: Vec<u64> = plan.iter().map(|b| b.file_id).collect();
    ids.sort();
    assert_eq!(ids, vec![7, 8, 9, 10]);
}

#[test]
fn thread_plan_splits_workers() {
    let plan = plan_threads(8, 2);
    assert_eq!(plan.read_threads_count, 4);
    assert_eq!(plan.compute_threads_count, 6);
    assert_eq!(plan.max_read_buffers_count, 12);
    let tiny = plan_threads(1, 3);
    assert_eq!(tiny.read_threads_count, 1);
    assert_eq!(tiny.compute_threads_count, 1);
    assert_eq!(tiny.max_read_buffers_count, 3);
}

#[test]
fn progress_counts_completed_buckets() {
    let f = files(&[(1, 4), (2, 2)]);
    let fin = ExecutorAddress::new(9, 0, 0);
    let mut t = KmersTransform::new(&f, 2, fin);
    assert_eq!(t.execution_context.processed_buckets, 0);
    assert_eq!(t.buckets_list.len(), 2);
    assert_eq!(t.log_completed_bucket(), (1, 1));
    assert_eq!(t.log_completed_bucket(), (2, 0));
}
