//! The k-mer transform driver: the capability traits its executor stages
//! implement, the plan that orders input buckets so that large and small
//! files alternate, the split of worker threads between reading and
//! computing, and progress accounting over completed buckets.
//!
//! The stages' own work (reading, minimizer resplitting, map building,
//! writing) happens in executors supplied by the user of these traits; this
//! module decides how they are ordered, sized and wired.

use vstd::prelude::*;
use crate::address::ExecutorAddress;

verus! {

/// A sequence record as the preprocessor sees it: the per-read flags, the
/// secondary bucket marker, and the compressed read bytes.
pub struct SequenceData {
    pub flags: u8,
    pub second_bucket: u8,
    pub read: Vec<u8>,
}

/// Capability bundle of a k-mer transform: the stages it supplies and the
/// shared configuration they read.
pub trait KmersTransformExecutorFactory: Sized {
    type GlobalExtraData;

    type PreprocessorType: KmersTransformPreprocessor<Self::GlobalExtraData>;

    type MapProcessorType: KmersTransformMapProcessor<Self::GlobalExtraData>;

    type FinalExecutorType: KmersTransformFinalExecutor<Self::GlobalExtraData>;

    fn new_preprocessor(global_data: &Self::GlobalExtraData) -> Self::PreprocessorType;

    fn new_map_processor(global_data: &Self::GlobalExtraData) -> Self::MapProcessorType;

    fn new_final_executor(global_data: &Self::GlobalExtraData) -> Self::FinalExecutorType;
}

/// Routes each sequence to the bucket its k-mers belong to.
pub trait KmersTransformPreprocessor<GlobalExtraData>: Sized {
    fn get_sequence_bucket(&self, global_data: &GlobalExtraData, seq_data: &SequenceData) -> u16;
}

/// Builds the per-bucket map from batches of sequences.
pub trait KmersTransformMapProcessor<GlobalExtraData>: Sized {
    type MapStruct;

    fn process_group_start(&mut self, map_struct: Self::MapStruct, global_data: &GlobalExtraData);

    fn process_group_batch_sequences(
        &mut self,
        global_data: &GlobalExtraData,
        batch: &Vec<SequenceData>,
        ref_sequences: &Vec<u8>,
    );

    fn process_group_finalize(&mut self, global_data: &GlobalExtraData) -> Self::MapStruct;
}

/// Consumes each finished per-bucket map.
pub trait KmersTransformFinalExecutor<GlobalExtraData>: Sized {
    type MapStruct;

    fn process_map(&mut self, global_data: &GlobalExtraData, map_struct: Self::MapStruct);

    fn finalize(self, global_data: &GlobalExtraData);
}

/// One input bucket: the identifier of its file and whether it came from a
/// resplit.
#[derive(Clone, Copy, PartialEq, Eq, Structural, Debug)]
pub struct InputBucketDesc {
    pub file_id: u64,
    pub resplitted: bool,
}

/// An input file with its size, as the shell measured it.
#[derive(Clone, Copy, PartialEq, Eq, Structural, Debug)]
pub struct FileSize {
    pub file_id: u64,
    pub size: u64,
}

/// Sorted by size, largest first.
pub open spec fn sorted_desc(s: Seq<FileSize>) -> bool {
    forall|i: int, j: int| 0 <= i < j < s.len() ==> s[i].size >= s[j].size
}

/// The bucket order drawn from a size-sorted list: take the next large file,
/// then small files from the other end until their sizes add up to it, and
/// repeat. Large and small buckets thus alternate through the schedule.
pub open spec fn pairing_order(s: Seq<FileSize>, start: int, end: int, matched: int) -> Seq<
    FileSize,
>
    decreases end - start,
{
    if start >= end || start < 0 || end > s.len() {
        Seq::empty()
    } else if matched <= 0 {
        seq![s[start]] + pairing_order(s, start + 1, end, s[start].size as int)
    } else {
        seq![s[end - 1]] + pairing_order(s, start, end - 1, matched - s[end - 1].size as int)
    }
}

/// The pairing order visits each position between `start` and `end` once.
pub proof fn lemma_pairing_order_perm(s: Seq<FileSize>, start: int, end: int, matched: int)
    requires
        0 <= start <= end <= s.len(),
    ensures
        pairing_order(s, start, end, matched).to_multiset() == s.subrange(
            start,
            end,
        ).to_multiset(),
        pairing_order(s, start, end, matched).len() == end - start,
    decreases end - start,
{
    let r = pairing_order(s, start, end, matched);
    let sub = s.subrange(start, end);
    if start >= end {
        assert(sub =~= Seq::<FileSize>::empty());
        assert(r.to_multiset() =~= sub.to_multiset());
    } else if matched <= 0 {
        lemma_pairing_order_perm(s, start + 1, end, s[start].size as int);
        let tail = pairing_order(s, start + 1, end, s[start].size as int);
        assert(r =~= seq![s[start]] + tail);
        vstd::seq_lib::lemma_multiset_commutative(seq![s[start]], tail);
        assert(sub =~= seq![s[start]] + s.subrange(start + 1, end));
        vstd::seq_lib::lemma_multiset_commutative(seq![s[start]], s.subrange(start + 1, end));
    } else {
        lemma_pairing_order_perm(s, start, end - 1, matched - s[end - 1].size as int);
        let tail = pairing_order(s, start, end - 1, matched - s[end - 1].size as int);
        assert(r =~= seq![s[end - 1]] + tail);
        vstd::seq_lib::lemma_multiset_commutative(seq![s[end - 1]], tail);
        assert(sub =~= s.subrange(start, end - 1) + seq![s[end - 1]]);
        vstd::seq_lib::lemma_multiset_commutative(s.subrange(start, end - 1), seq![s[end - 1]]);
        assert(r.to_multiset() =~= sub.to_multiset());
    }
}

/// Sorts files by size, largest first. Insertion sort; the result is a
/// permutation of the input.
pub fn sort_files_desc(files: &Vec<FileSize>) -> (r: Vec<FileSize>)
    ensures
        sorted_desc(r@),
        r@.to_multiset() == files@.to_multiset(),
        r@.len() == files@.len(),
{
    let mut r: Vec<FileSize> = Vec::new();
    let n = files.len();
    let mut i: usize = 0;
    proof {
        assert(files@.subrange(0, 0) =~= Seq::<FileSize>::empty());
        assert(r@.to_multiset() =~= files@.subrange(0, 0).to_multiset());
    }
    while i < n
        invariant
            i <= n,
            n == files@.len(),
            sorted_desc(r@),
            r@.len() == i,
            r@.to_multiset() == files@.subrange(0, i as int).to_multiset(),
        decreases n - i,
    {
        let x = files[i];
        let mut j: usize = 0;
        while j < r.len() && r[j].size >= x.size
            invariant
                j <= r@.len(),
                forall|k: int| 0 <= k < j ==> r@[k].size >= x.size,
            decreases r@.len() - j,
        {
            j = j + 1;
        }
        let ghost r_old = r@;
        r.insert(j, x);
        proof {
            assert(sorted_desc(r@)) by {
                assert(forall|k: int| 0 <= k < j ==> r@[k] == r_old[k]);
                assert(forall|k: int| j < k < r@.len() ==> r@[k] == r_old[k - 1]);
                assert(r@[j as int] == x);
                assert(j < r_old.len() ==> r_old[j as int].size < x.size);
            }
            assert(r@.to_multiset() == files@.subrange(0, i + 1).to_multiset()) by {
                assert(r@ =~= r_old.subrange(0, j as int) + seq![x] + r_old.subrange(
                    j as int,
                    r_old.len() as int,
                ));
                vstd::seq_lib::lemma_multiset_commutative(
                    r_old.subrange(0, j as int) + seq![x],
                    r_old.subrange(j as int, r_old.len() as int),
                );
                vstd::seq_lib::lemma_multiset_commutative(
                    r_old.subrange(0, j as int),
                    seq![x],
                );
                vstd::seq_lib::lemma_multiset_commutative(
                    r_old.subrange(0, j as int),
                    r_old.subrange(j as int, r_old.len() as int),
                );
                assert(r_old =~= r_old.subrange(0, j as int) + r_old.subrange(
                    j as int,
                    r_old.len() as int,
                ));
                assert(files@.subrange(0, i + 1) =~= files@.subrange(0, i as int) + seq![x]);
                vstd::seq_lib::lemma_multiset_commutative(
                    files@.subrange(0, i as int),
                    seq![x],
                );
            }
        }
        i = i + 1;
    }
    proof {
        assert(files@.subrange(0, n as int) =~= files@);
    }
    r
}

/// Orders the input buckets for processing: files sorted by size, largest
/// first, then interleaved so that each large file is followed by small
/// files of roughly the same combined size. The result schedules every input
/// exactly once.
pub fn plan_bucket_order(files: &Vec<FileSize>) -> (r: Vec<InputBucketDesc>)
    ensures
        r@.len() == files@.len(),
        exists|sorted: Seq<FileSize>|
            sorted_desc(sorted) && sorted.to_multiset() == files@.to_multiset() && r@.map_values(
                |b: InputBucketDesc| b.file_id,
            ) == pairing_order(sorted, 0, sorted.len() as int, 0).map_values(
                |f: FileSize| f.file_id,
            ),
        forall|k: int| 0 <= k < r@.len() ==> !(#[trigger] r@[k]).resplitted,
{
    let sorted = sort_files_desc(files);
    let n = sorted.len();
    let mut out: Vec<InputBucketDesc> = Vec::new();
    let mut start: usize = 0;
    let mut end: usize = n;
    let mut matched: i128 = 0;
    while start != end
        invariant
            0 <= start <= end <= n,
            n == sorted@.len(),
            -0x1_0000_0000_0000_0000i128 <= matched <= 0x1_0000_0000_0000_0000i128,
            out@.map_values(|b: InputBucketDesc| b.file_id) + pairing_order(
                sorted@,
                start as int,
                end as int,
                matched as int,
            ).map_values(|f: FileSize| f.file_id) == pairing_order(
                sorted@,
                0,
                n as int,
                0,
            ).map_values(|f: FileSize| f.file_id),
            out@.len() == n - (end - start),
            forall|k: int| 0 <= k < out@.len() ==> !(#[trigger] out@[k]).resplitted,
        decreases end - start,
    {
        let ghost po = pairing_order(sorted@, start as int, end as int, matched as int);
        if matched <= 0 {
            let f = sorted[start];
            out.push(InputBucketDesc { file_id: f.file_id, resplitted: false });
            matched = f.size as i128;
            start = start + 1;
            proof {
                assert(po == seq![f] + pairing_order(
                    sorted@,
                    start as int,
                    end as int,
                    f.size as int,
                ));
                assert(po.map_values(|x: FileSize| x.file_id) =~= seq![f.file_id]
                    + pairing_order(sorted@, start as int, end as int, f.size as int).map_values(
                    |x: FileSize| x.file_id,
                ));
                assert(out@.map_values(|b: InputBucketDesc| b.file_id)
                    =~= out@.subrange(0, out@.len() - 1).map_values(|b: InputBucketDesc| b.file_id)
                    + seq![f.file_id]);
            }
        } else {
            let f = sorted[end - 1];
            out.push(InputBucketDesc { file_id: f.file_id, resplitted: false });
            matched = matched - (f.size as i128);
            end = end - 1;
            proof {
                assert(po == seq![f] + pairing_order(
                    sorted@,
                    start as int,
                    end as int,
                    (matched + f.size as i128) as int - f.size as int,
                ));
                assert(po.map_values(|x: FileSize| x.file_id) =~= seq![f.file_id]
                    + pairing_order(sorted@, start as int, end as int, matched as int).map_values(
                    |x: FileSize| x.file_id,
                ));
                assert(out@.map_values(|b: InputBucketDesc| b.file_id)
                    =~= out@.subrange(0, out@.len() - 1).map_values(|b: InputBucketDesc| b.file_id)
                    + seq![f.file_id]);
            }
        }
    }
    proof {
        assert(pairing_order(sorted@, start as int, end as int, matched as int)
            =~= Seq::<FileSize>::empty());
        assert(out@.map_values(|b: InputBucketDesc| b.file_id) + Seq::<u64>::empty()
            =~= out@.map_values(|b: InputBucketDesc| b.file_id));
        lemma_pairing_order_perm(sorted@, 0, n as int, 0);
        assert(out@.len() == files@.len()) by {
            assert(sorted@.to_multiset().len() == files@.to_multiset().len());
            vstd::seq_lib::to_multiset_len(sorted@);
            vstd::seq_lib::to_multiset_len(files@);
        }
    }
    out
}

/// How the worker threads of a run are split between the reading stage and
/// the computing stages, and how many read buffers are allowed in flight.
#[derive(Clone, Copy, PartialEq, Eq, Structural, Debug)]
pub struct ThreadPlan {
    pub read_threads_count: usize,
    pub compute_threads_count: usize,
    pub max_read_buffers_count: usize,
}

/// Splits `threads_count` workers: half read (at least one), and the
/// computing side keeps all workers minus half of the readers, so the two
/// sides overlap. The buffer allowance scales with the computing side.
pub fn plan_threads(threads_count: usize, queue_multiplier: usize) -> (r: ThreadPlan)
    requires
        threads_count * queue_multiplier < usize::MAX,
    ensures
        r.read_threads_count == if threads_count / 2 >= 1 {
            threads_count / 2
        } else {
            1
        },
        r.compute_threads_count == ({
            let reads = if threads_count / 2 >= 1 {
                threads_count / 2
            } else {
                1
            };
            let c = if threads_count >= reads / 2 {
                (threads_count - reads / 2) as int
            } else {
                0
            };
            if c >= 1 {
                c
            } else {
                1
            }
        }),
        r.max_read_buffers_count == r.compute_threads_count * queue_multiplier,
{
    let half = threads_count / 2;
    let read_threads_count = if half >= 1 {
        half
    } else {
        1
    };
    let sub = if threads_count >= read_threads_count / 2 {
        threads_count - read_threads_count / 2
    } else {
        0
    };
    let compute_threads_count = if sub >= 1 {
        sub
    } else {
        1
    };
    proof {
        assert(compute_threads_count <= threads_count || compute_threads_count == 1);
        assert(compute_threads_count * queue_multiplier <= threads_count * queue_multiplier
            || compute_threads_count == 1) by (nonlinear_arith)
            requires
                compute_threads_count <= threads_count || compute_threads_count == 1,
                queue_multiplier >= 0,
        ;
    }
    let max_read_buffers_count = compute_threads_count * queue_multiplier;
    ThreadPlan { read_threads_count, compute_threads_count, max_read_buffers_count }
}

/// Shared state of one transform run: how many buckets there are, how many
/// are done, and the address of the final writer stage.
pub struct KmersTransformContext {
    pub buckets_count: usize,
    pub processed_buckets: usize,
    pub finalizer_address: Option<ExecutorAddress>,
}

/// One k-mer transform run: its context and the ordered list of input
/// buckets still to be fed into the pipeline.
pub struct KmersTransform {
    pub execution_context: KmersTransformContext,
    pub buckets_list: Vec<InputBucketDesc>,
}

impl KmersTransform {
    /// Plans a run over the given input files: the buckets are ordered so
    /// that large and small files alternate, and no bucket is processed yet.
    pub fn new(
        file_inputs: &Vec<FileSize>,
        buckets_count: usize,
        finalizer_address: ExecutorAddress,
    ) -> (r: KmersTransform)
        ensures
            r.execution_context.buckets_count == buckets_count,
            r.execution_context.processed_buckets == 0,
            r.execution_context.finalizer_address == Some(finalizer_address),
            r.buckets_list@.len() == file_inputs@.len(),
            exists|sorted: Seq<FileSize>|
                sorted_desc(sorted) && sorted.to_multiset() == file_inputs@.to_multiset()
                    && r.buckets_list@.map_values(|b: InputBucketDesc| b.file_id) == pairing_order(
                    sorted,
                    0,
                    sorted.len() as int,
                    0,
                ).map_values(|f: FileSize| f.file_id),
    {
        let buckets_list = plan_bucket_order(file_inputs);
        KmersTransform {
            execution_context: KmersTransformContext {
                buckets_count,
                processed_buckets: 0,
                finalizer_address: Some(finalizer_address),
            },
            buckets_list,
        }
    }

    /// Records one completed bucket and reports progress: how many buckets
    /// are done and how many remain. The shell prints timing estimates from
    /// these numbers.
    pub fn log_completed_bucket(&mut self) -> (r: (usize, usize))
        requires
            old(self).execution_context.processed_buckets < old(
                self,
            ).execution_context.buckets_count,
        ensures
            final(self).execution_context.processed_buckets == old(
                self,
            ).execution_context.processed_buckets + 1,
            final(self).execution_context.buckets_count == old(
                self,
            ).execution_context.buckets_count,
            final(self).buckets_list == old(self).buckets_list,
            final(self).execution_context.finalizer_address == old(
                self,
            ).execution_context.finalizer_address,
            r.0 == final(self).execution_context.processed_buckets,
            r.1 == final(self).execution_context.buckets_count - final(
                self
            ).execution_context.processed_buckets,
    {
        self.execution_context.processed_buckets = self.execution_context.processed_buckets + 1;
        (
            self.execution_context.processed_buckets,
            self.execution_context.buckets_count - self.execution_context.processed_buckets,
        )
    }
}

} // verus!
