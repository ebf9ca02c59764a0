//! The stages put together on data held in memory: the texts of the parts
//! cut from the dataset, and all partitions merged one after another.

use crate::error::IndexError;
use crate::merge::{merge_input_error, merge_partition, partition_streams};
use crate::merge::{total_real_len, views, MergedSegment};
use crate::partition::{boundary, is_plan_of, plan_error, plan_partitions, thread_count};
use crate::partition::Partition;
use vstd::prelude::*;
use vstd::slice::slice_subrange;

verus! {

/// The bytes of `data` from `start` up to `end`: the text of one part.
pub fn load_text(data: &[u8], start: u64, end: u64) -> (r: Result<Vec<u8>, IndexError>)
    ensures
        !(start < end <= data@.len()) ==> r == Err::<Vec<u8>, IndexError>(IndexError::BadRange),
        start < end <= data@.len() ==> r.is_ok() && r.unwrap()@ == data@.subrange(
            start as int,
            end as int,
        ),
{
    let available: usize = data.len();
    if start >= end || end > available as u64 {
        return Err(IndexError::BadRange);
    }
    let piece: &[u8] = slice_subrange(data, start as usize, end as usize);
    let mut text: Vec<u8> = Vec::new();
    crate::stitch::append_bytes(&mut text, piece);
    assert(text@ =~= data@.subrange(start as int, end as int));
    Ok(text)
}

/// The boundaries at which partition `i` starts, one for each part.
pub open spec fn boundaries(
    texts: Seq<Seq<u8>>,
    tables: Seq<Seq<u8>>,
    width: nat,
    threads: nat,
    i: int,
) -> Seq<usize> {
    Seq::new(texts.len(), |j: int| boundary(texts, tables, width, threads, i, j) as usize)
}

/// Whether the segments are the merges of the partitions that the pivots
/// give, in the partitions' order.
pub open spec fn is_merge_of_all(
    segments: Seq<MergedSegment>,
    texts: Seq<Seq<u8>>,
    tables: Seq<Seq<u8>>,
    hacksize: nat,
    width: nat,
    threads: nat,
) -> bool {
    &&& segments.len() == threads
    &&& forall|k: int|
        0 <= k < segments.len() ==> (#[trigger] segments[k]).is_merge_of(
            texts,
            partition_streams(
                texts,
                tables,
                boundaries(texts, tables, width, threads, k),
                boundaries(texts, tables, width, threads, k + 1),
                hacksize,
                width,
            ),
            hacksize,
            width,
        )
}

/// Splits the merge into partitions and merges them one after another.
pub fn merge_all(
    texts: &Vec<Vec<u8>>,
    tables: &Vec<Vec<u8>>,
    num_threads: usize,
    hacksize: usize,
    ratio: usize,
) -> (r: Result<Vec<MergedSegment>, IndexError>)
    ensures
        match plan_error(
            views(texts@),
            views(tables@),
            num_threads as nat,
            hacksize as nat,
            ratio as nat,
        ) {
            Some(e) => r == Err::<Vec<MergedSegment>, IndexError>(e),
            None => r.is_ok() && is_merge_of_all(
                r.unwrap()@,
                views(texts@),
                views(tables@),
                hacksize as nat,
                ratio as nat,
                thread_count(
                    num_threads as nat,
                    total_real_len(views(texts@), hacksize as nat) as nat,
                ),
            ),
        },
{
    let ghost all = views(texts@);
    let ghost tabs = views(tables@);
    let ghost h = hacksize as nat;
    let ghost w = ratio as nat;
    let ghost threads = thread_count(num_threads as nat, total_real_len(all, h) as nat);
    let plan: Vec<Partition> = match plan_partitions(
        texts,
        tables,
        num_threads,
        hacksize,
        ratio,
    ) {
        Ok(plan) => plan,
        Err(e) => {
            return Err(e);
        },
    };
    let count: usize = plan.len();
    let mut segments: Vec<MergedSegment> = Vec::new();
    let mut k: usize = 0;
    while k < count
        invariant
            all == views(texts@),
            tabs == views(tables@),
            h == hacksize as nat,
            w == ratio as nat,
            1 <= w,
            plan_error(all, tabs, num_threads as nat, h, w).is_none(),
            is_plan_of(plan@, all, tabs, w, threads),
            count == plan@.len(),
            k <= count,
            segments@.len() == k,
            forall|i: int|
                0 <= i < k ==> (#[trigger] segments@[i]).is_merge_of(
                    all,
                    partition_streams(
                        all,
                        tabs,
                        boundaries(all, tabs, w, threads, i),
                        boundaries(all, tabs, w, threads, i + 1),
                        h,
                        w,
                    ),
                    h,
                    w,
                ),
        decreases count - k,
    {
        let part: &Partition = &plan[k];
        proof {
            let n = all.len() as int;
            assert(plan@[k as int].starts@.len() == n);
            assert forall|j: int| 0 <= j < n implies part.starts@[j] == boundaries(
                all,
                tabs,
                w,
                threads,
                k as int,
            )[j] by {
                assert(plan@[k as int].starts@[j] == boundary(all, tabs, w, threads, k as int, j));
            }
            assert forall|j: int| 0 <= j < n implies part.ends@[j] == boundaries(
                all,
                tabs,
                w,
                threads,
                k + 1,
            )[j] by {
                assert(plan@[k as int].ends@[j] == boundary(all, tabs, w, threads, k + 1, j));
            }
            assert(part.starts@ =~= boundaries(all, tabs, w, threads, k as int));
            assert(part.ends@ =~= boundaries(all, tabs, w, threads, k + 1));
            assert forall|x: int| 0 <= x < n implies (#[trigger] part.ends@[x]) <= tabs[x].len()
                / w by {
                assert(plan@[k as int].ends@[x] <= all[x].len());
                assert(tabs[x].len() == all[x].len() * w);
                assert(tabs[x].len() / w == all[x].len()) by (nonlinear_arith)
                    requires
                        tabs[x].len() == all[x].len() * w,
                        w >= 1,
                ;
            }
            assert(merge_input_error(all, tabs, part.starts@, part.ends@, h, w).is_none());
        }
        let segment: MergedSegment = match merge_partition(
            texts,
            tables,
            &part.starts,
            &part.ends,
            hacksize,
            ratio,
        ) {
            Ok(segment) => segment,
            Err(e) => {
                return Err(e);
            },
        };
        segments.push(segment);
        k = k + 1;
    }
    Ok(segments)
}

} // verus!
