//! The split of the merge into partitions. Evenly spaced pointers of the
//! first part's table serve as pivots; a binary search places each pivot in
//! every other table, and the places found are the boundaries between one
//! partition and the next.

use crate::builder::{is_suffix_array, lemma_suffix_array_strict};
use crate::codec::decoded;
use crate::cursor::{lemma_search_place, suffix_sorted};
use crate::cursor::{load_at, locate, pointers_in_range, search, table_in_range};
use crate::error::IndexError;
use crate::merge::{layout_error, measure_parts, real_len, total_real_len, views};
use crate::merge::{absolute, merge_order, part_base, partition_streams};
use crate::merge_facts::{distinct, lemma_partitions_disjoint};
use crate::order::{lex_lt, suffix};
use vstd::prelude::*;
use vstd::slice::slice_subrange;

verus! {

/// The number of partitions for a dataset of `total_len` bytes where
/// `requested` are asked for: no more than one for each ten bytes beyond the
/// first 1024, but one at the least.
pub open spec fn thread_count(requested: nat, total_len: nat) -> nat {
    let by_size = (total_len - 1024) / 10;
    let most = if by_size > 1 {
        by_size
    } else {
        1
    };
    if requested < most {
        requested
    } else {
        most as nat
    }
}

/// The number of partitions for a dataset of `total_len` bytes where
/// `requested` are asked for.
pub fn capped_threads(requested: usize, total_len: u64) -> (threads: usize)
    ensures
        threads == thread_count(requested as nat, total_len as nat),
{
    let most: u64 = if total_len >= 1044 {
        (total_len - 1024) / 10
    } else {
        1
    };
    if (requested as u64) < most {
        requested
    } else {
        most as usize
    }
}

/// The index in the first part's table of the pivot that ends partition `i`.
pub open spec fn threshold(first_len: nat, threads: nat, i: int) -> int {
    (first_len + threads) / threads * (i + 1)
}

/// The suffix that ends partition `i`: the one that the pivot denotes.
pub open spec fn pivot(
    texts: Seq<Seq<u8>>,
    tables: Seq<Seq<u8>>,
    width: nat,
    threads: nat,
    i: int,
) -> Seq<u8> {
    suffix(
        texts[0],
        decoded(tables[0], width)[threshold(texts[0].len(), threads, i)] as int,
    )
}

/// The boundary in part `j` at which partition `i` starts and the one before
/// it ends: nothing before the first partition, the whole part after the
/// last, and between two partitions the pivot's index in the first part and
/// the pivot's place in any other.
pub open spec fn boundary(
    texts: Seq<Seq<u8>>,
    tables: Seq<Seq<u8>>,
    width: nat,
    threads: nat,
    i: int,
    j: int,
) -> int {
    if i <= 0 {
        0
    } else if i >= threads {
        texts[j].len() as int
    } else if j == 0 {
        threshold(texts[0].len(), threads, i - 1)
    } else {
        search(
            texts[j],
            decoded(tables[j], width),
            pivot(texts, tables, width, threads, i - 1),
            0,
            texts[j].len() as int,
        )
    }
}

/// Why the merge cannot be split, if it cannot.
pub open spec fn plan_error(
    texts: Seq<Seq<u8>>,
    tables: Seq<Seq<u8>>,
    requested: nat,
    hacksize: nat,
    width: nat,
) -> Option<IndexError> {
    let threads = thread_count(requested, total_real_len(texts, hacksize) as nat);
    if layout_error(texts, hacksize, width).is_some() {
        layout_error(texts, hacksize, width)
    } else if tables.len() != texts.len() {
        Some(IndexError::PartCountMismatch)
    } else if exists|j: int|
        0 <= j < texts.len() && (#[trigger] tables[j]).len() != texts[j].len() * width {
        Some(IndexError::BadPartLength)
    } else if threads >= 2 && exists|j: int|
        0 <= j < texts.len() && !pointers_in_range(
            #[trigger] decoded(tables[j], width),
            texts[j].len(),
        ) {
        Some(IndexError::PointerOutOfRange)
    } else if threads >= 2 && threshold(texts[0].len(), threads, threads - 2)
        >= texts[0].len() {
        Some(IndexError::BadBoundary)
    } else {
        None
    }
}

/// The slice of every table that one partition merges.
pub struct Partition {
    /// For each part the index of the first pointer of the partition.
    pub starts: Vec<usize>,
    /// For each part the index behind the last pointer of the partition.
    pub ends: Vec<usize>,
}

/// Whether the partitions are those that the pivots give.
pub open spec fn is_plan_of(
    plan: Seq<Partition>,
    texts: Seq<Seq<u8>>,
    tables: Seq<Seq<u8>>,
    width: nat,
    threads: nat,
) -> bool {
    &&& plan.len() == threads
    &&& forall|i: int|
        0 <= i < plan.len() ==> (#[trigger] plan[i]).starts@.len() == texts.len()
            && plan[i].ends@.len() == texts.len()
    &&& forall|i: int, j: int|
        0 <= i < plan.len() && 0 <= j < texts.len() ==> (#[trigger] plan[i].starts@[j])
            == boundary(texts, tables, width, threads, i, j)
    &&& forall|i: int, j: int|
        0 <= i < plan.len() && 0 <= j < texts.len() ==> (#[trigger] plan[i].ends@[j])
            == boundary(texts, tables, width, threads, i + 1, j)
    &&& forall|i: int, j: int|
        0 <= i < plan.len() && 0 <= j < texts.len() ==> (#[trigger] plan[i].ends@[j])
            <= texts[j].len()
}

/// The boundaries that end partition `i`, one for each part.
fn partition_ends(
    texts: &Vec<Vec<u8>>,
    tables: &Vec<Vec<u8>>,
    ratio: usize,
    threads: usize,
    chunk: usize,
    i: usize,
) -> (ends: Vec<usize>)
    requires
        1 <= ratio <= 8,
        texts@.len() > 0,
        texts@.len() == tables@.len(),
        i < threads,
        threads >= 2 ==> chunk == (texts@[0]@.len() + threads) / (threads as int),
        threads >= 2 ==> threshold(texts@[0]@.len(), threads as nat, threads - 2)
            < texts@[0]@.len(),
        forall|j: int|
            0 <= j < texts@.len() ==> (#[trigger] tables@[j])@.len() == texts@[j]@.len() * ratio,
        threads >= 2 ==> forall|j: int|
            0 <= j < texts@.len() ==> pointers_in_range(
                #[trigger] decoded(tables@[j]@, ratio as nat),
                texts@[j]@.len(),
            ),
    ensures
        ends@.len() == texts@.len(),
        forall|j: int| 0 <= j < texts@.len() ==> (#[trigger] ends@[j]) <= texts@[j]@.len(),
        forall|j: int|
            0 <= j < texts@.len() ==> (#[trigger] ends@[j]) == boundary(
                views(texts@),
                views(tables@),
                ratio as nat,
                threads as nat,
                i + 1,
                j,
            ),
{
    let ghost all = views(texts@);
    let ghost tabs = views(tables@);
    let ghost w = ratio as nat;
    let n: usize = texts.len();
    let mut ends: Vec<usize> = Vec::new();
    assert(all[0] == texts@[0]@);
    assert(tabs[0] == tables@[0]@);
    if i + 1 < threads {
        let first_len: usize = texts[0].len();
        proof {
            assert(chunk * (i + 1) <= chunk * (threads - 1)) by (nonlinear_arith)
                requires
                    0 <= i + 1 <= threads - 1,
                    0 <= chunk,
            ;
            assert(tables@[0]@.len() / w == first_len) by (nonlinear_arith)
                requires
                    tables@[0]@.len() == first_len * w,
                    w >= 1,
            ;
        }
        let at: usize = chunk * (i + 1);
        let pointer: u64 = load_at(tables[0].as_slice(), at, ratio);
        assert(decoded(tables@[0]@, w)[at as int] <= first_len);
        let query: &[u8] = slice_subrange(texts[0].as_slice(), pointer as usize, first_len);
        assert(query@ == pivot(all, tabs, w, threads as nat, i as int));
        ends.push(at);
        let mut j: usize = 1;
        while j < n
            invariant
                1 <= ratio <= 8,
                w == ratio as nat,
                0 < n == texts@.len() == tables@.len(),
                all == views(texts@),
                tabs == views(tables@),
                i + 1 < threads,
                1 <= j <= n,
                ends@.len() == j,
                query@ == pivot(all, tabs, w, threads as nat, i as int),
                forall|k: int| 0 <= k < j ==> (#[trigger] ends@[k]) <= texts@[k]@.len(),
                forall|k: int|
                    0 <= k < texts@.len() ==> (#[trigger] tables@[k])@.len() == texts@[k]@.len()
                        * ratio,
                forall|k: int|
                    0 <= k < texts@.len() ==> pointers_in_range(
                        #[trigger] decoded(tables@[k]@, ratio as nat),
                        texts@[k]@.len(),
                    ),
                forall|k: int|
                    0 <= k < j ==> (#[trigger] ends@[k]) == boundary(
                        all,
                        tabs,
                        w,
                        threads as nat,
                        i + 1,
                        k,
                    ),
            decreases n - j,
        {
            assert(all[j as int] == texts@[j as int]@);
            assert(tabs[j as int] == tables@[j as int]@);
            assert(tables@[j as int]@.len() == texts@[j as int]@.len() * ratio);
            assert(pointers_in_range(decoded(tables@[j as int]@, w), texts@[j as int]@.len()));
            let place: usize = locate(texts[j].as_slice(), tables[j].as_slice(), query, ratio);
            ends.push(place);
            j = j + 1;
        }
    } else {
        let mut j: usize = 0;
        while j < n
            invariant
                n == texts@.len(),
                all == views(texts@),
                tabs == views(tables@),
                i + 1 >= threads,
                j <= n,
                ends@.len() == j,
                forall|k: int| 0 <= k < j ==> (#[trigger] ends@[k]) <= texts@[k]@.len(),
                forall|k: int|
                    0 <= k < j ==> (#[trigger] ends@[k]) == boundary(
                        all,
                        tabs,
                        w,
                        threads as nat,
                        i + 1,
                        k,
                    ),
            decreases n - j,
        {
            assert(all[j as int] == texts@[j as int]@);
            ends.push(texts[j].len());
            j = j + 1;
        }
    }
    ends
}

/// Splits the merge of the parts into partitions that can be merged one
/// by one: as many as `num_threads` asks for and the dataset's size allows.
pub fn plan_partitions(
    texts: &Vec<Vec<u8>>,
    tables: &Vec<Vec<u8>>,
    num_threads: usize,
    hacksize: usize,
    ratio: usize,
) -> (r: Result<Vec<Partition>, IndexError>)
    ensures
        match plan_error(
            views(texts@),
            views(tables@),
            num_threads as nat,
            hacksize as nat,
            ratio as nat,
        ) {
            Some(e) => r == Err::<Vec<Partition>, IndexError>(e),
            None => r.is_ok() && is_plan_of(
                r.unwrap()@,
                views(texts@),
                views(tables@),
                ratio as nat,
                thread_count(
                    num_threads as nat,
                    total_real_len(views(texts@), hacksize as nat) as nat,
                ),
            ),
        },
{
    let ghost all = views(texts@);
    let ghost tabs = views(tables@);
    let ghost h = hacksize as nat;
    let ghost w = ratio as nat;
    let (lens, bases) = match measure_parts(texts, hacksize, ratio) {
        Ok(measured) => measured,
        Err(e) => {
            return Err(e);
        },
    };
    let n: usize = texts.len();
    if tables.len() != n {
        return Err(IndexError::PartCountMismatch);
    }
    proof {
        crate::codec::lemma_pow256_values();
        crate::codec::lemma_pow256_monotone(w, 8);
        assert(lens@[n - 1] == real_len(all, h, n - 1));
        assert(part_base(all, h, n as int) == part_base(all, h, n - 1) + real_len(all, h, n - 1));
        assert forall|k: int| 0 <= k < n implies #[trigger] real_len(all, h, k) >= 0 by {
            assert(lens@[k] == real_len(all, h, k));
        }
        crate::merge::lemma_part_base_monotone(all, h, 0, n - 1);
    }
    let total: u128 = bases[n - 1] as u128 + lens[n - 1] as u128;
    assert(total == total_real_len(all, h));
    let counted: u64 = if total > u64::MAX as u128 {
        u64::MAX
    } else {
        total as u64
    };
    let threads: usize = capped_threads(num_threads, counted);
    assert(threads == thread_count(num_threads as nat, total as nat)) by {
        if total > u64::MAX {
            assert(counted == u64::MAX);
            assert((total - 1024) / 10 >= (u64::MAX - 1024) / 10);
        }
    }
    let mut c: usize = 0;
    while c < n
        invariant
            1 <= ratio <= 8,
            w == ratio as nat,
            h == hacksize as nat,
            n == texts@.len() == tables@.len(),
            all == views(texts@),
            tabs == views(tables@),
            layout_error(all, h, w).is_none(),
            c <= n,
            forall|k: int| 0 <= k < c ==> (#[trigger] tabs[k]).len() == all[k].len() * w,
        decreases n - c,
    {
        assert(all[c as int] == texts@[c as int]@);
        assert(tabs[c as int] == tables@[c as int]@);
        let size: usize = tables[c].len();
        let len: usize = texts[c].len();
        let ghost sz = size as int;
        let ghost rt = ratio as int;
        let ghost ln = len as int;
        proof {
            vstd::arithmetic::div_mod::lemma_fundamental_div_mod(sz, rt);
        }
        if size % ratio != 0 || size / ratio != len {
            assert(sz != ln * rt) by (nonlinear_arith)
                requires
                    sz % rt != 0 || sz / rt != ln,
                    rt > 0,
            ;
            return Err(IndexError::BadPartLength);
        }
        assert(sz == ln * rt) by (nonlinear_arith)
            requires
                sz == rt * (sz / rt) + sz % rt,
                sz % rt == 0,
                sz / rt == ln,
        ;
        c = c + 1;
    }
    assert(all[0] == texts@[0]@);
    let first_len: usize = texts[0].len();
    let mut chunk: usize = 0;
    if threads >= 2 {
        let mut d: usize = 0;
        while d < n
            invariant
                1 <= ratio <= 8,
                w == ratio as nat,
                h == hacksize as nat,
                n == texts@.len() == tables@.len(),
                all == views(texts@),
                tabs == views(tables@),
                layout_error(all, h, w).is_none(),
                threads >= 2,
                threads == thread_count(num_threads as nat, total_real_len(all, h) as nat),
                forall|k: int| 0 <= k < n ==> (#[trigger] tabs[k]).len() == all[k].len() * w,
                d <= n,
                forall|k: int|
                    0 <= k < d ==> pointers_in_range(
                        #[trigger] decoded(tabs[k], w),
                        all[k].len(),
                    ),
            decreases n - d,
        {
            assert(all[d as int] == texts@[d as int]@);
            assert(tabs[d as int] == tables@[d as int]@);
            if !table_in_range(tables[d].as_slice(), ratio, texts[d].len()) {
                assert(tabs[d as int].len() == all[d as int].len() * w);
                assert(tabs[d as int].len() % w == 0) by (nonlinear_arith)
                    requires
                        tabs[d as int].len() == all[d as int].len() * w,
                        w > 0,
                ;
                return Err(IndexError::PointerOutOfRange);
            }
            d = d + 1;
        }
        let wide: u128 = (first_len as u128 + threads as u128) / (threads as u128);
        proof {
            let sum = first_len + threads;
            let t = threads as int;
            vstd::arithmetic::div_mod::lemma_fundamental_div_mod(sum, t);
            assert(wide * t <= sum) by (nonlinear_arith)
                requires
                    sum == t * (sum / t) + sum % t,
                    0 <= sum % t,
                    wide == sum / t,
            ;
            assert(0 <= wide * (t - 1) <= wide * t) by (nonlinear_arith)
                requires
                    wide >= 0,
                    t >= 1,
            ;
        }
        let last: u128 = wide * ((threads - 1) as u128);
        assert(last == threshold(first_len as nat, threads as nat, threads - 2));
        if last >= first_len as u128 {
            return Err(IndexError::BadBoundary);
        }
        assert(wide <= last) by (nonlinear_arith)
            requires
                last == wide * (threads - 1),
                threads >= 2,
                wide >= 0,
        ;
        chunk = wide as usize;
    }
    assert(plan_error(all, tabs, num_threads as nat, h, w).is_none());
    assert forall|j: int| 0 <= j < texts@.len() implies (#[trigger] tables@[j])@.len()
        == texts@[j]@.len() * ratio by {
        assert(tabs[j] == tables@[j]@);
        assert(all[j] == texts@[j]@);
    }
    if threads >= 2 {
        assert forall|j: int| 0 <= j < texts@.len() implies pointers_in_range(
            #[trigger] decoded(tables@[j]@, ratio as nat),
            texts@[j]@.len(),
        ) by {
            assert(tabs[j] == tables@[j]@);
            assert(all[j] == texts@[j]@);
            assert(pointers_in_range(decoded(tabs[j], w), all[j].len()));
        }
    }
    let mut plan: Vec<Partition> = Vec::new();
    let mut starts: Vec<usize> = Vec::new();
    let mut z: usize = 0;
    while z < n
        invariant
            n == texts@.len(),
            z <= n,
            starts@.len() == z,
            forall|k: int| 0 <= k < z ==> (#[trigger] starts@[k]) == 0,
        decreases n - z,
    {
        starts.push(0);
        z = z + 1;
    }
    let mut i: usize = 0;
    while i < threads
        invariant
            1 <= ratio <= 8,
            w == ratio as nat,
            0 < n == texts@.len() == tables@.len(),
            all == views(texts@),
            tabs == views(tables@),
            i <= threads,
            threads >= 2 ==> chunk == (texts@[0]@.len() + threads) / (threads as int),
            threads >= 2 ==> threshold(texts@[0]@.len(), threads as nat, threads - 2)
                < texts@[0]@.len(),
            forall|j: int|
                0 <= j < texts@.len() ==> (#[trigger] tables@[j])@.len() == texts@[j]@.len()
                    * ratio,
            threads >= 2 ==> forall|j: int|
                0 <= j < texts@.len() ==> pointers_in_range(
                    #[trigger] decoded(tables@[j]@, ratio as nat),
                    texts@[j]@.len(),
                ),
            starts@.len() == n,
            forall|j: int|
                0 <= j < n ==> (#[trigger] starts@[j]) == boundary(
                    all,
                    tabs,
                    w,
                    threads as nat,
                    i as int,
                    j,
                ),
            plan@.len() == i,
            forall|k: int|
                0 <= k < i ==> (#[trigger] plan@[k]).starts@.len() == n && plan@[k].ends@.len()
                    == n,
            forall|k: int, j: int|
                0 <= k < i && 0 <= j < n ==> (#[trigger] plan@[k].starts@[j]) == boundary(
                    all,
                    tabs,
                    w,
                    threads as nat,
                    k,
                    j,
                ),
            forall|k: int, j: int|
                0 <= k < i && 0 <= j < n ==> (#[trigger] plan@[k].ends@[j]) == boundary(
                    all,
                    tabs,
                    w,
                    threads as nat,
                    k + 1,
                    j,
                ),
            forall|k: int, j: int|
                0 <= k < i && 0 <= j < n ==> (#[trigger] plan@[k].ends@[j]) <= all[j].len(),
        decreases threads - i,
    {
        let ends: Vec<usize> = partition_ends(texts, tables, ratio, threads, chunk, i);
        let next: Vec<usize> = ends.clone();
        assert(next@ =~= ends@);
        assert forall|j: int| 0 <= j < n implies (#[trigger] ends@[j]) <= all[j].len() by {
            assert(all[j] == texts@[j]@);
        }
        plan.push(Partition { starts, ends });
        starts = next;
        i = i + 1;
    }
    Ok(plan)
}

/// Each partition of a plan starts, in every table, where the one before it
/// ends; so, where no table lists a pointer twice, two neighbouring
/// partitions never emit the same position of the dataset.
pub proof fn lemma_neighbours_disjoint(
    texts: Seq<Seq<u8>>,
    tables: Seq<Seq<u8>>,
    hacksize: nat,
    width: nat,
    plan: Seq<Partition>,
    threads: nat,
    k: int,
    i: int,
    j: int,
)
    requires
        layout_error(texts, hacksize, width).is_none(),
        is_plan_of(plan, texts, tables, width, threads),
        forall|x: int| 0 <= x < texts.len() ==> distinct(#[trigger] decoded(tables[x], width)),
        0 <= k,
        k + 1 < plan.len(),
        0 <= i < merge_order(
            texts,
            partition_streams(texts, tables, plan[k].starts@, plan[k].ends@, hacksize, width),
            hacksize,
        ).len(),
        0 <= j < merge_order(
            texts,
            partition_streams(
                texts,
                tables,
                plan[k + 1].starts@,
                plan[k + 1].ends@,
                hacksize,
                width,
            ),
            hacksize,
        ).len(),
    ensures
        plan[k].ends@ == plan[k + 1].starts@,
        absolute(
            texts,
            hacksize,
            merge_order(
                texts,
                partition_streams(texts, tables, plan[k].starts@, plan[k].ends@, hacksize, width),
                hacksize,
            )[i],
        ) != absolute(
            texts,
            hacksize,
            merge_order(
                texts,
                partition_streams(
                    texts,
                    tables,
                    plan[k + 1].starts@,
                    plan[k + 1].ends@,
                    hacksize,
                    width,
                ),
                hacksize,
            )[j],
        ),
{
    let first = plan[k];
    let second = plan[k + 1];
    assert forall|x: int| 0 <= x < texts.len() implies (#[trigger] first.ends@[x])
        == second.starts@[x] by {
        assert(plan[k].ends@[x] == boundary(texts, tables, width, threads, k + 1, x));
        assert(plan[k + 1].starts@[x] == boundary(texts, tables, width, threads, k + 1, x));
    }
    assert(first.ends@ =~= second.starts@);
    lemma_partitions_disjoint(
        texts,
        tables,
        hacksize,
        width,
        first.starts@,
        first.ends@,
        second.starts@,
        second.ends@,
        i,
        j,
    );
}

/// The boundaries respect the order of the suffixes: where the first table
/// is a suffix array and the table of part `j` is sorted, exactly the
/// pointers of part `j` before the boundary of partition `k` denote suffixes
/// smaller than the pivot that ends partition `k - 1`. So whatever one
/// partition merges is smaller than the pivot, and whatever the next one
/// merges is not.
pub proof fn lemma_boundary_separates(
    texts: Seq<Seq<u8>>,
    tables: Seq<Seq<u8>>,
    width: nat,
    threads: nat,
    k: int,
    j: int,
    i: int,
)
    requires
        1 <= k < threads,
        0 <= j < texts.len(),
        threshold(texts[0].len(), threads, k - 1) < texts[0].len(),
        is_suffix_array(texts[0], decoded(tables[0], width)),
        suffix_sorted(texts[j], decoded(tables[j], width)),
        decoded(tables[j], width).len() == texts[j].len(),
        0 <= i < texts[j].len(),
    ensures
        i < boundary(texts, tables, width, threads, k, j) <==> lex_lt(
            suffix(texts[j], decoded(tables[j], width)[i] as int),
            pivot(texts, tables, width, threads, k - 1),
        ),
{
    let first = decoded(tables[0], width);
    let at = threshold(texts[0].len(), threads, k - 1);
    let query = pivot(texts, tables, width, threads, k - 1);
    assert(0 <= at) by (nonlinear_arith)
        requires
            at == (texts[0].len() + threads) / threads * (k - 1 + 1),
            threads > 0,
            k >= 1,
    ;
    if j == 0 {
        if i < at {
            lemma_suffix_array_strict(texts[0], first, i, at);
        } else if i == at {
            crate::order::lemma_lex_irreflexive(query);
        } else {
            lemma_suffix_array_strict(texts[0], first, at, i);
            crate::order::lemma_lex_asymmetric(query, suffix(texts[0], first[i] as int));
        }
    } else {
        lemma_search_place(texts[j], decoded(tables[j], width), query, 0, texts[j].len() as int);
    }
}

} // verus!
