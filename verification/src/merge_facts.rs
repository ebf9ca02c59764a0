//! What holds of every merge: which pointers it emits, how many, in what
//! order, and that two partitions never emit the same position.

use crate::codec::decoded;
use crate::codec::{lemma_pow256_monotone, lemma_pow256_values};
use crate::merge::{
    absolute, advanced, eligible, layout_error, least_head, merge_order, merged_steps,
    part_base, partition_streams, real_len, total_len,
};
use crate::merge::{lemma_least_head_range, lemma_part_base_monotone, lemma_total_len_update};
use crate::cursor::suffix_sorted;
use crate::order::{key, lex_le, lex_lt, suffix};
use crate::order::lemma_capped_keeps_order;
use crate::order::lemma_lex_le_transitive;
use vstd::prelude::*;

verus! {

/// Every eligible pointer stands in the table between the two boundaries and
/// is below the limit. Gives the index at which it stands.
pub proof fn lemma_eligible_member(pointers: Seq<u64>, from: int, to: int, limit: int, i: int) -> (j:
    int)
    requires
        0 <= i < eligible(pointers, from, to, limit).len(),
    ensures
        0 <= from <= j < to <= pointers.len(),
        pointers[j] == eligible(pointers, from, to, limit)[i],
        pointers[j] < limit,
    decreases to - from,
{
    if pointers[from] < limit {
        if i == 0 {
            from
        } else {
            lemma_eligible_member(pointers, from + 1, to, limit, i - 1)
        }
    } else {
        lemma_eligible_member(pointers, from + 1, to, limit, i)
    }
}

/// Every pair that a merge emits names a stream and a pointer of that stream.
/// Gives the index of the pointer in its stream.
pub proof fn lemma_merged_member(
    texts: Seq<Seq<u8>>,
    streams: Seq<Seq<u64>>,
    hacksize: nat,
    steps: nat,
    i: int,
) -> (k: int)
    requires
        0 <= i < merged_steps(texts, streams, hacksize, steps).len(),
    ensures
        0 <= merged_steps(texts, streams, hacksize, steps)[i].0 < streams.len(),
        0 <= k < streams[merged_steps(texts, streams, hacksize, steps)[i].0].len(),
        streams[merged_steps(texts, streams, hacksize, steps)[i].0][k] == merged_steps(
            texts,
            streams,
            hacksize,
            steps,
        )[i].1,
    decreases steps,
{
    let x = least_head(texts, streams, hacksize, streams.len() as int);
    lemma_least_head_range(texts, streams, hacksize, streams.len() as int);
    if i == 0 {
        0
    } else {
        let rest = advanced(streams, x);
        let k = lemma_merged_member(texts, rest, hacksize, (steps - 1) as nat, i - 1);
        let pair = merged_steps(texts, rest, hacksize, (steps - 1) as nat)[i - 1];
        assert(merged_steps(texts, streams, hacksize, steps)[i] == pair);
        if pair.0 == x {
            k + 1
        } else {
            k
        }
    }
}

/// No pointer into the overlap with the next part appears in the merged
/// output: every emitted pointer lies in the real length of its part.
pub proof fn lemma_emitted_in_real_length(
    texts: Seq<Seq<u8>>,
    tables: Seq<Seq<u8>>,
    starts: Seq<usize>,
    ends: Seq<usize>,
    hacksize: nat,
    width: nat,
    i: int,
)
    requires
        0 <= i < merge_order(
            texts,
            partition_streams(texts, tables, starts, ends, hacksize, width),
            hacksize,
        ).len(),
    ensures
        0 <= merge_order(
            texts,
            partition_streams(texts, tables, starts, ends, hacksize, width),
            hacksize,
        )[i].0 < texts.len(),
        merge_order(
            texts,
            partition_streams(texts, tables, starts, ends, hacksize, width),
            hacksize,
        )[i].1 < real_len(
            texts,
            hacksize,
            merge_order(
                texts,
                partition_streams(texts, tables, starts, ends, hacksize, width),
                hacksize,
            )[i].0,
        ),
{
    let streams = partition_streams(texts, tables, starts, ends, hacksize, width);
    let k = lemma_merged_member(texts, streams, hacksize, total_len(streams), i);
    let pair = merge_order(texts, streams, hacksize)[i];
    let x = pair.0;
    let j = lemma_eligible_member(
        decoded(tables[x], width),
        starts[x] as int,
        ends[x] as int,
        real_len(texts, hacksize, x),
        k,
    );
}

/// Streams that are all empty hold nothing.
pub proof fn lemma_total_len_zero(streams: Seq<Seq<u64>>)
    requires
        forall|x: int| 0 <= x < streams.len() ==> (#[trigger] streams[x]).len() == 0,
    ensures
        total_len(streams) == 0,
    decreases streams.len(),
{
    if streams.len() > 0 {
        let front = streams.drop_last();
        assert forall|x: int| 0 <= x < front.len() implies (#[trigger] front[x]).len() == 0 by {
            assert(front[x] == streams[x]);
        }
        lemma_total_len_zero(front);
    }
}

/// A merge emits as many pairs as the streams hold pointers: nothing is lost
/// and nothing is emitted twice.
pub proof fn lemma_merge_order_len(texts: Seq<Seq<u8>>, streams: Seq<Seq<u64>>, hacksize: nat)
    ensures
        merge_order(texts, streams, hacksize).len() == total_len(streams),
    decreases total_len(streams),
{
    let x = least_head(texts, streams, hacksize, streams.len() as int);
    lemma_least_head_range(texts, streams, hacksize, streams.len() as int);
    if x < 0 {
        lemma_total_len_zero(streams);
    } else {
        lemma_total_len_update(streams, x, streams[x].drop_first());
        lemma_merge_order_len(texts, advanced(streams, x), hacksize);
    }
}

/// The pointers that an order emits for part `x`, in the order's order.
pub open spec fn part_pointers(order: Seq<(int, u64)>, x: int) -> Seq<u64>
    decreases order.len(),
{
    if order.len() == 0 {
        Seq::empty()
    } else if order[0].0 == x {
        seq![order[0].1] + part_pointers(order.drop_first(), x)
    } else {
        part_pointers(order.drop_first(), x)
    }
}

/// The pointers of one part leave the merge in the order in which that
/// part's stream holds them, each of them once.
pub proof fn lemma_merge_keeps_part_order(
    texts: Seq<Seq<u8>>,
    streams: Seq<Seq<u64>>,
    hacksize: nat,
    x: int,
)
    requires
        0 <= x < streams.len(),
    ensures
        part_pointers(merge_order(texts, streams, hacksize), x) == streams[x],
    decreases total_len(streams),
{
    let b = least_head(texts, streams, hacksize, streams.len() as int);
    lemma_least_head_range(texts, streams, hacksize, streams.len() as int);
    let order = merge_order(texts, streams, hacksize);
    if b < 0 {
        lemma_total_len_zero(streams);
        assert(part_pointers(order, x) =~= streams[x]);
    } else {
        let rest = advanced(streams, b);
        lemma_total_len_update(streams, b, streams[b].drop_first());
        lemma_merge_keeps_part_order(texts, rest, hacksize, x);
        assert(order.drop_first() =~= merge_order(texts, rest, hacksize));
        if x == b {
            assert(seq![streams[b][0]] + streams[b].drop_first() =~= streams[b]);
        }
    }
}

/// What a comparison bounded to `hacksize` bytes sees of an emitted pair.
pub open spec fn pair_key(texts: Seq<Seq<u8>>, hacksize: nat, pair: (int, u64)) -> Seq<u8> {
    key(texts[pair.0], pair.1 as int, hacksize)
}

/// Whether the pointers of a stream denote suffixes in ascending order, as
/// far as a comparison bounded to `hacksize` bytes can tell.
pub open spec fn stream_sorted(text: Seq<u8>, stream: Seq<u64>, hacksize: nat) -> bool {
    forall|i: int, j: int|
        0 <= i < j < stream.len() ==> lex_le(
            key(text, #[trigger] stream[i] as int, hacksize),
            key(text, #[trigger] stream[j] as int, hacksize),
        )
}

/// Whether every stream is sorted over the text of its part.
pub open spec fn streams_sorted(
    texts: Seq<Seq<u8>>,
    streams: Seq<Seq<u64>>,
    hacksize: nat,
) -> bool {
    forall|x: int|
        0 <= x < streams.len() ==> stream_sorted(texts[x], #[trigger] streams[x], hacksize)
}

/// The least head is no greater than the first pointer of any stream.
pub proof fn lemma_least_head_min(
    texts: Seq<Seq<u8>>,
    streams: Seq<Seq<u64>>,
    hacksize: nat,
    upto: int,
    y: int,
)
    requires
        0 <= y < upto <= streams.len(),
        streams[y].len() > 0,
    ensures
        0 <= least_head(texts, streams, hacksize, upto) < upto,
        streams[least_head(texts, streams, hacksize, upto)].len() > 0,
        lex_le(
            key(
                texts[least_head(texts, streams, hacksize, upto)],
                streams[least_head(texts, streams, hacksize, upto)][0] as int,
                hacksize,
            ),
            key(texts[y], streams[y][0] as int, hacksize),
        ),
    decreases upto,
{
    let x = upto - 1;
    let prev = least_head(texts, streams, hacksize, upto - 1);
    lemma_least_head_range(texts, streams, hacksize, upto - 1);
    let ky = key(texts[y], streams[y][0] as int, hacksize);
    if y == x {
        crate::order::lemma_lex_irreflexive(ky);
    } else {
        lemma_least_head_min(texts, streams, hacksize, upto - 1, y);
        if streams[x].len() > 0 {
            let kx = key(texts[x], streams[x][0] as int, hacksize);
            let kp = key(texts[prev], streams[prev][0] as int, hacksize);
            if lex_lt(kx, kp) {
                crate::order::lemma_lex_lt_le(kx, kp, ky);
                crate::order::lemma_lex_asymmetric(kx, ky);
            }
        }
    }
}

/// Taking the first pointer of a stream leaves sorted streams sorted.
pub proof fn lemma_advanced_sorted(
    texts: Seq<Seq<u8>>,
    streams: Seq<Seq<u64>>,
    hacksize: nat,
    x: int,
)
    requires
        streams_sorted(texts, streams, hacksize),
        0 <= x < streams.len(),
        streams[x].len() > 0,
    ensures
        streams_sorted(texts, advanced(streams, x), hacksize),
{
    let after = advanced(streams, x);
    assert forall|y: int| 0 <= y < after.len() implies stream_sorted(
        texts[y],
        #[trigger] after[y],
        hacksize,
    ) by {
        assert(stream_sorted(texts[y], streams[y], hacksize));
        if y == x {
            assert forall|i: int, j: int| 0 <= i < j < after[y].len() implies lex_le(
                key(texts[y], #[trigger] after[y][i] as int, hacksize),
                key(texts[y], #[trigger] after[y][j] as int, hacksize),
            ) by {
                assert(after[y][i] == streams[y][i + 1]);
                assert(after[y][j] == streams[y][j + 1]);
            }
        }
    }
}

/// Merging sorted streams gives a sorted order: of two emitted pairs the
/// earlier one never denotes the greater suffix, as far as a comparison
/// bounded to `hacksize` bytes can tell.
pub proof fn lemma_merge_sorted(
    texts: Seq<Seq<u8>>,
    streams: Seq<Seq<u64>>,
    hacksize: nat,
    steps: nat,
    i: int,
    j: int,
)
    requires
        streams_sorted(texts, streams, hacksize),
        0 <= i < j < merged_steps(texts, streams, hacksize, steps).len(),
    ensures
        lex_le(
            pair_key(texts, hacksize, merged_steps(texts, streams, hacksize, steps)[i]),
            pair_key(texts, hacksize, merged_steps(texts, streams, hacksize, steps)[j]),
        ),
    decreases steps,
{
    let n = streams.len() as int;
    let x = least_head(texts, streams, hacksize, n);
    lemma_least_head_range(texts, streams, hacksize, n);
    let rest = advanced(streams, x);
    let order = merged_steps(texts, streams, hacksize, steps);
    let tail = merged_steps(texts, rest, hacksize, (steps - 1) as nat);
    lemma_advanced_sorted(texts, streams, hacksize, x);
    assert(order[j] == tail[j - 1]);
    if i == 0 {
        let k = lemma_merged_member(texts, rest, hacksize, (steps - 1) as nat, j - 1);
        let y = tail[j - 1].0;
        let head = key(texts[x], streams[x][0] as int, hacksize);
        assert(stream_sorted(texts[y], streams[y], hacksize));
        if y == x {
            assert(rest[y][k] == streams[x][k + 1]);
        } else {
            assert(rest[y][k] == streams[y][k]);
            lemma_least_head_min(texts, streams, hacksize, n, y);
            let first = key(texts[y], streams[y][0] as int, hacksize);
            let other = key(texts[y], streams[y][k] as int, hacksize);
            if k > 0 {
                lemma_lex_le_transitive(head, first, other);
            }
        }
    } else {
        assert(order[i] == tail[i - 1]);
        lemma_merge_sorted(texts, rest, hacksize, (steps - 1) as nat, i - 1, j - 1);
    }
}

/// Whether no pointer stands twice in the table.
pub open spec fn distinct(pointers: Seq<u64>) -> bool {
    forall|i: int, j: int|
        0 <= i < j < pointers.len() ==> #[trigger] pointers[i] != #[trigger] pointers[j]
}

/// Two pointers, each in the real length of its part, denote the same
/// position of the dataset only if they are the same pointer of the same
/// part.
pub proof fn lemma_absolute_injective(
    texts: Seq<Seq<u8>>,
    hacksize: nat,
    width: nat,
    a: (int, u64),
    b: (int, u64),
)
    requires
        layout_error(texts, hacksize, width).is_none(),
        0 <= a.0 < texts.len(),
        0 <= b.0 < texts.len(),
        a.1 < real_len(texts, hacksize, a.0),
        b.1 < real_len(texts, hacksize, b.0),
        absolute(texts, hacksize, a) == absolute(texts, hacksize, b),
    ensures
        a == b,
{
    let n = texts.len() as int;
    lemma_pow256_values();
    lemma_pow256_monotone(width, 8);
    assert forall|k: int| 0 <= k < n implies #[trigger] real_len(texts, hacksize, k) >= 0 by {
        if real_len(texts, hacksize, k) < 1 {
        }
    }
    lemma_part_base_monotone(texts, hacksize, a.0 + 1, n);
    lemma_part_base_monotone(texts, hacksize, b.0 + 1, n);
    lemma_part_base_monotone(texts, hacksize, 0, a.0);
    lemma_part_base_monotone(texts, hacksize, 0, b.0);
    assert(part_base(texts, hacksize, a.0 + 1) == part_base(texts, hacksize, a.0) + real_len(
        texts,
        hacksize,
        a.0,
    ));
    assert(part_base(texts, hacksize, b.0 + 1) == part_base(texts, hacksize, b.0) + real_len(
        texts,
        hacksize,
        b.0,
    ));
    if a.0 < b.0 {
        lemma_part_base_monotone(texts, hacksize, a.0 + 1, b.0);
    } else if b.0 < a.0 {
        lemma_part_base_monotone(texts, hacksize, b.0 + 1, a.0);
    }
}

/// Two partitions of which the first ends, in every table, where the second
/// starts or before it, never emit the same position of the dataset.
pub proof fn lemma_partitions_disjoint(
    texts: Seq<Seq<u8>>,
    tables: Seq<Seq<u8>>,
    hacksize: nat,
    width: nat,
    first_starts: Seq<usize>,
    first_ends: Seq<usize>,
    second_starts: Seq<usize>,
    second_ends: Seq<usize>,
    i: int,
    j: int,
)
    requires
        layout_error(texts, hacksize, width).is_none(),
        forall|x: int| 0 <= x < texts.len() ==> distinct(#[trigger] decoded(tables[x], width)),
        forall|x: int| 0 <= x < texts.len() ==> (#[trigger] first_ends[x]) <= second_starts[x],
        0 <= i < merge_order(
            texts,
            partition_streams(texts, tables, first_starts, first_ends, hacksize, width),
            hacksize,
        ).len(),
        0 <= j < merge_order(
            texts,
            partition_streams(texts, tables, second_starts, second_ends, hacksize, width),
            hacksize,
        ).len(),
    ensures
        absolute(
            texts,
            hacksize,
            merge_order(
                texts,
                partition_streams(texts, tables, first_starts, first_ends, hacksize, width),
                hacksize,
            )[i],
        ) != absolute(
            texts,
            hacksize,
            merge_order(
                texts,
                partition_streams(texts, tables, second_starts, second_ends, hacksize, width),
                hacksize,
            )[j],
        ),
{
    let sa = partition_streams(texts, tables, first_starts, first_ends, hacksize, width);
    let sb = partition_streams(texts, tables, second_starts, second_ends, hacksize, width);
    let a = merge_order(texts, sa, hacksize)[i];
    let b = merge_order(texts, sb, hacksize)[j];
    let ka = lemma_merged_member(texts, sa, hacksize, total_len(sa), i);
    let kb = lemma_merged_member(texts, sb, hacksize, total_len(sb), j);
    let ja = lemma_eligible_member(
        decoded(tables[a.0], width),
        first_starts[a.0] as int,
        first_ends[a.0] as int,
        real_len(texts, hacksize, a.0),
        ka,
    );
    let jb = lemma_eligible_member(
        decoded(tables[b.0], width),
        second_starts[b.0] as int,
        second_ends[b.0] as int,
        real_len(texts, hacksize, b.0),
        kb,
    );
    if absolute(texts, hacksize, a) == absolute(texts, hacksize, b) {
        lemma_absolute_injective(texts, hacksize, width, a, b);
        let pointers = decoded(tables[a.0], width);
        assert(distinct(pointers));
        assert(first_ends[a.0] <= second_starts[a.0]);
        assert(ja < jb);
        assert(pointers[ja] != pointers[jb]);
    }
}

/// The eligible pointers of a sorted table are sorted, also under a
/// comparison bounded to `hacksize` bytes.
pub proof fn lemma_eligible_sorted(
    text: Seq<u8>,
    pointers: Seq<u64>,
    from: int,
    to: int,
    limit: int,
    hacksize: nat,
)
    requires
        suffix_sorted(text, pointers),
    ensures
        stream_sorted(text, eligible(pointers, from, to, limit), hacksize),
    decreases to - from,
{
    let all = eligible(pointers, from, to, limit);
    if all.len() > 0 {
        lemma_eligible_sorted(text, pointers, from + 1, to, limit, hacksize);
        let tail = eligible(pointers, from + 1, to, limit);
        if pointers[from] < limit {
            assert forall|i: int, j: int| 0 <= i < j < all.len() implies lex_le(
                key(text, #[trigger] all[i] as int, hacksize),
                key(text, #[trigger] all[j] as int, hacksize),
            ) by {
                assert(all[j] == tail[j - 1]);
                if i == 0 {
                    let at = lemma_eligible_member(pointers, from + 1, to, limit, j - 1);
                    assert(lex_le(
                        suffix(text, pointers[from] as int),
                        suffix(text, pointers[at] as int),
                    ));
                    lemma_capped_keeps_order(
                        suffix(text, pointers[from] as int),
                        suffix(text, pointers[at] as int),
                        hacksize,
                    );
                } else {
                    assert(all[i] == tail[i - 1]);
                }
            }
        }
    }
}

/// Where the table of each part is sorted, the merge of a partition is
/// sorted: of two emitted pairs the earlier one never denotes the greater
/// suffix, as far as a comparison bounded to `hacksize` bytes can tell.
pub proof fn lemma_partition_merge_sorted(
    texts: Seq<Seq<u8>>,
    tables: Seq<Seq<u8>>,
    starts: Seq<usize>,
    ends: Seq<usize>,
    hacksize: nat,
    width: nat,
    i: int,
    j: int,
)
    requires
        forall|x: int|
            0 <= x < texts.len() ==> suffix_sorted(texts[x], #[trigger] decoded(tables[x], width)),
        0 <= i < j < merge_order(
            texts,
            partition_streams(texts, tables, starts, ends, hacksize, width),
            hacksize,
        ).len(),
    ensures
        lex_le(
            pair_key(
                texts,
                hacksize,
                merge_order(
                    texts,
                    partition_streams(texts, tables, starts, ends, hacksize, width),
                    hacksize,
                )[i],
            ),
            pair_key(
                texts,
                hacksize,
                merge_order(
                    texts,
                    partition_streams(texts, tables, starts, ends, hacksize, width),
                    hacksize,
                )[j],
            ),
        ),
{
    let streams = partition_streams(texts, tables, starts, ends, hacksize, width);
    assert forall|x: int| 0 <= x < streams.len() implies stream_sorted(
        texts[x],
        #[trigger] streams[x],
        hacksize,
    ) by {
        assert(suffix_sorted(texts[x], decoded(tables[x], width)));
        lemma_eligible_sorted(
            texts[x],
            decoded(tables[x], width),
            starts[x] as int,
            ends[x] as int,
            real_len(texts, hacksize, x),
            hacksize,
        );
    }
    lemma_merge_sorted(texts, streams, hacksize, total_len(streams), i, j);
}

} // verus!
