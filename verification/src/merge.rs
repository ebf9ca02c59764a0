//! The k-way merge of partial suffix arrays. One call merges one partition:
//! from each part it streams the pointers between that part's two boundaries,
//! drops those that lie in the overlap with the next part, and repeatedly
//! emits the least pending suffix together with the byte that precedes it.

use crate::codec::{decoded, encoded, fits, pow256, push_word};
use crate::codec::{lemma_pow256_monotone, lemma_pow256_values};
use crate::cursor::{make_table, next_pointer, TableStream};
use crate::error::IndexError;
use crate::order::{key, lex_lt, shares_prefix, suffix, suffix_less, suffixes_share_prefix};
use vstd::prelude::*;

verus! {

/// The byte sequences that a vector of byte vectors holds.
pub open spec fn views(items: Seq<Vec<u8>>) -> Seq<Seq<u8>> {
    Seq::new(items.len(), |i: int| items[i]@)
}

/// The number of bytes of part `x` that belong to it alone: all of the last
/// part, and all but the overlap of `hacksize` bytes of any other.
pub open spec fn real_len(texts: Seq<Seq<u8>>, hacksize: nat, x: int) -> int {
    if x + 1 == texts.len() {
        texts[x].len() as int
    } else {
        texts[x].len() - hacksize
    }
}

/// The position in the whole dataset at which part `x` starts: the real
/// lengths of the parts before it, added up.
pub open spec fn part_base(texts: Seq<Seq<u8>>, hacksize: nat, x: int) -> int
    decreases x,
{
    if x <= 0 {
        0
    } else {
        part_base(texts, hacksize, x - 1) + real_len(texts, hacksize, x - 1)
    }
}

/// The length of the whole dataset.
pub open spec fn total_real_len(texts: Seq<Seq<u8>>, hacksize: nat) -> int {
    part_base(texts, hacksize, texts.len() as int)
}

/// The pointers with index from `from` up to `to` that are below `limit`, in
/// the table's order.
pub open spec fn eligible(pointers: Seq<u64>, from: int, to: int, limit: int) -> Seq<u64>
    decreases to - from,
{
    if from < 0 || from >= to || to > pointers.len() {
        Seq::empty()
    } else if pointers[from] < limit {
        seq![pointers[from]] + eligible(pointers, from + 1, to, limit)
    } else {
        eligible(pointers, from + 1, to, limit)
    }
}

/// Among the first `upto` streams, the one whose first pointer denotes the
/// least suffix under a comparison bounded to `hacksize` bytes; of several
/// that are equal, the first. `-1` where all of them are empty.
pub open spec fn least_head(
    texts: Seq<Seq<u8>>,
    streams: Seq<Seq<u64>>,
    hacksize: nat,
    upto: int,
) -> int
    decreases upto,
{
    if upto <= 0 {
        -1
    } else {
        let best = least_head(texts, streams, hacksize, upto - 1);
        let x = upto - 1;
        if streams[x].len() == 0 {
            best
        } else if best < 0 {
            x
        } else if lex_lt(
            key(texts[x], streams[x][0] as int, hacksize),
            key(texts[best], streams[best][0] as int, hacksize),
        ) {
            x
        } else {
            best
        }
    }
}

/// The streams after the first pointer of stream `x` has been taken.
pub open spec fn advanced(streams: Seq<Seq<u64>>, x: int) -> Seq<Seq<u64>> {
    streams.update(x, streams[x].drop_first())
}

/// The first `steps` pairs of part and pointer that the merge emits.
pub open spec fn merged_steps(
    texts: Seq<Seq<u8>>,
    streams: Seq<Seq<u64>>,
    hacksize: nat,
    steps: nat,
) -> Seq<(int, u64)>
    decreases steps,
{
    let x = least_head(texts, streams, hacksize, streams.len() as int);
    if steps == 0 || x < 0 {
        Seq::empty()
    } else {
        seq![(x, streams[x][0])] + merged_steps(
            texts,
            advanced(streams, x),
            hacksize,
            (steps - 1) as nat,
        )
    }
}

/// The number of pointers in all the streams together.
pub open spec fn total_len(streams: Seq<Seq<u64>>) -> nat
    decreases streams.len(),
{
    if streams.len() == 0 {
        0
    } else {
        total_len(streams.drop_last()) + streams.last().len()
    }
}

/// All the pairs of part and pointer that the merge emits, in order.
pub open spec fn merge_order(texts: Seq<Seq<u8>>, streams: Seq<Seq<u64>>, hacksize: nat) -> Seq<
    (int, u64),
> {
    merged_steps(texts, streams, hacksize, total_len(streams))
}

/// Whether, within `steps` steps, a pointer that takes the place of an emitted
/// one denotes a suffix that agrees on `hacksize` bytes or more with the one
/// that last took a place (at the start: with part `last_part` at
/// `last_pointer`).
pub open spec fn long_match_steps(
    texts: Seq<Seq<u8>>,
    streams: Seq<Seq<u64>>,
    hacksize: nat,
    last_part: int,
    last_pointer: int,
    steps: nat,
) -> bool
    decreases steps,
{
    let x = least_head(texts, streams, hacksize, streams.len() as int);
    if steps == 0 || x < 0 {
        false
    } else if streams[x].len() > 1 {
        shares_prefix(
            suffix(texts[x], streams[x][1] as int),
            suffix(texts[last_part], last_pointer),
            hacksize,
        ) || long_match_steps(
            texts,
            advanced(streams, x),
            hacksize,
            x,
            streams[x][1] as int,
            (steps - 1) as nat,
        )
    } else {
        long_match_steps(
            texts,
            advanced(streams, x),
            hacksize,
            last_part,
            last_pointer,
            (steps - 1) as nat,
        )
    }
}

/// Whether the merge meets a match of `hacksize` bytes or more.
pub open spec fn long_match(texts: Seq<Seq<u8>>, streams: Seq<Seq<u64>>, hacksize: nat) -> bool {
    long_match_steps(texts, streams, hacksize, 0, 0, total_len(streams))
}

/// The position in the whole dataset of pointer `p` of part `x`.
pub open spec fn absolute(texts: Seq<Seq<u8>>, hacksize: nat, pair: (int, u64)) -> u64 {
    (part_base(texts, hacksize, pair.0) + pair.1) as u64
}

/// The byte that precedes position `p` of part `x` in the dataset, read as a
/// ring: before the first byte of a part comes the last real byte of the part
/// before it, and before the first part comes the last.
pub open spec fn preceding_byte(texts: Seq<Seq<u8>>, hacksize: nat, pair: (int, u64)) -> u8 {
    let x = pair.0;
    let p = pair.1 as int;
    if p > 0 {
        texts[x][p - 1]
    } else if x > 0 {
        texts[x - 1][real_len(texts, hacksize, x - 1) - 1]
    } else {
        texts[texts.len() - 1][real_len(texts, hacksize, texts.len() - 1) - 1]
    }
}

/// The streams of one partition: of each part the pointers between its two
/// boundaries that lie in the part's real length.
pub open spec fn partition_streams(
    texts: Seq<Seq<u8>>,
    tables: Seq<Seq<u8>>,
    starts: Seq<usize>,
    ends: Seq<usize>,
    hacksize: nat,
    width: nat,
) -> Seq<Seq<u64>> {
    Seq::new(
        texts.len(),
        |x: int|
            eligible(
                decoded(tables[x], width),
                starts[x] as int,
                ends[x] as int,
                real_len(texts, hacksize, x),
            ),
    )
}

/// The next pointer of the stream that has an index below `end` and a value
/// below `limit`; the stream then stands behind it. `None` where there is no
/// such pointer.
pub fn next_eligible<'a>(stream: &mut TableStream<'a>, end: usize, limit: usize) -> (next: Option<
    u64,
>)
    requires
        old(stream).wf(),
        end <= old(stream).pointers().len(),
    ensures
        final(stream).wf(),
        final(stream).table@ == old(stream).table@,
        final(stream).size_width == old(stream).size_width,
        old(stream).position <= final(stream).position,
        next.is_some() == (eligible(
            old(stream).pointers(),
            old(stream).position as int,
            end as int,
            limit as int,
        ).len() > 0),
        next.is_some() ==> next.unwrap() < limit && eligible(
            old(stream).pointers(),
            old(stream).position as int,
            end as int,
            limit as int,
        ) == seq![next.unwrap()] + eligible(
            old(stream).pointers(),
            final(stream).position as int,
            end as int,
            limit as int,
        ),
        next.is_none() ==> eligible(
            old(stream).pointers(),
            final(stream).position as int,
            end as int,
            limit as int,
        ).len() == 0,
{
    let ghost pointers = stream.pointers();
    let ghost first = stream.position;
    while stream.position < end
        invariant
            stream.wf(),
            stream.table@ == old(stream).table@,
            stream.size_width == old(stream).size_width,
            pointers == stream.pointers(),
            first == old(stream).position,
            end <= pointers.len(),
            first <= stream.position,
            eligible(pointers, first as int, end as int, limit as int) == eligible(
                pointers,
                stream.position as int,
                end as int,
                limit as int,
            ),
        decreases end - stream.position,
    {
        let got: Option<u64> = next_pointer(stream);
        let p: u64 = got.unwrap();
        if p < limit as u64 {
            return Some(p);
        }
    }
    None
}

/// Why the parts cannot be laid out in one dataset, if they cannot: a width
/// out of range, no part at all, a part without a byte of its own, or a
/// dataset too long for the width.
pub open spec fn layout_error(texts: Seq<Seq<u8>>, hacksize: nat, width: nat) -> Option<
    IndexError,
> {
    if !(1 <= width <= 8) {
        Some(IndexError::WidthOutOfRange)
    } else if texts.len() == 0 {
        Some(IndexError::PartCountMismatch)
    } else if exists|x: int| 0 <= x < texts.len() && #[trigger] real_len(texts, hacksize, x) < 1 {
        Some(IndexError::BadPartLength)
    } else if total_real_len(texts, hacksize) > pow256(width) {
        Some(IndexError::ValueTooWide)
    } else {
        None
    }
}

/// The start of a part lies at or before the start of every later part, where
/// no part has a negative real length.
pub proof fn lemma_part_base_monotone(texts: Seq<Seq<u8>>, hacksize: nat, x: int, y: int)
    requires
        0 <= x <= y <= texts.len(),
        forall|k: int| 0 <= k < texts.len() ==> #[trigger] real_len(texts, hacksize, k) >= 0,
    ensures
        0 <= part_base(texts, hacksize, x) <= part_base(texts, hacksize, y),
    decreases y,
{
    if y > 0 {
        if x < y {
            lemma_part_base_monotone(texts, hacksize, x, y - 1);
        } else {
            lemma_part_base_monotone(texts, hacksize, x - 1, y - 1);
        }
    }
}

/// The real length of each part and the position at which each part starts
/// in the whole dataset.
pub fn measure_parts(texts: &Vec<Vec<u8>>, hacksize: usize, ratio: usize) -> (r: Result<
    (Vec<usize>, Vec<u64>),
    IndexError,
>)
    ensures
        match layout_error(views(texts@), hacksize as nat, ratio as nat) {
            Some(e) => r == Err::<(Vec<usize>, Vec<u64>), IndexError>(e),
            None => r.is_ok() && r.unwrap().0@.len() == texts@.len() && r.unwrap().1@.len()
                == texts@.len() && forall|x: int|
                0 <= x < texts@.len() ==> #[trigger] r.unwrap().0@[x] == real_len(
                    views(texts@),
                    hacksize as nat,
                    x,
                ) && r.unwrap().1@[x] == part_base(views(texts@), hacksize as nat, x),
        },
{
    let ghost all = views(texts@);
    let ghost h = hacksize as nat;
    if ratio < 1 || ratio > 8 {
        return Err(IndexError::WidthOutOfRange);
    }
    let n: usize = texts.len();
    if n == 0 {
        return Err(IndexError::PartCountMismatch);
    }
    let mut lens: Vec<usize> = Vec::new();
    let mut x: usize = 0;
    while x < n
        invariant
            1 <= ratio <= 8,
            0 < n == texts@.len(),
            all == views(texts@),
            h == hacksize as nat,
            x <= n,
            lens@.len() == x,
            forall|k: int| 0 <= k < x ==> #[trigger] lens@[k] == real_len(all, h, k) && lens@[k] >= 1,
        decreases n - x,
    {
        let len: usize = texts[x].len();
        assert(all[x as int] == texts@[x as int]@);
        let cut: usize = if x + 1 == n {
            0
        } else {
            hacksize
        };
        if len <= cut {
            assert(real_len(all, h, x as int) < 1);
            return Err(IndexError::BadPartLength);
        }
        lens.push(len - cut);
        x = x + 1;
    }
    assert(forall|k: int| 0 <= k < n ==> #[trigger] real_len(all, h, k) >= 1) by {
        assert forall|k: int| 0 <= k < n implies #[trigger] real_len(all, h, k) >= 1 by {
            assert(lens@[k] == real_len(all, h, k));
        }
    }
    let range: u128 = crate::codec::word_range(ratio);
    proof {
        lemma_pow256_values();
        lemma_pow256_monotone(ratio as nat, 8);
    }
    let mut bases: Vec<u64> = Vec::new();
    let mut total: u128 = 0;
    let mut y: usize = 0;
    while y < n
        invariant
            n == texts@.len(),
            all == views(texts@),
            h == hacksize as nat,
            all.len() == n,
            y <= n,
            lens@.len() == n,
            forall|k: int| 0 <= k < n ==> #[trigger] lens@[k] == real_len(all, h, k) && lens@[k] >= 1,
            forall|k: int| 0 <= k < n ==> #[trigger] real_len(all, h, k) >= 1,
            bases@.len() == y,
            forall|k: int| 0 <= k < y ==> #[trigger] bases@[k] == part_base(all, h, k),
            total == part_base(all, h, y as int),
            total <= range == pow256(ratio as nat),
            range <= 0x1_0000_0000_0000_0000,
            layout_error(all, h, ratio as nat) == if total_real_len(all, h) > pow256(
                ratio as nat,
            ) {
                Some(IndexError::ValueTooWide)
            } else {
                None::<IndexError>
            },
        decreases n - y,
    {
        let len: usize = lens[y];
        assert(len == real_len(all, h, y as int));
        assert(part_base(all, h, y + 1) == part_base(all, h, y as int) + real_len(all, h, y as int));
        if len as u128 > range - total {
            proof {
                lemma_part_base_monotone(all, h, y + 1, n as int);
            }
            return Err(IndexError::ValueTooWide);
        }
        assert(total < 0x1_0000_0000_0000_0000);
        bases.push(total as u64);
        total = total + len as u128;
        y = y + 1;
    }
    Ok((lens, bases))
}

/// Replacing one stream changes the total by the difference of the lengths.
pub proof fn lemma_total_len_update(streams: Seq<Seq<u64>>, x: int, s: Seq<u64>)
    requires
        0 <= x < streams.len(),
    ensures
        total_len(streams.update(x, s)) == total_len(streams) - streams[x].len() + s.len(),
    decreases streams.len(),
{
    let after = streams.update(x, s);
    if x == streams.len() - 1 {
        assert(after.drop_last() =~= streams.drop_last());
    } else {
        lemma_total_len_update(streams.drop_last(), x, s);
        assert(after.drop_last() =~= streams.drop_last().update(x, s));
    }
}

/// The least head is the index of a stream that is not empty, or `-1` where
/// there is none among the first `upto`.
pub proof fn lemma_least_head_range(
    texts: Seq<Seq<u8>>,
    streams: Seq<Seq<u64>>,
    hacksize: nat,
    upto: int,
)
    requires
        0 <= upto <= streams.len(),
    ensures
        -1 <= least_head(texts, streams, hacksize, upto) < upto,
        least_head(texts, streams, hacksize, upto) >= 0 ==> streams[least_head(
            texts,
            streams,
            hacksize,
            upto,
        )].len() > 0,
        least_head(texts, streams, hacksize, upto) < 0 ==> forall|x: int|
            0 <= x < upto ==> (#[trigger] streams[x]).len() == 0,
    decreases upto,
{
    if upto > 0 {
        lemma_least_head_range(texts, streams, hacksize, upto - 1);
    }
}

/// The pairs of a merge order, each as a position in the whole dataset.
pub open spec fn absolutes(texts: Seq<Seq<u8>>, hacksize: nat, order: Seq<(int, u64)>) -> Seq<
    u64,
> {
    Seq::new(order.len(), |i: int| absolute(texts, hacksize, order[i]))
}

/// For each pair of a merge order the byte that precedes it in the dataset.
pub open spec fn preceding(texts: Seq<Seq<u8>>, hacksize: nat, order: Seq<(int, u64)>) -> Seq<
    u8,
> {
    Seq::new(order.len(), |i: int| preceding_byte(texts, hacksize, order[i]))
}

/// What one partition contributes to the final index: its slice of the merged
/// suffix array, encoded, and the Burrows-Wheeler bytes that go with it.
pub struct MergedSegment {
    /// The merged pointers, as positions in the whole dataset, encoded.
    pub pointers: Vec<u8>,
    /// For each merged pointer the byte that precedes it.
    pub bwt: Vec<u8>,
    /// Whether a match as long as the comparison horizon was met, so that the
    /// order is no longer certain.
    pub long_match: bool,
}

impl MergedSegment {
    /// Whether the segment is the merge of the given streams.
    pub open spec fn is_merge_of(
        &self,
        texts: Seq<Seq<u8>>,
        streams: Seq<Seq<u64>>,
        hacksize: nat,
        width: nat,
    ) -> bool {
        let order = merge_order(texts, streams, hacksize);
        &&& self.pointers@ == encoded(absolutes(texts, hacksize, order), width)
        &&& decoded(self.pointers@, width) == absolutes(texts, hacksize, order)
        &&& self.bwt@ == preceding(texts, hacksize, order)
        &&& self.long_match == long_match(texts, streams, hacksize)
    }
}

/// Why one partition cannot be merged, if it cannot: the parts cannot be laid
/// out, the numbers of tables and boundaries differ from the number of parts,
/// or an end boundary lies behind the end of its table.
pub open spec fn merge_input_error(
    texts: Seq<Seq<u8>>,
    tables: Seq<Seq<u8>>,
    starts: Seq<usize>,
    ends: Seq<usize>,
    hacksize: nat,
    width: nat,
) -> Option<IndexError> {
    if layout_error(texts, hacksize, width).is_some() {
        layout_error(texts, hacksize, width)
    } else if tables.len() != texts.len() || starts.len() != texts.len() || ends.len()
        != texts.len() {
        Some(IndexError::PartCountMismatch)
    } else if exists|x: int|
        0 <= x < texts.len() && (#[trigger] ends[x]) > tables[x].len() / width {
        Some(IndexError::BadBoundary)
    } else {
        None
    }
}

/// Whether the pending pointers stand for the streams: each is the first
/// pointer of its stream and lies inside its part, and none is pending where
/// the stream is empty.
pub open spec fn heads_match(
    texts: Seq<Seq<u8>>,
    heads: Seq<Option<u64>>,
    streams: Seq<Seq<u64>>,
) -> bool {
    &&& heads.len() == texts.len()
    &&& streams.len() == texts.len()
    &&& forall|x: int|
        0 <= x < texts.len() ==> match #[trigger] heads[x] {
            Some(p) => streams[x].len() > 0 && streams[x][0] == p && p <= texts[x].len(),
            None => streams[x].len() == 0,
        }
}

/// The part whose pending pointer denotes the least suffix, the first of
/// several equal ones; `None` where nothing is pending.
fn pick_least(
    texts: &Vec<Vec<u8>>,
    heads: &Vec<Option<u64>>,
    hacksize: usize,
    Ghost(streams): Ghost<Seq<Seq<u64>>>,
) -> (pick: Option<usize>)
    requires
        heads_match(views(texts@), heads@, streams),
    ensures
        match pick {
            Some(x) => x == least_head(
                views(texts@),
                streams,
                hacksize as nat,
                texts@.len() as int,
            ),
            None => least_head(views(texts@), streams, hacksize as nat, texts@.len() as int) < 0,
        },
{
    let ghost all = views(texts@);
    let n: usize = texts.len();
    let mut best: Option<usize> = None;
    let mut x: usize = 0;
    while x < n
        invariant
            n == texts@.len(),
            all == views(texts@),
            heads_match(all, heads@, streams),
            x <= n,
            match best {
                Some(b) => b == least_head(all, streams, hacksize as nat, x as int),
                None => least_head(all, streams, hacksize as nat, x as int) < 0,
            },
        decreases n - x,
    {
        proof {
            lemma_least_head_range(all, streams, hacksize as nat, x as int);
        }
        assert(all[x as int] == texts@[x as int]@);
        let len_x: usize = texts[x].len();
        match heads[x] {
            None => {},
            Some(p) => {
                assert(p <= len_x);
                match best {
                    None => {
                        best = Some(x);
                    },
                    Some(b) => {
                        assert(all[b as int] == texts@[b as int]@);
                        let len_b: usize = texts[b].len();
                        let q: u64 = heads[b].unwrap();
                        assert(q <= len_b);
                        if suffix_less(
                            texts[x].as_slice(),
                            p as usize,
                            texts[b].as_slice(),
                            q as usize,
                            hacksize,
                        ) {
                            best = Some(x);
                        }
                    },
                }
            },
        }
        x = x + 1;
    }
    best
}

/// What is left of a stream: the pending pointer, if there is one, and
/// behind it the eligible pointers from `position` on.
pub open spec fn stream_state(
    head: Option<u64>,
    pointers: Seq<u64>,
    position: int,
    end: int,
    limit: int,
) -> Seq<u64> {
    match head {
        Some(p) => seq![p] + eligible(pointers, position, end, limit),
        None => Seq::empty(),
    }
}

/// Merges one partition: of each part the pointers between `starts` and
/// `ends` that lie in the part's real length, least suffix first under a
/// comparison bounded to `hacksize` bytes. Gives the merged pointers as
/// positions in the whole dataset, encoded at `ratio` bytes, and for each the
/// byte that precedes it.
pub fn merge_partition(
    texts: &Vec<Vec<u8>>,
    tables: &Vec<Vec<u8>>,
    starts: &Vec<usize>,
    ends: &Vec<usize>,
    hacksize: usize,
    ratio: usize,
) -> (r: Result<MergedSegment, IndexError>)
    ensures
        match merge_input_error(
            views(texts@),
            views(tables@),
            starts@,
            ends@,
            hacksize as nat,
            ratio as nat,
        ) {
            Some(e) => r == Err::<MergedSegment, IndexError>(e),
            None => r.is_ok() && r.unwrap().is_merge_of(
                views(texts@),
                partition_streams(
                    views(texts@),
                    views(tables@),
                    starts@,
                    ends@,
                    hacksize as nat,
                    ratio as nat,
                ),
                hacksize as nat,
                ratio as nat,
            ),
        },
{
    let ghost all = views(texts@);
    let ghost tabs = views(tables@);
    let ghost h = hacksize as nat;
    let ghost w = ratio as nat;
    let (lens, bases) = match measure_parts(texts, hacksize, ratio) {
        Ok(measured) => measured,
        Err(e) => {
            return Err(e);
        },
    };
    let n: usize = texts.len();
    if tables.len() != n || starts.len() != n || ends.len() != n {
        return Err(IndexError::PartCountMismatch);
    }
    assert forall|k: int| 0 <= k < n implies #[trigger] bases@[k] == part_base(all, h, k) by {
        assert(lens@[k] == real_len(all, h, k));
    }
    let mut c: usize = 0;
    while c < n
        invariant
            1 <= ratio <= 8,
            w == ratio as nat,
            h == hacksize as nat,
            n == texts@.len() == tables@.len() == ends@.len() == starts@.len(),
            all == views(texts@),
            tabs == views(tables@),
            layout_error(all, h, w).is_none(),
            c <= n,
            forall|k: int| 0 <= k < c ==> (#[trigger] ends@[k]) <= tabs[k].len() / w,
        decreases n - c,
    {
        assert(tabs[c as int] == tables@[c as int]@);
        if ends[c] > tables[c].len() / ratio {
            return Err(IndexError::BadBoundary);
        }
        c = c + 1;
    }
    let ghost initial = partition_streams(all, tabs, starts@, ends@, h, w);
    assert forall|k: int| 0 <= k < n implies #[trigger] real_len(all, h, k) >= 1 by {
        assert(lens@[k] == real_len(all, h, k));
    }
    let mut heads: Vec<Option<u64>> = Vec::new();
    let mut positions: Vec<usize> = Vec::new();
    let mut s: usize = 0;
    while s < n
        invariant
            1 <= ratio <= 8,
            w == ratio as nat,
            h == hacksize as nat,
            n == texts@.len() == tables@.len() == ends@.len() == starts@.len() == lens@.len(),
            all == views(texts@),
            tabs == views(tables@),
            initial == partition_streams(all, tabs, starts@, ends@, h, w),
            forall|k: int| 0 <= k < n ==> (#[trigger] ends@[k]) <= tabs[k].len() / w,
            forall|k: int| 0 <= k < n ==> #[trigger] lens@[k] == real_len(all, h, k),
            s <= n,
            heads@.len() == s,
            positions@.len() == s,
            forall|k: int|
                0 <= k < s ==> initial[k] == stream_state(
                    #[trigger] heads@[k],
                    decoded(tabs[k], w),
                    positions@[k] as int,
                    ends@[k] as int,
                    real_len(all, h, k),
                ),
            forall|k: int|
                0 <= k < s && (#[trigger] heads@[k]).is_some() ==> heads@[k].unwrap() < real_len(
                    all,
                    h,
                    k,
                ),
        decreases n - s,
    {
        assert(tabs[s as int] == tables@[s as int]@);
        assert(lens@[s as int] == real_len(all, h, s as int));
        assert(ends@[s as int] <= tabs[s as int].len() / w);
        let mut stream = make_table(tables[s].as_slice(), starts[s], ratio);
        let head: Option<u64> = next_eligible(&mut stream, ends[s], lens[s]);
        heads.push(head);
        positions.push(stream.position);
        s = s + 1;
    }
    let ghost mut rem = initial;
    let ghost mut emitted: Seq<(int, u64)> = Seq::empty();
    let mut pointers: Vec<u8> = Vec::new();
    let mut bwt: Vec<u8> = Vec::new();
    let mut warned: bool = false;
    let mut last_part: usize = 0;
    let mut last_pointer: usize = 0;
    proof {
        assert(emitted + merge_order(all, rem, h) =~= merge_order(all, initial, h));
        assert(preceding(all, h, emitted) =~= bwt@);
        assert(absolutes(all, h, emitted) =~= Seq::<u64>::empty());
        assert forall|k: int| 0 <= k < n implies match #[trigger] heads@[k] {
            Some(p) => rem[k].len() > 0 && rem[k][0] == p && p <= all[k].len(),
            None => rem[k].len() == 0,
        } by {
            assert(lens@[k] == real_len(all, h, k));
        }
    }
    let mut pick: Option<usize> = pick_least(texts, &heads, hacksize, Ghost(rem));
    while pick.is_some()
        invariant
            1 <= ratio <= 8,
            w == ratio as nat,
            h == hacksize as nat,
            0 < n == texts@.len() == tables@.len() == ends@.len() == starts@.len() == lens@.len()
                == bases@.len(),
            all == views(texts@),
            tabs == views(tables@),
            initial == partition_streams(all, tabs, starts@, ends@, h, w),
            total_real_len(all, h) <= pow256(w),
            forall|k: int| 0 <= k < n ==> (#[trigger] ends@[k]) <= tabs[k].len() / w,
            forall|k: int| 0 <= k < n ==> #[trigger] lens@[k] == real_len(all, h, k),
            forall|k: int| 0 <= k < n ==> #[trigger] bases@[k] == part_base(all, h, k),
            forall|k: int| 0 <= k < n ==> #[trigger] real_len(all, h, k) >= 1,
            heads@.len() == n,
            positions@.len() == n,
            rem.len() == n,
            forall|k: int|
                0 <= k < n ==> rem[k] == stream_state(
                    #[trigger] heads@[k],
                    decoded(tabs[k], w),
                    positions@[k] as int,
                    ends@[k] as int,
                    real_len(all, h, k),
                ),
            forall|k: int|
                0 <= k < n && (#[trigger] heads@[k]).is_some() ==> heads@[k].unwrap() < real_len(
                    all,
                    h,
                    k,
                ),
            emitted + merge_order(all, rem, h) == merge_order(all, initial, h),
            pointers@ == encoded(absolutes(all, h, emitted), w),
            crate::codec::all_fit(absolutes(all, h, emitted), w),
            bwt@ == preceding(all, h, emitted),
            last_part < n,
            last_pointer <= all[last_part as int].len(),
            long_match(all, initial, h) == (warned || long_match_steps(
                all,
                rem,
                h,
                last_part as int,
                last_pointer as int,
                total_len(rem),
            )),
            match pick {
                Some(x) => x == least_head(all, rem, h, n as int),
                None => least_head(all, rem, h, n as int) < 0,
            },
        decreases total_len(rem),
    {
        let x: usize = pick.unwrap();
        proof {
            lemma_least_head_range(all, rem, h, n as int);
            lemma_total_len_update(rem, x as int, rem[x as int].drop_first());
            lemma_part_base_monotone(all, h, x + 1, n as int);
            lemma_pow256_values();
            lemma_pow256_monotone(w, 8);
        }
        assert(all[x as int] == texts@[x as int]@);
        assert(tabs[x as int] == tables@[x as int]@);
        let len_x: usize = texts[x].len();
        let p: u64 = heads[x].unwrap();
        let ghost pair = (x as int, p);
        assert(rem[x as int][0] == p);
        assert(p < real_len(all, h, x as int));
        assert(part_base(all, h, x + 1) == part_base(all, h, x as int) + real_len(
            all,
            h,
            x as int,
        ));
        let position: u64 = bases[x] + p;
        assert(position == absolute(all, h, pair));
        assert(fits(position as nat, w));
        push_word(&mut pointers, position, ratio);
        let before: u8 = if p > 0 {
            texts[x][p as usize - 1]
        } else if x > 0 {
            assert(all[x - 1] == texts@[x - 1]@);
            assert(lens@[x - 1] == real_len(all, h, x - 1));
            texts[x - 1][lens[x - 1] - 1]
        } else {
            assert(all[n - 1] == texts@[n - 1]@);
            assert(lens@[n - 1] == real_len(all, h, n - 1));
            texts[n - 1][lens[n - 1] - 1]
        };
        assert(before == preceding_byte(all, h, pair));
        bwt.push(before);
        assert(lens@[x as int] == real_len(all, h, x as int));
        assert(ends@[x as int] <= tabs[x as int].len() / w);
        let mut stream = make_table(tables[x].as_slice(), positions[x], ratio);
        let next: Option<u64> = next_eligible(&mut stream, ends[x], lens[x]);
        let ghost old_rem = rem;
        let ghost old_emitted = emitted;
        let ghost old_heads = heads@;
        let ghost old_positions = positions@;
        heads.set(x, next);
        positions.set(x, stream.position);
        let prev_part: usize = last_part;
        let prev_pointer: usize = last_pointer;
        match next {
            Some(q) => {
                assert(all[prev_part as int] == texts@[prev_part as int]@);
                if suffixes_share_prefix(
                    texts[x].as_slice(),
                    q as usize,
                    texts[prev_part].as_slice(),
                    prev_pointer,
                    hacksize,
                ) {
                    warned = true;
                }
                last_part = x;
                last_pointer = q as usize;
            },
            None => {},
        }
        proof {
            rem = advanced(old_rem, x as int);
            emitted = old_emitted.push(pair);
            let tail = eligible(
                decoded(tabs[x as int], w),
                old_positions[x as int] as int,
                ends@[x as int] as int,
                real_len(all, h, x as int),
            );
            assert(old_rem[x as int] == seq![p] + tail);
            assert(old_rem[x as int].drop_first() =~= tail);
            assert forall|k: int| 0 <= k < n implies rem[k] == stream_state(
                #[trigger] heads@[k],
                decoded(tabs[k], w),
                positions@[k] as int,
                ends@[k] as int,
                real_len(all, h, k),
            ) by {
                if k != x {
                    assert(heads@[k] == old_heads[k]);
                    assert(rem[k] == old_rem[k]);
                } else {
                    if next.is_none() {
                        assert(rem[k] =~= Seq::<u64>::empty());
                    }
                }
            }
            assert forall|k: int|
                0 <= k < n && (#[trigger] heads@[k]).is_some() implies heads@[k].unwrap()
                < real_len(all, h, k) by {
                if k != x {
                    assert(heads@[k] == old_heads[k]);
                }
            }
            assert(merge_order(all, old_rem, h) == seq![pair] + merge_order(all, rem, h));
            assert(emitted + merge_order(all, rem, h) =~= old_emitted + merge_order(
                all,
                old_rem,
                h,
            ));
            assert(absolutes(all, h, emitted).drop_last() =~= absolutes(all, h, old_emitted));
            assert(absolutes(all, h, emitted).last() == position);
            assert forall|i: int| 0 <= i < emitted.len() implies fits(
                #[trigger] absolutes(all, h, emitted)[i] as nat,
                w,
            ) by {
                if i < old_emitted.len() {
                    assert(absolutes(all, h, emitted)[i] == absolutes(all, h, old_emitted)[i]);
                }
            }
            assert(preceding(all, h, emitted) =~= preceding(all, h, old_emitted).push(before));
            assert forall|k: int| 0 <= k < n implies match #[trigger] heads@[k] {
                Some(hp) => rem[k].len() > 0 && rem[k][0] == hp && hp <= all[k].len(),
                None => rem[k].len() == 0,
            } by {
                assert(lens@[k] == real_len(all, h, k));
            }
            if next.is_some() {
                assert(old_rem[x as int].len() > 1);
                assert(old_rem[x as int][1] == next.unwrap());
            } else {
                assert(old_rem[x as int].len() == 1);
            }
        }
        pick = pick_least(texts, &heads, hacksize, Ghost(rem));
    }
    proof {
        assert(emitted =~= merge_order(all, initial, h));
        crate::codec::lemma_round_trip(absolutes(all, h, emitted), w);
    }
    Ok(MergedSegment { pointers, bwt, long_match: warned })
}

} // verus!
