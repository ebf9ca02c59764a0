//! The layout of the two final files: the index, with a header of nine
//! bytes, and the Burrows-Wheeler file, with a header of eight, each made of
//! the partitions' pieces one after another and padded to a multiple of
//! eight bytes.

use crate::codec::{push_word, read_word, word_bytes, word_value};
use crate::codec::lemma_word_bytes_len;
use crate::error::IndexError;
use vstd::prelude::*;

verus! {

/// The number of zero bytes that bring a body of `len` bytes to a multiple
/// of eight.
pub open spec fn padding(len: nat) -> nat {
    ((8 - len % 8) % 8) as nat
}

/// `n` zero bytes.
pub open spec fn zeros(n: nat) -> Seq<u8> {
    Seq::new(n, |i: int| 0u8)
}

/// The pieces one after another.
pub open spec fn joined(pieces: Seq<Seq<u8>>) -> Seq<u8>
    decreases pieces.len(),
{
    if pieces.len() == 0 {
        Seq::empty()
    } else {
        joined(pieces.drop_last()) + pieces.last()
    }
}

/// The number of bytes of each piece.
pub open spec fn sizes_of(pieces: Seq<Seq<u8>>) -> Seq<u64> {
    Seq::new(pieces.len(), |k: int| pieces[k].len() as u64)
}

/// The number of pointers in the pieces before piece `k`, given the number
/// of bytes of each piece.
pub open spec fn pointers_before(sizes: Seq<u64>, ratio: nat, k: int) -> nat
    decreases k,
{
    if k <= 0 {
        0
    } else {
        pointers_before(sizes, ratio, k - 1) + sizes[k - 1] as nat / ratio
    }
}

/// The header of the index file: eight times the number of pointers, in
/// eight bytes, then the pointer width in bits, in one.
pub open spec fn index_header(count: nat, ratio: nat) -> Seq<u8> {
    word_bytes(count * 8, 8) + seq![(ratio * 8) as u8]
}

/// The header of the Burrows-Wheeler file: eight times the dataset's size,
/// in eight bytes.
pub open spec fn bwt_header(count: nat) -> Seq<u8> {
    word_bytes(count * 8, 8)
}

/// The whole index file.
pub open spec fn final_index(count: nat, ratio: nat, bodies: Seq<Seq<u8>>) -> Seq<u8> {
    index_header(count, ratio) + joined(bodies) + zeros(padding(count * ratio))
}

/// The whole Burrows-Wheeler file.
pub open spec fn final_bwt(count: nat, bodies: Seq<Seq<u8>>) -> Seq<u8> {
    bwt_header(count) + joined(bodies) + zeros(padding(count))
}

/// The number of bytes of the index file of `count` pointers.
pub open spec fn index_len(count: nat, ratio: nat) -> nat {
    9 + count * ratio + padding(count * ratio)
}

/// The number of bytes of the Burrows-Wheeler file of a dataset of `count`
/// bytes.
pub open spec fn bwt_len(count: nat) -> nat {
    8 + count + padding(count)
}

/// Why the pieces cannot be put together, if they cannot.
pub open spec fn stitch_error(
    count: nat,
    ratio: nat,
    pointer_parts: Seq<Seq<u8>>,
    bwt_parts: Seq<Seq<u8>>,
) -> Option<IndexError> {
    if !(1 <= ratio <= 8) {
        Some(IndexError::WidthOutOfRange)
    } else if count * 8 > u64::MAX {
        Some(IndexError::ValueTooWide)
    } else if bwt_parts.len() != pointer_parts.len() {
        Some(IndexError::PartCountMismatch)
    } else if exists|k: int|
        0 <= k < pointer_parts.len() && (#[trigger] pointer_parts[k]).len() % ratio != 0 {
        Some(IndexError::RaggedTable)
    } else if exists|k: int|
        0 <= k < pointer_parts.len() && (#[trigger] bwt_parts[k]).len() * ratio
            != pointer_parts[k].len() {
        Some(IndexError::SizeMismatch)
    } else if pointers_before(sizes_of(pointer_parts), ratio, pointer_parts.len() as int)
        != count {
        Some(IndexError::SizeMismatch)
    } else {
        None
    }
}

/// The two final files.
pub struct FinalFiles {
    /// The index file: header, pointers, padding.
    pub index: Vec<u8>,
    /// The Burrows-Wheeler file: header, bytes, padding.
    pub bwt: Vec<u8>,
}

/// The size of the dataset that a data file announces in its first eight
/// bytes, which hold eight times the size.
pub fn dataset_size(data: &[u8]) -> (r: Result<u64, IndexError>)
    ensures
        data@.len() < 8 ==> r == Err::<u64, IndexError>(IndexError::BadRange),
        data@.len() >= 8 ==> r == Ok::<u64, IndexError>(
            (word_value(data@.subrange(0, 8)) / 8) as u64,
        ),
{
    if data.len() < 8 {
        return Err(IndexError::BadRange);
    }
    let announced: u64 = read_word(data, 0, 8);
    Ok(announced / 8)
}

/// Appends `piece` to `out`.
pub fn append_bytes(out: &mut Vec<u8>, piece: &[u8])
    ensures
        final(out)@ == old(out)@ + piece@,
{
    let n: usize = piece.len();
    let mut i: usize = 0;
    while i < n
        invariant
            n == piece@.len(),
            i <= n,
            out@ == old(out)@ + piece@.take(i as int),
        decreases n - i,
    {
        out.push(piece[i]);
        assert(piece@.take(i + 1) =~= piece@.take(i as int).push(piece@[i as int]));
        i = i + 1;
    }
    assert(piece@.take(n as int) =~= piece@);
}

/// Appends the zero bytes that bring a body of `body_len` bytes to a
/// multiple of eight.
pub fn append_padding(out: &mut Vec<u8>, body_len: u64)
    ensures
        final(out)@ == old(out)@ + zeros(padding(body_len as nat)),
{
    let pad: u64 = (8 - body_len % 8) % 8;
    let mut i: u64 = 0;
    while i < pad
        invariant
            pad == padding(body_len as nat),
            i <= pad,
            out@ == old(out)@ + zeros(i as nat),
        decreases pad - i,
    {
        out.push(0u8);
        assert(zeros((i + 1) as nat) =~= zeros(i as nat).push(0u8));
        i = i + 1;
    }
}

/// The number of bytes of the index file of `count` pointers of `ratio`
/// bytes each.
pub fn index_file_len(count: u64, ratio: usize) -> (r: Result<u64, IndexError>)
    ensures
        !(1 <= ratio <= 8) ==> r == Err::<u64, IndexError>(IndexError::WidthOutOfRange),
        1 <= ratio <= 8 && index_len(count as nat, ratio as nat) > u64::MAX ==> r == Err::<
            u64,
            IndexError,
        >(IndexError::ValueTooWide),
        1 <= ratio <= 8 && index_len(count as nat, ratio as nat) <= u64::MAX ==> r == Ok::<
            u64,
            IndexError,
        >(index_len(count as nat, ratio as nat) as u64),
{
    if ratio < 1 || ratio > 8 {
        return Err(IndexError::WidthOutOfRange);
    }
    assert(count * ratio <= 0xffff_ffff_ffff_ffff * 8) by (nonlinear_arith)
        requires
            count <= 0xffff_ffff_ffff_ffff,
            ratio <= 8,
    ;
    let body: u128 = count as u128 * ratio as u128;
    let pad: u128 = (8 - body % 8) % 8;
    let total: u128 = body + pad + 9;
    if total > u64::MAX as u128 {
        return Err(IndexError::ValueTooWide);
    }
    Ok(total as u64)
}

/// The number of bytes of the Burrows-Wheeler file of a dataset of `count`
/// bytes.
pub fn bwt_file_len(count: u64) -> (r: Result<u64, IndexError>)
    ensures
        bwt_len(count as nat) > u64::MAX ==> r == Err::<u64, IndexError>(
            IndexError::ValueTooWide,
        ),
        bwt_len(count as nat) <= u64::MAX ==> r == Ok::<u64, IndexError>(
            bwt_len(count as nat) as u64,
        ),
{
    let body: u128 = count as u128;
    let pad: u128 = (8 - body % 8) % 8;
    let total: u128 = body + pad + 8;
    if total > u64::MAX as u128 {
        return Err(IndexError::ValueTooWide);
    }
    Ok(total as u64)
}

/// The count of pointers before a piece does not shrink from one piece to
/// the next.
pub proof fn lemma_pointers_before_monotone(sizes: Seq<u64>, ratio: nat, k: int, m: int)
    requires
        0 <= k <= m,
        ratio > 0,
    ensures
        pointers_before(sizes, ratio, k) <= pointers_before(sizes, ratio, m),
    decreases m - k,
{
    if k < m {
        lemma_pointers_before_monotone(sizes, ratio, k, m - 1);
    }
}

/// For each partition, the number of pointers that the partitions before it
/// contribute: the place, counted in pointers, at which its piece goes.
pub fn segment_offsets(sizes: &Vec<u64>, ratio: usize) -> (r: Result<Vec<u64>, IndexError>)
    ensures
        !(1 <= ratio <= 8) ==> r == Err::<Vec<u64>, IndexError>(IndexError::WidthOutOfRange),
        1 <= ratio <= 8 && (exists|k: int|
            0 <= k < sizes@.len() && (#[trigger] sizes@[k]) % (ratio as u64) != 0) ==> r == Err::<
            Vec<u64>,
            IndexError,
        >(IndexError::RaggedTable),
        1 <= ratio <= 8 && (forall|k: int|
            0 <= k < sizes@.len() ==> (#[trigger] sizes@[k]) % (ratio as u64) == 0)
            && pointers_before(sizes@, ratio as nat, sizes@.len() as int) > u64::MAX ==> r
            == Err::<Vec<u64>, IndexError>(IndexError::ValueTooWide),
        1 <= ratio <= 8 && (forall|k: int|
            0 <= k < sizes@.len() ==> (#[trigger] sizes@[k]) % (ratio as u64) == 0)
            && pointers_before(sizes@, ratio as nat, sizes@.len() as int) <= u64::MAX ==> r.is_ok()
            && r.unwrap()@.len() == sizes@.len() && forall|k: int|
            0 <= k < sizes@.len() ==> (#[trigger] r.unwrap()@[k]) == pointers_before(
                sizes@,
                ratio as nat,
                k,
            ),
{
    if ratio < 1 || ratio > 8 {
        return Err(IndexError::WidthOutOfRange);
    }
    let n: usize = sizes.len();
    let mut c: usize = 0;
    while c < n
        invariant
            1 <= ratio <= 8,
            n == sizes@.len(),
            c <= n,
            forall|k: int| 0 <= k < c ==> (#[trigger] sizes@[k]) % (ratio as u64) == 0,
        decreases n - c,
    {
        if sizes[c] % (ratio as u64) != 0 {
            return Err(IndexError::RaggedTable);
        }
        c = c + 1;
    }
    let mut offsets: Vec<u64> = Vec::new();
    let mut total: u64 = 0;
    let mut i: usize = 0;
    while i < n
        invariant
            1 <= ratio <= 8,
            n == sizes@.len(),
            i <= n,
            forall|k: int| 0 <= k < n ==> (#[trigger] sizes@[k]) % (ratio as u64) == 0,
            offsets@.len() == i,
            total == pointers_before(sizes@, ratio as nat, i as int),
            forall|k: int|
                0 <= k < i ==> (#[trigger] offsets@[k]) == pointers_before(
                    sizes@,
                    ratio as nat,
                    k,
                ),
        decreases n - i,
    {
        offsets.push(total);
        let step: u64 = sizes[i] / (ratio as u64);
        if step > u64::MAX - total {
            proof {
                lemma_pointers_before_monotone(sizes@, ratio as nat, i + 1, n as int);
            }
            return Err(IndexError::ValueTooWide);
        }
        total = total + step;
        i = i + 1;
    }
    Ok(offsets)
}

/// Every piece stands whole in the joined pieces, behind the pieces that
/// come before it.
pub proof fn lemma_joined_piece(pieces: Seq<Seq<u8>>, k: int)
    requires
        0 <= k < pieces.len(),
    ensures
        joined(pieces.take(k)).len() + pieces[k].len() <= joined(pieces).len(),
        joined(pieces).subrange(
            joined(pieces.take(k)).len() as int,
            (joined(pieces.take(k)).len() + pieces[k].len()) as int,
        ) == pieces[k],
    decreases pieces.len(),
{
    let front = pieces.drop_last();
    if k == pieces.len() - 1 {
        assert(pieces.take(k) =~= front);
        assert(joined(pieces).subrange(
            joined(front).len() as int,
            (joined(front).len() + pieces[k].len()) as int,
        ) =~= pieces[k]);
    } else {
        lemma_joined_piece(front, k);
        assert(front.take(k) =~= pieces.take(k));
        let start = joined(pieces.take(k)).len() as int;
        assert(joined(pieces).subrange(start, start + pieces[k].len()) =~= joined(front).subrange(
            start,
            start + pieces[k].len(),
        ));
    }
}

/// Where no piece holds a partial pointer, the pieces before piece `k`
/// take up `ratio` bytes for each of their pointers.
pub proof fn lemma_joined_take_len(pieces: Seq<Seq<u8>>, ratio: nat, k: int)
    requires
        ratio > 0,
        0 <= k <= pieces.len(),
        forall|j: int| 0 <= j < pieces.len() ==> (#[trigger] pieces[j]).len() % ratio == 0,
        forall|j: int| 0 <= j < pieces.len() ==> (#[trigger] pieces[j]).len() <= u64::MAX,
    ensures
        joined(pieces.take(k)).len() == ratio * pointers_before(sizes_of(pieces), ratio, k),
    decreases k,
{
    if k > 0 {
        lemma_joined_take_len(pieces, ratio, k - 1);
        let front = pieces.take(k);
        assert(front.drop_last() =~= pieces.take(k - 1));
        assert(front.last() == pieces[k - 1]);
        let len = pieces[k - 1].len();
        assert(sizes_of(pieces)[k - 1] == len);
        vstd::arithmetic::div_mod::lemma_fundamental_div_mod(len as int, ratio as int);
        let before = pointers_before(sizes_of(pieces), ratio, k - 1);
        let q = len / ratio;
        assert(ratio * (before + q) == ratio * before + ratio * q) by (nonlinear_arith);
    } else {
        assert(pieces.take(0) =~= Seq::<Seq<u8>>::empty());
        assert(ratio * 0 == 0);
    }
}

/// Puts the partitions' pieces together into the two final files.
pub fn stitch(
    count: u64,
    ratio: usize,
    pointer_parts: &Vec<Vec<u8>>,
    bwt_parts: &Vec<Vec<u8>>,
) -> (r: Result<FinalFiles, IndexError>)
    ensures
        match stitch_error(
            count as nat,
            ratio as nat,
            crate::merge::views(pointer_parts@),
            crate::merge::views(bwt_parts@),
        ) {
            Some(e) => r == Err::<FinalFiles, IndexError>(e),
            None => r.is_ok() && r.unwrap().index@ == final_index(
                count as nat,
                ratio as nat,
                crate::merge::views(pointer_parts@),
            ) && r.unwrap().bwt@ == final_bwt(count as nat, crate::merge::views(bwt_parts@)),
        },
{
    let ghost bodies = crate::merge::views(pointer_parts@);
    let ghost letters = crate::merge::views(bwt_parts@);
    let ghost w = ratio as nat;
    if ratio < 1 || ratio > 8 {
        return Err(IndexError::WidthOutOfRange);
    }
    if count > u64::MAX / 8 {
        return Err(IndexError::ValueTooWide);
    }
    let n: usize = pointer_parts.len();
    if bwt_parts.len() != n {
        return Err(IndexError::PartCountMismatch);
    }
    let mut c: usize = 0;
    while c < n
        invariant
            1 <= ratio <= 8,
            w == ratio as nat,
            count * 8 <= u64::MAX,
            n == pointer_parts@.len() == bwt_parts@.len(),
            bodies == crate::merge::views(pointer_parts@),
            letters == crate::merge::views(bwt_parts@),
            c <= n,
            forall|k: int| 0 <= k < c ==> (#[trigger] bodies[k]).len() % w == 0,
        decreases n - c,
    {
        assert(bodies[c as int] == pointer_parts@[c as int]@);
        if pointer_parts[c].len() % ratio != 0 {
            return Err(IndexError::RaggedTable);
        }
        c = c + 1;
    }
    let mut d: usize = 0;
    let mut total: u64 = 0;
    while d < n
        invariant
            1 <= ratio <= 8,
            w == ratio as nat,
            count * 8 <= u64::MAX,
            n == pointer_parts@.len() == bwt_parts@.len(),
            bodies == crate::merge::views(pointer_parts@),
            letters == crate::merge::views(bwt_parts@),
            d <= n,
            forall|k: int| 0 <= k < n ==> (#[trigger] bodies[k]).len() % w == 0,
            forall|k: int| 0 <= k < d ==> (#[trigger] letters[k]).len() * w == bodies[k].len(),
            total == pointers_before(sizes_of(bodies), w, d as int),
            total <= count,
            stitch_error(count as nat, w, bodies, letters) == if exists|k: int|
                0 <= k < bodies.len() && (#[trigger] letters[k]).len() * w != bodies[k].len() {
                Some(IndexError::SizeMismatch)
            } else if pointers_before(sizes_of(bodies), w, bodies.len() as int) != count {
                Some(IndexError::SizeMismatch)
            } else {
                None::<IndexError>
            },
        decreases n - d,
    {
        assert(bodies[d as int] == pointer_parts@[d as int]@);
        assert(letters[d as int] == bwt_parts@[d as int]@);
        let size: usize = pointer_parts[d].len();
        let pointers: usize = size / ratio;
        assert(sizes_of(bodies)[d as int] == size);
        proof {
            vstd::arithmetic::div_mod::lemma_fundamental_div_mod(size as int, ratio as int);
        }
        if bwt_parts[d].len() != pointers {
            assert(letters[d as int].len() * w != bodies[d as int].len()) by (nonlinear_arith)
                requires
                    letters[d as int].len() != pointers,
                    bodies[d as int].len() == w * pointers,
                    w > 0,
            ;
            return Err(IndexError::SizeMismatch);
        }
        assert(letters[d as int].len() * w == bodies[d as int].len()) by (nonlinear_arith)
            requires
                letters[d as int].len() == pointers,
                bodies[d as int].len() == w * pointers,
        ;
        if pointers as u64 > count - total {
            proof {
                lemma_pointers_before_monotone(sizes_of(bodies), w, d + 1, n as int);
            }
            return Err(IndexError::SizeMismatch);
        }
        total = total + pointers as u64;
        d = d + 1;
    }
    if total != count {
        return Err(IndexError::SizeMismatch);
    }
    let mut index: Vec<u8> = Vec::new();
    push_word(&mut index, count * 8, 8);
    index.push((ratio * 8) as u8);
    let mut bwt: Vec<u8> = Vec::new();
    push_word(&mut bwt, count * 8, 8);
    assert(index@ =~= index_header(count as nat, w));
    assert(bwt@ =~= bwt_header(count as nat));
    let mut i: usize = 0;
    while i < n
        invariant
            n == pointer_parts@.len() == bwt_parts@.len(),
            bodies == crate::merge::views(pointer_parts@),
            letters == crate::merge::views(bwt_parts@),
            i <= n,
            index@ == index_header(count as nat, w) + joined(bodies.take(i as int)),
            bwt@ == bwt_header(count as nat) + joined(letters.take(i as int)),
        decreases n - i,
    {
        assert(bodies[i as int] == pointer_parts@[i as int]@);
        assert(letters[i as int] == bwt_parts@[i as int]@);
        append_bytes(&mut index, pointer_parts[i].as_slice());
        append_bytes(&mut bwt, bwt_parts[i].as_slice());
        proof {
            assert(bodies.take(i + 1).drop_last() =~= bodies.take(i as int));
            assert(letters.take(i + 1).drop_last() =~= letters.take(i as int));
            assert(index@ =~= index_header(count as nat, w) + joined(bodies.take(i + 1)));
            assert(bwt@ =~= bwt_header(count as nat) + joined(letters.take(i + 1)));
        }
        i = i + 1;
    }
    assert(bodies.take(n as int) =~= bodies);
    assert(letters.take(n as int) =~= letters);
    assert(count * ratio <= u64::MAX) by (nonlinear_arith)
        requires
            count * 8 <= u64::MAX,
            ratio <= 8,
    ;
    append_padding(&mut index, count * (ratio as u64));
    append_padding(&mut bwt, count);
    Ok(FinalFiles { index, bwt })
}

/// In the index file the piece of partition `k` stands whole, from byte
/// `9 + ratio * b` on, where `b` pointers come before it, and ends where the
/// piece of the next partition starts: no two pieces share a byte.
pub proof fn lemma_index_piece_position(
    count: nat,
    ratio: nat,
    pointer_parts: Seq<Seq<u8>>,
    k: int,
)
    requires
        ratio > 0,
        0 <= k < pointer_parts.len(),
        forall|j: int|
            0 <= j < pointer_parts.len() ==> (#[trigger] pointer_parts[j]).len() % ratio == 0,
        forall|j: int|
            0 <= j < pointer_parts.len() ==> (#[trigger] pointer_parts[j]).len() <= u64::MAX,
    ensures
        9 + ratio * pointers_before(sizes_of(pointer_parts), ratio, k) + pointer_parts[k].len()
            == 9 + ratio * pointers_before(sizes_of(pointer_parts), ratio, k + 1),
        9 + ratio * pointers_before(sizes_of(pointer_parts), ratio, k + 1) <= final_index(
            count,
            ratio,
            pointer_parts,
        ).len(),
        final_index(count, ratio, pointer_parts).subrange(
            (9 + ratio * pointers_before(sizes_of(pointer_parts), ratio, k)) as int,
            (9 + ratio * pointers_before(sizes_of(pointer_parts), ratio, k + 1)) as int,
        ) == pointer_parts[k],
{
    let all = final_index(count, ratio, pointer_parts);
    let body = joined(pointer_parts);
    lemma_word_bytes_len(count * 8, 8);
    lemma_joined_piece(pointer_parts, k);
    lemma_joined_take_len(pointer_parts, ratio, k);
    lemma_joined_take_len(pointer_parts, ratio, k + 1);
    assert(pointer_parts.take(k + 1).drop_last() =~= pointer_parts.take(k));
    let start = joined(pointer_parts.take(k)).len() as int;
    let end = start + pointer_parts[k].len();
    assert(all.subrange(9 + start, 9 + end) =~= body.subrange(start, end));
}

/// The pieces of the Burrows-Wheeler file hold one byte for each pointer of
/// the index pieces, so the same count of pointers comes before each.
pub proof fn lemma_bwt_counts(
    ratio: nat,
    pointer_parts: Seq<Seq<u8>>,
    bwt_parts: Seq<Seq<u8>>,
    k: int,
)
    requires
        ratio > 0,
        pointer_parts.len() == bwt_parts.len(),
        0 <= k <= pointer_parts.len(),
        forall|j: int|
            0 <= j < pointer_parts.len() ==> (#[trigger] bwt_parts[j]).len() * ratio
                == pointer_parts[j].len(),
        forall|j: int|
            0 <= j < pointer_parts.len() ==> (#[trigger] pointer_parts[j]).len() <= u64::MAX,
    ensures
        pointers_before(sizes_of(bwt_parts), 1, k) == pointers_before(
            sizes_of(pointer_parts),
            ratio,
            k,
        ),
    decreases k,
{
    if k > 0 {
        lemma_bwt_counts(ratio, pointer_parts, bwt_parts, k - 1);
        let b = bwt_parts[k - 1].len();
        let p = pointer_parts[k - 1].len();
        assert(b * ratio == p);
        assert(b <= p) by (nonlinear_arith)
            requires
                b * ratio == p,
                ratio > 0,
        ;
        assert(p / ratio == b) by (nonlinear_arith)
            requires
                b * ratio == p,
                ratio > 0,
        ;
        assert(sizes_of(bwt_parts)[k - 1] == b);
        assert(sizes_of(pointer_parts)[k - 1] == p);
    }
}

/// In the Burrows-Wheeler file the piece of partition `k` stands whole, from
/// byte `8 + b` on, where `b` pointers come before it, and ends where the
/// piece of the next partition starts.
pub proof fn lemma_bwt_piece_position(
    count: nat,
    ratio: nat,
    pointer_parts: Seq<Seq<u8>>,
    bwt_parts: Seq<Seq<u8>>,
    k: int,
)
    requires
        ratio > 0,
        pointer_parts.len() == bwt_parts.len(),
        0 <= k < pointer_parts.len(),
        forall|j: int|
            0 <= j < pointer_parts.len() ==> (#[trigger] bwt_parts[j]).len() * ratio
                == pointer_parts[j].len(),
        forall|j: int|
            0 <= j < pointer_parts.len() ==> (#[trigger] pointer_parts[j]).len() <= u64::MAX,
    ensures
        8 + pointers_before(sizes_of(pointer_parts), ratio, k) + bwt_parts[k].len() == 8
            + pointers_before(sizes_of(pointer_parts), ratio, k + 1),
        8 + pointers_before(sizes_of(pointer_parts), ratio, k + 1) <= final_bwt(
            count,
            bwt_parts,
        ).len(),
        final_bwt(count, bwt_parts).subrange(
            (8 + pointers_before(sizes_of(pointer_parts), ratio, k)) as int,
            (8 + pointers_before(sizes_of(pointer_parts), ratio, k + 1)) as int,
        ) == bwt_parts[k],
{
    let all = final_bwt(count, bwt_parts);
    let body = joined(bwt_parts);
    lemma_word_bytes_len(count * 8, 8);
    lemma_bwt_counts(ratio, pointer_parts, bwt_parts, k);
    lemma_bwt_counts(ratio, pointer_parts, bwt_parts, k + 1);
    assert forall|j: int| 0 <= j < bwt_parts.len() implies (#[trigger] bwt_parts[j]).len()
        <= u64::MAX by {
        let b = bwt_parts[j].len();
        let p = pointer_parts[j].len();
        assert(b <= p) by (nonlinear_arith)
            requires
                b * ratio == p,
                ratio > 0,
        ;
    }
    lemma_joined_piece(bwt_parts, k);
    lemma_joined_take_len(bwt_parts, 1, k);
    lemma_joined_take_len(bwt_parts, 1, k + 1);
    assert(bwt_parts.take(k + 1).drop_last() =~= bwt_parts.take(k));
    let start = joined(bwt_parts.take(k)).len() as int;
    let end = start + bwt_parts[k].len();
    assert(all.subrange(8 + start, 8 + end) =~= body.subrange(start, end));
}

/// The nine bytes that the index file starts with.
pub fn write_index_header(count: u64, ratio: usize) -> (r: Result<Vec<u8>, IndexError>)
    ensures
        !(1 <= ratio <= 8) ==> r == Err::<Vec<u8>, IndexError>(IndexError::WidthOutOfRange),
        1 <= ratio <= 8 && count * 8 > u64::MAX ==> r == Err::<Vec<u8>, IndexError>(
            IndexError::ValueTooWide,
        ),
        1 <= ratio <= 8 && count * 8 <= u64::MAX ==> r.is_ok() && r.unwrap()@ == index_header(
            count as nat,
            ratio as nat,
        ),
{
    if ratio < 1 || ratio > 8 {
        return Err(IndexError::WidthOutOfRange);
    }
    if count > u64::MAX / 8 {
        return Err(IndexError::ValueTooWide);
    }
    let mut header: Vec<u8> = Vec::new();
    push_word(&mut header, count * 8, 8);
    header.push((ratio * 8) as u8);
    assert(header@ =~= index_header(count as nat, ratio as nat));
    Ok(header)
}

/// The eight bytes that the Burrows-Wheeler file starts with.
pub fn write_bwt_header(count: u64) -> (r: Result<Vec<u8>, IndexError>)
    ensures
        count * 8 > u64::MAX ==> r == Err::<Vec<u8>, IndexError>(IndexError::ValueTooWide),
        count * 8 <= u64::MAX ==> r.is_ok() && r.unwrap()@ == bwt_header(count as nat),
{
    if count > u64::MAX / 8 {
        return Err(IndexError::ValueTooWide);
    }
    let mut header: Vec<u8> = Vec::new();
    push_word(&mut header, count * 8, 8);
    assert(header@ =~= bwt_header(count as nat));
    Ok(header)
}

/// Where the pieces can be put together, the two files have exactly the
/// sizes that follow from the number of pointers and their width.
pub proof fn lemma_final_lengths(
    count: nat,
    ratio: nat,
    pointer_parts: Seq<Seq<u8>>,
    bwt_parts: Seq<Seq<u8>>,
)
    requires
        stitch_error(count, ratio, pointer_parts, bwt_parts).is_none(),
        forall|j: int|
            0 <= j < pointer_parts.len() ==> (#[trigger] pointer_parts[j]).len() <= u64::MAX,
    ensures
        final_index(count, ratio, pointer_parts).len() == index_len(count, ratio),
        final_bwt(count, bwt_parts).len() == bwt_len(count),
{
    let n = pointer_parts.len() as int;
    lemma_word_bytes_len(count * 8, 8);
    assert forall|j: int| 0 <= j < n implies (#[trigger] pointer_parts[j]).len() % ratio == 0 by {}
    assert forall|j: int| 0 <= j < n implies (#[trigger] bwt_parts[j]).len() * ratio
        == pointer_parts[j].len() by {}
    assert forall|j: int| 0 <= j < n implies (#[trigger] bwt_parts[j]).len() <= u64::MAX by {
        let b = bwt_parts[j].len();
        let p = pointer_parts[j].len();
        assert(b <= p) by (nonlinear_arith)
            requires
                b * ratio == p,
                ratio > 0,
        ;
    }
    lemma_joined_take_len(pointer_parts, ratio, n);
    assert(pointer_parts.take(n) =~= pointer_parts);
    lemma_bwt_counts(ratio, pointer_parts, bwt_parts, n);
    lemma_joined_take_len(bwt_parts, 1, n);
    assert(bwt_parts.take(n) =~= bwt_parts);
    assert(ratio * count == count * ratio) by (nonlinear_arith);
}

} // verus!
