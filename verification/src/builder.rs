//! The partial suffix array of one byte range: every position of the range,
//! ordered by the suffix that starts there, encoded as a pointer table.

use crate::codec::{decoded, encoded, fits, fits_width};
use crate::cursor::suffix_sorted;
use crate::error::IndexError;
use crate::merge_facts::distinct;
use crate::order::{key, lex_le, lex_lt, suffix, suffix_less};
use crate::order::{lemma_lex_le_lt, lemma_lex_total};
use vstd::prelude::*;
use vstd::slice::slice_subrange;

verus! {

/// Whether `pointers` is the suffix array of `text`: each position once, in
/// the order of the suffixes.
pub open spec fn is_suffix_array(text: Seq<u8>, pointers: Seq<u64>) -> bool {
    &&& pointers.len() == text.len()
    &&& forall|i: int| 0 <= i < pointers.len() ==> (#[trigger] pointers[i]) < text.len()
    &&& distinct(pointers)
    &&& suffix_sorted(text, pointers)
}

/// Two suffixes of one text that start at different positions differ, for
/// they differ in length.
pub proof fn lemma_suffixes_differ(text: Seq<u8>, p: int, q: int)
    requires
        0 <= p <= text.len(),
        0 <= q <= text.len(),
        p != q,
    ensures
        suffix(text, p) != suffix(text, q),
{
    assert(suffix(text, p).len() == text.len() - p);
    assert(suffix(text, q).len() == text.len() - q);
}

/// In a suffix array each suffix comes strictly before every later one.
pub proof fn lemma_suffix_array_strict(text: Seq<u8>, pointers: Seq<u64>, i: int, j: int)
    requires
        is_suffix_array(text, pointers),
        0 <= i < j < pointers.len(),
    ensures
        lex_lt(suffix(text, pointers[i] as int), suffix(text, pointers[j] as int)),
{
    lemma_suffixes_differ(text, pointers[i] as int, pointers[j] as int);
    lemma_lex_total(suffix(text, pointers[i] as int), suffix(text, pointers[j] as int));
}

/// The place among the sorted `pointers` before which every suffix is
/// smaller than the one at `p` and from which on none is.
fn insertion_place(text: &[u8], pointers: &Vec<u64>, p: usize) -> (place: usize)
    requires
        p <= text@.len(),
        forall|i: int| 0 <= i < pointers@.len() ==> (#[trigger] pointers@[i]) <= text@.len(),
        suffix_sorted(text@, pointers@),
    ensures
        place <= pointers@.len(),
        forall|i: int|
            0 <= i < place ==> lex_lt(
                suffix(text@, (#[trigger] pointers@[i]) as int),
                suffix(text@, p as int),
            ),
        forall|i: int|
            place <= i < pointers@.len() ==> !lex_lt(
                suffix(text@, (#[trigger] pointers@[i]) as int),
                suffix(text@, p as int),
            ),
{
    let n: usize = pointers.len();
    let len: usize = text.len();
    let ghost target = suffix(text@, p as int);
    assert(key(text@, p as int, usize::MAX as nat) =~= target);
    let mut left: usize = 0;
    let mut right: usize = n;
    while left < right
        invariant
            len == text@.len(),
            n == pointers@.len(),
            p <= len,
            left <= right <= n,
            target == suffix(text@, p as int),
            key(text@, p as int, usize::MAX as nat) == target,
            forall|i: int| 0 <= i < pointers@.len() ==> (#[trigger] pointers@[i]) <= text@.len(),
            suffix_sorted(text@, pointers@),
            forall|i: int|
                0 <= i < left ==> lex_lt(suffix(text@, (#[trigger] pointers@[i]) as int), target),
            forall|i: int|
                right <= i < n ==> !lex_lt(
                    suffix(text@, (#[trigger] pointers@[i]) as int),
                    target,
                ),
        decreases right - left,
    {
        let mid: usize = left + (right - left) / 2;
        let q: u64 = pointers[mid];
        let ghost middle = suffix(text@, q as int);
        assert(key(text@, q as int, usize::MAX as nat) =~= middle);
        if suffix_less(text, q as usize, text, p, usize::MAX) {
            assert forall|i: int| 0 <= i < mid + 1 implies lex_lt(
                suffix(text@, (#[trigger] pointers@[i]) as int),
                target,
            ) by {
                if i < mid {
                    lemma_lex_le_lt(suffix(text@, pointers@[i] as int), middle, target);
                }
            }
            left = mid + 1;
        } else {
            assert forall|i: int| mid <= i < n implies !lex_lt(
                suffix(text@, (#[trigger] pointers@[i]) as int),
                target,
            ) by {
                if i > mid && lex_lt(suffix(text@, pointers@[i] as int), target) {
                    lemma_lex_le_lt(middle, suffix(text@, pointers@[i] as int), target);
                }
            }
            right = mid;
        }
    }
    left
}

/// The suffix array of `text`: the positions of the text, each once, in the
/// order of the suffixes that start there, a suffix before any longer one
/// that begins with it.
pub fn build_suffix_array(text: &[u8]) -> (pointers: Vec<u64>)
    ensures
        is_suffix_array(text@, pointers@),
{
    let n: usize = text.len();
    let mut pointers: Vec<u64> = Vec::new();
    let mut p: usize = 0;
    while p < n
        invariant
            n == text@.len(),
            p <= n,
            pointers@.len() == p,
            forall|i: int| 0 <= i < pointers@.len() ==> (#[trigger] pointers@[i]) < p,
            distinct(pointers@),
            suffix_sorted(text@, pointers@),
        decreases n - p,
    {
        let place: usize = insertion_place(text, &pointers, p);
        let ghost before = pointers@;
        pointers.insert(place, p as u64);
        proof {
            before.insert_ensures(place as int, p as u64);
            let after = pointers@;
            let target = suffix(text@, p as int);
            assert forall|i: int| 0 <= i < after.len() implies (#[trigger] after[i]) < p + 1 by {
                if i < place {
                    assert(after[i] == before[i]);
                } else if i > place {
                    assert(after[i] == before[i - 1]);
                }
            }
            assert forall|i: int, j: int| 0 <= i < j < after.len() implies #[trigger] after[i]
                != #[trigger] after[j] by {
                let a = if i < place {
                    i
                } else {
                    i - 1
                };
                let b = if j < place {
                    j
                } else {
                    j - 1
                };
                if i != place {
                    assert(after[i] == before[a]);
                }
                if j != place {
                    assert(after[j] == before[b]);
                }
            }
            assert forall|i: int, j: int| 0 <= i < j < after.len() implies lex_le(
                suffix(text@, #[trigger] after[i] as int),
                suffix(text@, #[trigger] after[j] as int),
            ) by {
                let a = if i < place {
                    i
                } else {
                    i - 1
                };
                let b = if j < place {
                    j
                } else {
                    j - 1
                };
                if i != place {
                    assert(after[i] == before[a]);
                }
                if j != place {
                    assert(after[j] == before[b]);
                }
                if i == place {
                    assert(!lex_lt(suffix(text@, before[b] as int), target));
                } else if j == place {
                    assert(lex_lt(suffix(text@, before[a] as int), target));
                    crate::order::lemma_lex_asymmetric(suffix(text@, before[a] as int), target);
                } else {
                    assert(a < b);
                }
            }
        }
        p = p + 1;
    }
    pointers
}

/// Why a part cannot be made, if it cannot.
pub open spec fn part_error(available: nat, start: nat, end: nat, width: nat) -> Option<
    IndexError,
> {
    if !(1 <= width <= 8) {
        Some(IndexError::WidthOutOfRange)
    } else if !(start < end <= available) {
        Some(IndexError::BadRange)
    } else if !fits((end - start - 1) as nat, width) {
        Some(IndexError::ValueTooWide)
    } else {
        None
    }
}

/// The pointer table of the part that covers the bytes of `data` from `start`
/// up to `end`: the suffix array of that range, with positions counted from
/// `start`, encoded at `ratio` bytes a pointer.
pub fn make_part(data: &[u8], start: u64, end: u64, ratio: usize) -> (r: Result<
    Vec<u8>,
    IndexError,
>)
    ensures
        match part_error(data@.len(), start as nat, end as nat, ratio as nat) {
            Some(e) => r == Err::<Vec<u8>, IndexError>(e),
            None => r.is_ok() && r.unwrap()@.len() == (end - start) * ratio && is_suffix_array(
                data@.subrange(start as int, end as int),
                decoded(r.unwrap()@, ratio as nat),
            ) && r.unwrap()@ == encoded(decoded(r.unwrap()@, ratio as nat), ratio as nat),
        },
{
    if ratio < 1 || ratio > 8 {
        return Err(IndexError::WidthOutOfRange);
    }
    let available: usize = data.len();
    if start >= end || end > available as u64 {
        return Err(IndexError::BadRange);
    }
    if !fits_width(end - start - 1, ratio) {
        return Err(IndexError::ValueTooWide);
    }
    let text: &[u8] = slice_subrange(data, start as usize, end as usize);
    let pointers: Vec<u64> = build_suffix_array(text);
    proof {
        crate::codec::lemma_pow256_monotone(ratio as nat, ratio as nat);
        assert forall|i: int| 0 <= i < pointers@.len() implies fits(
            #[trigger] pointers@[i] as nat,
            ratio as nat,
        ) by {}
        crate::codec::lemma_encoded_len(pointers@, ratio as nat);
    }
    let table: Vec<u8> = crate::codec::to_bytes(pointers.as_slice(), ratio);
    proof {
        crate::codec::lemma_round_trip(pointers@, ratio as nat);
    }
    Ok(table)
}

} // verus!
