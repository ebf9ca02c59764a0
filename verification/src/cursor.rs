//! Cursors over an encoded pointer table: random access to one pointer, a
//! binary search for the place of a suffix, and a stream of successive
//! pointers.

use crate::codec::{decoded, lemma_word_fits_table, read_word};
use crate::order::{key, lex_le, lex_lt, suffix, suffix_less};
use crate::order::lemma_lex_le_lt;
use vstd::prelude::*;

verus! {

/// Whether every pointer of the table is a position in a text of `text_len`
/// bytes, or its end.
pub open spec fn pointers_in_range(pointers: Seq<u64>, text_len: nat) -> bool {
    forall|i: int| 0 <= i < pointers.len() ==> #[trigger] pointers[i] <= text_len
}

/// Whether the suffixes that the pointers denote stand in ascending order.
pub open spec fn suffix_sorted(text: Seq<u8>, pointers: Seq<u64>) -> bool {
    forall|i: int, j: int|
        0 <= i < j < pointers.len() ==> lex_le(
            suffix(text, #[trigger] pointers[i] as int),
            suffix(text, #[trigger] pointers[j] as int),
        )
}

/// The pointer at `index` of an encoded table, zero-extended to 64 bits.
pub fn load_at(table: &[u8], index: usize, size_width: usize) -> (pointer: u64)
    requires
        1 <= size_width <= 8,
        index < table@.len() / (size_width as nat),
    ensures
        pointer == decoded(table@, size_width as nat)[index as int],
{
    let len: usize = table.len();
    proof {
        lemma_word_fits_table(table@.len(), size_width as nat, index as int);
    }
    read_word(table, index * size_width, size_width)
}

/// Whether the table holds words of a width in range, no partial word, and
/// only pointers into a text of `text_len` bytes.
pub fn table_in_range(table: &[u8], size_width: usize, text_len: usize) -> (ok: bool)
    ensures
        ok == (1 <= size_width <= 8 && table@.len() % (size_width as nat) == 0
            && pointers_in_range(decoded(table@, size_width as nat), text_len as nat)),
{
    if size_width < 1 || size_width > 8 {
        return false;
    }
    let len: usize = table.len();
    if len % size_width != 0 {
        return false;
    }
    let count: usize = len / size_width;
    let ghost pointers = decoded(table@, size_width as nat);
    let mut i: usize = 0;
    while i < count
        invariant
            1 <= size_width <= 8,
            len == table@.len(),
            count == table@.len() / (size_width as nat),
            pointers == decoded(table@, size_width as nat),
            i <= count,
            forall|k: int| 0 <= k < i ==> #[trigger] pointers[k] <= text_len,
        decreases count - i,
    {
        let p: u64 = load_at(table, i, size_width);
        if p > text_len as u64 {
            assert(pointers[i as int] > text_len);
            return false;
        }
        i = i + 1;
    }
    true
}

/// The index at which a binary search between `left` and `right` ends: it
/// halves the range, going right of the middle where the suffix there is
/// smaller than `query` and left of it where it is not.
pub open spec fn search(
    text: Seq<u8>,
    pointers: Seq<u64>,
    query: Seq<u8>,
    left: int,
    right: int,
) -> int
    decreases right - left,
{
    if left >= right {
        left
    } else {
        let mid = left + (right - left) / 2;
        if lex_lt(suffix(text, pointers[mid] as int), query) {
            search(text, pointers, query, mid + 1, right)
        } else {
            search(text, pointers, query, left, mid)
        }
    }
}

/// In a sorted table the binary search ends at the place of `query`: before
/// it every suffix is smaller than `query`, and from it on none is.
pub proof fn lemma_search_place(
    text: Seq<u8>,
    pointers: Seq<u64>,
    query: Seq<u8>,
    left: int,
    right: int,
)
    requires
        suffix_sorted(text, pointers),
        0 <= left <= right <= pointers.len(),
        forall|i: int|
            0 <= i < left ==> lex_lt(suffix(text, (#[trigger] pointers[i]) as int), query),
        forall|i: int|
            right <= i < pointers.len() ==> !lex_lt(
                suffix(text, (#[trigger] pointers[i]) as int),
                query,
            ),
    ensures
        left <= search(text, pointers, query, left, right) <= right,
        forall|i: int|
            0 <= i < pointers.len() ==> (i < search(text, pointers, query, left, right) <==> lex_lt(
                suffix(text, (#[trigger] pointers[i]) as int),
                query,
            )),
    decreases right - left,
{
    if left < right {
        let mid = left + (right - left) / 2;
        let middle = suffix(text, pointers[mid] as int);
        if lex_lt(middle, query) {
            assert forall|i: int| 0 <= i < mid + 1 implies lex_lt(
                suffix(text, (#[trigger] pointers[i]) as int),
                query,
            ) by {
                if i < mid {
                    lemma_lex_le_lt(suffix(text, pointers[i] as int), middle, query);
                }
            }
            lemma_search_place(text, pointers, query, mid + 1, right);
        } else {
            assert forall|i: int| mid <= i < pointers.len() implies !lex_lt(
                suffix(text, (#[trigger] pointers[i]) as int),
                query,
            ) by {
                if i > mid && lex_lt(suffix(text, pointers[i] as int), query) {
                    lemma_lex_le_lt(middle, suffix(text, pointers[i] as int), query);
                }
            }
            lemma_search_place(text, pointers, query, left, mid);
        }
    }
}

/// The place of `query` among the suffixes of `text` that the table lists:
/// the index before which every suffix is smaller than `query` and from which
/// on none is, where the table is sorted.
pub fn locate(text: &[u8], table: &[u8], query: &[u8], size_width: usize) -> (place: usize)
    requires
        1 <= size_width <= 8,
        table@.len() == text@.len() * size_width,
        pointers_in_range(decoded(table@, size_width as nat), text@.len()),
    ensures
        place <= text@.len(),
        place == search(
            text@,
            decoded(table@, size_width as nat),
            query@,
            0,
            text@.len() as int,
        ),
        place > 0 ==> lex_lt(
            suffix(text@, decoded(table@, size_width as nat)[place - 1] as int),
            query@,
        ),
        place < text@.len() ==> !lex_lt(
            suffix(text@, decoded(table@, size_width as nat)[place as int] as int),
            query@,
        ),
        suffix_sorted(text@, decoded(table@, size_width as nat)) ==> forall|i: int|
            0 <= i < text@.len() ==> (i < place <==> lex_lt(
                suffix(text@, #[trigger] decoded(table@, size_width as nat)[i] as int),
                query@,
            )),
{
    let ghost pointers = decoded(table@, size_width as nat);
    let n: usize = text.len();
    let query_len: usize = query.len();
    proof {
        assert(table@.len() / (size_width as nat) == text@.len()) by (nonlinear_arith)
            requires
                table@.len() == text@.len() * size_width,
                size_width >= 1,
        ;
        assert(key(query@, 0, usize::MAX as nat) =~= query@);
    }
    let mut left: usize = 0;
    let mut right: usize = n;
    while left < right
        invariant
            1 <= size_width <= 8,
            n == text@.len(),
            left <= right <= n,
            pointers == decoded(table@, size_width as nat),
            pointers.len() == n,
            pointers_in_range(pointers, text@.len()),
            key(query@, 0, usize::MAX as nat) == query@,
            search(text@, pointers, query@, left as int, right as int) == search(
                text@,
                pointers,
                query@,
                0,
                n as int,
            ),
            left > 0 ==> lex_lt(suffix(text@, pointers[left - 1] as int), query@),
            right < n ==> !lex_lt(suffix(text@, pointers[right as int] as int), query@),
        decreases right - left,
    {
        let mid: usize = left + (right - left) / 2;
        let p: u64 = load_at(table, mid, size_width);
        assert(p == pointers[mid as int]);
        assert(p <= n);
        proof {
            assert(key(text@, p as int, usize::MAX as nat) =~= suffix(text@, p as int));
        }
        if suffix_less(text, p as usize, query, 0, usize::MAX) {
            left = mid + 1;
        } else {
            right = mid;
        }
    }
    proof {
        if suffix_sorted(text@, pointers) {
            assert forall|i: int| 0 <= i < n implies (i < left <==> lex_lt(
                suffix(text@, #[trigger] pointers[i] as int),
                query@,
            )) by {
                let s = suffix(text@, pointers[i] as int);
                if i < left {
                    let last = suffix(text@, pointers[left - 1] as int);
                    if i < left - 1 {
                        lemma_lex_le_lt(s, last, query@);
                    }
                } else {
                    let first = suffix(text@, pointers[left as int] as int);
                    if i > left {
                        if lex_lt(s, query@) {
                            lemma_lex_le_lt(first, s, query@);
                        }
                    }
                }
            }
        }
    }
    left
}

/// A cursor that hands out the pointers of an encoded table one after another.
pub struct TableStream<'a> {
    /// The encoded table.
    pub table: &'a [u8],
    /// The index of the pointer that comes next.
    pub position: usize,
    /// The number of bytes of one pointer.
    pub size_width: usize,
}

impl<'a> TableStream<'a> {
    /// A stream needs a pointer width between 1 and 8.
    pub open spec fn wf(&self) -> bool {
        1 <= self.size_width <= 8
    }

    /// All the pointers of the table.
    pub open spec fn pointers(&self) -> Seq<u64> {
        decoded(self.table@, self.size_width as nat)
    }

    /// The pointers that the stream has yet to hand out.
    pub open spec fn remaining(&self) -> Seq<u64> {
        if self.position <= self.pointers().len() {
            self.pointers().skip(self.position as int)
        } else {
            Seq::empty()
        }
    }
}

/// A stream over `table` that starts at the pointer with index `offset`.
pub fn make_table<'a>(table: &'a [u8], offset: usize, size_width: usize) -> (stream: TableStream<
    'a,
>)
    requires
        1 <= size_width <= 8,
    ensures
        stream.wf(),
        stream.table@ == table@,
        stream.position == offset,
        stream.size_width == size_width,
{
    TableStream { table, position: offset, size_width }
}

/// The next pointer of the stream, or `None` where no whole pointer is left.
pub fn next_pointer<'a>(stream: &mut TableStream<'a>) -> (next: Option<u64>)
    requires
        old(stream).wf(),
    ensures
        final(stream).wf(),
        final(stream).table@ == old(stream).table@,
        final(stream).size_width == old(stream).size_width,
        old(stream).position < old(stream).pointers().len() ==> next == Some(
            old(stream).pointers()[old(stream).position as int],
        ) && final(stream).position == old(stream).position + 1,
        old(stream).position >= old(stream).pointers().len() ==> next.is_none()
            && final(stream).position == old(stream).position,
{
    let count: usize = stream.table.len() / stream.size_width;
    if stream.position < count {
        let p: u64 = load_at(stream.table, stream.position, stream.size_width);
        stream.position = stream.position + 1;
        Some(p)
    } else {
        None
    }
}

} // verus!
