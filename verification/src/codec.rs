//! The variable-width pointer codec: every pointer table is a run of
//! little-endian words of `width` bytes each, `width` between 1 and 8.

use crate::error::IndexError;
use vstd::prelude::*;

verus! {

/// `256` to the power `n`: the number of values a word of `n` bytes can hold.
pub open spec fn pow256(n: nat) -> nat
    decreases n,
{
    if n == 0 {
        1
    } else {
        256 * pow256((n - 1) as nat)
    }
}

/// The little-endian word of `width` bytes that holds the low bytes of `v`.
pub open spec fn word_bytes(v: nat, width: nat) -> Seq<u8>
    decreases width,
{
    if width == 0 {
        Seq::empty()
    } else {
        seq![(v % 256) as u8] + word_bytes(v / 256, (width - 1) as nat)
    }
}

/// The number that a little-endian word stands for.
pub open spec fn word_value(bytes: Seq<u8>) -> nat
    decreases bytes.len(),
{
    if bytes.len() == 0 {
        0
    } else {
        bytes[0] as nat + 256 * word_value(bytes.drop_first())
    }
}

/// Whether `v` can be written in `width` bytes without loss.
pub open spec fn fits(v: nat, width: nat) -> bool {
    v < pow256(width)
}

/// The encoding of a whole pointer sequence: the words one after another.
pub open spec fn encoded(values: Seq<u64>, width: nat) -> Seq<u8>
    decreases values.len(),
{
    if values.len() == 0 {
        Seq::empty()
    } else {
        encoded(values.drop_last(), width) + word_bytes(values.last() as nat, width)
    }
}

/// The `i`-th word of an encoded table.
pub open spec fn word_at(bytes: Seq<u8>, width: nat, i: int) -> Seq<u8> {
    bytes.subrange(i * width, i * width + width)
}

/// The pointer sequence that an encoded table stands for.
pub open spec fn decoded(bytes: Seq<u8>, width: nat) -> Seq<u64> {
    Seq::new(bytes.len() / width, |i: int| word_value(word_at(bytes, width, i)) as u64)
}

/// The powers of 256 up to the eighth, written out.
pub proof fn lemma_pow256_values()
    ensures
        pow256(0) == 1,
        pow256(1) == 0x100,
        pow256(2) == 0x1_0000,
        pow256(3) == 0x100_0000,
        pow256(4) == 0x1_0000_0000,
        pow256(5) == 0x100_0000_0000,
        pow256(6) == 0x1_0000_0000_0000,
        pow256(7) == 0x100_0000_0000_0000,
        pow256(8) == 0x1_0000_0000_0000_0000,
{
    reveal_with_fuel(pow256, 10);
}

/// A power of 256 is positive and no greater than any higher power.
pub proof fn lemma_pow256_monotone(a: nat, b: nat)
    requires
        a <= b,
    ensures
        0 < pow256(a) <= pow256(b),
    decreases b,
{
    if a == b {
        if a > 0 {
            lemma_pow256_monotone((a - 1) as nat, (a - 1) as nat);
        }
    } else {
        lemma_pow256_monotone(a, (b - 1) as nat);
    }
}

/// A word of `width` bytes has `width` bytes.
pub proof fn lemma_word_bytes_len(v: nat, width: nat)
    ensures
        word_bytes(v, width).len() == width,
    decreases width,
{
    if width > 0 {
        lemma_word_bytes_len(v / 256, (width - 1) as nat);
    }
}

/// The number that a word stands for is below 256 to the power of its length.
pub proof fn lemma_word_value_bound(bytes: Seq<u8>)
    ensures
        word_value(bytes) < pow256(bytes.len()),
    decreases bytes.len(),
{
    if bytes.len() > 0 {
        lemma_word_value_bound(bytes.drop_first());
    }
}

/// Decoding a word gives back the number it was made from, reduced to the
/// word's range.
pub proof fn lemma_word_round_trip(v: nat, width: nat)
    ensures
        word_value(word_bytes(v, width)) == v % pow256(width),
    decreases width,
{
    if width == 0 {
    } else {
        let w1 = (width - 1) as nat;
        let rest = word_bytes(v / 256, w1);
        let all = word_bytes(v, width);
        lemma_word_round_trip(v / 256, w1);
        assert(all.drop_first() =~= rest);
        assert(all[0] == (v % 256) as u8);
        lemma_pow256_monotone(0, w1);
        lemma_mod_step(v, pow256(w1));
    }
}

/// Taking the lowest byte off a number and reducing the rest modulo `p` is
/// reducing the number modulo `256 * p`.
proof fn lemma_mod_step(v: nat, p: nat)
    requires
        p > 0,
    ensures
        v % 256 + 256 * ((v / 256) % p) == v % (256 * p),
{
    let q = v / 256;
    let r = v % 256;
    let qq = q / p;
    let qr = q % p;
    assert(v == 256 * q + r);
    assert(q == p * qq + qr) by (nonlinear_arith)
        requires
            p > 0,
            qq == q / p,
            qr == q % p,
    ;
    assert(0 <= qr < p) by (nonlinear_arith)
        requires
            p > 0,
            qr == q % p,
    ;
    let low = r + 256 * qr;
    assert(0 <= low < 256 * p) by (nonlinear_arith)
        requires
            0 <= r < 256,
            0 <= qr < p,
            low == r + 256 * qr,
    ;
    assert(v == (256 * p) * qq + low) by (nonlinear_arith)
        requires
            v == 256 * q + r,
            q == p * qq + qr,
            low == r + 256 * qr,
    ;
    vstd::arithmetic::div_mod::lemma_fundamental_div_mod_converse(
        v as int,
        (256 * p) as int,
        qq as int,
        low as int,
    );
}

/// Encoding the number a word stands for gives the word back.
pub proof fn lemma_word_bytes_of_value(bytes: Seq<u8>)
    ensures
        word_bytes(word_value(bytes), bytes.len()) == bytes,
    decreases bytes.len(),
{
    if bytes.len() > 0 {
        let rest = bytes.drop_first();
        lemma_word_bytes_of_value(rest);
        let v = word_value(bytes);
        assert(v % 256 == bytes[0] as nat);
        assert(v / 256 == word_value(rest));
        assert(word_bytes(v, bytes.len()) =~= bytes);
    }
}

/// The encoded table has one word of `width` bytes for each value.
pub proof fn lemma_encoded_len(values: Seq<u64>, width: nat)
    ensures
        encoded(values, width).len() == values.len() * width,
    decreases values.len(),
{
    if values.len() > 0 {
        lemma_encoded_len(values.drop_last(), width);
        lemma_word_bytes_len(values.last() as nat, width);
        assert(values.len() * width == (values.len() - 1) * width + width) by (nonlinear_arith);
    } else {
        assert(values.len() * width == 0) by (nonlinear_arith)
            requires
                values.len() == 0,
        ;
    }
}

/// The `i`-th word of an encoded table is the word of the `i`-th value.
pub proof fn lemma_encoded_word(values: Seq<u64>, width: nat, i: int)
    requires
        0 <= i < values.len(),
    ensures
        word_at(encoded(values, width), width, i) == word_bytes(values[i] as nat, width),
    decreases values.len(),
{
    let front = values.drop_last();
    let n = values.len() as int;
    lemma_encoded_len(front, width);
    lemma_encoded_len(values, width);
    lemma_word_bytes_len(values.last() as nat, width);
    assert(i * width + width <= n * width) by (nonlinear_arith)
        requires
            0 <= i < n,
    ;
    assert(0 <= i * width) by (nonlinear_arith)
        requires
            0 <= i,
    ;
    if i == n - 1 {
        assert(word_at(encoded(values, width), width, i) =~= word_bytes(
            values[i] as nat,
            width,
        ));
    } else {
        lemma_encoded_word(front, width, i);
        assert(i * width + width <= (n - 1) * width) by (nonlinear_arith)
            requires
                0 <= i < n - 1,
        ;
        assert(word_at(encoded(values, width), width, i) =~= word_at(
            encoded(front, width),
            width,
            i,
        ));
    }
}

/// Decoding an encoded table gives the values back, as long as each of them
/// fits in a word.
pub proof fn lemma_round_trip(values: Seq<u64>, width: nat)
    requires
        1 <= width <= 8,
        forall|i: int| 0 <= i < values.len() ==> fits(values[i] as nat, width),
    ensures
        decoded(encoded(values, width), width) == values,
{
    let bytes = encoded(values, width);
    lemma_encoded_len(values, width);
    assert(bytes.len() / width == values.len()) by (nonlinear_arith)
        requires
            bytes.len() == values.len() * width,
            width > 0,
    ;
    assert forall|i: int| 0 <= i < values.len() implies decoded(bytes, width)[i]
        == values[i] by {
        lemma_encoded_word(values, width, i);
        lemma_word_round_trip(values[i] as nat, width);
        vstd::arithmetic::div_mod::lemma_small_mod(values[i] as nat, pow256(width));
    }
    assert(decoded(bytes, width) =~= values);
}

/// Decoding one value that was encoded alone gives that value back.
pub proof fn lemma_round_trip_single(v: u64, width: nat)
    requires
        1 <= width <= 8,
        fits(v as nat, width),
    ensures
        decoded(encoded(seq![v], width), width) == seq![v],
{
    lemma_round_trip(seq![v], width);
}

/// Whether `value` can be written in `width` bytes without loss.
pub fn fits_width(value: u64, width: usize) -> (r: bool)
    ensures
        r == fits(value as nat, width as nat),
{
    proof {
        lemma_pow256_values();
        if width > 8 {
            lemma_pow256_monotone(8, width as nat);
        }
    }
    if width >= 8 {
        true
    } else if width == 0 {
        value == 0
    } else if width == 1 {
        value < 0x100
    } else if width == 2 {
        value < 0x1_0000
    } else if width == 3 {
        value < 0x100_0000
    } else if width == 4 {
        value < 0x1_0000_0000
    } else if width == 5 {
        value < 0x100_0000_0000
    } else if width == 6 {
        value < 0x1_0000_0000_0000
    } else {
        value < 0x100_0000_0000_0000
    }
}

/// Appends the low `width` bytes of `value` to `out`, least significant first.
pub fn push_word(out: &mut Vec<u8>, value: u64, width: usize)
    ensures
        final(out)@ == old(out)@ + word_bytes(value as nat, width as nat),
{
    let mut rest: u64 = value;
    let mut i: usize = 0;
    while i < width
        invariant
            i <= width,
            out@ + word_bytes(rest as nat, (width - i) as nat) == old(out)@ + word_bytes(
                value as nat,
                width as nat,
            ),
        decreases width - i,
    {
        let ghost before = out@;
        let low: u8 = (rest % 256) as u8;
        out.push(low);
        proof {
            let tail = word_bytes((rest / 256) as nat, (width - i - 1) as nat);
            assert(word_bytes(rest as nat, (width - i) as nat) == seq![low] + tail);
            assert(out@ + tail =~= before + (seq![low] + tail));
        }
        rest = rest / 256;
        i = i + 1;
    }
    proof {
        assert(out@ + word_bytes(rest as nat, 0) =~= out@);
    }
}

/// Reads the word of `width` bytes that starts at byte `offset`, zero-extended
/// to 64 bits.
pub fn read_word(bytes: &[u8], offset: usize, width: usize) -> (value: u64)
    requires
        width <= 8,
        offset + width <= bytes@.len(),
    ensures
        value as nat == word_value(bytes@.subrange(offset as int, offset + width)),
{
    let len: usize = bytes.len();
    let mut acc: u64 = 0;
    let mut j: usize = width;
    while j > 0
        invariant
            j <= width <= 8,
            offset + width <= len == bytes@.len(),
            acc as nat == word_value(bytes@.subrange(offset + j, offset + width)),
        decreases j,
    {
        let ghost done = bytes@.subrange(offset + j, offset + width);
        let ghost next = bytes@.subrange(offset + j - 1, offset + width);
        let b: u8 = bytes[offset + j - 1];
        proof {
            lemma_word_value_bound(done);
            lemma_pow256_values();
            lemma_pow256_monotone(done.len(), 7);
            assert(next.drop_first() =~= done);
            assert(next[0] == b);
        }
        acc = acc * 256 + b as u64;
        j = j - 1;
    }
    acc
}

/// Encodes each value as its low `size_width` bytes, least significant first,
/// one word after another.
pub fn to_bytes(input: &[u64], size_width: usize) -> (bytes: Vec<u8>)
    requires
        size_width <= 8,
    ensures
        bytes@ == encoded(input@, size_width as nat),
        bytes@.len() == input@.len() * size_width,
{
    let mut bytes: Vec<u8> = Vec::new();
    let mut i: usize = 0;
    while i < input.len()
        invariant
            i <= input@.len(),
            bytes@ == encoded(input@.take(i as int), size_width as nat),
        decreases input@.len() - i,
    {
        push_word(&mut bytes, input[i], size_width);
        proof {
            let grown = input@.take(i + 1);
            assert(grown.drop_last() =~= input@.take(i as int));
            assert(grown.last() == input@[i as int]);
        }
        i = i + 1;
    }
    proof {
        assert(input@.take(i as int) =~= input@);
        lemma_encoded_len(input@, size_width as nat);
    }
    bytes
}

/// Decodes a table of `size_width`-byte words into the values they stand for.
pub fn from_bytes(input: Vec<u8>, size_width: usize) -> (values: Vec<u64>)
    requires
        1 <= size_width <= 8,
        input@.len() % (size_width as nat) == 0,
    ensures
        values@ == decoded(input@, size_width as nat),
{
    let len: usize = input.len();
    let count: usize = len / size_width;
    let mut values: Vec<u64> = Vec::new();
    let mut i: usize = 0;
    while i < count
        invariant
            1 <= size_width <= 8,
            len == input@.len(),
            count == input@.len() / (size_width as nat),
            i <= count,
            values@.len() == i,
            forall|k: int|
                0 <= k < i ==> values@[k] == decoded(input@, size_width as nat)[k],
        decreases count - i,
    {
        proof {
            lemma_word_fits_table(input@.len(), size_width as nat, i as int);
        }
        let word: u64 = read_word(input.as_slice(), i * size_width, size_width);
        values.push(word);
        i = i + 1;
    }
    proof {
        assert(values@ =~= decoded(input@, size_width as nat));
    }
    values
}

/// The `i`-th word of a table lies inside the table.
pub proof fn lemma_word_fits_table(len: nat, width: nat, i: int)
    requires
        width > 0,
        0 <= i < len / width,
    ensures
        0 <= i * width,
        i * width + width <= len,
{
    assert(i * width + width <= len && 0 <= i * width) by (nonlinear_arith)
        requires
            width > 0,
            0 <= i < len / width,
    ;
}

/// Whether every value of the sequence fits in a word of `width` bytes.
pub open spec fn all_fit(values: Seq<u64>, width: nat) -> bool {
    forall|i: int| 0 <= i < values.len() ==> fits(#[trigger] values[i] as nat, width)
}

/// Encodes the values at `width` bytes each and refuses, rather than
/// truncates, a value that does not fit.
pub fn encode(input: &[u64], width: usize) -> (r: Result<Vec<u8>, IndexError>)
    ensures
        !(1 <= width <= 8) ==> r == Err::<Vec<u8>, IndexError>(IndexError::WidthOutOfRange),
        1 <= width <= 8 && !all_fit(input@, width as nat) ==> r == Err::<Vec<u8>, IndexError>(
            IndexError::ValueTooWide,
        ),
        1 <= width <= 8 && all_fit(input@, width as nat) ==> r.is_ok() && r.unwrap()@ == encoded(
            input@,
            width as nat,
        ) && decoded(r.unwrap()@, width as nat) == input@,
{
    if width < 1 || width > 8 {
        return Err(IndexError::WidthOutOfRange);
    }
    let mut i: usize = 0;
    while i < input.len()
        invariant
            1 <= width <= 8,
            i <= input@.len(),
            forall|k: int| 0 <= k < i ==> fits(#[trigger] input@[k] as nat, width as nat),
        decreases input@.len() - i,
    {
        if !fits_width(input[i], width) {
            return Err(IndexError::ValueTooWide);
        }
        i = i + 1;
    }
    proof {
        lemma_round_trip(input@, width as nat);
    }
    Ok(to_bytes(input, width))
}

/// Decodes a table of `width`-byte words, refusing a width out of range and a
/// table that does not end on a word boundary.
pub fn decode(input: &[u8], width: usize) -> (r: Result<Vec<u64>, IndexError>)
    ensures
        !(1 <= width <= 8) ==> r == Err::<Vec<u64>, IndexError>(IndexError::WidthOutOfRange),
        1 <= width <= 8 && input@.len() % (width as nat) != 0 ==> r == Err::<
            Vec<u64>,
            IndexError,
        >(IndexError::RaggedTable),
        1 <= width <= 8 && input@.len() % (width as nat) == 0 ==> r.is_ok() && r.unwrap()@
            == decoded(input@, width as nat),
{
    if width < 1 || width > 8 {
        return Err(IndexError::WidthOutOfRange);
    }
    let len: usize = input.len();
    if len % width != 0 {
        return Err(IndexError::RaggedTable);
    }
    let count: usize = len / width;
    let mut values: Vec<u64> = Vec::new();
    let mut i: usize = 0;
    while i < count
        invariant
            1 <= width <= 8,
            len == input@.len(),
            count == input@.len() / (width as nat),
            i <= count,
            values@.len() == i,
            forall|k: int| 0 <= k < i ==> values@[k] == decoded(input@, width as nat)[k],
        decreases count - i,
    {
        proof {
            lemma_word_fits_table(input@.len(), width as nat, i as int);
        }
        let word: u64 = read_word(input, i * width, width);
        values.push(word);
        i = i + 1;
    }
    proof {
        assert(values@ =~= decoded(input@, width as nat));
    }
    Ok(values)
}

/// The number of values that a word of `width` bytes can hold.
pub fn word_range(width: usize) -> (r: u128)
    requires
        width <= 8,
    ensures
        r == pow256(width as nat),
{
    proof {
        lemma_pow256_values();
    }
    if width == 0 {
        1
    } else if width == 1 {
        0x100
    } else if width == 2 {
        0x1_0000
    } else if width == 3 {
        0x100_0000
    } else if width == 4 {
        0x1_0000_0000
    } else if width == 5 {
        0x100_0000_0000
    } else if width == 6 {
        0x1_0000_0000_0000
    } else if width == 7 {
        0x100_0000_0000_0000
    } else {
        0x1_0000_0000_0000_0000
    }
}

} // verus!
