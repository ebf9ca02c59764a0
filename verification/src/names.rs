//! The names of the files that the stages hand to each other: a part is
//! named by its byte range, `start`, a hyphen and `end` in decimal, and a
//! partition by its index in four decimal digits or more.

use vstd::prelude::*;

verus! {

/// The decimal digits of `n`, most significant first, as ASCII bytes.
pub open spec fn decimal(n: nat) -> Seq<u8>
    decreases n,
{
    if n < 10 {
        seq![(48 + n) as u8]
    } else {
        decimal(n / 10).push((48 + n % 10) as u8)
    }
}

/// Whether the byte is an ASCII digit.
pub open spec fn is_digit(b: u8) -> bool {
    48 <= b <= 57
}

/// Whether the bytes are one ASCII digit or more and nothing else.
pub open spec fn all_digits(s: Seq<u8>) -> bool {
    s.len() > 0 && forall|i: int| 0 <= i < s.len() ==> is_digit(#[trigger] s[i])
}

/// The number that a run of ASCII digits stands for.
pub open spec fn decimal_value(s: Seq<u8>) -> nat
    decreases s.len(),
{
    if s.len() == 0 {
        0
    } else {
        decimal_value(s.drop_last()) * 10 + (s.last() - 48) as nat
    }
}

/// The digits of a number written with or without a plus sign before them.
pub open spec fn unsigned_digits(s: Seq<u8>) -> Seq<u8> {
    if s.len() > 0 && s[0] == 43 {
        s.drop_first()
    } else {
        s
    }
}

/// The number that the bytes stand for: digits, with or without a plus sign
/// before them, that make a number of 64 bits. `None` for anything else.
pub open spec fn parsed_number(s: Seq<u8>) -> Option<u64> {
    let digits = unsigned_digits(s);
    if all_digits(digits) && decimal_value(digits) <= u64::MAX {
        Some(decimal_value(digits) as u64)
    } else {
        None
    }
}

/// The index of the first byte equal to `b` at or behind `from`, or the
/// length where there is none.
pub open spec fn first_index_of(s: Seq<u8>, b: u8, from: int) -> int
    decreases s.len() - from,
{
    if from < 0 || from >= s.len() {
        s.len() as int
    } else if s[from] == b {
        from
    } else {
        first_index_of(s, b, from + 1)
    }
}

/// The index behind the last slash of a path, or 0 where it has none: where
/// the file's name starts.
pub open spec fn name_start(path: Seq<u8>) -> int
    decreases path.len(),
{
    if path.len() == 0 {
        0
    } else if path.last() == 47 {
        path.len() as int
    } else {
        name_start(path.drop_last())
    }
}

/// The file's name: what stands behind the last slash of the path.
pub open spec fn file_name(path: Seq<u8>) -> Seq<u8> {
    path.subrange(name_start(path), path.len() as int)
}

/// The byte range that the name of a part file gives: the number before the
/// first hyphen of the file's name and the number behind it. `None` where
/// there is no hyphen or either side is no number.
pub open spec fn parsed_part_name(path: Seq<u8>) -> Option<(u64, u64)> {
    let name = file_name(path);
    let dash = first_index_of(name, 45, 0);
    if dash >= name.len() {
        None
    } else {
        match (
            parsed_number(name.subrange(0, dash)),
            parsed_number(name.subrange(dash + 1, name.len() as int)),
        ) {
            (Some(start), Some(end)) => Some((start, end)),
            _ => None,
        }
    }
}

/// The name of the part file for the bytes from `start` up to `end`.
pub open spec fn part_name_of(start: nat, end: nat) -> Seq<u8> {
    decimal(start).push(45) + decimal(end)
}

/// The name of the files of partition `index`: its number in decimal, with
/// zeros before it where it has fewer than four digits.
pub open spec fn partition_name_of(index: nat) -> Seq<u8> {
    let digits = decimal(index);
    if digits.len() < 4 {
        Seq::new((4 - digits.len()) as nat, |i: int| 48u8) + digits
    } else {
        digits
    }
}

/// Appends the decimal digits of `n`.
pub fn push_decimal(out: &mut Vec<u8>, n: u64)
    ensures
        final(out)@ == old(out)@ + decimal(n as nat),
    decreases n,
{
    if n >= 10 {
        push_decimal(out, n / 10);
    }
    let digit: u8 = (48 + n % 10) as u8;
    out.push(digit);
    proof {
        if n >= 10 {
            assert(out@ =~= old(out)@ + decimal((n / 10) as nat).push(digit));
        } else {
            assert(out@ =~= old(out)@ + seq![digit]);
        }
    }
}

/// The name of the part file for the bytes from `start` up to `end`.
pub fn part_name(start: u64, end: u64) -> (name: Vec<u8>)
    ensures
        name@ == part_name_of(start as nat, end as nat),
{
    let mut name: Vec<u8> = Vec::new();
    push_decimal(&mut name, start);
    name.push(45u8);
    push_decimal(&mut name, end);
    assert(name@ =~= part_name_of(start as nat, end as nat));
    name
}

/// The name of the files of partition `index`.
pub fn partition_name(index: usize) -> (name: Vec<u8>)
    ensures
        name@ == partition_name_of(index as nat),
{
    let mut digits: Vec<u8> = Vec::new();
    push_decimal(&mut digits, index as u64);
    assert(digits@ =~= decimal(index as nat));
    let count: usize = digits.len();
    let mut name: Vec<u8> = Vec::new();
    if count < 4 {
        let mut i: usize = 0;
        while i < 4 - count
            invariant
                count < 4,
                i <= 4 - count,
                name@ == Seq::new(i as nat, |k: int| 48u8),
            decreases 4 - count - i,
        {
            name.push(48u8);
            assert(name@ =~= Seq::new((i + 1) as nat, |k: int| 48u8));
            i = i + 1;
        }
    }
    crate::stitch::append_bytes(&mut name, digits.as_slice());
    name
}

/// The number that the bytes from `from` up to `to` stand for, where they
/// are digits, with or without a plus sign before them, that make a number
/// of 64 bits.
pub fn parse_number(bytes: &[u8], from: usize, to: usize) -> (r: Option<u64>)
    requires
        from <= to <= bytes@.len(),
    ensures
        r == parsed_number(bytes@.subrange(from as int, to as int)),
{
    let ghost s = bytes@.subrange(from as int, to as int);
    let ghost digits = unsigned_digits(s);
    let first: usize = if from < to && bytes[from] == 43u8 {
        from + 1
    } else {
        from
    };
    assert(digits =~= bytes@.subrange(first as int, to as int));
    if first >= to {
        return None;
    }
    let mut value: u64 = 0;
    let mut i: usize = first;
    while i < to
        invariant
            first <= i <= to <= bytes@.len(),
            first < to,
            s == bytes@.subrange(from as int, to as int),
            digits == unsigned_digits(s),
            digits == bytes@.subrange(first as int, to as int),
            forall|k: int| 0 <= k < i - first ==> is_digit(#[trigger] digits[k]),
            value == decimal_value(digits.take(i - first)),
        decreases to - i,
    {
        let b: u8 = bytes[i];
        assert(digits[i - first] == b);
        let ghost grown = digits.take(i - first + 1);
        assert(grown.drop_last() =~= digits.take(i - first));
        assert(grown.last() == b);
        if b < 48 || b > 57 {
            return None;
        }
        let d: u64 = (b - 48) as u64;
        if value > (u64::MAX - d) / 10 {
            proof {
                lemma_value_monotone(digits, i - first + 1);
            }
            return None;
        }
        value = value * 10 + d;
        i = i + 1;
    }
    assert(digits.take(to - first) =~= digits);
    Some(value)
}

/// A run of digits stands for no less than any run it starts with.
pub proof fn lemma_value_monotone(s: Seq<u8>, k: int)
    requires
        0 <= k <= s.len(),
        forall|i: int| 0 <= i < k ==> is_digit(#[trigger] s[i]),
    ensures
        decimal_value(s.take(k)) <= decimal_value(s) || !all_digits(s),
    decreases s.len() - k,
{
    if k < s.len() {
        if is_digit(s[k]) {
            let grown = s.take(k + 1);
            assert(grown.drop_last() =~= s.take(k));
            assert(grown.last() == s[k]);
            lemma_value_monotone(s, k + 1);
        }
    } else {
        assert(s.take(k) =~= s);
    }
}

/// The byte range that the name of a part file gives.
pub fn parse_part_name(path: &[u8]) -> (r: Option<(u64, u64)>)
    ensures
        r == parsed_part_name(path@),
{
    let len: usize = path.len();
    let mut begin: usize = len;
    assert(path@.take(len as int) =~= path@);
    while begin > 0 && path[begin - 1] != 47u8
        invariant
            len == path@.len(),
            begin <= len,
            name_start(path@) == name_start(path@.take(begin as int)),
        decreases begin,
    {
        assert(path@.take(begin as int).drop_last() =~= path@.take(begin - 1));
        begin = begin - 1;
    }
    proof {
        assert(path@.take(len as int) =~= path@);
        if begin > 0 {
            assert(path@.take(begin as int).last() == 47);
        }
        assert(name_start(path@) == begin);
    }
    let ghost name = file_name(path@);
    let mut dash: usize = begin;
    while dash < len && path[dash] != 45u8
        invariant
            len == path@.len(),
            begin <= dash <= len,
            name == path@.subrange(begin as int, len as int),
            first_index_of(name, 45, 0) == first_index_of(name, 45, dash - begin),
        decreases len - dash,
    {
        assert(name[dash - begin] == path@[dash as int]);
        dash = dash + 1;
    }
    if dash >= len {
        return None;
    }
    assert(name[dash - begin] == path@[dash as int]);
    assert(first_index_of(name, 45, 0) == dash - begin);
    assert(name.subrange(0, dash - begin) =~= path@.subrange(begin as int, dash as int));
    assert(name.subrange(dash - begin + 1, name.len() as int) =~= path@.subrange(
        dash + 1,
        len as int,
    ));
    let start: Option<u64> = parse_number(path, begin, dash);
    let end: Option<u64> = parse_number(path, dash + 1, len);
    match (start, end) {
        (Some(a), Some(b)) => Some((a, b)),
        _ => None,
    }
}

/// Whether range `a` comes before range `b` when the ranges are ordered by
/// their starts, those with equal starts staying as they stood.
pub open spec fn starts_before(ranges: Seq<(u64, u64)>, a: int, b: int) -> bool {
    ranges[a].0 < ranges[b].0 || (ranges[a].0 == ranges[b].0 && a < b)
}

/// Whether `order` lists the indices of the ranges, each once, by ascending
/// start, those with equal starts in the order in which they stood.
pub open spec fn is_start_order(ranges: Seq<(u64, u64)>, order: Seq<usize>) -> bool {
    &&& order.len() == ranges.len()
    &&& forall|i: int| 0 <= i < order.len() ==> (#[trigger] order[i]) < ranges.len()
    &&& forall|i: int, j: int|
        0 <= i < j < order.len() ==> starts_before(
            ranges,
            #[trigger] order[i] as int,
            #[trigger] order[j] as int,
        )
}

/// The indices of the ranges by ascending start; ranges with equal starts
/// keep the order in which they stood.
pub fn order_by_start(ranges: &Vec<(u64, u64)>) -> (order: Vec<usize>)
    ensures
        is_start_order(ranges@, order@),
{
    let n: usize = ranges.len();
    let mut order: Vec<usize> = Vec::new();
    let mut k: usize = 0;
    while k < n
        invariant
            n == ranges@.len(),
            k <= n,
            order@.len() == k,
            forall|i: int| 0 <= i < order@.len() ==> (#[trigger] order@[i]) < k,
            forall|i: int, j: int|
                0 <= i < j < order@.len() ==> starts_before(
                    ranges@,
                    #[trigger] order@[i] as int,
                    #[trigger] order@[j] as int,
                ),
        decreases n - k,
    {
        let start: u64 = ranges[k].0;
        let mut place: usize = 0;
        while place < k && ranges[order[place]].0 <= start
            invariant
                n == ranges@.len(),
                k < n,
                order@.len() == k,
                place <= k,
                start == ranges@[k as int].0,
                forall|i: int| 0 <= i < order@.len() ==> (#[trigger] order@[i]) < k,
                forall|i: int|
                    0 <= i < place ==> ranges@[(#[trigger] order@[i]) as int].0 <= start,
            decreases k - place,
        {
            place = place + 1;
        }
        let ghost before = order@;
        order.insert(place, k);
        proof {
            before.insert_ensures(place as int, k);
            let after = order@;
            assert forall|i: int| 0 <= i < after.len() implies (#[trigger] after[i]) < k + 1 by {
                if i < place {
                    assert(after[i] == before[i]);
                } else if i > place {
                    assert(after[i] == before[i - 1]);
                }
            }
            assert forall|i: int, j: int| 0 <= i < j < after.len() implies starts_before(
                ranges@,
                #[trigger] after[i] as int,
                #[trigger] after[j] as int,
            ) by {
                let a = if i < place {
                    i
                } else {
                    i - 1
                };
                let b = if j < place {
                    j
                } else {
                    j - 1
                };
                if i != place {
                    assert(after[i] == before[a]);
                }
                if j != place {
                    assert(after[j] == before[b]);
                }
                if i == place {
                    assert(ranges@[before[place as int] as int].0 > start);
                    if b > place {
                        assert(starts_before(
                            ranges@,
                            before[place as int] as int,
                            before[b] as int,
                        ));
                    }
                } else if j == place {
                    assert(ranges@[before[a] as int].0 <= start);
                } else {
                    assert(a < b);
                }
            }
        }
        k = k + 1;
    }
    order
}

/// The decimal digits of a number are digits, and stand for the number.
pub proof fn lemma_decimal_round_trip(n: nat)
    ensures
        all_digits(decimal(n)),
        decimal_value(decimal(n)) == n,
    decreases n,
{
    if n >= 10 {
        lemma_decimal_round_trip(n / 10);
        let front = decimal(n / 10);
        let all = decimal(n);
        assert(all.drop_last() =~= front);
        assert forall|i: int| 0 <= i < all.len() implies is_digit(#[trigger] all[i]) by {
            if i < front.len() {
                assert(all[i] == front[i]);
            }
        }
    } else {
        let all = decimal(n);
        assert(all.drop_last() =~= Seq::<u8>::empty());
        assert(decimal_value(all.drop_last()) == 0);
    }
}

/// The first index of a byte is where it stands, where it does not stand
/// before.
pub proof fn lemma_first_index(s: Seq<u8>, b: u8, from: int, at: int)
    requires
        0 <= from <= at < s.len(),
        s[at] == b,
        forall|i: int| from <= i < at ==> s[i] != b,
    ensures
        first_index_of(s, b, from) == at,
    decreases at - from,
{
    if from < at {
        lemma_first_index(s, b, from + 1, at);
    }
}

/// The name of a path without a slash is the whole path.
pub proof fn lemma_name_without_slash(path: Seq<u8>)
    requires
        forall|i: int| 0 <= i < path.len() ==> path[i] != 47,
    ensures
        name_start(path) == 0,
    decreases path.len(),
{
    if path.len() > 0 {
        let front = path.drop_last();
        assert forall|i: int| 0 <= i < front.len() implies front[i] != 47 by {
            assert(front[i] == path[i]);
        }
        lemma_name_without_slash(front);
    }
}

/// Reading the name of a part file gives back the byte range that the name
/// was made from.
pub proof fn lemma_part_name_round_trip(start: u64, end: u64)
    ensures
        parsed_part_name(part_name_of(start as nat, end as nat)) == Some((start, end)),
{
    let first = decimal(start as nat);
    let second = decimal(end as nat);
    let name = part_name_of(start as nat, end as nat);
    lemma_decimal_round_trip(start as nat);
    lemma_decimal_round_trip(end as nat);
    let dash = first.len() as int;
    assert(name.len() == dash + 1 + second.len());
    assert(name[dash] == 45);
    assert forall|i: int| 0 <= i < name.len() implies name[i] != 47 by {
        if i < dash {
            assert(name[i] == first[i]);
            assert(is_digit(first[i]));
        } else if i > dash {
            assert(name[i] == second[i - dash - 1]);
            assert(is_digit(second[i - dash - 1]));
        }
    }
    lemma_name_without_slash(name);
    assert(file_name(name) =~= name);
    assert forall|i: int| 0 <= i < dash implies name[i] != 45 by {
        assert(name[i] == first[i]);
        assert(is_digit(first[i]));
    }
    lemma_first_index(name, 45, 0, dash);
    assert(name.subrange(0, dash) =~= first);
    assert(name.subrange(dash + 1, name.len() as int) =~= second);
    assert(is_digit(first[0]));
    assert(is_digit(second[0]));
    assert(unsigned_digits(first) == first);
    assert(unsigned_digits(second) == second);
}

} // verus!
