//! The order of suffixes: byte-wise lexicographic, a proper prefix before
//! what it is a prefix of, optionally looking at a bounded number of bytes.

use vstd::prelude::*;

verus! {

/// Whether `a` comes strictly before `b`, given that they agree on their
/// first `k` bytes.
pub open spec fn lex_lt_from(a: Seq<u8>, b: Seq<u8>, k: int) -> bool
    decreases a.len() - k,
{
    if k < 0 || k >= b.len() {
        false
    } else if k >= a.len() {
        true
    } else if a[k] != b[k] {
        a[k] < b[k]
    } else {
        lex_lt_from(a, b, k + 1)
    }
}

/// Whether `a` comes strictly before `b` in lexicographic order.
pub open spec fn lex_lt(a: Seq<u8>, b: Seq<u8>) -> bool {
    lex_lt_from(a, b, 0)
}

/// Whether `a` comes before `b` or equals it.
pub open spec fn lex_le(a: Seq<u8>, b: Seq<u8>) -> bool {
    !lex_lt(b, a)
}

/// The suffix of `text` that starts at `p`; empty where `p` is past the end.
pub open spec fn suffix(text: Seq<u8>, p: int) -> Seq<u8> {
    if 0 <= p <= text.len() {
        text.subrange(p, text.len() as int)
    } else {
        Seq::empty()
    }
}

/// The first `limit` bytes of `s`, or all of `s` where it is shorter.
pub open spec fn capped(s: Seq<u8>, limit: nat) -> Seq<u8> {
    if s.len() <= limit {
        s
    } else {
        s.take(limit as int)
    }
}

/// What a comparison bounded to `limit` bytes sees of the suffix at `p`.
pub open spec fn key(text: Seq<u8>, p: int, limit: nat) -> Seq<u8> {
    capped(suffix(text, p), limit)
}

/// Whether `a` and `b` both have `n` bytes or more and agree on the first `n`.
pub open spec fn shares_prefix(a: Seq<u8>, b: Seq<u8>, n: nat) -> bool {
    &&& n <= a.len()
    &&& n <= b.len()
    &&& forall|j: int| 0 <= j < n ==> a[j] == b[j]
}

/// Nothing comes before itself, from any index on.
proof fn lemma_lt_from_irreflexive(a: Seq<u8>, k: int)
    ensures
        !lex_lt_from(a, a, k),
    decreases a.len() - k,
{
    if 0 <= k < a.len() {
        lemma_lt_from_irreflexive(a, k + 1);
    }
}

/// The order from an index on is transitive.
proof fn lemma_lt_from_transitive(a: Seq<u8>, b: Seq<u8>, c: Seq<u8>, k: int)
    requires
        lex_lt_from(a, b, k),
        lex_lt_from(b, c, k),
    ensures
        lex_lt_from(a, c, k),
    decreases a.len() - k,
{
    if k < a.len() && a[k] == b[k] && b[k] == c[k] {
        lemma_lt_from_transitive(a, b, c, k + 1);
    }
}

/// Two sequences that agree up to an index, and of which neither comes
/// before the other from there on, are equal.
proof fn lemma_lt_from_total(a: Seq<u8>, b: Seq<u8>, k: int)
    requires
        0 <= k,
        !lex_lt_from(a, b, k),
        !lex_lt_from(b, a, k),
        k <= a.len(),
        k <= b.len(),
        forall|j: int| 0 <= j < k ==> a[j] == b[j],
    ensures
        a == b,
    decreases a.len() - k,
{
    if k < a.len() && k < b.len() {
        lemma_lt_from_total(a, b, k + 1);
    } else {
        assert(a =~= b);
    }
}

/// Nothing comes before itself.
pub proof fn lemma_lex_irreflexive(a: Seq<u8>)
    ensures
        !lex_lt(a, a),
{
    lemma_lt_from_irreflexive(a, 0);
}

/// The strict order is transitive.
pub proof fn lemma_lex_transitive(a: Seq<u8>, b: Seq<u8>, c: Seq<u8>)
    requires
        lex_lt(a, b),
        lex_lt(b, c),
    ensures
        lex_lt(a, c),
{
    lemma_lt_from_transitive(a, b, c, 0);
}

/// Of two different sequences one comes before the other.
pub proof fn lemma_lex_total(a: Seq<u8>, b: Seq<u8>)
    ensures
        lex_lt(a, b) || lex_lt(b, a) || a == b,
{
    if !lex_lt(a, b) && !lex_lt(b, a) {
        lemma_lt_from_total(a, b, 0);
    }
}

/// The order is antisymmetric: two sequences never come before each other.
pub proof fn lemma_lex_asymmetric(a: Seq<u8>, b: Seq<u8>)
    ensures
        !(lex_lt(a, b) && lex_lt(b, a)),
{
    if lex_lt(a, b) && lex_lt(b, a) {
        lemma_lex_transitive(a, b, a);
        lemma_lex_irreflexive(a);
    }
}

/// The non-strict order is transitive.
pub proof fn lemma_lex_le_transitive(a: Seq<u8>, b: Seq<u8>, c: Seq<u8>)
    requires
        lex_le(a, b),
        lex_le(b, c),
    ensures
        lex_le(a, c),
{
    lemma_lex_total(a, b);
    lemma_lex_total(b, c);
    if lex_lt(c, a) {
        if a == b {
        } else if b == c {
        } else {
            lemma_lex_transitive(a, b, c);
            lemma_lex_asymmetric(a, c);
        }
    }
}

/// A strict step after a non-strict one is strict.
pub proof fn lemma_lex_le_lt(a: Seq<u8>, b: Seq<u8>, c: Seq<u8>)
    requires
        lex_le(a, b),
        lex_lt(b, c),
    ensures
        lex_lt(a, c),
{
    lemma_lex_total(a, b);
    if a != b {
        lemma_lex_transitive(a, b, c);
    }
}

/// A non-strict step after a strict one is strict.
pub proof fn lemma_lex_lt_le(a: Seq<u8>, b: Seq<u8>, c: Seq<u8>)
    requires
        lex_lt(a, b),
        lex_le(b, c),
    ensures
        lex_lt(a, c),
{
    lemma_lex_total(b, c);
    if b != c {
        lemma_lex_transitive(a, b, c);
    }
}

/// What is smaller within the first `limit` bytes is smaller as a whole,
/// from any index on.
proof fn lemma_capped_lt_from(a: Seq<u8>, b: Seq<u8>, limit: nat, k: int)
    requires
        0 <= k,
        lex_lt_from(capped(a, limit), capped(b, limit), k),
    ensures
        lex_lt_from(a, b, k),
    decreases a.len() - k,
{
    let ca = capped(a, limit);
    let cb = capped(b, limit);
    if k < ca.len() && k < cb.len() {
        assert(ca[k] == a[k]);
        assert(cb[k] == b[k]);
        if a[k] == b[k] {
            lemma_capped_lt_from(a, b, limit, k + 1);
        }
    }
}

/// Cutting two sequences to their first `limit` bytes keeps their order:
/// what came first or was equal still comes first or is equal.
pub proof fn lemma_capped_keeps_order(a: Seq<u8>, b: Seq<u8>, limit: nat)
    requires
        lex_le(a, b),
    ensures
        lex_le(capped(a, limit), capped(b, limit)),
{
    if lex_lt(capped(b, limit), capped(a, limit)) {
        lemma_capped_lt_from(b, a, limit, 0);
    }
}

/// The number of bytes that a comparison bounded to `limit` sees of the
/// suffix at `from`.
pub fn key_len(len: usize, from: usize, limit: usize) -> (n: usize)
    requires
        from <= len,
    ensures
        n == if len - from <= limit {
            len - from
        } else {
            limit as int
        },
{
    if len - from <= limit {
        len - from
    } else {
        limit
    }
}

/// Whether the suffix of `a` at `from_a` comes strictly before the suffix of
/// `b` at `from_b`, looking at no more than `limit` bytes of each.
pub fn suffix_less(a: &[u8], from_a: usize, b: &[u8], from_b: usize, limit: usize) -> (r: bool)
    requires
        from_a <= a@.len(),
        from_b <= b@.len(),
    ensures
        r == lex_lt(key(a@, from_a as int, limit as nat), key(b@, from_b as int, limit as nat)),
{
    let na: usize = a.len();
    let nb: usize = b.len();
    let len_a: usize = key_len(na, from_a, limit);
    let len_b: usize = key_len(nb, from_b, limit);
    let ghost ka = key(a@, from_a as int, limit as nat);
    let ghost kb = key(b@, from_b as int, limit as nat);
    assert(ka.len() == len_a && kb.len() == len_b);
    assert(forall|j: int| 0 <= j < len_a ==> ka[j] == a@[from_a + j]);
    assert(forall|j: int| 0 <= j < len_b ==> kb[j] == b@[from_b + j]);
    let mut k: usize = 0;
    while k < len_a && k < len_b
        invariant
            k <= len_a,
            k <= len_b,
            ka == key(a@, from_a as int, limit as nat),
            kb == key(b@, from_b as int, limit as nat),
            ka.len() == len_a,
            kb.len() == len_b,
            from_a + len_a <= na == a@.len(),
            from_b + len_b <= nb == b@.len(),
            forall|j: int| 0 <= j < len_a ==> ka[j] == a@[from_a + j],
            forall|j: int| 0 <= j < len_b ==> kb[j] == b@[from_b + j],
            lex_lt(ka, kb) == lex_lt_from(ka, kb, k as int),
        decreases len_a - k,
    {
        let x: u8 = a[from_a + k];
        let y: u8 = b[from_b + k];
        assert(ka[k as int] == x && kb[k as int] == y);
        if x != y {
            return x < y;
        }
        k = k + 1;
    }
    k < len_b
}

/// Whether the suffixes of `a` at `from_a` and of `b` at `from_b` both have
/// `n` bytes or more and agree on the first `n`.
pub fn suffixes_share_prefix(a: &[u8], from_a: usize, b: &[u8], from_b: usize, n: usize) -> (r:
    bool)
    requires
        from_a <= a@.len(),
        from_b <= b@.len(),
    ensures
        r == shares_prefix(suffix(a@, from_a as int), suffix(b@, from_b as int), n as nat),
{
    let na: usize = a.len();
    let nb: usize = b.len();
    if na - from_a < n || nb - from_b < n {
        return false;
    }
    let ghost sa = suffix(a@, from_a as int);
    let ghost sb = suffix(b@, from_b as int);
    let mut k: usize = 0;
    while k < n
        invariant
            k <= n,
            from_a + n <= na == a@.len(),
            from_b + n <= nb == b@.len(),
            sa == suffix(a@, from_a as int),
            sb == suffix(b@, from_b as int),
            forall|j: int| 0 <= j < k ==> sa[j] == sb[j],
        decreases n - k,
    {
        if a[from_a + k] != b[from_b + k] {
            assert(sa[k as int] != sb[k as int]);
            return false;
        }
        assert(sa[k as int] == sb[k as int]);
        k = k + 1;
    }
    true
}

} // verus!
