//! Byte strings: common prefixes and the lexicographic order.

use std::cmp::Ordering;
use vstd::prelude::*;

verus! {

/// Whether `a` and `b` agree on their first `n` bytes.
pub open spec fn agree_upto(a: Seq<u8>, b: Seq<u8>, n: int) -> bool {
    &&& 0 <= n <= a.len()
    &&& n <= b.len()
    &&& forall|i: int| 0 <= i < n ==> a[i] == b[i]
}

/// Whether `n` is where `a` and `b` stop agreeing: they share their first `n`
/// bytes, and one of them ends there or they differ at index `n`.
pub open spec fn first_difference(a: Seq<u8>, b: Seq<u8>, n: int) -> bool {
    &&& agree_upto(a, b, n)
    &&& (n == a.len() || n == b.len() || a[n] != b[n])
}

/// Whether `p` is a prefix of `s`.
pub open spec fn is_prefix(p: Seq<u8>, s: Seq<u8>) -> bool {
    p.len() <= s.len() && s.subrange(0, p.len() as int) == p
}

/// Whether `a` sorts before `b`, deciding at index `k`: the two agree before
/// `k`, and there `a` ends while `b` goes on, or `a` holds the smaller byte.
pub open spec fn lex_lt_at(a: Seq<u8>, b: Seq<u8>, k: int) -> bool {
    &&& agree_upto(a, b, k)
    &&& k < b.len()
    &&& (k == a.len() || a[k] < b[k])
}

/// The strict lexicographic order on byte strings.
pub open spec fn lex_lt(a: Seq<u8>, b: Seq<u8>) -> bool {
    exists|k: int| lex_lt_at(a, b, k)
}

/// The non-strict lexicographic order on byte strings.
pub open spec fn lex_le(a: Seq<u8>, b: Seq<u8>) -> bool {
    a == b || lex_lt(a, b)
}

/// The smaller of two byte strings.
pub open spec fn lex_min(a: Seq<u8>, b: Seq<u8>) -> Seq<u8> {
    if lex_lt(b, a) {
        b
    } else {
        a
    }
}

/// The larger of two byte strings.
pub open spec fn lex_max(a: Seq<u8>, b: Seq<u8>) -> Seq<u8> {
    if lex_lt(a, b) {
        b
    } else {
        a
    }
}

/// Two byte strings stop agreeing at exactly one index.
pub proof fn lemma_first_difference_unique(a: Seq<u8>, b: Seq<u8>, n: int, m: int)
    requires
        first_difference(a, b, n),
        first_difference(a, b, m),
    ensures
        n == m,
{
    if n < m {
        assert(a[n] == b[n]);
    } else if m < n {
        assert(a[m] == b[m]);
    }
}

/// Where two byte strings stop agreeing decides their order.
pub proof fn lemma_order_at_difference(a: Seq<u8>, b: Seq<u8>, n: int)
    requires
        first_difference(a, b, n),
    ensures
        lex_lt(a, b) <==> lex_lt_at(a, b, n),
        lex_lt(b, a) <==> lex_lt_at(b, a, n),
        a == b <==> (n == a.len() && n == b.len()),
{
    if lex_lt(a, b) {
        let k = choose|k: int| lex_lt_at(a, b, k);
        assert(first_difference(a, b, k));
        lemma_first_difference_unique(a, b, n, k);
    }
    if lex_lt(b, a) {
        let k = choose|k: int| lex_lt_at(b, a, k);
        assert(first_difference(a, b, k));
        lemma_first_difference_unique(a, b, n, k);
    }
    if n == a.len() && n == b.len() {
        assert(a =~= b);
    }
}

/// Every pair of byte strings stops agreeing somewhere.
pub proof fn lemma_first_difference_exists(a: Seq<u8>, b: Seq<u8>) -> (n: int)
    ensures
        first_difference(a, b, n),
{
    lemma_first_difference_from(a, b, 0)
}

proof fn lemma_first_difference_from(a: Seq<u8>, b: Seq<u8>, k: int) -> (n: int)
    requires
        agree_upto(a, b, k),
    ensures
        first_difference(a, b, n),
    decreases a.len() - k,
{
    if k == a.len() || k == b.len() || a[k] != b[k] {
        k
    } else {
        lemma_first_difference_from(a, b, k + 1)
    }
}

/// Exactly one of `a < b`, `a == b`, `b < a` holds.
pub proof fn lemma_lex_trichotomy(a: Seq<u8>, b: Seq<u8>)
    ensures
        lex_lt(a, b) || a == b || lex_lt(b, a),
        !(lex_lt(a, b) && a == b),
        !(lex_lt(b, a) && a == b),
        !(lex_lt(a, b) && lex_lt(b, a)),
{
    let n = lemma_first_difference_exists(a, b);
    lemma_order_at_difference(a, b, n);
}

/// The lexicographic order is transitive.
pub proof fn lemma_lex_transitive(a: Seq<u8>, b: Seq<u8>, c: Seq<u8>)
    requires
        lex_lt(a, b),
        lex_lt(b, c),
    ensures
        lex_lt(a, c),
{
    let i = choose|k: int| lex_lt_at(a, b, k);
    let j = choose|k: int| lex_lt_at(b, c, k);
    if i <= j {
        if i < j {
            assert(b[i] == c[i]);
        }
        assert(lex_lt_at(a, c, i));
    } else {
        assert(a[j] == b[j]);
        assert(lex_lt_at(a, c, j));
    }
}

/// The non-strict order is transitive.
pub proof fn lemma_lex_le_transitive(a: Seq<u8>, b: Seq<u8>, c: Seq<u8>)
    requires
        lex_le(a, b),
        lex_le(b, c),
    ensures
        lex_le(a, c),
{
    if a != b && b != c {
        lemma_lex_transitive(a, b, c);
    }
}

/// The number of leading bytes that `k1` and `k2` share.
pub fn common_prefix_len(k1: &[u8], k2: &[u8]) -> (n: usize)
    ensures
        first_difference(k1@, k2@, n as int),
{
    let mut n: usize = 0;
    while n < k1.len() && n < k2.len() && k1[n] == k2[n]
        invariant
            agree_upto(k1@, k2@, n as int),
        decreases k1@.len() - n,
    {
        n += 1;
    }
    n
}

/// Where `a[..n]` and `b[..n]` are all that the two share, `n` decides their
/// order.
pub proof fn lemma_order_at_length(a: Seq<u8>, b: Seq<u8>, n: usize)
    requires
        first_difference(a, b, n as int),
    ensures
        lex_lt(a, b) <==> lex_lt_at(a, b, n as int),
        lex_lt(b, a) <==> lex_lt_at(b, a, n as int),
        a == b <==> (n == a.len() && n == b.len()),
{
    lemma_order_at_difference(a, b, n as int);
}

/// Compares two byte strings lexicographically.
pub fn compare_bytes(a: &[u8], b: &[u8]) -> (o: Ordering)
    ensures
        o == Ordering::Less <==> lex_lt(a@, b@),
        o == Ordering::Equal <==> a@ == b@,
        o == Ordering::Greater <==> lex_lt(b@, a@),
{
    let n = common_prefix_len(a, b);
    proof {
        lemma_order_at_length(a@, b@, n);
        lemma_lex_trichotomy(a@, b@);
    }
    if n == a.len() {
        if n == b.len() {
            Ordering::Equal
        } else {
            Ordering::Less
        }
    } else if n == b.len() {
        Ordering::Greater
    } else if a[n] < b[n] {
        Ordering::Less
    } else {
        Ordering::Greater
    }
}

/// Whether `a` sorts strictly before `b`.
pub fn bytes_lt(a: &[u8], b: &[u8]) -> (r: bool)
    ensures
        r == lex_lt(a@, b@),
{
    match compare_bytes(a, b) {
        Ordering::Less => true,
        _ => false,
    }
}

/// Whether two byte strings are equal.
pub fn bytes_eq(a: &[u8], b: &[u8]) -> (r: bool)
    ensures
        r == (a@ == b@),
{
    match compare_bytes(a, b) {
        Ordering::Equal => true,
        _ => false,
    }
}

/// Whether two strings hold the same characters.
pub fn str_eq(a: &str, b: &str) -> (r: bool)
    ensures
        r == (a@ == b@),
{
    let r = bytes_eq(a.as_bytes(), b.as_bytes());
    proof {
        vstd::utf8::encode_utf8_decode_utf8(a@);
        vstd::utf8::encode_utf8_decode_utf8(b@);
    }
    r
}

/// Copies the bytes of `s` from index `from` on.
pub fn copy_from(s: &[u8], from: usize) -> (v: Vec<u8>)
    requires
        from <= s@.len(),
    ensures
        v@ == s@.skip(from as int),
{
    let mut v: Vec<u8> = Vec::new();
    let mut i: usize = from;
    while i < s.len()
        invariant
            from <= i <= s@.len(),
            v@ == s@.subrange(from as int, i as int),
        decreases s@.len() - i,
    {
        v.push(s[i]);
        assert(v@ =~= s@.subrange(from as int, i + 1));
        i += 1;
    }
    assert(v@ =~= s@.skip(from as int));
    v
}

/// Copies a byte string.
pub fn copy_bytes(s: &[u8]) -> (v: Vec<u8>)
    ensures
        v@ == s@,
{
    let v = copy_from(s, 0);
    assert(s@.skip(0) =~= s@);
    v
}

/// The rest of `key` after `prefix`, or `None` where `key` does not start with
/// `prefix`.
pub fn strip_prefix(key: &[u8], prefix: &[u8]) -> (r: Option<Vec<u8>>)
    ensures
        r is Some <==> is_prefix(prefix@, key@),
        r matches Some(rest) ==> rest@ == key@.skip(prefix@.len() as int),
        r matches Some(rest) ==> key@ == prefix@ + rest@,
{
    let n = common_prefix_len(key, prefix);
    if n == prefix.len() {
        let rest = copy_from(key, n);
        assert(key@.subrange(0, n as int) =~= prefix@);
        assert(key@ =~= prefix@ + rest@);
        Some(rest)
    } else {
        assert(!is_prefix(prefix@, key@)) by {
            if is_prefix(prefix@, key@) {
                assert(key@.subrange(0, prefix@.len() as int)[n as int] == key@[n as int]);
            }
        }
        None
    }
}

} // verus!
