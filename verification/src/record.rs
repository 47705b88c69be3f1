//! Key/value records as they are held while a batch is merged.
//!
//! All records of a batch share one buffer holding the batch's common key
//! prefix; each record keeps only the rest of its key.

use crate::bytes::{
    compare_bytes, lemma_lex_transitive, lemma_lex_trichotomy, lex_lt, lex_lt_at,
};
use std::cmp::Ordering;
use std::sync::Arc;
use vstd::prelude::*;

verus! {

/// A key/value pair whose key is split into a shared prefix and a suffix.
#[derive(Debug)]
pub struct Record {
    pub prefix: Arc<Vec<u8>>,
    pub key: Vec<u8>,
    pub value: Vec<u8>,
}

impl Record {
    /// The whole key: the shared prefix followed by the suffix.
    pub open spec fn full_key(self) -> Seq<u8> {
        self.prefix@ + self.key@
    }

    /// Whether `self` and `other` have the same prefix and the same suffix.
    pub open spec fn same_key(self, other: Record) -> bool {
        self.prefix@ == other.prefix@ && self.key@ == other.key@
    }

    /// Whether `self` sorts before `other`: by prefix where the prefixes
    /// differ, by suffix where they do not.
    pub open spec fn key_lt(self, other: Record) -> bool {
        if self.prefix@ == other.prefix@ {
            lex_lt(self.key@, other.key@)
        } else {
            lex_lt(self.prefix@, other.prefix@)
        }
    }

    /// Whether `self` sorts before `other` or has the same key.
    pub open spec fn key_le(self, other: Record) -> bool {
        self.key_lt(other) || self.same_key(other)
    }

    /// Makes a record.
    pub fn new(prefix: Arc<Vec<u8>>, key: Vec<u8>, value: Vec<u8>) -> (r: Record)
        ensures
            r.prefix@ == prefix@,
            r.key@ == key@,
            r.value@ == value@,
    {
        Record { prefix, key, value }
    }

    /// Orders two records by key. The values play no part.
    pub fn cmp_key(&self, other: &Self) -> (o: Ordering)
        ensures
            o == Ordering::Less <==> self.key_lt(*other),
            o == Ordering::Equal <==> self.same_key(*other),
            o == Ordering::Greater <==> other.key_lt(*self),
    {
        proof {
            lemma_lex_trichotomy(self.prefix@, other.prefix@);
            lemma_lex_trichotomy(self.key@, other.key@);
        }
        if same_buffer(&self.prefix, &other.prefix) {
            compare_bytes(self.key.as_slice(), other.key.as_slice())
        } else {
            match compare_bytes(self.prefix.as_slice(), other.prefix.as_slice()) {
                Ordering::Equal => compare_bytes(self.key.as_slice(), other.key.as_slice()),
                o => o,
            }
        }
    }
}

/// Whether two handles point to one buffer, by `Arc::ptr_eq` of std. Two
/// handles to one buffer hold the same bytes; of two handles to different
/// buffers nothing is claimed.
#[verifier::external_body]
pub(crate) fn same_buffer(a: &Arc<Vec<u8>>, b: &Arc<Vec<u8>>) -> (same: bool)
    ensures
        same ==> a@ == b@,
{
    Arc::ptr_eq(a, b)
}

/// No record sorts before itself, and of two records with different keys
/// exactly one sorts before the other.
pub proof fn lemma_key_order_total(a: Record, b: Record)
    ensures
        a.key_lt(b) || a.same_key(b) || b.key_lt(a),
        !(a.key_lt(b) && a.same_key(b)),
        !(b.key_lt(a) && a.same_key(b)),
        !(a.key_lt(b) && b.key_lt(a)),
{
    lemma_lex_trichotomy(a.prefix@, b.prefix@);
    lemma_lex_trichotomy(a.key@, b.key@);
}

/// The order of records by key is transitive.
pub proof fn lemma_key_lt_transitive(a: Record, b: Record, c: Record)
    requires
        a.key_lt(b),
        b.key_lt(c),
    ensures
        a.key_lt(c),
{
    lemma_lex_trichotomy(a.prefix@, b.prefix@);
    lemma_lex_trichotomy(b.prefix@, c.prefix@);
    lemma_lex_trichotomy(a.prefix@, c.prefix@);
    if a.prefix@ == b.prefix@ {
        if b.prefix@ == c.prefix@ {
            lemma_lex_transitive(a.key@, b.key@, c.key@);
        }
    } else if b.prefix@ != c.prefix@ {
        lemma_lex_transitive(a.prefix@, b.prefix@, c.prefix@);
    }
}

/// The non-strict order of records by key is transitive.
pub proof fn lemma_key_le_transitive(a: Record, b: Record, c: Record)
    requires
        a.key_le(b),
        b.key_le(c),
    ensures
        a.key_le(c),
{
    if a.key_lt(b) && b.key_lt(c) {
        lemma_key_lt_transitive(a, b, c);
    }
}

/// Putting one prefix before two byte strings keeps their order.
pub proof fn lemma_prefix_keeps_order(p: Seq<u8>, a: Seq<u8>, b: Seq<u8>)
    requires
        lex_lt(a, b),
    ensures
        lex_lt(p + a, p + b),
{
    let k = choose|k: int| lex_lt_at(a, b, k);
    let n = p.len() as int;
    assert forall|i: int| 0 <= i < n + k implies (p + a)[i] == (p + b)[i] by {
        if i >= n {
            assert(a[i - n] == b[i - n]);
        }
    }
    if k < a.len() {
        assert((p + a)[n + k] == a[k]);
    }
    assert((p + b)[n + k] == b[k]);
    assert(lex_lt_at(p + a, p + b, n + k));
}

/// Of two records under one prefix, the one that sorts first has the smaller
/// whole key.
pub proof fn lemma_key_lt_full_key(a: Record, b: Record)
    requires
        a.prefix@ == b.prefix@,
        a.key_lt(b),
    ensures
        lex_lt(a.full_key(), b.full_key()),
{
    lemma_prefix_keeps_order(a.prefix@, a.key@, b.key@);
}

} // verus!
