//! Merging the records of several files into one sorted run without
//! repeated keys.

use crate::record::{lemma_key_le_transitive, lemma_key_order_total, Record};
use std::cmp::Ordering;
use vstd::prelude::*;

verus! {

/// The records of all lists, one list after the other.
pub open spec fn flatten(lists: Seq<Vec<Record>>) -> Seq<Record>
    decreases lists.len(),
{
    if lists.len() == 0 {
        Seq::empty()
    } else {
        flatten(lists.drop_last()) + lists.last()@
    }
}

/// Whether no record of `s` sorts before an earlier one.
pub open spec fn sorted_by_key(s: Seq<Record>) -> bool {
    forall|i: int, j: int| 0 <= i < j < s.len() ==> (#[trigger] s[i]).key_le(#[trigger] s[j])
}

/// Whether every record of `s` sorts before all later ones.
pub open spec fn strictly_increasing(s: Seq<Record>) -> bool {
    forall|i: int, j: int| 0 <= i < j < s.len() ==> (#[trigger] s[i]).key_lt(#[trigger] s[j])
}

/// Of every run of neighbours with one key, the last; the other records of
/// the run are dropped.
pub open spec fn dedup_last(s: Seq<Record>) -> Seq<Record>
    decreases s.len(),
{
    if s.len() == 0 {
        Seq::empty()
    } else {
        let head = dedup_last(s.drop_last());
        if head.len() > 0 && head.last().same_key(s.last()) {
            head.drop_last().push(s.last())
        } else {
            head.push(s.last())
        }
    }
}

/// Whether `out` is what is left of `all` once it was sorted and its repeated
/// keys were dropped: `out` is strictly increasing, every record of `out` is
/// one of `all`, and every key of `all` is the key of a record of `out`.
pub open spec fn merged_from(all: Seq<Record>, out: Seq<Record>) -> bool {
    &&& strictly_increasing(out)
    &&& out.len() <= all.len()
    &&& forall|i: int| 0 <= i < out.len() ==> all.contains(#[trigger] out[i])
    &&& forall|i: int|
        0 <= i < all.len() ==> exists|j: int|
            0 <= j < out.len() && (#[trigger] out[j]).same_key(#[trigger] all[i])
}

/// Whether no record of `s` sorts before a later one.
pub open spec fn sorted_downwards(s: Seq<Record>) -> bool {
    forall|i: int, j: int| 0 <= i < j < s.len() ==> (#[trigger] s[j]).key_le(#[trigger] s[i])
}

/// Whether every record of `low` is at most every record of `high`.
pub open spec fn all_below(low: Seq<Record>, high: Seq<Record>) -> bool {
    forall|i: int, j: int|
        0 <= i < low.len() && 0 <= j < high.len() ==> (#[trigger] low[i]).key_le(#[trigger] high[j])
}

/// Whether `a` does not sort before `b`.
fn not_before(a: &Record, b: &Record) -> (r: bool)
    ensures
        r == !a.key_lt(*b),
        r == b.key_le(*a),
{
    proof {
        lemma_key_order_total(*a, *b);
    }
    match a.cmp_key(b) {
        Ordering::Less => false,
        _ => true,
    }
}

/// Turns a run of records round.
fn reversed(records: Vec<Record>) -> (out: Vec<Record>)
    ensures
        out@ == records@.reverse(),
{
    let mut records = records;
    let ghost all = records@;
    let mut out: Vec<Record> = Vec::new();
    while records.len() > 0
        invariant
            records@.len() + out@.len() == all.len(),
            records@ == all.take(records@.len() as int),
            forall|i: int| 0 <= i < out@.len() ==> #[trigger] out@[i] == all[all.len() - 1 - i],
        decreases records@.len(),
    {
        let ghost n = records@.len();
        let last = records.pop().unwrap();
        assert(last == all[n - 1]);
        assert(records@ =~= all.take(n - 1));
        out.push(last);
    }
    assert(out@ =~= all.reverse());
    out
}

/// Takes the greatest remaining record of two sorted runs, time and again,
/// and so makes one run of them that is sorted downwards.
fn merge_downwards(a: Vec<Record>, b: Vec<Record>) -> (out: Vec<Record>)
    requires
        sorted_by_key(a@),
        sorted_by_key(b@),
    ensures
        sorted_downwards(out@),
        out@.to_multiset() == a@.to_multiset().add(b@.to_multiset()),
{
    let mut a = a;
    let mut b = b;
    let ghost total = a@.to_multiset().add(b@.to_multiset());
    let mut out: Vec<Record> = Vec::new();
    proof {
        out@.to_multiset_ensures();
        assert(out@.to_multiset().add(a@.to_multiset()).add(b@.to_multiset()) =~= total);
    }
    while a.len() > 0 || b.len() > 0
        invariant
            sorted_by_key(a@),
            sorted_by_key(b@),
            sorted_downwards(out@),
            all_below(a@, out@),
            all_below(b@, out@),
            out@.to_multiset().add(a@.to_multiset()).add(b@.to_multiset()) == total,
        decreases a@.len() + b@.len(),
    {
        let ghost a0 = a@;
        let ghost b0 = b@;
        let ghost out0 = out@;
        let from_a = if b.len() == 0 {
            true
        } else if a.len() == 0 {
            false
        } else {
            not_before(&a[a.len() - 1], &b[b.len() - 1])
        };
        let next = if from_a {
            a.pop().unwrap()
        } else {
            b.pop().unwrap()
        };
        out.push(next);
        proof {
            let rest = if from_a { a@ } else { b@ };
            let other = if from_a { b@ } else { a@ };
            let was = if from_a { a0 } else { b0 };
            let n = rest.len() as int;
            assert(was =~= rest.push(next));
            assert(was[n] == next);
            rest.to_multiset_ensures();
            out0.to_multiset_ensures();
            assert(was.to_multiset() =~= rest.to_multiset().insert(next));
            assert(out@.to_multiset() =~= out0.to_multiset().insert(next));
            assert(out@.to_multiset().add(a@.to_multiset()).add(b@.to_multiset()) =~= out0.to_multiset().add(
                a0.to_multiset(),
            ).add(b0.to_multiset()));
            assert forall|i: int, j: int| 0 <= i < j < rest.len() implies (#[trigger] rest[i]).key_le(
                #[trigger] rest[j],
            ) by {
                assert(was[i].key_le(was[j]));
            }
            assert forall|i: int, j: int| 0 <= i < j < out@.len() implies (#[trigger] out@[j]).key_le(
                #[trigger] out@[i],
            ) by {
                if j < out0.len() {
                    assert(out0[j].key_le(out0[i]));
                } else {
                    assert(was[n].key_le(out0[i]));
                }
            }
            assert forall|i: int, j: int|
                0 <= i < rest.len() && 0 <= j < out@.len() implies (#[trigger] rest[i]).key_le(
                #[trigger] out@[j],
            ) by {
                if j < out0.len() {
                    assert(was[i].key_le(out0[j]));
                } else {
                    assert(was[i].key_le(was[n]));
                }
            }
            assert forall|i: int, j: int|
                0 <= i < other.len() && 0 <= j < out@.len() implies (#[trigger] other[i]).key_le(
                #[trigger] out@[j],
            ) by {
                if j < out0.len() {
                    assert(other[i].key_le(out0[j]));
                } else {
                    let top = other[other.len() - 1];
                    if i < other.len() - 1 {
                        assert(other[i].key_le(other[other.len() - 1]));
                    }
                    lemma_key_order_total(top, next);
                    lemma_key_le_transitive(other[i], top, next);
                }
            }
        }
    }
    proof {
        a@.to_multiset_ensures();
        b@.to_multiset_ensures();
        assert(a@ =~= Seq::<Record>::empty());
        assert(b@ =~= Seq::<Record>::empty());
        assert(out@.to_multiset().add(a@.to_multiset()).add(b@.to_multiset()) =~= out@.to_multiset());
    }
    out
}

/// Makes one sorted run of two.
fn merge_sorted(a: Vec<Record>, b: Vec<Record>) -> (out: Vec<Record>)
    requires
        sorted_by_key(a@),
        sorted_by_key(b@),
    ensures
        sorted_by_key(out@),
        out@.to_multiset() == a@.to_multiset().add(b@.to_multiset()),
{
    let down = merge_downwards(a, b);
    let out = reversed(down);
    proof {
        down@.lemma_reverse_to_multiset();
        assert forall|i: int, j: int| 0 <= i < j < out@.len() implies (#[trigger] out@[i]).key_le(
            #[trigger] out@[j],
        ) by {
            let n = down@.len() as int;
            assert(down@[n - 1 - i].key_le(down@[n - 1 - j]));
        }
    }
    out
}

/// Sorts the records by key: each half by itself, and the two merged. In
/// which order records with one key come is left open.
fn sort_by_key(records: Vec<Record>) -> (sorted: Vec<Record>)
    ensures
        sorted@.to_multiset() == records@.to_multiset(),
        sorted_by_key(sorted@),
    decreases records@.len(),
{
    if records.len() <= 1 {
        return records;
    }
    let mut left = records;
    let ghost all = left@;
    let mid = left.len() / 2;
    let right = left.split_off(mid);
    proof {
        assert(all =~= left@ + right@);
        vstd::seq_lib::lemma_multiset_commutative(left@, right@);
    }
    let left = sort_by_key(left);
    let right = sort_by_key(right);
    merge_sorted(left, right)
}

/// Puts the records of all lists into one.
pub fn flatten_records(items: Vec<Vec<Record>>) -> (all: Vec<Record>)
    ensures
        all@ == flatten(items@),
{
    let mut all: Vec<Record> = Vec::new();
    let ghost lists = items@;
    for list in it: items
        invariant
            it.seq() == lists,
            all@ == flatten(lists.take(it.index() as int)),
    {
        let ghost i = it.index() as int;
        let mut list = list;
        proof {
            assert(lists.take(i + 1).drop_last() =~= lists.take(i));
            assert(lists.take(i + 1).last() == lists[i]);
        }
        all.append(&mut list);
    }
    assert(lists.take(lists.len() as int) =~= lists);
    all
}

/// Puts the records of all lists into one and sorts them by key. In which
/// order records with one key come is not determined.
pub fn sort_records(items: Vec<Vec<Record>>) -> (sorted: Vec<Record>)
    ensures
        sorted@.to_multiset() == flatten(items@).to_multiset(),
        sorted_by_key(sorted@),
{
    sort_by_key(flatten_records(items))
}

/// Drops repeated keys: of neighbours with one key, only the last stays.
pub fn dedup_by_key(records: Vec<Record>) -> (out: Vec<Record>)
    ensures
        out@ == dedup_last(records@),
{
    let mut out: Vec<Record> = Vec::new();
    let ghost all = records@;
    for record in it: records
        invariant
            it.seq() == all,
            out@ == dedup_last(all.take(it.index() as int)),
    {
        let ghost i = it.index() as int;
        proof {
            assert(all.take(i + 1).drop_last() =~= all.take(i));
            assert(all.take(i + 1).last() == all[i]);
        }
        let repeated = out.len() > 0 && is_same_key(&out[out.len() - 1], &record);
        if repeated {
            out.pop();
        }
        out.push(record);
    }
    assert(all.take(all.len() as int) =~= all);
    out
}

/// Whether two records have one key.
pub fn is_same_key(a: &Record, b: &Record) -> (same: bool)
    ensures
        same == a.same_key(*b),
{
    match a.cmp_key(b) {
        Ordering::Equal => true,
        _ => false,
    }
}

/// Whether `out` is `ordered` without its repeated keys, and `ordered` is a
/// sorted arrangement of the records `all`.
pub open spec fn merged_through(all: Seq<Record>, ordered: Seq<Record>, out: Seq<Record>) -> bool {
    &&& ordered.to_multiset() == all.to_multiset()
    &&& sorted_by_key(ordered)
    &&& out == dedup_last(ordered)
}

/// Whether `out` is what merging makes of the records `all`: some sorted
/// arrangement of them, of which every run of records with one key has lost
/// all but its last.
pub open spec fn merges_to(all: Seq<Record>, out: Seq<Record>) -> bool {
    exists|ordered: Seq<Record>| #[trigger] merged_through(all, ordered, out)
}

/// Merges the records of all lists: sorts them by key and drops repeated
/// keys, of which the last in the sorted order stays. In which order the
/// records with one key are sorted, and so which of them stays, is not
/// determined.
pub fn merge_and_sort(items: Vec<Vec<Record>>) -> (sorted: Vec<Record>)
    ensures
        merges_to(flatten(items@), sorted@),
        merged_from(flatten(items@), sorted@),
{
    let ghost before = flatten(items@);
    let all = sort_records(items);
    proof {
        lemma_merged_from_sorted(before, all@);
        assert(merged_through(before, all@, dedup_last(all@)));
    }
    dedup_by_key(all)
}

/// Dropping the repeated keys of a sorted arrangement of some records leaves
/// what is to be left of those records.
pub proof fn lemma_merged_from_sorted(all: Seq<Record>, ordered: Seq<Record>)
    requires
        ordered.to_multiset() == all.to_multiset(),
        sorted_by_key(ordered),
    ensures
        merged_from(all, dedup_last(ordered)),
{
    let out = dedup_last(ordered);
    lemma_dedup_increasing(ordered);
    lemma_dedup_keeps_records(ordered);
    lemma_dedup_keeps_keys(ordered);
    lemma_same_records(all, ordered);
    assert forall|i: int| 0 <= i < out.len() implies all.contains(#[trigger] out[i]) by {
        assert(ordered.contains(out[i]));
    }
    assert forall|i: int| 0 <= i < all.len() implies exists|j: int|
        0 <= j < out.len() && (#[trigger] out[j]).same_key(#[trigger] all[i]) by {
        lemma_key_kept(all, ordered, i);
    }
}

/// The key of each of some records is still there after a sorted arrangement
/// of them has lost its repeated keys.
proof fn lemma_key_kept(all: Seq<Record>, ordered: Seq<Record>, i: int)
    requires
        ordered.to_multiset() == all.to_multiset(),
        0 <= i < all.len(),
    ensures
        exists|j: int|
            0 <= j < dedup_last(ordered).len() && (#[trigger] dedup_last(ordered)[j]).same_key(all[i]),
{
    lemma_same_records(all, ordered);
    lemma_dedup_keeps_keys(ordered);
    assert(all.contains(all[i]));
    assert(ordered.contains(all[i]));
    let at = choose|at: int| 0 <= at < ordered.len() && ordered[at] == all[i];
    let j = choose|j: int|
        0 <= j < dedup_last(ordered).len() && (#[trigger] dedup_last(ordered)[j]).same_key(
            #[trigger] ordered[at],
        );
    assert(dedup_last(ordered)[j].same_key(all[i]));
}

/// Two sequences of the same records hold the same records, and as many.
pub proof fn lemma_same_records(a: Seq<Record>, b: Seq<Record>)
    requires
        a.to_multiset() == b.to_multiset(),
    ensures
        a.len() == b.len(),
        forall|r: Record| a.contains(r) <==> b.contains(r),
{
    a.to_multiset_ensures();
    b.to_multiset_ensures();
    assert forall|r: Record| a.contains(r) <==> b.contains(r) by {
        assert(a.contains(r) <==> a.to_multiset().count(r) > 0);
        assert(b.contains(r) <==> b.to_multiset().count(r) > 0);
    }
}

/// What is left after repeated keys were dropped is no longer than what was
/// there, ends with the same record, and holds only records that were there.
pub proof fn lemma_dedup_keeps_records(s: Seq<Record>)
    ensures
        dedup_last(s).len() <= s.len(),
        s.len() > 0 ==> dedup_last(s).len() > 0 && dedup_last(s).last() == s.last(),
        forall|i: int| 0 <= i < dedup_last(s).len() ==> s.contains(#[trigger] dedup_last(s)[i]),
    decreases s.len(),
{
    if s.len() > 0 {
        let init = s.drop_last();
        lemma_dedup_keeps_records(init);
        let head = dedup_last(init);
        let out = dedup_last(s);
        assert forall|i: int| 0 <= i < out.len() implies s.contains(#[trigger] out[i]) by {
            if i < out.len() - 1 {
                assert(out[i] == head[i]);
                assert(init.contains(head[i]));
                let at = choose|at: int| 0 <= at < init.len() && init[at] == head[i];
                assert(s[at] == head[i]);
            } else {
                assert(s[s.len() - 1] == out[i]);
            }
        }
    }
}

/// What is left after repeated keys were dropped still holds every key.
pub proof fn lemma_dedup_keeps_keys(s: Seq<Record>)
    ensures
        forall|i: int|
            0 <= i < s.len() ==> exists|j: int|
                0 <= j < dedup_last(s).len() && (#[trigger] dedup_last(s)[j]).same_key(
                    #[trigger] s[i],
                ),
    decreases s.len(),
{
    if s.len() > 0 {
        let init = s.drop_last();
        lemma_dedup_keeps_keys(init);
        let head = dedup_last(init);
        let out = dedup_last(s);
        assert forall|i: int| 0 <= i < s.len() implies exists|j: int|
            0 <= j < out.len() && (#[trigger] out[j]).same_key(#[trigger] s[i]) by {
            if i == s.len() - 1 {
                assert(out[out.len() - 1].same_key(s[i]));
            } else {
                assert(init[i] == s[i]);
                let j = choose|j: int| 0 <= j < head.len() && (#[trigger] head[j]).same_key(
                    #[trigger] init[i],
                );
                if j < out.len() - 1 {
                    assert(out[j] == head[j]);
                    assert(out[j].same_key(s[i]));
                } else {
                    assert(out[out.len() - 1].same_key(s[i]));
                }
            }
        }
    }
}

/// In a sorted run, every record is at most the last.
proof fn lemma_sorted_below_last(s: Seq<Record>, r: Record)
    requires
        sorted_by_key(s),
        s.len() > 0,
        s.drop_last().contains(r),
    ensures
        r.key_le(s.last()),
{
    let init = s.drop_last();
    let at = choose|at: int| 0 <= at < init.len() && init[at] == r;
    assert(s[at].key_le(s[s.len() - 1]));
}

/// The start of a sorted run is sorted.
proof fn lemma_sorted_drop_last(s: Seq<Record>)
    requires
        sorted_by_key(s),
        s.len() > 0,
    ensures
        sorted_by_key(s.drop_last()),
{
    let init = s.drop_last();
    assert forall|i: int, j: int| 0 <= i < j < init.len() implies (#[trigger] init[i]).key_le(
        #[trigger] init[j],
    ) by {
        assert(s[i].key_le(s[j]));
    }
}

/// A record that sorts before the last of what is kept, which in turn is at
/// most `last` and not of the same key unless it is dropped, sorts before
/// `last`.
proof fn lemma_before_last(a: Record, top: Record, last: Record)
    requires
        a.key_lt(top),
        top.key_le(last),
    ensures
        a.key_lt(last),
{
    if top.key_lt(last) {
        crate::record::lemma_key_lt_transitive(a, top, last);
    }
}

/// Dropping the repeated keys of a sorted run leaves a strictly increasing
/// run.
pub proof fn lemma_dedup_increasing(s: Seq<Record>)
    requires
        sorted_by_key(s),
    ensures
        strictly_increasing(dedup_last(s)),
    decreases s.len(),
{
    if s.len() > 0 {
        let init = s.drop_last();
        let last = s.last();
        lemma_sorted_drop_last(s);
        lemma_dedup_increasing(init);
        lemma_dedup_keeps_records(init);
        let head = dedup_last(init);
        let out = dedup_last(s);
        if head.len() > 0 {
            let top = head.last();
            assert(init.contains(top)) by {
                assert(head[head.len() - 1] == top);
            }
            lemma_sorted_below_last(s, top);
            lemma_key_order_total(top, last);
            assert forall|i: int, j: int| 0 <= i < j < out.len() implies (#[trigger] out[i]).key_lt(
                #[trigger] out[j],
            ) by {
                if j < out.len() - 1 {
                    assert(head[i].key_lt(head[j]));
                } else if i < head.len() - 1 {
                    assert(head[i].key_lt(head[head.len() - 1]));
                    lemma_before_last(head[i], top, last);
                }
            }
        }
    }
}

/// Dropping the repeated keys of a sorted run leaves a strictly increasing
/// run that is no longer, holds only records of the sorted run, and holds
/// every key of it.
pub proof fn lemma_dedup_of_sorted(s: Seq<Record>)
    requires
        sorted_by_key(s),
    ensures
        merged_from(s, dedup_last(s)),
{
    lemma_dedup_increasing(s);
    lemma_dedup_keeps_records(s);
    lemma_dedup_keeps_keys(s);
}

} // verus!
