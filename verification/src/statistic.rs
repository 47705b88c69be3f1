//! Counters kept while log files are loaded and while a batch is compacted.
//!
//! Both kinds of counters are merged by adding field by field, so merging is
//! independent of the order and of the grouping in which it is done.

use vstd::prelude::*;

verus! {

/// What a `LoadStatistic` counts, as unbounded numbers.
pub struct LoadTotals {
    pub files_in: nat,
    pub keys_in: nat,
    pub physical_bytes_in: nat,
    pub logical_key_bytes_in: nat,
    pub logical_value_bytes_in: nat,
}

impl LoadTotals {
    /// The totals of nothing loaded.
    pub open spec fn zero() -> LoadTotals {
        LoadTotals {
            files_in: 0,
            keys_in: 0,
            physical_bytes_in: 0,
            logical_key_bytes_in: 0,
            logical_value_bytes_in: 0,
        }
    }

    /// The field-wise sum of two totals.
    pub open spec fn merge(self, other: LoadTotals) -> LoadTotals {
        LoadTotals {
            files_in: self.files_in + other.files_in,
            keys_in: self.keys_in + other.keys_in,
            physical_bytes_in: self.physical_bytes_in + other.physical_bytes_in,
            logical_key_bytes_in: self.logical_key_bytes_in + other.logical_key_bytes_in,
            logical_value_bytes_in: self.logical_value_bytes_in + other.logical_value_bytes_in,
        }
    }

    /// Whether every counter fits a `u64`.
    pub open spec fn fits(self) -> bool {
        &&& self.files_in <= u64::MAX
        &&& self.keys_in <= u64::MAX
        &&& self.physical_bytes_in <= u64::MAX
        &&& self.logical_key_bytes_in <= u64::MAX
        &&& self.logical_value_bytes_in <= u64::MAX
    }
}

/// Counters of what was read while loading log files.
#[derive(Debug)]
pub struct LoadStatistic {
    pub files_in: u64,
    pub keys_in: u64,
    pub physical_bytes_in: u64,
    pub logical_key_bytes_in: u64,
    pub logical_value_bytes_in: u64,
}

impl View for LoadStatistic {
    type V = LoadTotals;

    open spec fn view(&self) -> LoadTotals {
        LoadTotals {
            files_in: self.files_in as nat,
            keys_in: self.keys_in as nat,
            physical_bytes_in: self.physical_bytes_in as nat,
            logical_key_bytes_in: self.logical_key_bytes_in as nat,
            logical_value_bytes_in: self.logical_value_bytes_in as nat,
        }
    }
}

impl Default for LoadStatistic {
    fn default() -> (s: LoadStatistic)
        ensures
            s@ == LoadTotals::zero(),
    {
        LoadStatistic {
            files_in: 0,
            keys_in: 0,
            physical_bytes_in: 0,
            logical_key_bytes_in: 0,
            logical_value_bytes_in: 0,
        }
    }
}

impl LoadStatistic {
    /// Adds the counters of `other` to these.
    pub fn merge_with(&mut self, other: &Self)
        requires
            old(self)@.merge(other@).fits(),
        ensures
            final(self)@ == old(self)@.merge(other@),
    {
        self.files_in += other.files_in;
        self.keys_in += other.keys_in;
        self.physical_bytes_in += other.physical_bytes_in;
        self.logical_key_bytes_in += other.logical_key_bytes_in;
        self.logical_value_bytes_in += other.logical_value_bytes_in;
    }

    /// Adds the counters of `other` to these where every sum fits; otherwise
    /// leaves them as they are and returns `false`.
    pub fn try_merge_with(&mut self, other: &Self) -> (merged: bool)
        ensures
            merged == old(self)@.merge(other@).fits(),
            merged ==> final(self)@ == old(self)@.merge(other@),
            !merged ==> final(self)@ == old(self)@,
    {
        if other.files_in <= u64::MAX - self.files_in && other.keys_in <= u64::MAX - self.keys_in
            && other.physical_bytes_in <= u64::MAX - self.physical_bytes_in
            && other.logical_key_bytes_in <= u64::MAX - self.logical_key_bytes_in
            && other.logical_value_bytes_in <= u64::MAX - self.logical_value_bytes_in {
            self.merge_with(other);
            true
        } else {
            false
        }
    }
}

/// What a `CompactStatistic` counts, as unbounded numbers. The four durations
/// are in nanoseconds.
pub struct CompactTotals {
    pub keys_out: nat,
    pub physical_bytes_out: nat,
    pub logical_key_bytes_out: nat,
    pub logical_value_bytes_out: nat,
    pub write_sst_duration: nat,
    pub load_duration: nat,
    pub sort_duration: nat,
    pub save_duration: nat,
}

impl CompactTotals {
    /// The totals of nothing compacted.
    pub open spec fn zero() -> CompactTotals {
        CompactTotals {
            keys_out: 0,
            physical_bytes_out: 0,
            logical_key_bytes_out: 0,
            logical_value_bytes_out: 0,
            write_sst_duration: 0,
            load_duration: 0,
            sort_duration: 0,
            save_duration: 0,
        }
    }

    /// The field-wise sum of two totals.
    pub open spec fn merge(self, other: CompactTotals) -> CompactTotals {
        CompactTotals {
            keys_out: self.keys_out + other.keys_out,
            physical_bytes_out: self.physical_bytes_out + other.physical_bytes_out,
            logical_key_bytes_out: self.logical_key_bytes_out + other.logical_key_bytes_out,
            logical_value_bytes_out: self.logical_value_bytes_out + other.logical_value_bytes_out,
            write_sst_duration: self.write_sst_duration + other.write_sst_duration,
            load_duration: self.load_duration + other.load_duration,
            sort_duration: self.sort_duration + other.sort_duration,
            save_duration: self.save_duration + other.save_duration,
        }
    }

    /// Whether every counter fits a `u64` and every duration a `u128`.
    pub open spec fn fits(self) -> bool {
        &&& self.keys_out <= u64::MAX
        &&& self.physical_bytes_out <= u64::MAX
        &&& self.logical_key_bytes_out <= u64::MAX
        &&& self.logical_value_bytes_out <= u64::MAX
        &&& self.write_sst_duration <= u128::MAX
        &&& self.load_duration <= u128::MAX
        &&& self.sort_duration <= u128::MAX
        &&& self.save_duration <= u128::MAX
    }
}

/// Counters of what a compaction wrote, and how long each phase took.
///
/// A duration is held as a whole number of nanoseconds.
#[derive(Debug)]
pub struct CompactStatistic {
    pub keys_out: u64,
    pub physical_bytes_out: u64,
    pub logical_key_bytes_out: u64,
    pub logical_value_bytes_out: u64,
    pub write_sst_duration: u128,
    pub load_duration: u128,
    pub sort_duration: u128,
    pub save_duration: u128,
}

impl View for CompactStatistic {
    type V = CompactTotals;

    open spec fn view(&self) -> CompactTotals {
        CompactTotals {
            keys_out: self.keys_out as nat,
            physical_bytes_out: self.physical_bytes_out as nat,
            logical_key_bytes_out: self.logical_key_bytes_out as nat,
            logical_value_bytes_out: self.logical_value_bytes_out as nat,
            write_sst_duration: self.write_sst_duration as nat,
            load_duration: self.load_duration as nat,
            sort_duration: self.sort_duration as nat,
            save_duration: self.save_duration as nat,
        }
    }
}

impl Default for CompactStatistic {
    fn default() -> (s: CompactStatistic)
        ensures
            s@ == CompactTotals::zero(),
    {
        CompactStatistic {
            keys_out: 0,
            physical_bytes_out: 0,
            logical_key_bytes_out: 0,
            logical_value_bytes_out: 0,
            write_sst_duration: 0,
            load_duration: 0,
            sort_duration: 0,
            save_duration: 0,
        }
    }
}

impl CompactStatistic {
    /// Adds the counters and durations of `other` to these.
    pub fn merge_with(&mut self, other: &Self)
        requires
            old(self)@.merge(other@).fits(),
        ensures
            final(self)@ == old(self)@.merge(other@),
    {
        self.keys_out += other.keys_out;
        self.physical_bytes_out += other.physical_bytes_out;
        self.logical_key_bytes_out += other.logical_key_bytes_out;
        self.logical_value_bytes_out += other.logical_value_bytes_out;
        self.write_sst_duration += other.write_sst_duration;
        self.load_duration += other.load_duration;
        self.sort_duration += other.sort_duration;
        self.save_duration += other.save_duration;
    }

    /// Adds the counters and durations of `other` to these where every sum
    /// fits; otherwise leaves them as they are and returns `false`.
    pub fn try_merge_with(&mut self, other: &Self) -> (merged: bool)
        ensures
            merged == old(self)@.merge(other@).fits(),
            merged ==> final(self)@ == old(self)@.merge(other@),
            !merged ==> final(self)@ == old(self)@,
    {
        if other.keys_out <= u64::MAX - self.keys_out
            && other.physical_bytes_out <= u64::MAX - self.physical_bytes_out
            && other.logical_key_bytes_out <= u64::MAX - self.logical_key_bytes_out
            && other.logical_value_bytes_out <= u64::MAX - self.logical_value_bytes_out
            && other.write_sst_duration <= u128::MAX - self.write_sst_duration
            && other.load_duration <= u128::MAX - self.load_duration
            && other.sort_duration <= u128::MAX - self.sort_duration
            && other.save_duration <= u128::MAX - self.save_duration {
            self.merge_with(other);
            true
        } else {
            false
        }
    }
}

/// Merging load totals does not depend on the order of the two.
pub proof fn lemma_load_merge_commutative(a: LoadTotals, b: LoadTotals)
    ensures
        a.merge(b) == b.merge(a),
{
}

/// Merging load totals does not depend on how they are grouped.
pub proof fn lemma_load_merge_associative(a: LoadTotals, b: LoadTotals, c: LoadTotals)
    ensures
        a.merge(b).merge(c) == a.merge(b.merge(c)),
{
}

/// Merging with the totals of nothing changes nothing.
pub proof fn lemma_load_merge_zero(a: LoadTotals)
    ensures
        a.merge(LoadTotals::zero()) == a,
        LoadTotals::zero().merge(a) == a,
{
}

/// Merging compaction totals does not depend on the order of the two.
pub proof fn lemma_compact_merge_commutative(a: CompactTotals, b: CompactTotals)
    ensures
        a.merge(b) == b.merge(a),
{
}

/// Merging compaction totals does not depend on how they are grouped.
pub proof fn lemma_compact_merge_associative(a: CompactTotals, b: CompactTotals, c: CompactTotals)
    ensures
        a.merge(b).merge(c) == a.merge(b.merge(c)),
{
}

/// Merging with the totals of nothing changes nothing.
pub proof fn lemma_compact_merge_zero(a: CompactTotals)
    ensures
        a.merge(CompactTotals::zero()) == a,
        CompactTotals::zero().merge(a) == a,
{
}

/// The totals of a sequence of load statistics, merged from the left.
pub open spec fn load_total(stats: Seq<LoadTotals>) -> LoadTotals
    decreases stats.len(),
{
    if stats.len() == 0 {
        LoadTotals::zero()
    } else {
        load_total(stats.drop_last()).merge(stats.last())
    }
}

/// Splitting a sequence of statistics anywhere and merging the totals of the
/// two parts gives the totals of the whole.
pub proof fn lemma_load_total_split(a: Seq<LoadTotals>, b: Seq<LoadTotals>)
    ensures
        load_total(a + b) == load_total(a).merge(load_total(b)),
    decreases b.len(),
{
    if b.len() == 0 {
        assert(a + b =~= a);
    } else {
        lemma_load_total_split(a, b.drop_last());
        assert((a + b).drop_last() =~= a + b.drop_last());
        assert((a + b).last() == b.last());
    }
}

/// Taking one statistic out of a sequence and merging it with the totals of
/// the rest gives the totals of the whole.
pub proof fn lemma_load_total_remove(stats: Seq<LoadTotals>, k: int)
    requires
        0 <= k < stats.len(),
    ensures
        load_total(stats) == load_total(stats.remove(k)).merge(stats[k]),
{
    let head = stats.take(k);
    let tail = stats.skip(k + 1);
    let one = seq![stats[k]];
    assert(stats =~= head + one + tail);
    assert(stats.remove(k) =~= head + tail);
    lemma_load_total_split(head + one, tail);
    lemma_load_total_split(head, one);
    lemma_load_total_split(head, tail);
    assert(load_total(one) == stats[k]) by {
        assert(one.drop_last() =~= Seq::<LoadTotals>::empty());
        assert(load_total(one.drop_last()) == LoadTotals::zero());
    }
}

/// The totals of a sequence of statistics do not depend on the order of the
/// statistics: two sequences that hold the same statistics, each as often as
/// the other, have the same totals.
pub proof fn lemma_load_total_any_order(a: Seq<LoadTotals>, b: Seq<LoadTotals>)
    requires
        a.to_multiset() == b.to_multiset(),
    ensures
        load_total(a) == load_total(b),
    decreases a.len(),
{
    a.to_multiset_ensures();
    b.to_multiset_ensures();
    if a.len() == 0 {
        assert(b.len() == 0);
    } else {
        let last = a.last();
        let init = a.drop_last();
        assert(a =~= init.push(last));
        init.to_multiset_ensures();
        assert(a.to_multiset() =~= init.to_multiset().insert(last));
        assert(a.to_multiset().count(last) > 0);
        assert(b.to_multiset().count(last) > 0);
        assert(b.contains(last));
        let k = choose|k: int| 0 <= k < b.len() && b[k] == last;
        let rest = b.remove(k);
        assert(rest.to_multiset() =~= b.to_multiset().remove(last));
        assert(init.to_multiset() =~= rest.to_multiset());
        lemma_load_total_any_order(init, rest);
        lemma_load_total_remove(b, k);
    }
}

} // verus!
