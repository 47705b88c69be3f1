//! Grouping log files into batches.
//!
//! The collector keeps one accumulator for every pair of column family and
//! region that it has seen a file of. A file joins the accumulator of its
//! pair; an accumulator that has grown beyond the size threshold leaves the
//! collector as a finished batch.

use crate::bytes::{bytes_lt, lex_max, lex_min, str_eq};
use crate::storage::{FileView, LogFile, LogFileId};
use std::sync::Arc;
use vstd::prelude::*;

verus! {

/// The accumulated size beyond which a batch is finished: 128 MiB.
pub const DEFAULT_SIZE_THRESHOLD: u64 = 134217728;

/// What files are grouped by.
pub struct CollectKey {
    pub cf: Seq<char>,
    pub region_id: u64,
}

/// A batch of files of one column family and one region, as plain values.
pub struct Batch {
    pub source: Seq<LogFileId>,
    pub size: nat,
    pub region_id: u64,
    pub cf: Seq<char>,
    pub max_ts: u64,
    pub min_ts: u64,
    pub min_key: Seq<u8>,
    pub max_key: Seq<u8>,
}

impl Batch {
    /// The pair that the batch's files belong to.
    pub open spec fn key(self) -> CollectKey {
        CollectKey { cf: self.cf, region_id: self.region_id }
    }
}

/// The pair that a file belongs to.
pub open spec fn key_of(f: FileView) -> CollectKey {
    CollectKey { cf: f.cf, region_id: f.region_id }
}

/// The batch that holds `f` alone.
pub open spec fn seed(f: FileView) -> Batch {
    Batch {
        source: seq![f.id],
        size: f.real_size,
        region_id: f.region_id,
        cf: f.cf,
        max_ts: f.max_ts,
        min_ts: f.min_ts,
        min_key: f.min_key,
        max_key: f.max_key,
    }
}

/// The batch `b` with `f` added at the end: the sizes add up, and the bounds
/// on timestamps and keys widen to cover those of `f`.
pub open spec fn absorb(b: Batch, f: FileView) -> Batch {
    Batch {
        source: b.source.push(f.id),
        size: b.size + f.real_size,
        region_id: b.region_id,
        cf: b.cf,
        max_ts: if b.max_ts < f.max_ts { f.max_ts } else { b.max_ts },
        min_ts: if f.min_ts < b.min_ts { f.min_ts } else { b.min_ts },
        min_key: lex_min(b.min_key, f.min_key),
        max_key: lex_max(b.max_key, f.max_key),
    }
}

/// What the arrival of `f` does to the open batches `open`: the batches
/// afterwards, and the batch that is finished by it, if any.
pub open spec fn step(open: Map<CollectKey, Batch>, threshold: u64, f: FileView) -> (
    Map<CollectKey, Batch>,
    Option<Batch>,
) {
    let k = key_of(f);
    if open.dom().contains(k) {
        let b = absorb(open[k], f);
        if b.size > threshold {
            (open.remove(k), Some(b))
        } else {
            (open.insert(k, b), None)
        }
    } else {
        (open.insert(k, seed(f)), None)
    }
}

/// A finished batch: the files to merge into one table, with their total size
/// and the bounds of what they hold.
#[derive(Debug)]
pub struct Compaction {
    pub source: Vec<LogFileId>,
    pub size: u64,
    pub region_id: u64,
    pub cf: &'static str,
    pub max_ts: u64,
    pub min_ts: u64,
    pub min_key: Arc<Vec<u8>>,
    pub max_key: Arc<Vec<u8>>,
}

impl View for Compaction {
    type V = Batch;

    open spec fn view(&self) -> Batch {
        Batch {
            source: self.source@,
            size: self.size as nat,
            region_id: self.region_id,
            cf: self.cf@,
            max_ts: self.max_ts,
            min_ts: self.min_ts,
            min_key: self.min_key@,
            max_key: self.max_key@,
        }
    }
}

/// The pair of column family and region that files are grouped by.
#[derive(Debug, Clone, Copy)]
pub struct CompactionCollectKey {
    pub cf: &'static str,
    pub region_id: u64,
}

impl View for CompactionCollectKey {
    type V = CollectKey;

    open spec fn view(&self) -> CollectKey {
        CollectKey { cf: self.cf@, region_id: self.region_id }
    }
}

/// A batch that is still growing.
#[derive(Debug)]
pub struct UnformedCompaction {
    pub size: u64,
    pub files: Vec<LogFileId>,
    pub min_ts: u64,
    pub max_ts: u64,
    pub min_key: Arc<Vec<u8>>,
    pub max_key: Arc<Vec<u8>>,
}

/// One accumulator of the collector.
#[derive(Debug)]
pub struct Accumulator {
    pub key: CompactionCollectKey,
    pub pending: UnformedCompaction,
}

impl Accumulator {
    /// The accumulator as a batch.
    pub open spec fn batch(self) -> Batch {
        Batch {
            source: self.pending.files@,
            size: self.pending.size as nat,
            region_id: self.key.region_id,
            cf: self.key.cf@,
            max_ts: self.pending.max_ts,
            min_ts: self.pending.min_ts,
            min_key: self.pending.min_key@,
            max_key: self.pending.max_key@,
        }
    }

    /// Turns the accumulator into a finished batch.
    pub fn finish(self) -> (c: Compaction)
        ensures
            c@ == self.batch(),
    {
        Compaction {
            source: self.pending.files,
            region_id: self.key.region_id,
            cf: self.key.cf,
            size: self.pending.size,
            min_ts: self.pending.min_ts,
            max_ts: self.pending.max_ts,
            min_key: self.pending.min_key,
            max_key: self.pending.max_key,
        }
    }
}

/// Whether one of `items` is the accumulator of `k`.
pub open spec fn holds(items: Seq<Accumulator>, k: CollectKey) -> bool {
    exists|i: int| 0 <= i < items.len() && #[trigger] items[i].key@ == k
}

/// The index in `items` of the accumulator of `k`.
pub open spec fn slot_of(items: Seq<Accumulator>, k: CollectKey) -> int {
    choose|i: int| 0 <= i < items.len() && #[trigger] items[i].key@ == k
}

/// Whether no two of `items` are accumulators of one pair.
pub open spec fn distinct_keys(items: Seq<Accumulator>) -> bool {
    forall|i: int, j: int|
        0 <= i < j < items.len() ==> #[trigger] items[i].key@ != #[trigger] items[j].key@
}

/// The open batches that `items` stand for.
pub open spec fn open_batches(items: Seq<Accumulator>) -> Map<CollectKey, Batch> {
    Map::new(|k: CollectKey| holds(items, k), |k: CollectKey| items[slot_of(items, k)].batch())
}

proof fn lemma_open_batches_at(items: Seq<Accumulator>, i: int)
    requires
        distinct_keys(items),
        0 <= i < items.len(),
    ensures
        open_batches(items).dom().contains(items[i].key@),
        open_batches(items)[items[i].key@] == items[i].batch(),
        slot_of(items, items[i].key@) == i,
{
    let k = items[i].key@;
    assert(holds(items, k));
    let j = slot_of(items, k);
    if j < i {
        assert(items[j].key@ != items[i].key@);
    } else if i < j {
        assert(items[i].key@ != items[j].key@);
    }
}

proof fn lemma_open_batches_remove(items: Seq<Accumulator>, i: int)
    requires
        distinct_keys(items),
        0 <= i < items.len(),
    ensures
        distinct_keys(items.remove(i)),
        !holds(items.remove(i), items[i].key@),
        open_batches(items.remove(i)) == open_batches(items).remove(items[i].key@),
{
    let rest = items.remove(i);
    let k = items[i].key@;
    assert forall|a: int, b: int| 0 <= a < b < rest.len() implies #[trigger] rest[a].key@
        != #[trigger] rest[b].key@ by {
        let a0 = if a < i { a } else { a + 1 };
        let b0 = if b < i { b } else { b + 1 };
        assert(items[a0].key@ != items[b0].key@);
    }
    if holds(rest, k) {
        let a = slot_of(rest, k);
        let a0 = if a < i { a } else { a + 1 };
        if a0 < i {
            assert(items[a0].key@ != items[i].key@);
        } else {
            assert(items[i].key@ != items[a0].key@);
        }
    }
    assert forall|q: CollectKey| #[trigger] holds(rest, q) <==> (holds(items, q) && q != k) by {
        if holds(rest, q) {
            let a = slot_of(rest, q);
            let a0 = if a < i { a } else { a + 1 };
            assert(items[a0].key@ == q);
        }
        if holds(items, q) && q != k {
            let a0 = slot_of(items, q);
            let a = if a0 < i { a0 } else { a0 - 1 };
            assert(rest[a].key@ == q);
        }
    }
    assert forall|q: CollectKey| holds(rest, q) implies #[trigger] open_batches(rest)[q]
        == open_batches(items)[q] by {
        let a = slot_of(rest, q);
        let a0 = if a < i { a } else { a + 1 };
        lemma_open_batches_at(items, a0);
    }
    assert(open_batches(rest) =~= open_batches(items).remove(k));
}

proof fn lemma_open_batches_push(items: Seq<Accumulator>, acc: Accumulator)
    requires
        distinct_keys(items),
        !holds(items, acc.key@),
    ensures
        distinct_keys(items.push(acc)),
        open_batches(items.push(acc)) == open_batches(items).insert(acc.key@, acc.batch()),
{
    let more = items.push(acc);
    let k = acc.key@;
    assert forall|a: int, b: int| 0 <= a < b < more.len() implies #[trigger] more[a].key@
        != #[trigger] more[b].key@ by {
        if b < items.len() {
            assert(items[a].key@ != items[b].key@);
        } else {
            assert(items[a].key@ != k);
        }
    }
    assert forall|q: CollectKey| #[trigger] holds(more, q) <==> (holds(items, q) || q == k) by {
        if holds(more, q) {
            let a = slot_of(more, q);
            if a < items.len() {
                assert(items[a].key@ == q);
            }
        }
        if holds(items, q) {
            let a = slot_of(items, q);
            assert(more[a].key@ == q);
        }
        if q == k {
            assert(more[items.len() as int].key@ == q);
        }
    }
    assert forall|q: CollectKey| holds(more, q) implies #[trigger] open_batches(more)[q]
        == open_batches(items).insert(k, acc.batch())[q] by {
        let a = slot_of(more, q);
        lemma_open_batches_at(more, a);
        if a < items.len() {
            lemma_open_batches_at(items, a);
        }
    }
    assert(open_batches(more) =~= open_batches(items).insert(k, acc.batch()));
}

/// Groups arriving log files by column family and region into batches.
pub struct CompactionCollector {
    items: Vec<Accumulator>,
    compaction_size_threshold: u64,
}

impl View for CompactionCollector {
    type V = Map<CollectKey, Batch>;

    /// The batches that are still growing.
    closed spec fn view(&self) -> Map<CollectKey, Batch> {
        open_batches(self.items@)
    }
}

impl CompactionCollector {
    /// Whether the collector holds at most one accumulator for each pair.
    pub closed spec fn wf(&self) -> bool {
        distinct_keys(self.items@)
    }

    /// The size beyond which a batch is finished.
    pub closed spec fn threshold(&self) -> u64 {
        self.compaction_size_threshold
    }

    /// Whether the size of `f` can be added to the batch it would join.
    pub open spec fn fits(&self, f: FileView) -> bool {
        self@.dom().contains(key_of(f)) ==> self@[key_of(f)].size + f.real_size <= u64::MAX
    }

    /// A collector with no open batch.
    pub fn new(compaction_size_threshold: u64) -> (c: CompactionCollector)
        ensures
            c.wf(),
            c@ == Map::<CollectKey, Batch>::empty(),
            c.threshold() == compaction_size_threshold,
    {
        let c = CompactionCollector { items: Vec::new(), compaction_size_threshold };
        assert(c@ =~= Map::<CollectKey, Batch>::empty());
        c
    }

    /// The size beyond which this collector finishes a batch.
    pub fn size_threshold(&self) -> (t: u64)
        ensures
            t == self.threshold(),
    {
        self.compaction_size_threshold
    }

    /// The number of batches that are still growing.
    pub fn pending_count(&self) -> (n: usize)
        requires
            self.wf(),
        ensures
            self@.dom().finite(),
            n == self@.dom().len(),
    {
        proof {
            lemma_open_batches_len(self.items@);
        }
        self.items.len()
    }

    fn find_slot(&self, cf: &'static str, region_id: u64) -> (slot: Option<usize>)
        requires
            self.wf(),
        ensures
            slot is Some <==> self@.dom().contains(CollectKey { cf: cf@, region_id }),
            slot matches Some(i) ==> i < self.items@.len() && self.items@[i as int].key@
                == (CollectKey { cf: cf@, region_id }),
    {
        let ghost k = CollectKey { cf: cf@, region_id };
        let mut i: usize = 0;
        while i < self.items.len()
            invariant
                i <= self.items@.len(),
                k == (CollectKey { cf: cf@, region_id }),
                forall|j: int| 0 <= j < i ==> (#[trigger] self.items@[j]).key@ != k,
            decreases self.items@.len() - i,
        {
            if self.items[i].key.region_id == region_id && str_eq(self.items[i].key.cf, cf) {
                assert(self.items@[i as int].key@ == k);
                return Some(i);
            }
            i += 1;
        }
        assert(!holds(self.items@, k));
        None
    }

    /// Whether `file` can be handed to `add_new_file`: whether its size can
    /// be added to the batch that it would join.
    pub fn accepts(&self, file: &LogFile) -> (ok: bool)
        requires
            self.wf(),
        ensures
            ok == self.fits(file@),
    {
        match self.find_slot(file.cf, file.region_id) {
            Some(i) => {
                proof {
                    lemma_open_batches_at(self.items@, i as int);
                }
                file.real_size <= u64::MAX - self.items[i].pending.size
            },
            None => true,
        }
    }

    /// Takes in one file. The file joins the open batch of its column family
    /// and region, or opens one. A batch that has thereby grown beyond the
    /// threshold is closed and returned.
    pub fn add_new_file(&mut self, file: LogFile) -> (finished: Option<Compaction>)
        requires
            old(self).wf(),
            old(self).fits(file@),
        ensures
            final(self).wf(),
            final(self).threshold() == old(self).threshold(),
            final(self)@ == step(old(self)@, old(self).threshold(), file@).0,
            match finished {
                Some(c) => step(old(self)@, old(self).threshold(), file@).1 == Some(c@),
                None => step(old(self)@, old(self).threshold(), file@).1 is None,
            },
    {
        let ghost f = file@;
        let ghost before = self.items@;
        let LogFile { id, real_size, region_id, cf, min_ts, max_ts, min_key, max_key } = file;
        match self.find_slot(cf, region_id) {
            Some(i) => {
                proof {
                    lemma_open_batches_at(before, i as int);
                    lemma_open_batches_remove(before, i as int);
                }
                let mut acc = self.items.remove(i);
                let ghost was = acc.batch();
                acc.pending.files.push(id);
                acc.pending.size += real_size;
                if min_ts < acc.pending.min_ts {
                    acc.pending.min_ts = min_ts;
                }
                if acc.pending.max_ts < max_ts {
                    acc.pending.max_ts = max_ts;
                }
                if bytes_lt(acc.pending.max_key.as_slice(), max_key.as_slice()) {
                    acc.pending.max_key = max_key;
                }
                if bytes_lt(min_key.as_slice(), acc.pending.min_key.as_slice()) {
                    acc.pending.min_key = min_key;
                }
                assert(acc.batch() == absorb(was, f));
                if acc.pending.size > self.compaction_size_threshold {
                    return Some(acc.finish());
                }
                proof {
                    lemma_open_batches_push(self.items@, acc);
                    assert(open_batches(before).remove(acc.key@).insert(acc.key@, acc.batch())
                        =~= open_batches(before).insert(acc.key@, acc.batch()));
                }
                self.items.push(acc);
            },
            None => {
                let mut files: Vec<LogFileId> = Vec::new();
                files.push(id);
                let acc = Accumulator {
                    key: CompactionCollectKey { cf, region_id },
                    pending: UnformedCompaction {
                        size: real_size,
                        files,
                        min_ts,
                        max_ts,
                        min_key,
                        max_key,
                    },
                };
                proof {
                    assert(acc.pending.files@ =~= seq![f.id]);
                    assert(acc.batch() == seed(f));
                    lemma_open_batches_push(before, acc);
                }
                self.items.push(acc);
            },
        }
        None
    }

    /// Closes every open batch and hands them out, in no particular order.
    pub fn take_pending_compactions(&mut self) -> (taken: Vec<Compaction>)
        requires
            old(self).wf(),
        ensures
            final(self).wf(),
            final(self).threshold() == old(self).threshold(),
            final(self)@ == Map::<CollectKey, Batch>::empty(),
            flushes(old(self)@, taken@),
    {
        let ghost orig = self.items@;
        let mut taken: Vec<Compaction> = Vec::new();
        while self.items.len() > 0
            invariant
                distinct_keys(orig),
                self.items@.len() + taken@.len() == orig.len(),
                self.items@ == orig.take(self.items@.len() as int),
                self.compaction_size_threshold == old(self).compaction_size_threshold,
                forall|j: int|
                    0 <= j < taken@.len() ==> (#[trigger] taken@[j])@ == orig[orig.len() - 1
                        - j].batch(),
            decreases self.items@.len(),
        {
            let ghost n = self.items@.len();
            let acc = self.items.pop().unwrap();
            assert(acc == orig[n - 1]);
            assert(self.items@ =~= orig.take(n - 1));
            taken.push(acc.finish());
        }
        proof {
            assert(self.items@ =~= Seq::<Accumulator>::empty());
            assert(self@ =~= Map::<CollectKey, Batch>::empty());
            let open = open_batches(orig);
            let len = orig.len() as int;
            assert forall|j: int| 0 <= j < taken@.len() implies open.dom().contains(
                (#[trigger] taken@[j])@.key(),
            ) && open[taken@[j]@.key()] == taken@[j]@ by {
                lemma_open_batches_at(orig, len - 1 - j);
            }
            assert forall|k: CollectKey| open.dom().contains(k) implies exists|j: int|
                0 <= j < taken@.len() && (#[trigger] taken@[j])@ == open[k] by {
                let i = slot_of(orig, k);
                lemma_open_batches_at(orig, i);
                assert(taken@[len - 1 - i]@ == open[k]);
            }
            assert forall|i: int, j: int| 0 <= i < j < taken@.len() implies (
            #[trigger] taken@[i])@.key() != (#[trigger] taken@[j])@.key() by {
                assert(orig[len - 1 - j].key@ != orig[len - 1 - i].key@);
            }
        }
        taken
    }
}

/// Whether `taken` holds each batch of `open` once and nothing else.
pub open spec fn flushes(open: Map<CollectKey, Batch>, taken: Seq<Compaction>) -> bool {
    &&& forall|j: int|
        0 <= j < taken.len() ==> open.dom().contains((#[trigger] taken[j])@.key()) && open[taken[j]@.key()]
            == taken[j]@
    &&& forall|k: CollectKey|
        open.dom().contains(k) ==> exists|j: int|
            0 <= j < taken.len() && (#[trigger] taken[j])@ == open[k]
    &&& forall|i: int, j: int|
        0 <= i < j < taken.len() ==> (#[trigger] taken[i])@.key() != (#[trigger] taken[j])@.key()
}

proof fn lemma_open_batches_len(items: Seq<Accumulator>)
    requires
        distinct_keys(items),
    ensures
        open_batches(items).dom().finite(),
        open_batches(items).dom().len() == items.len(),
    decreases items.len(),
{
    if items.len() == 0 {
        assert(open_batches(items).dom() =~= Set::<CollectKey>::empty());
    } else {
        let i = items.len() - 1;
        lemma_open_batches_at(items, i);
        lemma_open_batches_remove(items, i);
        lemma_open_batches_len(items.remove(i));
        let d = open_batches(items).dom();
        let k = items[i].key@;
        assert(open_batches(items.remove(i)).dom() =~= d.remove(k));
        assert(d =~= d.remove(k).insert(k));
    }
}

} // verus!
