//! What holds of every run of the collector.
//!
//! A run is a sequence of arriving files, taken in by an empty collector one
//! after the other. The statements below are about the batches that such a
//! run finishes and about those that it leaves open.

use crate::bytes::{lemma_lex_le_transitive, lemma_lex_trichotomy, lex_le};
use crate::collector::{absorb, flushes, key_of, seed, step, Batch, CollectKey, Compaction};
use crate::storage::{FileView, LogFileId};
use vstd::prelude::*;

verus! {

/// Where a run stands: the batches still open, and the finished batches in the
/// order in which they were finished.
pub struct Run {
    pub open: Map<CollectKey, Batch>,
    pub emitted: Seq<Batch>,
}

/// Where an empty collector stands after taking in `files` one by one.
pub open spec fn run(threshold: u64, files: Seq<FileView>) -> Run
    decreases files.len(),
{
    if files.len() == 0 {
        Run { open: Map::empty(), emitted: Seq::empty() }
    } else {
        let before = run(threshold, files.drop_last());
        let (open, finished) = step(before.open, threshold, files.last());
        Run {
            open,
            emitted: match finished {
                Some(b) => before.emitted.push(b),
                None => before.emitted,
            },
        }
    }
}

/// The ids of the files among `files` that belong to `k`, in their order.
pub open spec fn ids_of(files: Seq<FileView>, k: CollectKey) -> Seq<LogFileId>
    decreases files.len(),
{
    if files.len() == 0 {
        Seq::empty()
    } else if key_of(files.last()) == k {
        ids_of(files.drop_last(), k).push(files.last().id)
    } else {
        ids_of(files.drop_last(), k)
    }
}

/// The files among `files` that belong to `k`, in their order.
pub open spec fn only(files: Seq<FileView>, k: CollectKey) -> Seq<FileView>
    decreases files.len(),
{
    if files.len() == 0 {
        Seq::empty()
    } else if key_of(files.last()) == k {
        only(files.drop_last(), k).push(files.last())
    } else {
        only(files.drop_last(), k)
    }
}

/// The batches among `batches` that belong to `k`, in their order.
pub open spec fn batches_of(batches: Seq<Batch>, k: CollectKey) -> Seq<Batch>
    decreases batches.len(),
{
    if batches.len() == 0 {
        Seq::empty()
    } else if batches.last().key() == k {
        batches_of(batches.drop_last(), k).push(batches.last())
    } else {
        batches_of(batches.drop_last(), k)
    }
}

/// The source ids of the batches among `batches` that belong to `k`, one
/// batch after the other.
pub open spec fn sources_of(batches: Seq<Batch>, k: CollectKey) -> Seq<LogFileId>
    decreases batches.len(),
{
    if batches.len() == 0 {
        Seq::empty()
    } else if batches.last().key() == k {
        sources_of(batches.drop_last(), k) + batches.last().source
    } else {
        sources_of(batches.drop_last(), k)
    }
}

/// The source ids of the open batch of `k`, if there is one.
pub open spec fn open_source(open: Map<CollectKey, Batch>, k: CollectKey) -> Seq<LogFileId> {
    if open.dom().contains(k) {
        open[k].source
    } else {
        Seq::empty()
    }
}

/// Whether every batch of `open` is filed under its own pair.
pub open spec fn filed_by_key(open: Map<CollectKey, Batch>) -> bool {
    forall|k: CollectKey| open.dom().contains(k) ==> (#[trigger] open[k]).key() == k
}

/// The batches as plain values.
pub open spec fn views(batches: Seq<Compaction>) -> Seq<Batch> {
    Seq::new(batches.len(), |i: int| batches[i]@)
}

/// The sum of the sizes of `files`.
pub open spec fn total_size(files: Seq<FileView>) -> nat
    decreases files.len(),
{
    if files.len() == 0 {
        0
    } else {
        total_size(files.drop_last()) + files.last().real_size
    }
}

/// The batch that the files `files` make, taken in their order.
pub open spec fn batch_of(files: Seq<FileView>) -> Batch
    recommends
        files.len() > 0,
    decreases files.len(),
{
    if files.len() <= 1 {
        seed(files[0])
    } else {
        absorb(batch_of(files.drop_last()), files.last())
    }
}

/// Taking in a file keeps every open batch filed under its own pair, and a
/// batch that is finished belongs to the pair of the file that finished it.
pub proof fn lemma_step_keeps_filing(open: Map<CollectKey, Batch>, threshold: u64, f: FileView)
    requires
        filed_by_key(open),
    ensures
        filed_by_key(step(open, threshold, f).0),
        step(open, threshold, f).1 matches Some(b) ==> b.key() == key_of(f),
{
    let k = key_of(f);
    let after = step(open, threshold, f).0;
    assert forall|q: CollectKey| after.dom().contains(q) implies (#[trigger] after[q]).key()
        == q by {
        if q != k {
            assert(open[q].key() == q);
        } else if open.dom().contains(k) {
            assert(open[k].key() == k);
        }
    }
    if open.dom().contains(k) {
        assert(open[k].key() == k);
    }
}

/// In every run, each open batch is filed under its own pair.
pub proof fn lemma_run_filed_by_key(threshold: u64, files: Seq<FileView>)
    ensures
        filed_by_key(run(threshold, files).open),
    decreases files.len(),
{
    if files.len() > 0 {
        lemma_run_filed_by_key(threshold, files.drop_last());
        lemma_step_keeps_filing(run(threshold, files.drop_last()).open, threshold, files.last());
    }
}

/// No file is lost and none is taken twice: for every pair, the sources of the
/// finished batches of that pair, followed by the sources of its open batch,
/// are the ids of the arrived files of that pair, in the order of arrival.
pub proof fn lemma_run_keeps_every_file(threshold: u64, files: Seq<FileView>, k: CollectKey)
    ensures
        sources_of(run(threshold, files).emitted, k) + open_source(run(threshold, files).open, k)
            == ids_of(files, k),
    decreases files.len(),
{
    if files.len() == 0 {
        assert(Seq::<LogFileId>::empty() + Seq::<LogFileId>::empty() =~= Seq::<LogFileId>::empty());
    } else {
        let before = run(threshold, files.drop_last());
        let after = run(threshold, files);
        let f = files.last();
        lemma_run_keeps_every_file(threshold, files.drop_last(), k);
        lemma_run_filed_by_key(threshold, files.drop_last());
        lemma_step_keeps_filing(before.open, threshold, f);
        let (open, finished) = step(before.open, threshold, f);
        match finished {
            Some(b) => {
                assert(after.emitted.drop_last() =~= before.emitted);
                assert(after.emitted.last() == b);
            },
            None => {},
        }
        if key_of(f) == k {
            if before.open.dom().contains(k) {
                let b = absorb(before.open[k], f);
                if b.size > threshold {
                    assert(sources_of(before.emitted, k) + b.source + Seq::<LogFileId>::empty()
                        =~= (sources_of(before.emitted, k) + before.open[k].source).push(f.id));
                } else {
                    assert(sources_of(before.emitted, k) + b.source =~= (sources_of(
                        before.emitted,
                        k,
                    ) + before.open[k].source).push(f.id));
                }
            } else {
                assert(sources_of(before.emitted, k) + seq![f.id] =~= (sources_of(
                    before.emitted,
                    k,
                ) + Seq::<LogFileId>::empty()).push(f.id));
            }
        }
    }
}

/// Every source of a finished batch is the id of an arrived file of the
/// batch's own pair.
pub proof fn lemma_emitted_sources_are_arrived(
    threshold: u64,
    files: Seq<FileView>,
    i: int,
    j: int,
)
    requires
        0 <= i < run(threshold, files).emitted.len(),
        0 <= j < run(threshold, files).emitted[i].source.len(),
    ensures
        ids_of(files, run(threshold, files).emitted[i].key()).contains(
            run(threshold, files).emitted[i].source[j],
        ),
{
    let emitted = run(threshold, files).emitted;
    let k = emitted[i].key();
    lemma_run_keeps_every_file(threshold, files, k);
    lemma_sources_of_holds(emitted, i);
    let all = sources_of(emitted, k);
    let id = emitted[i].source[j];
    let at = choose|at: int| 0 <= at < all.len() && all[at] == id;
    assert((all + open_source(run(threshold, files).open, k))[at] == id);
}

/// The sources of the batches of a pair hold every source of each of them.
pub proof fn lemma_sources_of_holds(batches: Seq<Batch>, i: int)
    requires
        0 <= i < batches.len(),
    ensures
        forall|j: int|
            0 <= j < batches[i].source.len() ==> sources_of(batches, batches[i].key()).contains(
                #[trigger] batches[i].source[j],
            ),
    decreases batches.len(),
{
    let k = batches[i].key();
    let rest = sources_of(batches.drop_last(), k);
    if i == batches.len() - 1 {
        assert forall|j: int| 0 <= j < batches[i].source.len() implies sources_of(
            batches,
            k,
        ).contains(#[trigger] batches[i].source[j]) by {
            assert((rest + batches[i].source)[rest.len() + j] == batches[i].source[j]);
        }
    } else {
        lemma_sources_of_holds(batches.drop_last(), i);
        assert forall|j: int| 0 <= j < batches[i].source.len() implies sources_of(
            batches,
            k,
        ).contains(#[trigger] batches[i].source[j]) by {
            let id = batches[i].source[j];
            assert(batches.drop_last()[i] == batches[i]);
            assert(sources_of(batches.drop_last(), k).contains(batches.drop_last()[i].source[j]));
            assert(rest.contains(id));
            let at = choose|at: int| 0 <= at < rest.len() && rest[at] == id;
            if batches.last().key() == k {
                assert((rest + batches.last().source)[at] == id);
            }
        }
    }
}

/// Closing the open batches hands out, for every pair, the sources of its open
/// batch.
pub proof fn lemma_flush_sources(open: Map<CollectKey, Batch>, taken: Seq<Compaction>, k: CollectKey)
    requires
        filed_by_key(open),
        flushes(open, taken),
    ensures
        sources_of(views(taken), k) == open_source(open, k),
{
    lemma_sources_of_distinct(views(taken), k);
    if open.dom().contains(k) {
        let j = choose|j: int| 0 <= j < taken.len() && (#[trigger] taken[j])@ == open[k];
        assert(views(taken)[j].key() == k);
    } else {
        assert forall|j: int| 0 <= j < views(taken).len() implies (#[trigger] views(
            taken,
        )[j]).key() != k by {
            assert(open.dom().contains(taken[j]@.key()));
        }
    }
}

/// Among batches of different pairs, the sources of a pair are those of its
/// one batch, or none.
proof fn lemma_sources_of_distinct(batches: Seq<Batch>, k: CollectKey)
    requires
        forall|i: int, j: int|
            0 <= i < j < batches.len() ==> (#[trigger] batches[i]).key() != (#[trigger] batches[j]).key(),
    ensures
        forall|j: int|
            0 <= j < batches.len() && (#[trigger] batches[j]).key() == k ==> sources_of(batches, k)
                == batches[j].source,
        (forall|j: int| 0 <= j < batches.len() ==> (#[trigger] batches[j]).key() != k)
            ==> sources_of(batches, k) == Seq::<LogFileId>::empty(),
    decreases batches.len(),
{
    if batches.len() > 0 {
        let head = batches.drop_last();
        lemma_sources_of_distinct(head, k);
        if batches.last().key() == k {
            assert forall|j: int| 0 <= j < head.len() implies (#[trigger] head[j]).key() != k by {
                assert(batches[j].key() != batches[batches.len() - 1].key());
            }
            assert(Seq::<LogFileId>::empty() + batches.last().source =~= batches.last().source);
        } else {
            assert forall|j: int| 0 <= j < batches.len() && (#[trigger] batches[j]).key()
                == k implies sources_of(batches, k) == batches[j].source by {
                assert(head[j].key() == k);
            }
            if forall|j: int| 0 <= j < batches.len() ==> (#[trigger] batches[j]).key() != k {
                assert forall|j: int| 0 <= j < head.len() implies (#[trigger] head[j]).key()
                    != k by {
                    assert(batches[j].key() != k);
                }
            }
        }
    }
}

/// After a run and the closing of what it left open, the sources of all
/// batches of a pair, finished and closed, are exactly the ids of the arrived
/// files of that pair, in the order of arrival.
pub proof fn lemma_full_run_keeps_every_file(
    threshold: u64,
    files: Seq<FileView>,
    taken: Seq<Compaction>,
    k: CollectKey,
)
    requires
        flushes(run(threshold, files).open, taken),
    ensures
        sources_of(run(threshold, files).emitted + views(taken), k) == ids_of(files, k),
{
    let r = run(threshold, files);
    lemma_run_filed_by_key(threshold, files);
    lemma_flush_sources(r.open, taken, k);
    lemma_run_keeps_every_file(threshold, files, k);
    lemma_sources_of_concat(r.emitted, views(taken), k);
}

/// The sources of two sequences of batches, one after the other.
pub proof fn lemma_sources_of_concat(a: Seq<Batch>, b: Seq<Batch>, k: CollectKey)
    ensures
        sources_of(a + b, k) == sources_of(a, k) + sources_of(b, k),
    decreases b.len(),
{
    if b.len() == 0 {
        assert(a + b =~= a);
        assert(sources_of(a, k) + Seq::<LogFileId>::empty() =~= sources_of(a, k));
    } else {
        lemma_sources_of_concat(a, b.drop_last(), k);
        assert((a + b).drop_last() =~= a + b.drop_last());
        assert((a + b).last() == b.last());
        if b.last().key() == k {
            assert(sources_of(a, k) + sources_of(b.drop_last(), k) + b.last().source =~= sources_of(
                a,
                k,
            ) + (sources_of(b.drop_last(), k) + b.last().source));
        }
    }
}

/// Whether all of `files` belong to `k`.
pub open spec fn all_of(files: Seq<FileView>, k: CollectKey) -> bool {
    forall|i: int| 0 <= i < files.len() ==> key_of(#[trigger] files[i]) == k
}

/// As long as the files of one pair together stay within the threshold, or
/// there is only one of them, they make one open batch and nothing is
/// finished.
pub proof fn lemma_accumulates_below_threshold(threshold: u64, files: Seq<FileView>, k: CollectKey)
    requires
        files.len() > 0,
        all_of(files, k),
        files.len() >= 2 ==> total_size(files) <= threshold,
    ensures
        run(threshold, files).open == Map::<CollectKey, Batch>::empty().insert(k, batch_of(files)),
        run(threshold, files).emitted == Seq::<Batch>::empty(),
        batch_of(files).size == total_size(files),
    decreases files.len(),
{
    let head = files.drop_last();
    let f = files.last();
    assert(key_of(f) == k);
    if files.len() == 1 {
        assert(head.len() == 0);
        assert(run(threshold, head).open =~= Map::<CollectKey, Batch>::empty());
        assert(total_size(head) == 0);
    } else {
        assert(all_of(head, k)) by {
            assert forall|i: int| 0 <= i < head.len() implies key_of(#[trigger] head[i]) == k by {
                assert(head[i] == files[i]);
            }
        }
        lemma_accumulates_below_threshold(threshold, head, k);
        let open = run(threshold, head).open;
        assert(open.dom().contains(k));
        assert(open.insert(k, batch_of(files)) =~= Map::<CollectKey, Batch>::empty().insert(
            k,
            batch_of(files),
        ));
    }
}

/// Where the files of one pair first exceed the threshold together with the
/// last of at least two, that file finishes one batch of them all, and the
/// pair is left without an open batch.
pub proof fn lemma_threshold_closes_batch(threshold: u64, files: Seq<FileView>, k: CollectKey)
    requires
        files.len() >= 2,
        all_of(files, k),
        files.len() >= 3 ==> total_size(files.drop_last()) <= threshold,
        total_size(files) > threshold,
    ensures
        run(threshold, files).emitted == seq![batch_of(files)],
        run(threshold, files).open == Map::<CollectKey, Batch>::empty(),
        batch_of(files).size == total_size(files),
        batch_of(files).source == ids_of(files, k),
{
    let head = files.drop_last();
    assert(all_of(head, k)) by {
        assert forall|i: int| 0 <= i < head.len() implies key_of(#[trigger] head[i]) == k by {
            assert(head[i] == files[i]);
        }
    }
    assert(key_of(files.last()) == k);
    lemma_accumulates_below_threshold(threshold, head, k);
    let open = run(threshold, head).open;
    assert(open.dom().contains(k));
    assert(open.remove(k) =~= Map::<CollectKey, Batch>::empty());
    assert(Seq::<Batch>::empty().push(batch_of(files)) =~= seq![batch_of(files)]);
    lemma_batch_of_source(files, k);
}

/// A batch made of files of one pair has their ids as its sources, in order.
pub proof fn lemma_batch_of_source(files: Seq<FileView>, k: CollectKey)
    requires
        files.len() > 0,
        all_of(files, k),
    ensures
        batch_of(files).source == ids_of(files, k),
        batch_of(files).key() == k,
    decreases files.len(),
{
    let head = files.drop_last();
    assert(key_of(files.last()) == k);
    if files.len() == 1 {
        assert(ids_of(head, k) =~= Seq::<LogFileId>::empty());
        assert(seq![files[0].id] =~= Seq::<LogFileId>::empty().push(files[0].id));
    } else {
        assert(all_of(head, k)) by {
            assert forall|i: int| 0 <= i < head.len() implies key_of(#[trigger] head[i]) == k by {
                assert(head[i] == files[i]);
            }
        }
        lemma_batch_of_source(head, k);
    }
}

/// After a batch was finished, the next file of its pair opens a new one that
/// holds that file alone.
pub proof fn lemma_fresh_batch_after_close(threshold: u64, files: Seq<FileView>, next: FileView)
    requires
        !run(threshold, files).open.dom().contains(key_of(next)),
    ensures
        run(threshold, files.push(next)).open[key_of(next)] == seed(next),
        run(threshold, files.push(next)).emitted == run(threshold, files).emitted,
{
    assert(files.push(next).drop_last() =~= files);
}

/// What other pairs' files arrive in between is without effect on a pair: its
/// finished batches and its open batch are those of a run of its own files
/// alone.
pub proof fn lemma_pairs_are_independent(threshold: u64, files: Seq<FileView>, k: CollectKey)
    ensures
        batches_of(run(threshold, files).emitted, k) == run(threshold, only(files, k)).emitted,
        run(threshold, files).open.dom().contains(k) <==> run(
            threshold,
            only(files, k),
        ).open.dom().contains(k),
        run(threshold, files).open.dom().contains(k) ==> run(threshold, files).open[k] == run(
            threshold,
            only(files, k),
        ).open[k],
        forall|q: CollectKey| q != k ==> !run(threshold, only(files, k)).open.dom().contains(q),
    decreases files.len(),
{
    if files.len() == 0 {
    } else {
        let head = files.drop_last();
        let f = files.last();
        lemma_pairs_are_independent(threshold, head, k);
        lemma_run_filed_by_key(threshold, head);
        lemma_step_keeps_filing(run(threshold, head).open, threshold, f);
        let before = run(threshold, head);
        let after = run(threshold, files);
        let (open, finished) = step(before.open, threshold, f);
        match finished {
            Some(b) => {
                assert(after.emitted.drop_last() =~= before.emitted);
                assert(after.emitted.last() == b);
            },
            None => {},
        }
        if key_of(f) == k {
            let mine = only(files, k);
            assert(mine.drop_last() =~= only(head, k));
            assert(mine.last() == f);
            let mine_before = run(threshold, only(head, k));
            let (mine_open, mine_finished) = step(mine_before.open, threshold, f);
            match mine_finished {
                Some(b) => {
                    assert(run(threshold, mine).emitted.drop_last() =~= mine_before.emitted);
                },
                None => {},
            }
        }
    }
}

/// The bounds of a batch cover the bounds of each of its files, and its size
/// is the sum of theirs.
pub proof fn lemma_batch_covers_files(files: Seq<FileView>, i: int)
    requires
        0 <= i < files.len(),
    ensures
        lex_le(batch_of(files).min_key, files[i].min_key),
        lex_le(files[i].max_key, batch_of(files).max_key),
        batch_of(files).min_ts <= files[i].min_ts,
        files[i].max_ts <= batch_of(files).max_ts,
        batch_of(files).size == total_size(files),
        batch_of(files).source.len() == files.len(),
        batch_of(files).source[i] == files[i].id,
    decreases files.len(),
{
    let head = files.drop_last();
    let f = files.last();
    if files.len() == 1 {
        assert(total_size(head) == 0);
    } else {
        let b = batch_of(head);
        lemma_batch_covers_files(head, 0);
        lemma_lex_trichotomy(b.min_key, f.min_key);
        lemma_lex_trichotomy(b.max_key, f.max_key);
        if i < head.len() {
            lemma_batch_covers_files(head, i);
            lemma_lex_le_transitive(batch_of(files).min_key, b.min_key, files[i].min_key);
            lemma_lex_le_transitive(files[i].max_key, b.max_key, batch_of(files).max_key);
        }
    }
}

/// Each bound of a batch is the bound of one of its files.
pub proof fn lemma_batch_bounds_are_attained(files: Seq<FileView>)
    requires
        files.len() > 0,
    ensures
        exists|i: int| 0 <= i < files.len() && batch_of(files).min_key == (#[trigger] files[i]).min_key,
        exists|i: int| 0 <= i < files.len() && batch_of(files).max_key == (#[trigger] files[i]).max_key,
        exists|i: int| 0 <= i < files.len() && batch_of(files).min_ts == (#[trigger] files[i]).min_ts,
        exists|i: int| 0 <= i < files.len() && batch_of(files).max_ts == (#[trigger] files[i]).max_ts,
    decreases files.len(),
{
    let head = files.drop_last();
    let last = files.len() - 1;
    if files.len() == 1 {
        assert(batch_of(files).min_key == files[0].min_key);
        assert(batch_of(files).max_key == files[0].max_key);
        assert(batch_of(files).min_ts == files[0].min_ts);
        assert(batch_of(files).max_ts == files[0].max_ts);
    } else {
        lemma_batch_bounds_are_attained(head);
        let b = batch_of(head);
        let a = choose|i: int| 0 <= i < head.len() && b.min_key == (#[trigger] head[i]).min_key;
        let c = choose|i: int| 0 <= i < head.len() && b.max_key == (#[trigger] head[i]).max_key;
        let d = choose|i: int| 0 <= i < head.len() && b.min_ts == (#[trigger] head[i]).min_ts;
        let e = choose|i: int| 0 <= i < head.len() && b.max_ts == (#[trigger] head[i]).max_ts;
        assert(files[a] == head[a] && files[c] == head[c] && files[d] == head[d] && files[e]
            == head[e]);
        if batch_of(files).min_key == b.min_key {
            assert(batch_of(files).min_key == files[a].min_key);
        } else {
            assert(batch_of(files).min_key == files[last].min_key);
        }
        if batch_of(files).max_key == b.max_key {
            assert(batch_of(files).max_key == files[c].max_key);
        } else {
            assert(batch_of(files).max_key == files[last].max_key);
        }
        if batch_of(files).min_ts == b.min_ts {
            assert(batch_of(files).min_ts == files[d].min_ts);
        } else {
            assert(batch_of(files).min_ts == files[last].min_ts);
        }
        if batch_of(files).max_ts == b.max_ts {
            assert(batch_of(files).max_ts == files[e].max_ts);
        } else {
            assert(batch_of(files).max_ts == files[last].max_ts);
        }
    }
}

} // verus!
