//! The first phase of a compaction: loading the files of the batch.
//!
//! All keys of a batch lie between its bounds, so they start with what the
//! two bounds have in common. That prefix is held once and shared by all
//! records; a record keeps only the rest of its key.

use crate::bytes::{common_prefix_len, first_difference, is_prefix, strip_prefix};
use crate::collector::Compaction;
use crate::errors::{Error, ErrorKind, Frame};
use crate::event::{decode, event_views, Event, EventView};
use crate::ext::{add_loads, load_view, CompactLogExt};
use crate::record::Record;
use crate::source::{load_totals, zstd_stream_output, Loaded};
use crate::statistic::{LoadStatistic, LoadTotals};
use std::sync::Arc;
use vstd::prelude::*;

verus! {

/// Whether `p` is what the two bounds have in common at their start.
pub open spec fn is_shared_prefix(p: Seq<u8>, min_key: Seq<u8>, max_key: Seq<u8>) -> bool {
    &&& first_difference(min_key, max_key, p.len() as int)
    &&& p == min_key.take(p.len() as int)
}

/// The prefix that the bounds of the batch share.
pub fn shared_prefix(c: &Compaction) -> (p: Arc<Vec<u8>>)
    ensures
        is_shared_prefix(p@, c.min_key@, c.max_key@),
{
    let n = common_prefix_len(c.min_key.as_slice(), c.max_key.as_slice());
    let mut p: Vec<u8> = Vec::new();
    let mut i: usize = 0;
    while i < n
        invariant
            i <= n <= c.min_key@.len(),
            p@ == c.min_key@.take(i as int),
        decreases n - i,
    {
        p.push(c.min_key[i]);
        assert(p@ =~= c.min_key@.take(i + 1));
        i += 1;
    }
    Arc::new(p)
}

/// Whether `r` is the event `e` with `prefix` split off its key.
pub open spec fn stripped(prefix: Seq<u8>, e: EventView, r: Record) -> bool {
    &&& r.prefix@ == prefix
    &&& r.full_key() == e.key
    &&& r.value@ == e.value
}

/// Whether `records` are the events `events`, one for one, each with
/// `prefix` split off its key.
pub open spec fn all_stripped(prefix: Seq<u8>, events: Seq<EventView>, records: Seq<Record>) -> bool {
    &&& records.len() == events.len()
    &&& forall|i: int| 0 <= i < events.len() ==> stripped(prefix, events[i], #[trigger] records[i])
}

/// Whether every key of `events` starts with `prefix`.
pub open spec fn all_under(prefix: Seq<u8>, events: Seq<EventView>) -> bool {
    forall|i: int| 0 <= i < events.len() ==> is_prefix(prefix, (#[trigger] events[i]).key)
}

/// Makes records of the events of one file. All of them share the buffer of
/// `prefix`. Gives `None` where a key does not start with `prefix`.
pub fn records_of(prefix: &Arc<Vec<u8>>, events: Vec<Event>) -> (r: Option<Vec<Record>>)
    ensures
        r is Some <==> all_under(prefix@, event_views(events@)),
        r matches Some(records) ==> all_stripped(prefix@, event_views(events@), records@),
{
    let mut records: Vec<Record> = Vec::new();
    let ghost all = events@;
    let ghost views = event_views(all);
    for event in it: events
        invariant
            it.seq() == all,
            views == event_views(all),
            all_under(prefix@, views.take(it.index() as int)),
            all_stripped(prefix@, views.take(it.index() as int), records@),
    {
        let ghost i = it.index() as int;
        let ghost done = records@;
        assert(views[i] == all[i]@);
        let Event { key, value } = event;
        match strip_prefix(key.as_slice(), prefix.as_slice()) {
            Some(rest) => {
                records.push(Record { prefix: Arc::clone(prefix), key: rest, value });
                proof {
                    let now = views.take(i + 1);
                    assert forall|j: int| 0 <= j < now.len() implies is_prefix(
                        prefix@,
                        (#[trigger] now[j]).key,
                    ) by {
                        if j < i {
                            assert(views.take(i)[j] == now[j]);
                        }
                    }
                    assert forall|j: int| 0 <= j < now.len() implies stripped(
                        prefix@,
                        now[j],
                        #[trigger] records@[j],
                    ) by {
                        if j < i {
                            assert(views.take(i)[j] == now[j]);
                            assert(records@[j] == done[j]);
                        }
                    }
                }
            },
            None => {
                return None;
            },
        }
    }
    assert(views.take(views.len() as int) =~= views);
    Some(records)
}

/// What loading one file comes to.
pub enum FileOutcome {
    /// The stored bytes do not decompress.
    Unreadable,
    /// What the stored bytes decompress to is malformed.
    Malformed,
    /// A key does not start with the batch's prefix.
    OutOfRange,
    /// The file's events.
    Events(Seq<EventView>),
}

/// What loading a file with the stored bytes `raw` comes to.
pub open spec fn file_outcome(prefix: Seq<u8>, raw: Seq<u8>) -> FileOutcome {
    match zstd_stream_output(raw) {
        None => FileOutcome::Unreadable,
        Some(content) => content_outcome(prefix, content),
    }
}

/// What loading a file with the decompressed content `content` comes to.
pub open spec fn content_outcome(prefix: Seq<u8>, content: Seq<u8>) -> FileOutcome {
    match decode(content) {
        None => FileOutcome::Malformed,
        Some(events) => if all_under(prefix, events) {
            FileOutcome::Events(events)
        } else {
            FileOutcome::OutOfRange
        },
    }
}

/// The kind of error that an outcome other than events is reported as.
pub open spec fn outcome_error(o: FileOutcome) -> ErrorKind {
    match o {
        FileOutcome::Unreadable => ErrorKind::Io,
        FileOutcome::Malformed => ErrorKind::Decode,
        _ => ErrorKind::KeyOutOfRange,
    }
}

/// The records of one file, and the counts of what was read for them.
#[derive(Debug)]
pub struct LoadedFile {
    pub records: Vec<Record>,
    pub stat: LoadStatistic,
}

/// Whether `r` is what the outcome `o` of loading a file of `physical_bytes`
/// stored bytes is reported as.
pub open spec fn reports(
    r: Result<LoadedFile, Error>,
    prefix: Seq<u8>,
    physical_bytes: nat,
    o: FileOutcome,
) -> bool {
    match r {
        Ok(file) => o matches FileOutcome::Events(events) && all_stripped(
            prefix,
            events,
            file.records@,
        ) && file.stat@ == load_totals(physical_bytes, events),
        Err(e) => !(o is Events) && e.kind == outcome_error(o),
    }
}

/// Makes records of what was loaded of one file.
pub fn strip_loaded(prefix: &Arc<Vec<u8>>, loaded: Result<Loaded, Error>) -> (r: Result<
    LoadedFile,
    Error,
>)
    ensures
        match loaded {
            Ok(l) => match r {
                Ok(file) => all_under(prefix@, event_views(l.events@)) && all_stripped(
                    prefix@,
                    event_views(l.events@),
                    file.records@,
                ) && file.stat == l.stat,
                Err(e) => !all_under(prefix@, event_views(l.events@)) && e.kind
                    == ErrorKind::KeyOutOfRange,
            },
            Err(cause) => r matches Err(e) && e == cause,
        },
{
    match loaded {
        Ok(Loaded { events, stat }) => match records_of(prefix, events) {
            Some(records) => Ok(LoadedFile { records, stat }),
            None => Err(
                Error::new(
                    ErrorKind::KeyOutOfRange,
                    String::from_str("a key lies outside the bounds of its batch"),
                ),
            ),
        },
        Err(e) => Err(e),
    }
}

/// Loads one file of a batch from its stored bytes.
pub fn load_file(prefix: &Arc<Vec<u8>>, raw: &[u8]) -> (r: Result<LoadedFile, Error>)
    ensures
        reports(r, prefix@, raw@.len(), file_outcome(prefix@, raw@)),
{
    strip_loaded(prefix, crate::source::load(raw))
}

/// Loads one file of a batch from its decompressed content, which was stored
/// in `physical_bytes` bytes.
pub fn load_file_content(prefix: &Arc<Vec<u8>>, content: &[u8], physical_bytes: u64) -> (r: Result<
    LoadedFile,
    Error,
>)
    ensures
        reports(r, prefix@, physical_bytes as nat, content_outcome(prefix@, content@)),
{
    strip_loaded(prefix, crate::source::load_content(content, physical_bytes))
}

/// The prefix that two bounds share: the start of `min_key` up to where the
/// two stop agreeing.
pub open spec fn prefix_of(min_key: Seq<u8>, max_key: Seq<u8>) -> Seq<u8> {
    min_key.take(choose|n: int| first_difference(min_key, max_key, n))
}

/// Two bounds share one prefix and no other.
pub proof fn lemma_shared_prefix_unique(p: Seq<u8>, min_key: Seq<u8>, max_key: Seq<u8>)
    requires
        is_shared_prefix(p, min_key, max_key),
    ensures
        p == prefix_of(min_key, max_key),
{
    let n = choose|n: int| first_difference(min_key, max_key, n);
    crate::bytes::lemma_first_difference_unique(min_key, max_key, n, p.len() as int);
}

/// What loading the file with the stored bytes `raw` counts; nothing where
/// the file does not load.
pub open spec fn file_totals(prefix: Seq<u8>, raw: Seq<u8>) -> LoadTotals {
    match file_outcome(prefix, raw) {
        FileOutcome::Events(events) => load_totals(raw.len(), events),
        _ => LoadTotals::zero(),
    }
}

/// What loading each of the files counts, file by file.
pub open spec fn all_file_totals(prefix: Seq<u8>, raws: Seq<Vec<u8>>) -> Seq<LoadTotals> {
    Seq::new(raws.len(), |i: int| file_totals(prefix, raws[i]@))
}

/// Whether the first `n` of the files load.
pub open spec fn all_load(prefix: Seq<u8>, raws: Seq<Vec<u8>>, n: int) -> bool {
    forall|i: int| 0 <= i < n ==> #[trigger] file_outcome(prefix, raws[i]@) is Events
}

/// Whether `records` are the records of the file with the stored bytes
/// `raw`.
pub open spec fn file_gives(prefix: Seq<u8>, raw: Seq<u8>, records: Seq<Record>) -> bool {
    file_outcome(prefix, raw) matches FileOutcome::Events(events) && all_stripped(
        prefix,
        events,
        records,
    )
}

/// Whether `lists` hold the records of the files, list by list.
pub open spec fn lists_of(prefix: Seq<u8>, raws: Seq<Vec<u8>>, lists: Seq<Vec<Record>>) -> bool {
    &&& lists.len() == raws.len()
    &&& forall|i: int| 0 <= i < raws.len() ==> file_gives(prefix, raws[i]@, (#[trigger] lists[i])@)
}

/// Whether a load of the files fails with an error of kind `kind`: whether
/// that is what the first file that does not load is reported as.
pub open spec fn fails_with(prefix: Seq<u8>, raws: Seq<Vec<u8>>, kind: ErrorKind) -> bool {
    exists|i: int|
        0 <= i < raws.len() && all_load(prefix, raws, i) && !(#[trigger] file_outcome(
            prefix,
            raws[i]@,
        ) is Events) && kind == outcome_error(file_outcome(prefix, raws[i]@))
}

/// Loads the files of the batch `c`. `raws` holds the stored bytes of the
/// files, one entry for each source of `c`, in their order.
///
/// Where every file loads, the result holds the records of each file, and
/// what was read is added to the load statistic, file by file. Where a file
/// does not load, the first such file's error is returned, nothing is
/// handed out, and the statistics stay as they were.
pub fn load(c: &Compaction, raws: &Vec<Vec<u8>>, ext: &mut CompactLogExt) -> (r: Result<
    Vec<Vec<Record>>,
    Error,
>)
    ensures
        final(ext).max_load_concurrency == old(ext).max_load_concurrency,
        crate::ext::compact_view(final(ext).compact_statistic) == crate::ext::compact_view(
            old(ext).compact_statistic,
        ),
        match r {
            Ok(lists) => {
                &&& lists_of(prefix_of(c.min_key@, c.max_key@), raws@, lists@)
                &&& load_view(final(ext).load_statistic) == add_loads(
                    load_view(old(ext).load_statistic),
                    all_file_totals(prefix_of(c.min_key@, c.max_key@), raws@),
                )
            },
            Err(e) => {
                &&& fails_with(prefix_of(c.min_key@, c.max_key@), raws@, e.kind)
                &&& load_view(final(ext).load_statistic) == load_view(old(ext).load_statistic)
            },
        },
{
    let prefix = shared_prefix(c);
    let ghost p = prefix_of(c.min_key@, c.max_key@);
    proof {
        lemma_shared_prefix_unique(prefix@, c.min_key@, c.max_key@);
    }
    let mut lists: Vec<Vec<Record>> = Vec::new();
    let mut stats: Vec<LoadStatistic> = Vec::new();
    let mut i: usize = 0;
    while i < raws.len()
        invariant
            i <= raws@.len(),
            prefix@ == p,
            p == prefix_of(c.min_key@, c.max_key@),
            *ext == *old(ext),
            lists@.len() == i,
            stats@.len() == i,
            all_load(p, raws@, i as int),
            forall|j: int| 0 <= j < i ==> file_gives(p, raws@[j]@, (#[trigger] lists@[j])@),
            forall|j: int| 0 <= j < i ==> (#[trigger] stats@[j])@ == file_totals(p, raws@[j]@),
        decreases raws@.len() - i,
    {
        match load_file(&prefix, raws[i].as_slice()) {
            Ok(LoadedFile { records, stat }) => {
                lists.push(records);
                stats.push(stat);
            },
            Err(e) => {
                proof {
                    let o = file_outcome(p, raws@[i as int]@);
                    assert(!(o is Events) && e.kind == outcome_error(o));
                    assert(fails_with(p, raws@, e.kind));
                }
                return Err(e);
            },
        }
        i += 1;
    }
    let ghost totals = all_file_totals(p, raws@);
    let ghost start = load_view(ext.load_statistic);
    let mut k: usize = 0;
    while k < stats.len()
        invariant
            k <= stats@.len(),
            stats@.len() == raws@.len(),
            totals == all_file_totals(p, raws@),
            forall|j: int| 0 <= j < stats@.len() ==> (#[trigger] stats@[j])@ == file_totals(p, raws@[j]@),
            load_view(ext.load_statistic) == add_loads(start, totals.take(k as int)),
            ext.max_load_concurrency == old(ext).max_load_concurrency,
            crate::ext::compact_view(ext.compact_statistic) == crate::ext::compact_view(
                old(ext).compact_statistic,
            ),
        decreases stats@.len() - k,
    {
        proof {
            assert(totals.take(k + 1).drop_last() =~= totals.take(k as int));
            assert(totals.take(k + 1).last() == stats@[k as int]@);
        }
        ext.with_load_stat(&stats[k]);
        k += 1;
    }
    assert(totals.take(k as int) =~= totals);
    Ok(lists)
}

} // verus!
