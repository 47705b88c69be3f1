//! The third phase of a compaction: writing the merged records into a table.
//!
//! The table itself is built by a writer that takes keys with their values
//! in increasing order of the keys. What is done here is to put each record's
//! key together again from the shared prefix and the record's own part, and
//! to hand the entries to the writer one by one.

use crate::errors::Error;
use crate::event::EventView;
use crate::ext::{add_compact, add_compacts, compact_view, load_view, CompactLogExt};
use crate::record::Record;
use crate::statistic::{CompactStatistic, CompactTotals};
use std::sync::Arc;
use vstd::prelude::*;

verus! {

/// What a writer reports of a finished table.
#[derive(Debug, Clone, Copy)]
pub struct SstInfo {
    pub num_entries: u64,
    pub file_size: u64,
}

/// A finished table: what the writer reports of it, and its bytes.
#[derive(Debug)]
pub struct FinishedTable {
    pub info: SstInfo,
    pub content: Vec<u8>,
}

/// A writer of one sorted table.
///
/// An implementation states what it has taken so far (`entries`) and what
/// reading a finished table's bytes with its own reader yields
/// (`table_entries`). A finished table must read back as what was put.
pub trait SstWriter: Sized {
    /// The entries taken so far, in the order in which they were put.
    spec fn entries(&self) -> Seq<EventView>;

    /// The entries that a finished table with the bytes `content` reads as.
    spec fn table_entries(content: Seq<u8>) -> Seq<EventView>;

    /// Takes one entry. An entry that is refused leaves the writer as it was.
    fn put(&mut self, key: &[u8], value: &[u8]) -> (r: Result<(), Error>)
        ensures
            r is Ok ==> final(self).entries() == old(self).entries().push(
                EventView { key: key@, value: value@ },
            ),
            r is Err ==> final(self).entries() == old(self).entries(),
    ;

    /// Builds the table of what was put.
    fn finish(self) -> (r: Result<FinishedTable, Error>)
        ensures
            r matches Ok(table) ==> Self::table_entries(table.content@) == self.entries(),
    ;
}

/// The table entry of a record: the whole key, and the value.
pub open spec fn entry_of(r: Record) -> EventView {
    EventView { key: r.full_key(), value: r.value@ }
}

/// The table entries of a run of records.
pub open spec fn entries_of(records: Seq<Record>) -> Seq<EventView> {
    Seq::new(records.len(), |i: int| entry_of(records[i]))
}

/// What writing one record counts: the bytes of its whole key and of its
/// value.
pub open spec fn record_totals(r: Record) -> CompactTotals {
    CompactTotals {
        keys_out: 0,
        physical_bytes_out: 0,
        logical_key_bytes_out: r.full_key().len(),
        logical_value_bytes_out: r.value@.len(),
        write_sst_duration: 0,
        load_duration: 0,
        sort_duration: 0,
        save_duration: 0,
    }
}

/// What writing each record of a run counts, record by record.
pub open spec fn records_totals(records: Seq<Record>) -> Seq<CompactTotals> {
    Seq::new(records.len(), |i: int| record_totals(records[i]))
}

/// What a finished table counts: its entries and its bytes.
pub open spec fn table_totals(info: SstInfo) -> CompactTotals {
    CompactTotals {
        keys_out: info.num_entries as nat,
        physical_bytes_out: info.file_size as nat,
        logical_key_bytes_out: 0,
        logical_value_bytes_out: 0,
        write_sst_duration: 0,
        load_duration: 0,
        sort_duration: 0,
        save_duration: 0,
    }
}

/// The buffer in which whole keys are put together. As long as the records
/// share one prefix buffer, the prefix is copied once and only what follows
/// it is replaced.
pub struct KeyBuffer {
    key_buf: Vec<u8>,
    last_prefix: Option<Arc<Vec<u8>>>,
}

impl KeyBuffer {
    /// The key that the buffer holds.
    pub closed spec fn bytes(&self) -> Seq<u8> {
        self.key_buf@
    }

    /// Whether the buffer starts with the prefix that it was last filled
    /// with.
    pub closed spec fn wf(&self) -> bool {
        self.last_prefix matches Some(p) ==> p@.len() <= self.key_buf@.len() && self.key_buf@.take(
            p@.len() as int,
        ) == p@
    }

    /// An empty buffer.
    pub fn new() -> (b: KeyBuffer)
        ensures
            b.wf(),
            b.bytes() == Seq::<u8>::empty(),
    {
        KeyBuffer { key_buf: Vec::new(), last_prefix: None }
    }

    /// Fills the buffer with `prefix` followed by `key`.
    pub fn set(&mut self, prefix: &Arc<Vec<u8>>, key: Vec<u8>)
        requires
            old(self).wf(),
        ensures
            final(self).wf(),
            final(self).bytes() == prefix@ + key@,
    {
        let mut key = key;
        let shared = match &self.last_prefix {
            Some(p) => crate::record::same_buffer(p, prefix),
            None => false,
        };
        if shared {
            self.key_buf.truncate(prefix.len());
        } else {
            self.last_prefix = Some(Arc::clone(prefix));
            self.key_buf = crate::bytes::copy_bytes(prefix.as_slice());
        }
        assert(self.key_buf@ =~= prefix@);
        self.key_buf.append(&mut key);
        assert(self.key_buf@.take(prefix@.len() as int) =~= prefix@);
    }

    /// Fills the buffer with the whole key of `item`, and hands out the
    /// item's value.
    pub fn load(&mut self, item: Record) -> (value: Vec<u8>)
        requires
            old(self).wf(),
        ensures
            final(self).wf(),
            final(self).bytes() == item.full_key(),
            value == item.value,
    {
        let Record { prefix, key, value } = item;
        self.set(&prefix, key);
        value
    }

    /// The key that the buffer holds.
    pub fn as_slice(&self) -> (s: &[u8])
        ensures
            s@ == self.bytes(),
    {
        self.key_buf.as_slice()
    }
}

/// What writing an entry with a key of `key_len` bytes and a value of
/// `value_len` bytes counts.
pub open spec fn entry_totals(key_len: nat, value_len: nat) -> CompactTotals {
    CompactTotals {
        keys_out: 0,
        physical_bytes_out: 0,
        logical_key_bytes_out: key_len,
        logical_value_bytes_out: value_len,
        write_sst_duration: 0,
        load_duration: 0,
        sort_duration: 0,
        save_duration: 0,
    }
}

/// The counts of one written entry.
pub fn entry_delta(key_len: usize, value_len: usize) -> (d: CompactStatistic)
    ensures
        d@ == entry_totals(key_len as nat, value_len as nat),
{
    CompactStatistic {
        keys_out: 0,
        physical_bytes_out: 0,
        logical_key_bytes_out: key_len as u64,
        logical_value_bytes_out: value_len as u64,
        write_sst_duration: 0,
        load_duration: 0,
        sort_duration: 0,
        save_duration: 0,
    }
}

/// Writes one record: puts its whole key together in `buf` and hands the
/// entry to the writer. What was written is added to the compaction
/// statistic. Where the writer refuses the entry, its error is returned and
/// nothing is counted.
pub fn write_record<W: SstWriter>(
    w: &mut W,
    buf: &mut KeyBuffer,
    item: Record,
    ext: &mut CompactLogExt,
) -> (r: Result<(), Error>)
    requires
        old(buf).wf(),
    ensures
        final(buf).wf(),
        final(buf).bytes() == item.full_key(),
        load_view(final(ext).load_statistic) == load_view(old(ext).load_statistic),
        final(ext).max_load_concurrency == old(ext).max_load_concurrency,
        match r {
            Ok(()) => {
                &&& final(w).entries() == old(w).entries().push(entry_of(item))
                &&& compact_view(final(ext).compact_statistic) == add_compact(
                    compact_view(old(ext).compact_statistic),
                    record_totals(item),
                )
            },
            Err(_) => {
                &&& final(w).entries() == old(w).entries()
                &&& compact_view(final(ext).compact_statistic) == compact_view(
                    old(ext).compact_statistic,
                )
            },
        },
{
    let value = buf.load(item);
    match w.put(buf.as_slice(), value.as_slice()) {
        Ok(()) => {
            let delta = entry_delta(buf.as_slice().len(), value.len());
            ext.with_compact_stat(&delta);
            Ok(())
        },
        Err(e) => Err(e),
    }
}

/// Whether the writer and the statistic stand as after the first `n` of
/// `items` were written.
pub open spec fn written_upto(
    before: Seq<EventView>,
    stat_before: Option<CompactTotals>,
    items: Seq<Record>,
    n: int,
    now: Seq<EventView>,
    stat_now: Option<CompactTotals>,
) -> bool {
    &&& 0 <= n <= items.len()
    &&& now == before + entries_of(items.take(n))
    &&& stat_now == add_compacts(stat_before, records_totals(items.take(n)))
}

/// Writes the records in their order. Where the writer refuses an entry, its
/// error is returned; the entries before it are written and counted.
pub fn write_records<W: SstWriter>(w: &mut W, sorted_items: Vec<Record>, ext: &mut CompactLogExt) -> (r:
    Result<(), Error>)
    ensures
        load_view(final(ext).load_statistic) == load_view(old(ext).load_statistic),
        final(ext).max_load_concurrency == old(ext).max_load_concurrency,
        match r {
            Ok(()) => written_upto(
                old(w).entries(),
                compact_view(old(ext).compact_statistic),
                sorted_items@,
                sorted_items@.len() as int,
                final(w).entries(),
                compact_view(final(ext).compact_statistic),
            ),
            Err(_) => exists|n: int|
                n < sorted_items@.len() && #[trigger] written_upto(
                    old(w).entries(),
                    compact_view(old(ext).compact_statistic),
                    sorted_items@,
                    n,
                    final(w).entries(),
                    compact_view(final(ext).compact_statistic),
                ),
        },
{
    let ghost items = sorted_items@;
    let ghost before = w.entries();
    let ghost stat_before = compact_view(ext.compact_statistic);
    let mut buf = KeyBuffer::new();
    proof {
        assert(items.take(0) =~= Seq::<Record>::empty());
        assert(before + entries_of(items.take(0)) =~= before);
        assert(records_totals(items.take(0)) =~= Seq::<CompactTotals>::empty());
    }
    for item in it: sorted_items
        invariant
            it.seq() == items,
            buf.wf(),
            load_view(ext.load_statistic) == load_view(old(ext).load_statistic),
            ext.max_load_concurrency == old(ext).max_load_concurrency,
            before == old(w).entries(),
            stat_before == compact_view(old(ext).compact_statistic),
            written_upto(
                before,
                stat_before,
                items,
                it.index() as int,
                w.entries(),
                compact_view(ext.compact_statistic),
            ),
    {
        let ghost n = it.index() as int;
        proof {
            assert(items.take(n + 1).drop_last() =~= items.take(n));
            assert(entries_of(items.take(n + 1)) =~= entries_of(items.take(n)).push(
                entry_of(items[n]),
            ));
            assert(before + entries_of(items.take(n + 1)) =~= (before + entries_of(
                items.take(n),
            )).push(entry_of(items[n])));
            assert(records_totals(items.take(n + 1)).drop_last() =~= records_totals(items.take(n)));
            assert(records_totals(items.take(n + 1)).last() == record_totals(items[n]));
        }
        match write_record(w, &mut buf, item, ext) {
            Ok(()) => {},
            Err(e) => {
                return Err(e);
            },
        }
    }
    Ok(())
}

/// The counts of a finished table.
pub fn table_delta(info: &SstInfo) -> (d: CompactStatistic)
    ensures
        d@ == table_totals(*info),
{
    CompactStatistic {
        keys_out: info.num_entries,
        physical_bytes_out: info.file_size,
        logical_key_bytes_out: 0,
        logical_value_bytes_out: 0,
        write_sst_duration: 0,
        load_duration: 0,
        sort_duration: 0,
        save_duration: 0,
    }
}

/// Writes the records into the writer and builds the table. The table reads
/// back as what the writer held before, followed by the entries of the
/// records. The bytes of the keys and values, and the entries and bytes of
/// the table, are added to the compaction statistic.
pub fn write_sst<W: SstWriter>(w: W, sorted_items: Vec<Record>, ext: &mut CompactLogExt) -> (r: Result<
    FinishedTable,
    Error,
>)
    ensures
        load_view(final(ext).load_statistic) == load_view(old(ext).load_statistic),
        final(ext).max_load_concurrency == old(ext).max_load_concurrency,
        r matches Ok(table) ==> {
            &&& W::table_entries(table.content@) == w.entries() + entries_of(sorted_items@)
            &&& compact_view(final(ext).compact_statistic) == add_compact(
                add_compacts(
                    compact_view(old(ext).compact_statistic),
                    records_totals(sorted_items@),
                ),
                table_totals(table.info),
            )
        },
        r is Err ==> exists|n: int|
            0 <= n <= sorted_items@.len() && compact_view(final(ext).compact_statistic)
                == #[trigger] add_compacts(
                compact_view(old(ext).compact_statistic),
                records_totals(sorted_items@.take(n)),
            ),
{
    let mut w = w;
    let ghost items = sorted_items@;
    let ghost stat_before = compact_view(ext.compact_statistic);
    let ghost held = w.entries();
    match write_records(&mut w, sorted_items, ext) {
        Ok(()) => {},
        Err(e) => {
            proof {
                let n = choose|n: int|
                    n < items.len() && #[trigger] written_upto(
                        held,
                        stat_before,
                        items,
                        n,
                        w.entries(),
                        compact_view(ext.compact_statistic),
                    );
                assert(compact_view(ext.compact_statistic) == add_compacts(
                    stat_before,
                    records_totals(items.take(n)),
                ));
            }
            return Err(e);
        },
    }
    assert(items.take(items.len() as int) =~= items);
    match w.finish() {
        Ok(table) => {
            let delta = table_delta(&table.info);
            ext.with_compact_stat(&delta);
            Ok(table)
        },
        Err(e) => Err(e),
    }
}

} // verus!
