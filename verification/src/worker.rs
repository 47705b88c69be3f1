//! Compacting one batch: loading its files, merging their records, writing
//! the table, and naming what is to be stored.

use crate::collector::Compaction;
use crate::errors::{Error, Frame};
use crate::ext::{add_compact, add_compacts, add_loads, compact_view, load_view, CompactLogExt};
use crate::load::{
    all_file_totals, all_load, fails_with, file_gives, file_outcome, lists_of, load, prefix_of,
};
use crate::merge::{flatten, merge_and_sort, merged_from, merges_to};
use crate::bytes::lex_lt;
use crate::mem_table::keys_increase;
use crate::record::{lemma_key_lt_full_key, Record};
use crate::event::EventView;
use crate::statistic::CompactTotals;
use crate::table::{
    entries_of, records_totals, table_totals, write_sst, FinishedTable, SstInfo, SstWriter,
};
use crate::util::{DEFAULT_MAX_CONCURRENCY, DEFAULT_YIELD_EVERY};
use vstd::prelude::*;

verus! {

/// The character of a decimal digit.
pub open spec fn digit(d: nat) -> char {
    if d == 0 {
        '0'
    } else if d == 1 {
        '1'
    } else if d == 2 {
        '2'
    } else if d == 3 {
        '3'
    } else if d == 4 {
        '4'
    } else if d == 5 {
        '5'
    } else if d == 6 {
        '6'
    } else if d == 7 {
        '7'
    } else if d == 8 {
        '8'
    } else {
        '9'
    }
}

/// A number written in decimal, without leading zeros.
pub open spec fn decimal(n: nat) -> Seq<char>
    decreases n,
{
    if n < 10 {
        seq![digit(n)]
    } else {
        decimal(n / 10).push(digit(n % 10))
    }
}

/// The name under which the table of a batch is stored: the region and the
/// two bounds on the timestamps, in decimal, joined by hyphens.
pub open spec fn output_name_of(region_id: u64, min_ts: u64, max_ts: u64) -> Seq<char> {
    decimal(region_id as nat) + seq!['-'] + decimal(min_ts as nat) + seq!['-'] + decimal(
        max_ts as nat,
    ) + seq!['.', 's', 's', 't']
}

fn digit_str(d: u64) -> (s: &'static str)
    requires
        d < 10,
    ensures
        s@ == seq![digit(d as nat)],
{
    proof {
        reveal_strlit("0");
        reveal_strlit("1");
        reveal_strlit("2");
        reveal_strlit("3");
        reveal_strlit("4");
        reveal_strlit("5");
        reveal_strlit("6");
        reveal_strlit("7");
        reveal_strlit("8");
        reveal_strlit("9");
    }
    let s = if d == 0 {
        "0"
    } else if d == 1 {
        "1"
    } else if d == 2 {
        "2"
    } else if d == 3 {
        "3"
    } else if d == 4 {
        "4"
    } else if d == 5 {
        "5"
    } else if d == 6 {
        "6"
    } else if d == 7 {
        "7"
    } else if d == 8 {
        "8"
    } else {
        "9"
    };
    assert(s@ =~= seq![digit(d as nat)]);
    s
}

/// Appends `n` in decimal to `s`.
pub fn append_decimal(s: &mut String, n: u64)
    ensures
        final(s)@ == old(s)@ + decimal(n as nat),
    decreases n,
{
    if n >= 10 {
        append_decimal(s, n / 10);
    }
    let ghost before = s@;
    s.append(digit_str(n % 10));
    assert(s@ =~= old(s)@ + decimal(n as nat));
}

/// The name under which the table of a batch is stored.
pub fn output_name(region_id: u64, min_ts: u64, max_ts: u64) -> (name: String)
    ensures
        name@ == output_name_of(region_id, min_ts, max_ts),
{
    proof {
        reveal_strlit("");
        reveal_strlit("-");
        reveal_strlit(".sst");
    }
    let mut name = String::from_str("");
    append_decimal(&mut name, region_id);
    name.append("-");
    append_decimal(&mut name, min_ts);
    name.append("-");
    append_decimal(&mut name, max_ts);
    name.append(".sst");
    assert(name@ =~= output_name_of(region_id, min_ts, max_ts));
    name
}

/// What is to be stored at the end of a compaction: the table's bytes, what
/// the writer reports of the table, and the name to store it under.
#[derive(Debug)]
pub struct Output {
    pub name: String,
    pub info: SstInfo,
    pub content: Vec<u8>,
}

/// Whether a compaction of the files `raws` of a batch with the bounds
/// `min_key` and `max_key` has gone through `lists` and `merged`: the files
/// load as `lists`, these merge to `merged`, whose whole keys increase
/// strictly, the table holds what it held before and then the entries of
/// `merged`, and the statistic has counted the written records and the
/// table.
pub open spec fn compacted_through(
    lists: Seq<Vec<Record>>,
    merged: Seq<Record>,
    min_key: Seq<u8>,
    max_key: Seq<u8>,
    raws: Seq<Vec<u8>>,
    before: Seq<EventView>,
    table: Seq<EventView>,
    info: SstInfo,
    stat_before: Option<CompactTotals>,
    stat_after: Option<CompactTotals>,
) -> bool {
    &&& lists_of(prefix_of(min_key, max_key), raws, lists)
    &&& merges_to(flatten(lists), merged)
    &&& merged_from(flatten(lists), merged)
    &&& keys_increase(entries_of(merged))
    &&& table == before + entries_of(merged)
    &&& stat_after == add_compact(
        add_compacts(stat_before, records_totals(merged)),
        table_totals(info),
    )
}

/// Whether a compaction of the files `raws` of a batch with the bounds
/// `min_key` and `max_key` has been done: whether it has gone through some
/// lists of records and their merge.
pub open spec fn compacted(
    min_key: Seq<u8>,
    max_key: Seq<u8>,
    raws: Seq<Vec<u8>>,
    before: Seq<EventView>,
    table: Seq<EventView>,
    info: SstInfo,
    stat_before: Option<CompactTotals>,
    stat_after: Option<CompactTotals>,
) -> bool {
    exists|lists: Seq<Vec<Record>>, merged: Seq<Record>| #[trigger]
        compacted_through(
            lists,
            merged,
            min_key,
            max_key,
            raws,
            before,
            table,
            info,
            stat_before,
            stat_after,
        )
}

/// A record of some list is a record of the lists put together, and the
/// other way round.
pub proof fn lemma_flatten_holds(lists: Seq<Vec<Record>>, r: Record)
    ensures
        flatten(lists).contains(r) <==> exists|l: int|
            0 <= l < lists.len() && (#[trigger] lists[l])@.contains(r),
    decreases lists.len(),
{
    if lists.len() > 0 {
        let head = lists.drop_last();
        let last = lists.last()@;
        lemma_flatten_holds(head, r);
        let all = flatten(lists);
        if all.contains(r) {
            let at = choose|at: int| 0 <= at < all.len() && all[at] == r;
            if at < flatten(head).len() {
                assert(flatten(head)[at] == r);
                let l = choose|l: int| 0 <= l < head.len() && (#[trigger] head[l])@.contains(r);
                assert(lists[l]@.contains(r));
            } else {
                assert(last[at - flatten(head).len()] == r);
                assert(lists[lists.len() - 1]@.contains(r));
            }
        }
        if exists|l: int| 0 <= l < lists.len() && (#[trigger] lists[l])@.contains(r) {
            let l = choose|l: int| 0 <= l < lists.len() && (#[trigger] lists[l])@.contains(r);
            if l < head.len() {
                assert(head[l]@.contains(r));
                let at = choose|at: int| 0 <= at < flatten(head).len() && flatten(head)[at] == r;
                assert(all[at] == r);
            } else {
                let at = choose|at: int| 0 <= at < last.len() && last[at] == r;
                assert(all[flatten(head).len() + at] == r);
            }
        }
    }
}

/// The whole keys of the merged records of a batch increase strictly, and
/// every record carries the batch's prefix.
pub proof fn lemma_merged_keys_increase(
    prefix: Seq<u8>,
    raws: Seq<Vec<u8>>,
    lists: Seq<Vec<Record>>,
    merged: Seq<Record>,
)
    requires
        lists_of(prefix, raws, lists),
        merged_from(flatten(lists), merged),
    ensures
        forall|i: int| 0 <= i < merged.len() ==> (#[trigger] merged[i]).prefix@ == prefix,
        keys_increase(entries_of(merged)),
{
    assert forall|i: int| 0 <= i < merged.len() implies (#[trigger] merged[i]).prefix@
        == prefix by {
        let r = merged[i];
        assert(flatten(lists).contains(r));
        lemma_flatten_holds(lists, r);
        let l = choose|l: int| 0 <= l < lists.len() && (#[trigger] lists[l])@.contains(r);
        let j = choose|j: int| 0 <= j < lists[l]@.len() && lists[l]@[j] == r;
        assert(file_gives(prefix, raws[l]@, lists[l]@));
    }
    let entries = entries_of(merged);
    assert forall|i: int, j: int| 0 <= i < j < entries.len() implies lex_lt(
        (#[trigger] entries[i]).key,
        (#[trigger] entries[j]).key,
    ) by {
        assert(merged[i].key_lt(merged[j]));
        assert(merged[i].prefix@ == prefix && merged[j].prefix@ == prefix);
        lemma_key_lt_full_key(merged[i], merged[j]);
    }
}

/// Compacts batches.
#[derive(Debug)]
pub struct CompactWorker {
    pub max_load_concurrency: usize,
    pub yield_every: usize,
}

impl CompactWorker {
    /// A worker that loads up to 16 files at once and lets other work run
    /// every 4096 steps.
    pub fn new() -> (w: CompactWorker)
        ensures
            w.max_load_concurrency == DEFAULT_MAX_CONCURRENCY,
            w.yield_every == DEFAULT_YIELD_EVERY,
    {
        CompactWorker {
            max_load_concurrency: DEFAULT_MAX_CONCURRENCY,
            yield_every: DEFAULT_YIELD_EVERY,
        }
    }

    /// Compacts the batch `c`, of whose files `raws` holds the stored bytes
    /// in the order of `c.source`, into a table built by `w`.
    ///
    /// The files are loaded, their records merged and written. The result
    /// names the table and holds its bytes for storing. The first error of
    /// any phase ends the compaction, with the phase attached as a frame;
    /// nothing is handed out then. An error of the load phase is that of the
    /// first file that does not load, and leaves the statistics as they were.
    pub fn compact_ext<W: SstWriter>(
        &self,
        c: &Compaction,
        raws: &Vec<Vec<u8>>,
        w: W,
        ext: &mut CompactLogExt,
    ) -> (r: Result<Output, Error>)
        ensures
            final(ext).max_load_concurrency == old(ext).max_load_concurrency,
            match r {
                Ok(out) => {
                    &&& compacted(
                        c.min_key@,
                        c.max_key@,
                        raws@,
                        w.entries(),
                        W::table_entries(out.content@),
                        out.info,
                        compact_view(old(ext).compact_statistic),
                        compact_view(final(ext).compact_statistic),
                    )
                    &&& out.name@ == output_name_of(c.region_id, c.min_ts, c.max_ts)
                    &&& load_view(final(ext).load_statistic) == add_loads(
                        load_view(old(ext).load_statistic),
                        all_file_totals(prefix_of(c.min_key@, c.max_key@), raws@),
                    )
                },
                Err(e) => {
                    &&& e.frames@.len() > 0
                    &&& e.frames@.last() == Frame::Load || e.frames@.last() == Frame::WriteTable
                    &&& e.frames@.last() == Frame::Load ==> {
                        &&& fails_with(prefix_of(c.min_key@, c.max_key@), raws@, e.kind)
                        &&& load_view(final(ext).load_statistic) == load_view(
                            old(ext).load_statistic,
                        )
                        &&& compact_view(final(ext).compact_statistic) == compact_view(
                            old(ext).compact_statistic,
                        )
                    }
                    &&& e.frames@.last() == Frame::WriteTable ==> {
                        &&& all_load(prefix_of(c.min_key@, c.max_key@), raws@, raws@.len() as int)
                        &&& load_view(final(ext).load_statistic) == add_loads(
                            load_view(old(ext).load_statistic),
                            all_file_totals(prefix_of(c.min_key@, c.max_key@), raws@),
                        )
                    }
                },
            },
    {
        let lists = match load(c, raws, ext) {
            Ok(lists) => lists,
            Err(e) => {
                return Err(e.attach_frame(Frame::Load));
            },
        };
        let ghost loaded = lists@;
        let ghost stat_before = compact_view(ext.compact_statistic);
        let sorted_items = merge_and_sort(lists);
        let ghost merged = sorted_items@;
        let table = match write_sst(w, sorted_items, ext) {
            Ok(table) => table,
            Err(e) => {
                proof {
                    let p = prefix_of(c.min_key@, c.max_key@);
                    assert forall|i: int| 0 <= i < raws@.len() implies #[trigger] file_outcome(
                        p,
                        raws@[i]@,
                    ) is Events by {
                        assert(file_gives(p, raws@[i]@, loaded[i]@));
                    }
                }
                return Err(e.attach_frame(Frame::WriteTable));
            },
        };
        let name = output_name(c.region_id, c.min_ts, c.max_ts);
        let FinishedTable { info, content } = table;
        proof {
            lemma_merged_keys_increase(prefix_of(c.min_key@, c.max_key@), raws@, loaded, merged);
        }
        assert(compacted_through(
            loaded,
            merged,
            c.min_key@,
            c.max_key@,
            raws@,
            w.entries(),
            W::table_entries(content@),
            info,
            stat_before,
            compact_view(ext.compact_statistic),
        ));
        Ok(Output { name, info, content })
    }
}

} // verus!
