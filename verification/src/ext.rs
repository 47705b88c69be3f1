//! What a caller may ask of one compaction besides the table: statistics of
//! what was loaded and written, and a limit on concurrent loads.

use crate::statistic::{CompactStatistic, CompactTotals, LoadStatistic, LoadTotals};
use vstd::prelude::*;

verus! {

/// The extras of one compaction. A statistic that is `None` is not kept.
#[derive(Debug)]
pub struct CompactLogExt {
    pub load_statistic: Option<LoadStatistic>,
    pub compact_statistic: Option<CompactStatistic>,
    pub max_load_concurrency: usize,
}

impl Default for CompactLogExt {
    fn default() -> (ext: CompactLogExt)
        ensures
            ext.load_statistic is None,
            ext.compact_statistic is None,
            ext.max_load_concurrency == 0,
    {
        CompactLogExt { load_statistic: None, compact_statistic: None, max_load_concurrency: 0 }
    }
}

/// The load totals `stat` after `delta` was added, where they are kept and
/// every sum fits; `stat` otherwise.
pub open spec fn add_load(stat: Option<LoadTotals>, delta: LoadTotals) -> Option<LoadTotals> {
    match stat {
        Some(s) => if s.merge(delta).fits() {
            Some(s.merge(delta))
        } else {
            Some(s)
        },
        None => None,
    }
}

/// The compaction totals `stat` after `delta` was added, where they are kept
/// and every sum fits; `stat` otherwise.
pub open spec fn add_compact(stat: Option<CompactTotals>, delta: CompactTotals) -> Option<
    CompactTotals,
> {
    match stat {
        Some(s) => if s.merge(delta).fits() {
            Some(s.merge(delta))
        } else {
            Some(s)
        },
        None => None,
    }
}

/// The load totals `stat` after each of `deltas` was added in turn.
pub open spec fn add_loads(stat: Option<LoadTotals>, deltas: Seq<LoadTotals>) -> Option<LoadTotals>
    decreases deltas.len(),
{
    if deltas.len() == 0 {
        stat
    } else {
        add_load(add_loads(stat, deltas.drop_last()), deltas.last())
    }
}

/// The compaction totals `stat` after each of `deltas` was added in turn.
pub open spec fn add_compacts(stat: Option<CompactTotals>, deltas: Seq<CompactTotals>) -> Option<
    CompactTotals,
>
    decreases deltas.len(),
{
    if deltas.len() == 0 {
        stat
    } else {
        add_compact(add_compacts(stat, deltas.drop_last()), deltas.last())
    }
}

/// The totals of a statistic that may not be kept.
pub open spec fn load_view(stat: Option<LoadStatistic>) -> Option<LoadTotals> {
    match stat {
        Some(s) => Some(s@),
        None => None,
    }
}

/// The totals of a statistic that may not be kept.
pub open spec fn compact_view(stat: Option<CompactStatistic>) -> Option<CompactTotals> {
    match stat {
        Some(s) => Some(s@),
        None => None,
    }
}

impl CompactLogExt {
    /// Adds `delta` to the compaction statistic, where one is kept. Returns
    /// `false`, and adds nothing, where a sum would not fit.
    pub fn with_compact_stat(&mut self, delta: &CompactStatistic) -> (counted: bool)
        ensures
            compact_view(final(self).compact_statistic) == add_compact(
                compact_view(old(self).compact_statistic),
                delta@,
            ),
            load_view(final(self).load_statistic) == load_view(old(self).load_statistic),
            final(self).max_load_concurrency == old(self).max_load_concurrency,
            counted == (old(self).compact_statistic matches Some(s) ==> s@.merge(delta@).fits()),
    {
        match self.compact_statistic.take() {
            Some(mut stat) => {
                let counted = stat.try_merge_with(delta);
                self.compact_statistic = Some(stat);
                counted
            },
            None => true,
        }
    }

    /// Adds `delta` to the load statistic, where one is kept. Returns
    /// `false`, and adds nothing, where a sum would not fit.
    pub fn with_load_stat(&mut self, delta: &LoadStatistic) -> (counted: bool)
        ensures
            load_view(final(self).load_statistic) == add_load(
                load_view(old(self).load_statistic),
                delta@,
            ),
            compact_view(final(self).compact_statistic) == compact_view(
                old(self).compact_statistic,
            ),
            final(self).max_load_concurrency == old(self).max_load_concurrency,
            counted == (old(self).load_statistic matches Some(s) ==> s@.merge(delta@).fits()),
    {
        match self.load_statistic.take() {
            Some(mut stat) => {
                let counted = stat.try_merge_with(delta);
                self.load_statistic = Some(stat);
                counted
            },
            None => true,
        }
    }
}

} // verus!
