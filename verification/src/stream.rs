//! The collector as a stream operator.
//!
//! The operator stands between a stream of file descriptors and a stream of
//! batches. Whoever drives it first asks for a buffered batch; where there is
//! none to be had yet, it pulls the next item from upstream and hands it in.
//! The operator has three phases: collecting, while upstream yields files;
//! flushing, once upstream has ended and the batches that were left open are
//! handed out; and ended, when none is left. An error from upstream is handed
//! on at once and ends the operator.

use crate::collector::{
    flushes, step, Batch, CollectKey, Compaction, CompactionCollector, DEFAULT_SIZE_THRESHOLD,
};
use crate::errors::{Error, Frame};
use crate::storage::{FileView, LogFile};
use vstd::prelude::*;

verus! {

/// The state of the operator that turns files into batches.
pub struct CollectCompaction {
    last_compactions: Option<Vec<Compaction>>,
    collector: CompactionCollector,
}

impl CollectCompaction {
    /// Whether the operator's collector is in order.
    pub closed spec fn wf(&self) -> bool {
        self.collector.wf()
    }

    /// Whether upstream has not ended yet.
    pub closed spec fn collecting(&self) -> bool {
        self.last_compactions is None
    }

    /// While collecting: the batches that are open.
    pub closed spec fn open(&self) -> Map<CollectKey, Batch> {
        self.collector@
    }

    /// Once upstream has ended: the batches that are still to be handed out.
    /// The last of them is handed out first.
    pub closed spec fn buffered(&self) -> Seq<Compaction> {
        match self.last_compactions {
            Some(v) => v@,
            None => Seq::empty(),
        }
    }

    /// The size beyond which a batch is finished.
    pub closed spec fn threshold(&self) -> u64 {
        self.collector.threshold()
    }

    /// Whether `f` can be handed in: whether its size can be added to the
    /// batch that it would join.
    pub open spec fn fits(&self, f: FileView) -> bool {
        self.open().dom().contains(crate::collector::key_of(f)) ==> self.open()[crate::collector::key_of(
            f,
        )].size + f.real_size <= u64::MAX
    }

    /// An operator that has seen nothing yet, with the default threshold of
    /// 128 MiB.
    pub fn new() -> (s: CollectCompaction)
        ensures
            s.wf(),
            s.collecting(),
            s.open() == Map::<CollectKey, Batch>::empty(),
            s.threshold() == DEFAULT_SIZE_THRESHOLD,
    {
        CollectCompaction {
            last_compactions: None,
            collector: CompactionCollector::new(DEFAULT_SIZE_THRESHOLD),
        }
    }

    /// An operator that has seen nothing yet, with a threshold of one's own.
    pub fn with_threshold(threshold: u64) -> (s: CollectCompaction)
        ensures
            s.wf(),
            s.collecting(),
            s.open() == Map::<CollectKey, Batch>::empty(),
            s.threshold() == threshold,
    {
        CollectCompaction { last_compactions: None, collector: CompactionCollector::new(threshold) }
    }

    /// Whether the operator still wants items from upstream.
    pub fn is_collecting(&self) -> (c: bool)
        ensures
            c == self.collecting(),
    {
        self.last_compactions.is_none()
    }

    /// Whether `file` can be handed to `on_upstream`.
    pub fn accepts(&self, file: &LogFile) -> (ok: bool)
        requires
            self.wf(),
        ensures
            ok == self.fits(file@),
    {
        self.collector.accepts(file)
    }

    /// What the operator can yield without asking upstream. While collecting
    /// that is nothing (`None`). After upstream has ended it is the next of
    /// the batches that were left open, and the end of the stream
    /// (`Some(None)`) when all of them are out.
    pub fn next_buffered(&mut self) -> (out: Option<Option<Compaction>>)
        requires
            old(self).wf(),
        ensures
            final(self).wf(),
            final(self).threshold() == old(self).threshold(),
            final(self).collecting() == old(self).collecting(),
            final(self).open() == old(self).open(),
            old(self).collecting() ==> out is None && final(self).buffered() == old(self).buffered(),
            !old(self).collecting() && old(self).buffered().len() == 0 ==> out == Some(
                None::<Compaction>,
            ) && final(self).buffered() == old(self).buffered(),
            !old(self).collecting() && old(self).buffered().len() > 0 ==> out == Some(
                Some(old(self).buffered().last()),
            ) && final(self).buffered() == old(self).buffered().drop_last(),
    {
        match self.last_compactions.take() {
            None => None,
            Some(mut rest) => {
                let next = rest.pop();
                self.last_compactions = Some(rest);
                Some(next)
            },
        }
    }

    /// Takes what upstream yielded and says what to yield downstream, if
    /// anything.
    ///
    /// A file is handed to the collector; the batch that it finishes, if any,
    /// is yielded. The end of upstream closes all open batches and buffers
    /// them. An error is yielded with the collector's frame attached, and the
    /// operator ends: nothing is buffered, and what was open is given up.
    pub fn on_upstream(&mut self, item: Option<Result<LogFile, Error>>) -> (out: Option<
        Result<Compaction, Error>,
    >)
        requires
            old(self).wf(),
            old(self).collecting(),
            item matches Some(Ok(file)) ==> old(self).fits(file@),
        ensures
            final(self).wf(),
            final(self).threshold() == old(self).threshold(),
            match item {
                Some(Ok(file)) => {
                    &&& final(self).collecting()
                    &&& final(self).open() == step(old(self).open(), old(self).threshold(), file@).0
                    &&& match out {
                        Some(Ok(c)) => step(old(self).open(), old(self).threshold(), file@).1
                            == Some(c@),
                        Some(Err(_)) => false,
                        None => step(old(self).open(), old(self).threshold(), file@).1 is None,
                    }
                },
                Some(Err(e)) => {
                    &&& !final(self).collecting()
                    &&& final(self).buffered().len() == 0
                    &&& out matches Some(Err(handed))
                    &&& handed.kind == e.kind
                    &&& handed.message == e.message
                    &&& handed.frames@ == e.frames@.push(Frame::Collector)
                },
                None => {
                    &&& !final(self).collecting()
                    &&& flushes(old(self).open(), final(self).buffered())
                    &&& out is None
                },
            },
    {
        match item {
            None => {
                let rest = self.collector.take_pending_compactions();
                self.last_compactions = Some(rest);
                None
            },
            Some(Err(err)) => {
                self.last_compactions = Some(Vec::new());
                Some(Err(err.attach_frame(Frame::Collector)))
            },
            Some(Ok(file)) => {
                match self.collector.add_new_file(file) {
                    Some(c) => Some(Ok(c)),
                    None => None,
                }
            },
        }
    }
}

} // verus!
