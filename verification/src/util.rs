//! Helpers for long loops and for running many loads at once.

use vstd::prelude::*;

verus! {

/// The number of steps between two yields of the long loops of a compaction.
pub const DEFAULT_YIELD_EVERY: usize = 4096;

/// The number of files that are loaded at once unless told otherwise.
pub const DEFAULT_MAX_CONCURRENCY: usize = 16;

/// Counts the steps of a long loop and says when it is time to let other
/// work run.
pub struct Cooperate {
    work_count: usize,
    yield_every: usize,
}

impl Cooperate {
    /// The number of steps taken since the last yield.
    pub closed spec fn steps(&self) -> nat {
        self.work_count as nat
    }

    /// The number of steps from one yield to the next.
    pub closed spec fn period(&self) -> nat {
        self.yield_every as nat
    }

    /// Whether fewer steps were taken since the last yield than a period has.
    pub closed spec fn wf(&self) -> bool {
        self.work_count < self.yield_every || self.work_count == 0
    }

    /// A counter that asks for a yield at every `yield_every`-th step.
    pub fn new(yield_every: usize) -> (c: Cooperate)
        ensures
            c.wf(),
            c.steps() == 0,
            c.period() == yield_every,
    {
        Cooperate { work_count: 0, yield_every }
    }

    /// Counts one step, and says whether to yield now. The step that
    /// completes a period asks for the yield and starts the next period.
    pub fn step(&mut self) -> (yield_now: bool)
        requires
            old(self).wf(),
        ensures
            final(self).wf(),
            final(self).period() == old(self).period(),
            yield_now == (old(self).steps() + 1 >= old(self).period()),
            final(self).steps() == if yield_now { 0 } else { old(self).steps() + 1 },
    {
        if self.yield_every <= 1 || self.work_count >= self.yield_every - 1 {
            self.work_count = 0;
            true
        } else {
            self.work_count += 1;
            false
        }
    }
}

/// How many tasks may run at once.
#[derive(Debug, Clone, Copy)]
pub struct ExecuteAllExt {
    pub max_concurrency: usize,
}

impl Default for ExecuteAllExt {
    fn default() -> (e: ExecuteAllExt)
        ensures
            e.max_concurrency == DEFAULT_MAX_CONCURRENCY,
    {
        ExecuteAllExt { max_concurrency: DEFAULT_MAX_CONCURRENCY }
    }
}

impl ExecuteAllExt {
    /// The number of tasks that may run at once: the limit, but at least
    /// one.
    pub open spec fn width(self) -> usize {
        if self.max_concurrency == 0 {
            1
        } else {
            self.max_concurrency
        }
    }

    /// How many of `waiting` tasks may be started while `in_flight` tasks are
    /// running: as many as keep the number of running tasks within the limit.
    /// A limit of zero is taken as one, so that work goes on.
    pub fn permits(&self, in_flight: usize, waiting: usize) -> (n: usize)
        ensures
            n <= waiting,
            n > 0 ==> in_flight + n <= self.width(),
            n == if in_flight >= self.width() {
                0
            } else if waiting <= self.width() - in_flight {
                waiting as int
            } else {
                self.width() - in_flight
            },
    {
        let width = if self.max_concurrency == 0 {
            1
        } else {
            self.max_concurrency
        };
        if in_flight >= width {
            0
        } else if waiting <= width - in_flight {
            waiting
        } else {
            width - in_flight
        }
    }
}

} // verus!
