//! What a worker pool is made from, and what scheduling a task can come to.

use std::time::Duration;
use vstd::prelude::*;

verus! {

/// Why a task was not scheduled. The task is handed back.
#[derive(PartialEq)]
pub enum ScheduleError<T> {
    /// The worker has stopped.
    Stopped(T),
    /// As many tasks are pending as the worker takes.
    Full(T),
}

impl<T> ScheduleError<T> {
    /// The task that was not scheduled.
    pub open spec fn task(self) -> T {
        match self {
            ScheduleError::Stopped(t) => t,
            ScheduleError::Full(t) => t,
        }
    }

    /// Hands the task back.
    pub fn into_inner(self) -> (t: T)
        ensures
            t == self.task(),
    {
        match self {
            ScheduleError::Stopped(t) => t,
            ScheduleError::Full(t) => t,
        }
    }

    /// What the error says.
    pub fn message(&self) -> (msg: &'static str)
        ensures
            msg@ == (match *self {
                ScheduleError::Stopped(_) => "channel has been closed"@,
                ScheduleError::Full(_) => "channel is full"@,
            }),
    {
        match self {
            ScheduleError::Stopped(_) => "channel has been closed",
            ScheduleError::Full(_) => "channel is full",
        }
    }
}

/// Work that a worker does on the tasks that are scheduled for it.
pub trait Runnable: Send {
    type Task: Send + 'static;

    /// Runs a task.
    fn run(&mut self, task: Self::Task);

    /// Called between tasks.
    fn on_tick(&mut self) {
    }

    /// Called when the worker stops.
    fn shutdown(&mut self) {
    }
}

/// Work that is also called at intervals.
pub trait RunnableWithTimer: Runnable {
    /// Called when an interval has passed.
    fn on_timeout(&mut self);

    /// The interval until the next call of `on_timeout`.
    fn get_interval(&self) -> Duration;
}

/// Whether a task may be scheduled while `pending` tasks wait and the worker
/// takes `pending_capacity` of them: `Err` with the task where the worker is
/// full.
pub fn check_capacity<T>(task: T, pending: usize, pending_capacity: usize) -> (r: Result<T, ScheduleError<T>>)
    ensures
        r == if pending >= pending_capacity {
            Err::<T, ScheduleError<T>>(ScheduleError::Full(task))
        } else {
            Ok::<T, ScheduleError<T>>(task)
        },
{
    if pending >= pending_capacity {
        Err(ScheduleError::Full(task))
    } else {
        Ok(task)
    }
}

/// Whether a worker cannot take a task at once: it has stopped, or as many
/// tasks are pending as it has threads.
pub fn worker_is_busy(stopped: bool, pending: usize, thread_count: usize) -> (busy: bool)
    ensures
        busy == (stopped || pending >= thread_count),
{
    stopped || pending >= thread_count
}

/// What a worker pool is made from.
#[derive(Copy, Clone)]
pub struct Builder<S: Into<String>> {
    pub name: S,
    pub core_thread_count: usize,
    pub min_thread_count: Option<usize>,
    pub max_thread_count: Option<usize>,
    pub pending_capacity: usize,
}

impl<S: Into<String>> Builder<S> {
    /// A builder of a pool with one thread that takes any number of pending
    /// tasks.
    pub fn new(name: S) -> (b: Self)
        ensures
            b.name == name,
            b.core_thread_count == 1,
            b.min_thread_count is None,
            b.max_thread_count is None,
            b.pending_capacity == usize::MAX,
    {
        Builder {
            name,
            core_thread_count: 1,
            min_thread_count: None,
            max_thread_count: None,
            pending_capacity: usize::MAX,
        }
    }

    /// Pending tasks won't exceed `pending_capacity`.
    #[must_use]
    pub fn pending_capacity(self, pending_capacity: usize) -> (b: Self)
        ensures
            b.pending_capacity == pending_capacity,
            b.name == self.name,
            b.core_thread_count == self.core_thread_count,
            b.min_thread_count == self.min_thread_count,
            b.max_thread_count == self.max_thread_count,
    {
        let mut b = self;
        b.pending_capacity = pending_capacity;
        b
    }

    /// Sets the number of threads.
    #[must_use]
    pub fn thread_count(self, thread_count: usize) -> (b: Self)
        ensures
            b.core_thread_count == thread_count,
            b.name == self.name,
            b.pending_capacity == self.pending_capacity,
            b.min_thread_count == self.min_thread_count,
            b.max_thread_count == self.max_thread_count,
    {
        let mut b = self;
        b.core_thread_count = thread_count;
        b
    }

    /// Sets the least and the greatest number of threads that the pool can be
    /// scaled to.
    #[must_use]
    pub fn thread_count_limits(self, min_thread_count: usize, max_thread_count: usize) -> (b: Self)
        ensures
            b.min_thread_count == Some(min_thread_count),
            b.max_thread_count == Some(max_thread_count),
            b.name == self.name,
            b.pending_capacity == self.pending_capacity,
            b.core_thread_count == self.core_thread_count,
    {
        let mut b = self;
        b.min_thread_count = Some(min_thread_count);
        b.max_thread_count = Some(max_thread_count);
        b
    }

    /// The least, the initial and the greatest number of threads of the pool
    /// to build. A limit that was not set is the initial number.
    pub fn thread_counts(&self) -> (counts: (usize, usize, usize))
        ensures
            counts.0 == (match self.min_thread_count {
                Some(n) => n,
                None => self.core_thread_count,
            }),
            counts.1 == self.core_thread_count,
            counts.2 == (match self.max_thread_count {
                Some(n) => n,
                None => self.core_thread_count,
            }),
    {
        let min = match self.min_thread_count {
            Some(n) => n,
            None => self.core_thread_count,
        };
        let max = match self.max_thread_count {
            Some(n) => n,
            None => self.core_thread_count,
        };
        (min, self.core_thread_count, max)
    }
}

} // verus!
