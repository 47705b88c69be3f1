//! Limiting the number of tasks that run in a pool of threads.

use vstd::prelude::*;

verus! {

/// A pool refused a task because as many tasks run as it takes.
#[derive(Clone, Copy, PartialEq, Debug)]
pub struct Full {
    pub current_tasks: usize,
    pub max_tasks: usize,
}

impl Full {
    /// What the error says.
    pub fn message(&self) -> (msg: &'static str)
        ensures
            msg@ == "future pool is full"@,
    {
        "future pool is full"
    }
}

/// The product of two numbers, or the greatest number where the product is
/// greater.
pub open spec fn saturating_product(a: usize, b: usize) -> usize {
    if a * b > usize::MAX {
        usize::MAX
    } else {
        (a * b) as usize
    }
}

/// Whether a task may be spawned while `current_tasks` run and the pool
/// takes `max_tasks`. A limit of `usize::MAX` is no limit.
pub fn gate_spawn(max_tasks: usize, current_tasks: usize) -> (r: Result<(), Full>)
    ensures
        r == if max_tasks != usize::MAX && current_tasks >= max_tasks {
            Err::<(), Full>(Full { current_tasks, max_tasks })
        } else {
            Ok::<(), Full>(())
        },
{
    if max_tasks == usize::MAX {
        return Ok(());
    }
    if current_tasks >= max_tasks {
        Err(Full { current_tasks, max_tasks })
    } else {
        Ok(())
    }
}

fn saturating_mul(a: usize, b: usize) -> (p: usize)
    ensures
        p == saturating_product(a, b),
{
    match a.checked_mul(b) {
        Some(p) => p,
        None => usize::MAX,
    }
}

/// The number of tasks that a pool of `pool_size` threads takes when each
/// thread takes `max_tasks_per_thread`.
pub fn max_tasks_of(pool_size: usize, max_tasks_per_thread: usize) -> (max_tasks: usize)
    ensures
        max_tasks == saturating_product(pool_size, max_tasks_per_thread),
{
    saturating_mul(pool_size, max_tasks_per_thread)
}

/// The number of tasks that a pool takes after it was scaled from
/// `pool_size` threads to `thread_count`: what each thread took before, for
/// each thread now. A limit of `usize::MAX` is no limit and stays.
pub fn scaled_max_tasks(max_tasks: usize, pool_size: usize, thread_count: usize) -> (scaled: usize)
    requires
        pool_size > 0,
    ensures
        scaled == if max_tasks == usize::MAX {
            usize::MAX
        } else {
            saturating_product((max_tasks / pool_size) as usize, thread_count)
        },
{
    if max_tasks != usize::MAX {
        saturating_mul(max_tasks / pool_size, thread_count)
    } else {
        max_tasks
    }
}

} // verus!
