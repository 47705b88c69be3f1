use log_compaction::future_pool::{gate_spawn, max_tasks_of, scaled_max_tasks, Full};
use log_compaction::pool::{check_capacity, worker_is_busy, Builder, ScheduleError};

#[test]
fn schedule_error_hands_the_task_back() {
    assert_eq!(ScheduleError::Stopped(5u64).into_inner(), 5);
    assert_eq!(ScheduleError::Full("task").into_inner(), "task");
    assert_eq!(ScheduleError::Stopped(()).message(), "channel has been closed");
    assert_eq!(ScheduleError::Full(()).message(), "channel is full");
    assert!(ScheduleError::Full(1) == ScheduleError::Full(1));
    assert!(ScheduleError::Full(1) != ScheduleError::Stopped(1));
}

#[test]
fn a_full_worker_hands_the_task_back() {
    assert!(check_capacity(7, 0, 1) == Ok(7));
    assert!(check_capacity(7, 1, 1) == Err(ScheduleError::Full(7)));
    assert!(check_capacity(7, 0, 0) == Err(ScheduleError::Full(7)));
    assert!(check_capacity(7, 999, 1000) == Ok(7));
}

#[test]
fn a_worker_is_busy_when_stopped_or_out_of_threads() {
    assert!(worker_is_busy(true, 0, 4));
    assert!(worker_is_busy(false, 4, 4));
    assert!(!worker_is_busy(false, 3, 4));
    assert!(worker_is_busy(false, 0, 0));
}

#[test]
fn builder_defaults_and_settings() {
    let b = Builder::new("worker");
    assert_eq!(b.name, "worker");
    assert_eq!(b.core_thread_count, 1);
    assert_eq!(b.min_thread_count, None);
    assert_eq!(b.max_thread_count, None);
    assert_eq!(b.pending_capacity, usize::MAX);
    assert_eq!(b.thread_counts(), (1, 1, 1));
    let b = b.thread_count(4).pending_capacity(1000);
    assert_eq!(b.core_thread_count, 4);
    assert_eq!(b.pending_capacity, 1000);
    assert_eq!(b.thread_counts(), (4, 4, 4));
    let b = b.thread_count_limits(2, 8);
    assert_eq!(b.min_thread_count, Some(2));
    assert_eq!(b.max_thread_count, Some(8));
    assert_eq!(b.thread_counts(), (2, 4, 8));
    assert_eq!(b.name, "worker");
}

#[test]
fn gate_spawn_limits_the_running_tasks() {
    assert_eq!(gate_spawn(3, 2), Ok(()));
    assert_eq!(gate_spawn(3, 3), Err(Full { current_tasks: 3, max_tasks: 3 }));
    assert_eq!(gate_spawn(3, 9), Err(Full { current_tasks: 9, max_tasks: 3 }));
    assert_eq!(gate_spawn(0, 0), Err(Full { current_tasks: 0, max_tasks: 0 }));
    assert_eq!(gate_spawn(usize::MAX, usize::MAX), Ok(()));
    assert_eq!(Full { current_tasks: 1, max_tasks: 1 }.message(), "future pool is full");
}

#[test]
fn max_tasks_scale_with_the_threads() {
    assert_eq!(max_tasks_of(4, 25), 100);
    assert_eq!(max_tasks_of(0, 25), 0);
    assert_eq!(max_tasks_of(usize::MAX, 2), usize::MAX);
    assert_eq!(scaled_max_tasks(100, 4, 8), 200);
    assert_eq!(scaled_max_tasks(100, 3, 2), 66);
    assert_eq!(scaled_max_tasks(usize::MAX, 4, 8), usize::MAX);
    assert_eq!(scaled_max_tasks(usize::MAX - 1, 1, 2), usize::MAX);
    assert_eq!(scaled_max_tasks(5, 8, 3), 0);
}

#[test]
fn test_full() {
    let max_tasks = 4;
    let mut running = 0;

    // not full
    assert_eq!(gate_spawn(max_tasks, running), Ok(()));
    running += 1;
    // the first task completes
    running -= 1;

    for _ in 1..=4 {
        assert_eq!(gate_spawn(max_tasks, running), Ok(()));
        running += 1;
    }
    // running = 4

    // full
    assert!(gate_spawn(max_tasks, running).is_err());

    // full
    assert!(gate_spawn(max_tasks, running).is_err());

    // wait a future completes (running = 3)
    running -= 1;

    // add new (running = 4)
    assert_eq!(gate_spawn(max_tasks, running), Ok(()));
    running += 1;

    // full
    assert_eq!(
        gate_spawn(max_tasks, running),
        Err(Full { current_tasks: 4, max_tasks: 4 })
    );
}
