use rcore_syscalls::banker::semaphore_request_is_safe;
use rcore_syscalls::sem_deadlock::{check_sem_deadlock, SemaphoreSnapshot};
use std::collections::BTreeMap;

fn snap(count: isize, waiters: Vec<usize>) -> Option<SemaphoreSnapshot> {
    Some(SemaphoreSnapshot { count, waiters })
}

#[test]
fn banker_grants_when_another_holder_can_finish() {
    // sem 0's two units are held by threads 1 and 2; thread 1 waits on
    // sem 1, held by thread 0; thread 0 asks for sem 0. Thread 2 can
    // finish, then thread 0, then thread 1.
    let mut holds = BTreeMap::new();
    holds.insert((1usize, 0usize), 1usize);
    holds.insert((2usize, 0usize), 1usize);
    holds.insert((0usize, 1usize), 1usize);
    let sems = vec![snap(0, vec![]), snap(-1, vec![1])];
    assert!(semaphore_request_is_safe(&holds, &sems, 3, 0, 0));
    // the wait-for graph has a cycle 0 -> 1 -> 0 here
    assert!(!check_sem_deadlock(&holds, &sems, 3, 0, 0));
}

#[test]
fn banker_refuses_when_only_requester_holds() {
    let mut holds = BTreeMap::new();
    holds.insert((0usize, 0usize), 1usize);
    let sems = vec![snap(0, vec![])];
    assert!(!semaphore_request_is_safe(&holds, &sems, 2, 0, 0));
}

#[test]
fn banker_refuses_two_thread_deadlock() {
    // thread 0 holds sem 0, thread 1 holds sem 1 and waits on sem 0;
    // thread 0 asks for sem 1
    let mut holds = BTreeMap::new();
    holds.insert((0usize, 0usize), 1usize);
    holds.insert((1usize, 1usize), 1usize);
    let sems = vec![snap(-1, vec![1]), snap(0, vec![])];
    assert!(!semaphore_request_is_safe(&holds, &sems, 2, 0, 1));
}

#[test]
fn banker_grants_with_free_unit() {
    let mut holds = BTreeMap::new();
    holds.insert((1usize, 0usize), 1usize);
    let sems = vec![snap(1, vec![])];
    assert!(semaphore_request_is_safe(&holds, &sems, 2, 0, 0));
}

#[test]
fn banker_refuses_when_unrelated_threads_are_stuck() {
    // threads 1 and 2 wait on each other's semaphore; thread 0 asks for a
    // free semaphore but the state as a whole is not safe
    let mut holds = BTreeMap::new();
    holds.insert((1usize, 1usize), 1usize);
    holds.insert((2usize, 2usize), 1usize);
    let sems = vec![snap(1, vec![]), snap(-1, vec![2]), snap(-1, vec![1])];
    assert!(!semaphore_request_is_safe(&holds, &sems, 3, 0, 0));
}

#[test]
fn banker_out_of_range_or_no_thread_is_safe() {
    let holds = BTreeMap::new();
    let sems = vec![snap(0, vec![])];
    assert!(semaphore_request_is_safe(&holds, &sems, 1, 0, 3));
    assert!(semaphore_request_is_safe(&holds, &sems, 0, 0, 0));
}
