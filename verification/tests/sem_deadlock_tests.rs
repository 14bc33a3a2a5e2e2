use rcore_syscalls::sem_deadlock::{check_sem_deadlock, SemaphoreSnapshot};
use std::collections::BTreeMap;

fn snap(count: isize, waiters: Vec<usize>) -> Option<SemaphoreSnapshot> {
    Some(SemaphoreSnapshot { count, waiters })
}

#[test]
fn no_holds_is_safe() {
    let holds = BTreeMap::new();
    let sems = vec![snap(0, vec![]), snap(0, vec![])];
    assert!(check_sem_deadlock(&holds, &sems, 2, 0, 1));
}

#[test]
fn out_of_range_semaphore_or_no_thread_is_safe() {
    let mut holds = BTreeMap::new();
    holds.insert((0usize, 0usize), 1usize);
    let sems = vec![snap(0, vec![])];
    assert!(check_sem_deadlock(&holds, &sems, 1, 0, 5));
    assert!(check_sem_deadlock(&holds, &sems, 0, 0, 0));
}

#[test]
fn waiting_on_own_semaphore_is_a_deadlock() {
    let mut holds = BTreeMap::new();
    holds.insert((0usize, 0usize), 1usize);
    let sems = vec![snap(0, vec![])];
    assert!(!check_sem_deadlock(&holds, &sems, 1, 0, 0));
}

#[test]
fn two_thread_cycle_is_a_deadlock() {
    // thread 0 holds sem 0, thread 1 holds sem 1 and waits on sem 0;
    // thread 0 asking for sem 1 closes the cycle
    let mut holds = BTreeMap::new();
    holds.insert((0usize, 0usize), 1usize);
    holds.insert((1usize, 1usize), 1usize);
    let sems = vec![snap(-1, vec![1]), snap(0, vec![])];
    assert!(!check_sem_deadlock(&holds, &sems, 2, 0, 1));
}

#[test]
fn holder_not_waiting_is_safe() {
    let mut holds = BTreeMap::new();
    holds.insert((0usize, 0usize), 1usize);
    holds.insert((1usize, 1usize), 1usize);
    let sems = vec![snap(0, vec![]), snap(0, vec![])];
    assert!(check_sem_deadlock(&holds, &sems, 2, 0, 1));
}

#[test]
fn waiter_list_ignored_when_count_not_negative() {
    let mut holds = BTreeMap::new();
    holds.insert((0usize, 0usize), 1usize);
    holds.insert((1usize, 1usize), 1usize);
    let sems = vec![snap(0, vec![1]), snap(0, vec![])];
    assert!(check_sem_deadlock(&holds, &sems, 2, 0, 1));
}

#[test]
fn zero_count_hold_is_not_a_hold() {
    let mut holds = BTreeMap::new();
    holds.insert((0usize, 0usize), 0usize);
    holds.insert((1usize, 1usize), 1usize);
    let sems = vec![snap(-1, vec![1]), snap(0, vec![])];
    assert!(check_sem_deadlock(&holds, &sems, 2, 0, 1));
}

#[test]
fn three_thread_cycle_is_a_deadlock() {
    // 0 holds s0, 1 holds s1, 2 holds s2; 1 waits s2, 2 waits s0; 0 asks s1
    let mut holds = BTreeMap::new();
    holds.insert((0usize, 0usize), 1usize);
    holds.insert((1usize, 1usize), 1usize);
    holds.insert((2usize, 2usize), 1usize);
    let sems = vec![snap(-1, vec![2]), snap(0, vec![]), snap(-1, vec![1])];
    assert!(!check_sem_deadlock(&holds, &sems, 3, 0, 1));
}

#[test]
fn cycle_not_through_current_thread_but_reachable_is_reported() {
    // 1 and 2 deadlock each other; 0 waits on something 1 holds
    let mut holds = BTreeMap::new();
    holds.insert((1usize, 1usize), 1usize);
    holds.insert((2usize, 2usize), 1usize);
    let sems = vec![None, snap(-1, vec![2]), snap(-1, vec![1])];
    assert!(!check_sem_deadlock(&holds, &sems, 3, 0, 1));
}

#[test]
fn unreachable_cycle_is_not_reported() {
    // 1 and 2 deadlock each other; 0 asks for sem 0, which nobody holds
    let mut holds = BTreeMap::new();
    holds.insert((1usize, 1usize), 1usize);
    holds.insert((2usize, 2usize), 1usize);
    let sems = vec![snap(0, vec![]), snap(-1, vec![2]), snap(-1, vec![1])];
    assert!(check_sem_deadlock(&holds, &sems, 3, 0, 0));
}

#[test]
fn later_semaphore_overrides_waiting() {
    // thread 1 listed in the queues of sem 0 and sem 1: the later one counts
    let mut holds = BTreeMap::new();
    holds.insert((0usize, 0usize), 1usize);
    holds.insert((1usize, 2usize), 1usize);
    let sems = vec![snap(-1, vec![1]), snap(-1, vec![1]), snap(0, vec![])];
    // 0 asks sem 2 (held by 1); 1 waits on sem 1 (held by nobody): safe
    assert!(check_sem_deadlock(&holds, &sems, 2, 0, 2));
}
