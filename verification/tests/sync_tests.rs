use rcore_syscalls::action::{Action, Outcome};
use rcore_syscalls::sem_deadlock::SemaphoreSnapshot;
use rcore_syscalls::sync::{sys_sleep, SyncTable, DEADLOCK_DETECTED};

fn sems(count: isize, waiters: Vec<usize>) -> Vec<Option<SemaphoreSnapshot>> {
    vec![Some(SemaphoreSnapshot { count, waiters })]
}

fn ok(action: Action) -> Outcome {
    Outcome { ret: 0, action }
}

#[test]
fn deadlock_code_value() {
    assert_eq!(DEADLOCK_DETECTED, -57005);
}

#[test]
fn create_returns_consecutive_ids() {
    let mut t = SyncTable::new();
    assert_eq!(t.sys_mutex_create(true), 0);
    assert_eq!(t.sys_mutex_create(false), 1);
    assert_eq!(t.sys_semaphore_create(3), 0);
    assert_eq!(t.sys_semaphore_create(0), 1);
    assert_eq!(t.sys_condvar_create(), 0);
    assert_eq!(t.sys_condvar_create(), 1);
}

#[test]
fn enable_deadlock_detect_values() {
    let mut t = SyncTable::new();
    assert!(!t.deadlock_detection_enabled());
    assert_eq!(t.sys_enable_deadlock_detect(1), 0);
    assert!(t.deadlock_detection_enabled());
    assert_eq!(t.sys_enable_deadlock_detect(2), -1);
    assert!(t.deadlock_detection_enabled());
    assert_eq!(t.sys_enable_deadlock_detect(0), 0);
    assert!(!t.deadlock_detection_enabled());
}

#[test]
fn relock_detected_when_enabled() {
    let mut t = SyncTable::new();
    let m = t.sys_mutex_create(true) as usize;
    t.sys_enable_deadlock_detect(1);
    assert_eq!(t.sys_mutex_lock(0, m), ok(Action::LockMutex(m)));
    assert_eq!(t.sys_mutex_lock(0, m), Outcome { ret: DEADLOCK_DETECTED, action: Action::Proceed });
    // another thread is not refused by the check
    assert_eq!(t.sys_mutex_lock(1, m), ok(Action::LockMutex(m)));
}

#[test]
fn relock_of_spinning_mutex_not_refused() {
    let mut t = SyncTable::new();
    let m = t.sys_mutex_create(false) as usize;
    t.sys_enable_deadlock_detect(1);
    assert_eq!(t.sys_mutex_lock(0, m), ok(Action::LockMutex(m)));
    assert_eq!(t.sys_mutex_lock(0, m), ok(Action::LockMutex(m)));
}

#[test]
fn semaphore_down_refused_when_waiting_on_itself() {
    let mut t = SyncTable::new();
    let s = t.sys_semaphore_create(1) as usize;
    t.sys_enable_deadlock_detect(1);
    // one unit free: taken
    assert_eq!(t.sys_semaphore_down(0, s, &sems(1, vec![]), 2), ok(Action::SemaphoreDown(s)));
    // none free, thread 0 holds the only unit: waiting would never end
    assert_eq!(
        t.sys_semaphore_down(0, s, &sems(0, vec![]), 2),
        Outcome { ret: DEADLOCK_DETECTED, action: Action::Proceed }
    );
    assert_eq!(t.thread_sem_holds().get(&(0, s)), Some(&1));
    // thread 1 may wait for thread 0
    assert_eq!(t.sys_semaphore_down(1, s, &sems(0, vec![]), 2), ok(Action::SemaphoreDown(s)));
}

#[test]
fn semaphore_down_not_checked_when_disabled() {
    let mut t = SyncTable::new();
    let s = t.sys_semaphore_create(0) as usize;
    assert_eq!(t.sys_semaphore_down(0, s, &sems(0, vec![]), 1), ok(Action::SemaphoreDown(s)));
    assert_eq!(t.sys_semaphore_down(0, s, &sems(-1, vec![0]), 1), ok(Action::SemaphoreDown(s)));
}

#[test]
fn relock_not_refused_when_disabled() {
    let mut t = SyncTable::new();
    let m = t.sys_mutex_create(false) as usize;
    assert_eq!(t.sys_mutex_lock(0, m), ok(Action::LockMutex(m)));
    assert_eq!(t.sys_mutex_lock(0, m), ok(Action::LockMutex(m)));
}

#[test]
fn unlock_forgets_hold() {
    let mut t = SyncTable::new();
    let m = t.sys_mutex_create(true) as usize;
    t.sys_enable_deadlock_detect(1);
    assert_eq!(t.sys_mutex_lock(2, m), ok(Action::LockMutex(m)));
    assert_eq!(t.sys_mutex_unlock(2, m), ok(Action::UnlockMutex(m)));
    assert_eq!(t.sys_mutex_lock(2, m), ok(Action::LockMutex(m)));
}

#[test]
fn semaphore_holds_are_counted() {
    let mut t = SyncTable::new();
    let s = t.sys_semaphore_create(2) as usize;
    t.sys_enable_deadlock_detect(1);
    assert_eq!(t.sys_semaphore_down(0, s, &sems(2, vec![]), 1), ok(Action::SemaphoreDown(s)));
    assert_eq!(t.sys_semaphore_down(0, s, &sems(2, vec![]), 1), ok(Action::SemaphoreDown(s)));
    assert_eq!(t.thread_sem_holds().get(&(0, s)), Some(&2));
    assert_eq!(t.sys_semaphore_up(0, s), ok(Action::SemaphoreUp(s)));
    assert_eq!(t.thread_sem_holds().get(&(0, s)), Some(&1));
    assert_eq!(t.sys_semaphore_up(0, s), ok(Action::SemaphoreUp(s)));
    assert_eq!(t.thread_sem_holds().get(&(0, s)), None);
    // releasing without a recorded hold changes nothing
    assert_eq!(t.sys_semaphore_up(0, s), ok(Action::SemaphoreUp(s)));
    assert!(t.thread_sem_holds().is_empty());
}

#[test]
fn semaphore_holds_not_counted_when_disabled() {
    let mut t = SyncTable::new();
    let s = t.sys_semaphore_create(1) as usize;
    assert_eq!(t.sys_semaphore_down(0, s, &sems(2, vec![]), 1), ok(Action::SemaphoreDown(s)));
    assert!(t.thread_sem_holds().is_empty());
}

#[test]
fn condvar_calls_return_actions() {
    let mut t = SyncTable::new();
    let c = t.sys_condvar_create() as usize;
    let m = t.sys_mutex_create(true) as usize;
    assert_eq!(t.sys_condvar_signal(c), ok(Action::CondvarSignal(c)));
    assert_eq!(t.sys_condvar_wait(c, m), ok(Action::CondvarWait(c, m)));
}

#[test]
fn sleep_blocks_until_expiry() {
    assert_eq!(sys_sleep(1000, 250), ok(Action::SleepUntil(1250)));
    assert_eq!(sys_sleep(5, 0), ok(Action::SleepUntil(5)));
}

#[test]
fn semaphore_down_granted_when_state_stays_safe() {
    let mut t = SyncTable::new();
    let s0 = t.sys_semaphore_create(2) as usize;
    let s1 = t.sys_semaphore_create(1) as usize;
    t.sys_enable_deadlock_detect(1);
    let free = vec![
        Some(SemaphoreSnapshot { count: 2, waiters: vec![] }),
        Some(SemaphoreSnapshot { count: 1, waiters: vec![] }),
    ];
    assert_eq!(t.sys_semaphore_down(1, s0, &free, 3), ok(Action::SemaphoreDown(s0)));
    assert_eq!(t.sys_semaphore_down(2, s0, &free, 3), ok(Action::SemaphoreDown(s0)));
    assert_eq!(t.sys_semaphore_down(0, s1, &free, 3), ok(Action::SemaphoreDown(s1)));
    // sem 0 has no free unit; thread 1 waits on sem 1, which thread 0 holds
    let now = vec![
        Some(SemaphoreSnapshot { count: 0, waiters: vec![] }),
        Some(SemaphoreSnapshot { count: -1, waiters: vec![1] }),
    ];
    assert_eq!(t.sys_semaphore_down(0, s0, &now, 3), ok(Action::SemaphoreDown(s0)));
}
