use rcore_syscalls::deadlock::DeadlockRegistry;

#[test]
fn disabled_registry_never_reports() {
    let mut r = DeadlockRegistry::new();
    assert!(!r.is_deadlock_enabled());
    r.add_mutex_hold(0, 1);
    assert!(!r.check_deadlock(0, 1));
}

#[test]
fn enable_returns_zero() {
    let mut r = DeadlockRegistry::new();
    assert_eq!(r.enable_deadlock_detect(true), 0);
    assert!(r.is_deadlock_enabled());
    assert_eq!(r.enable_deadlock_detect(false), 0);
    assert!(!r.is_deadlock_enabled());
}

#[test]
fn recorded_hold_is_reported() {
    let mut r = DeadlockRegistry::new();
    r.enable_deadlock_detect(true);
    assert!(!r.check_deadlock(3, 5));
    r.add_mutex_hold(3, 5);
    assert!(r.check_deadlock(3, 5));
    assert!(!r.check_deadlock(3, 6));
    assert!(!r.check_deadlock(2, 5));
    assert!(!r.check_deadlock(100, 5));
}

#[test]
fn released_hold_is_not_reported() {
    let mut r = DeadlockRegistry::new();
    r.enable_deadlock_detect(true);
    r.add_mutex_hold(1, 2);
    r.add_mutex_hold(1, 4);
    r.add_mutex_hold(1, 2);
    r.remove_mutex_hold(1, 2);
    assert!(!r.check_deadlock(1, 2));
    assert!(r.check_deadlock(1, 4));
}

#[test]
fn remove_for_unknown_thread_is_harmless() {
    let mut r = DeadlockRegistry::new();
    r.enable_deadlock_detect(true);
    r.remove_mutex_hold(9, 1);
    assert!(!r.check_deadlock(9, 1));
}

#[test]
fn holds_recorded_while_disabled_are_not_kept() {
    let mut r = DeadlockRegistry::new();
    r.add_mutex_hold(0, 1);
    r.enable_deadlock_detect(true);
    assert!(!r.check_deadlock(0, 1));
}
