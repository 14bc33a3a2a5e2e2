use rcore_syscalls::action::{Action, Outcome};
use rcore_syscalls::memory::AddressSpace;
use rcore_syscalls::process::{sys_exit, sys_sbrk, sys_yield, ChildProcess, Process, TimeVal};

#[test]
fn getpid_returns_pid() {
    let p = Process::new(42);
    assert_eq!(p.sys_getpid(), 42);
}

#[test]
fn fork_records_child_and_returns_its_pid() {
    let mut p = Process::new(1);
    assert_eq!(p.sys_fork(2), 2);
    assert_eq!(p.sys_fork(3), 3);
    assert_eq!(
        p.children,
        vec![
            ChildProcess { pid: 2, zombie: false, exit_code: 0 },
            ChildProcess { pid: 3, zombie: false, exit_code: 0 },
        ]
    );
}

#[test]
fn spawn_without_program_fails() {
    let mut p = Process::new(1);
    assert_eq!(p.sys_spawn(None), -1);
    assert!(p.children.is_empty());
}

#[test]
fn spawn_records_child() {
    let mut p = Process::new(1);
    assert_eq!(p.sys_spawn(Some(9)), 9);
    assert_eq!(p.children, vec![ChildProcess { pid: 9, zombie: false, exit_code: 0 }]);
}

#[test]
fn exec_without_program_fails_and_keeps_memory() {
    let mut p = Process::new(1);
    assert_eq!(p.sys_mmap(0x1000, 0x1000, 3), 0);
    assert_eq!(p.sys_exec(None), -1);
    assert!(p.memory.is_mapped(1));
}

#[test]
fn exec_replaces_memory() {
    let mut p = Process::new(1);
    assert_eq!(p.sys_mmap(0x1000, 0x1000, 3), 0);
    assert_eq!(p.sys_exec(Some(AddressSpace::new())), 0);
    assert!(!p.memory.is_mapped(1));
}

#[test]
fn waitpid_without_matching_child_returns_minus_one() {
    let mut p = Process::new(1);
    assert_eq!(p.sys_waitpid(-1), (-1, None));
    p.sys_fork(2);
    assert_eq!(p.sys_waitpid(5), (-1, None));
}

#[test]
fn waitpid_on_running_child_returns_minus_two() {
    let mut p = Process::new(1);
    p.sys_fork(2);
    assert_eq!(p.sys_waitpid(2), (-2, None));
    assert_eq!(p.sys_waitpid(-1), (-2, None));
    assert_eq!(p.children.len(), 1);
}

#[test]
fn waitpid_reaps_exited_child_once() {
    let mut p = Process::new(1);
    p.sys_fork(2);
    p.sys_fork(3);
    p.children[1].zombie = true;
    p.children[1].exit_code = 7;
    assert_eq!(p.sys_waitpid(3), (3, Some(7)));
    assert_eq!(p.children, vec![ChildProcess { pid: 2, zombie: false, exit_code: 0 }]);
    assert_eq!(p.sys_waitpid(3), (-1, None));
}

#[test]
fn waitpid_any_reaps_first_exited_child() {
    let mut p = Process::new(1);
    p.sys_fork(2);
    p.sys_fork(3);
    p.sys_fork(4);
    p.children[1].zombie = true;
    p.children[1].exit_code = -3;
    p.children[2].zombie = true;
    p.children[2].exit_code = 4;
    assert_eq!(p.sys_waitpid(-1), (3, Some(-3)));
    assert_eq!(p.sys_waitpid(-1), (4, Some(4)));
    assert_eq!(p.sys_waitpid(-1), (-2, None));
}

#[test]
fn time_splits_microseconds() {
    assert_eq!(TimeVal::from_us(3_500_001), TimeVal { sec: 3, usec: 500_001 });
    assert_eq!(TimeVal::from_us(999_999), TimeVal { sec: 0, usec: 999_999 });
    assert_eq!(TimeVal::from_us(0), TimeVal { sec: 0, usec: 0 });
    assert_eq!(
        TimeVal { sec: 3, usec: 0x7_a121 }.to_bytes(),
        vec![3, 0, 0, 0, 0, 0, 0, 0, 0x21, 0xa1, 0x07, 0, 0, 0, 0, 0]
    );
}

#[test]
fn get_time_writes_timeval_into_user_memory() {
    let mut p = Process::new(1);
    assert_eq!(p.sys_mmap(0x4000, 0x1000, 3), 0);
    assert_eq!(p.sys_get_time(0x4010, 3_500_001), 0);
    let expected = [3u8, 0, 0, 0, 0, 0, 0, 0, 0x21, 0xa1, 0x07, 0, 0, 0, 0, 0];
    for (k, b) in expected.iter().enumerate() {
        assert_eq!(p.sys_trace(0, 0, 0x4010 + k), *b as isize);
    }
    assert_eq!(p.sys_trace(0, 0, 0x4020), 0);
}

#[test]
fn get_time_refused_on_unmapped_or_page_crossing_pointer() {
    let mut p = Process::new(1);
    assert_eq!(p.sys_get_time(0x4000, 5), -1);
    assert_eq!(p.sys_mmap(0x4000, 0x2000, 3), 0);
    // the value would straddle two pages
    assert_eq!(p.sys_get_time(0x4ff8, 5), -1);
    assert_eq!(p.sys_trace(0, 0, 0x4ff8), 0);
    // the last place in the page where it fits
    assert_eq!(p.sys_get_time(0x4ff0, 5), 0);
    assert_eq!(p.sys_trace(0, 0, 0x4ff8), 5);
}

#[test]
fn sbrk_returns_old_break_or_minus_one() {
    assert_eq!(sys_sbrk(Some(0x1000)), 0x1000);
    assert_eq!(sys_sbrk(None), -1);
}

#[test]
fn set_priority_sets_valid_priority() {
    let mut p = Process::new(1);
    assert_eq!(p.priority, 16);
    assert_eq!(p.sys_set_priority(5), 5);
    assert_eq!(p.priority, 5);
    assert_eq!(p.sys_set_priority(1), -1);
    assert_eq!(p.priority, 5);
    assert_eq!(p.sys_set_priority(-3), -1);
    assert_eq!(p.sys_set_priority(2), 2);
    assert_eq!(p.priority, 2);
}

#[test]
fn exit_and_yield_actions() {
    assert_eq!(sys_exit(3), Action::Exit(3));
    assert_eq!(sys_yield(), Outcome { ret: 0, action: Action::Yield });
}
