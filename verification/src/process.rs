//! The process system calls: identity, creation and reaping of children,
//! replacing the program, memory mapping and user-memory access, time and
//! scheduling requests.
//!
//! What needs the machine (copying an address space, loading a program,
//! reading the clock, switching tasks) is done by the kernel; a call here
//! takes what the kernel produced and returns what goes back to user space.
use vstd::prelude::*;
use crate::action::{Action, Outcome};
use crate::memory::{
    le_bytes, le_value, lemma_le_bytes_value, pow256, mmap_result, munmap_result, push_le_bytes, space_wf, store_result, trace_result,
    AddressSpace, PageView, PAGE_SIZE,
};

verus! {

/// Seconds and microseconds.
#[derive(Clone, Copy, PartialEq, Eq, Structural, Debug)]
pub struct TimeVal {
    pub sec: usize,
    pub usec: usize,
}

/// The time `us` (microseconds since boot) as seconds and microseconds.
pub open spec fn time_of(us: usize) -> TimeVal {
    TimeVal { sec: us / 1_000_000, usec: us % 1_000_000 }
}

/// The bytes of `t` as it lies in user memory: `sec` then `usec`, each as
/// eight little-endian bytes.
pub open spec fn timeval_bytes(t: TimeVal) -> Seq<u8> {
    le_bytes(t.sec as nat, 8) + le_bytes(t.usec as nat, 8)
}

impl TimeVal {
    /// The time `us` (microseconds since boot) as seconds and microseconds.
    pub fn from_us(us: usize) -> (r: TimeVal)
        ensures
            r == time_of(us),
            r.sec * 1_000_000 + r.usec == us,
    {
        TimeVal { sec: us / 1_000_000, usec: us % 1_000_000 }
    }

    /// The bytes of this value as it lies in user memory.
    pub fn to_bytes(&self) -> (r: Vec<u8>)
        ensures
            r@ == timeval_bytes(*self),
    {
        let mut out: Vec<u8> = Vec::new();
        push_le_bytes(&mut out, self.sec, 8);
        push_le_bytes(&mut out, self.usec, 8);
        assert(out@ =~= timeval_bytes(*self));
        out
    }
}

/// A child process as its parent sees it.
#[derive(Clone, Copy, PartialEq, Eq, Structural, Debug)]
pub struct ChildProcess {
    pub pid: usize,
    /// The child has exited and waits to be reaped.
    pub zombie: bool,
    pub exit_code: i32,
}

/// Priority of a new process.
pub const DEFAULT_PRIORITY: usize = 16;

/// A process: its pid, its children in creation order, its address space
/// and its scheduling priority.
pub struct Process {
    pub pid: usize,
    pub children: Vec<ChildProcess>,
    pub memory: AddressSpace,
    pub priority: usize,
}

/// `c` is selected by the `pid` argument of `waitpid`: -1 selects any child.
pub open spec fn child_matches(c: ChildProcess, pid: isize) -> bool {
    pid == -1 || pid as usize == c.pid
}

/// Index of the first child at or after `i` that has exited and is
/// selected by `pid`, or the number of children.
pub open spec fn first_reapable_from(cs: Seq<ChildProcess>, pid: isize, i: int) -> int
    decreases cs.len() - i,
{
    if i >= cs.len() {
        cs.len() as int
    } else if cs[i].zombie && child_matches(cs[i], pid) {
        i
    } else {
        first_reapable_from(cs, pid, i + 1)
    }
}

/// Waiting for a child: -1 when no child is selected by `pid`; -2 when
/// some is but none of them has exited; otherwise the first selected child
/// that has exited is removed and its pid and exit code are returned.
pub open spec fn waitpid_result(cs: Seq<ChildProcess>, pid: isize) -> (Seq<ChildProcess>, isize, Option<i32>) {
    if !(exists|i: int| 0 <= i < cs.len() && child_matches(#[trigger] cs[i], pid)) {
        (cs, -1isize, None)
    } else {
        let k = first_reapable_from(cs, pid, 0);
        if k < cs.len() {
            (cs.remove(k), cs[k].pid as isize, Some(cs[k].exit_code))
        } else {
            (cs, -2isize, None)
        }
    }
}

proof fn lemma_first_reapable_from(cs: Seq<ChildProcess>, pid: isize, i: int)
    requires
        0 <= i <= cs.len(),
    ensures
        i <= first_reapable_from(cs, pid, i) <= cs.len(),
        first_reapable_from(cs, pid, i) < cs.len() ==> {
            let k = first_reapable_from(cs, pid, i);
            cs[k].zombie && child_matches(cs[k], pid)
        },
        forall|k: int|
            i <= k < first_reapable_from(cs, pid, i) ==> !(#[trigger] cs[k].zombie && child_matches(
                cs[k],
                pid,
            )),
    decreases cs.len() - i,
{
    if i < cs.len() && !(cs[i].zombie && child_matches(cs[i], pid)) {
        lemma_first_reapable_from(cs, pid, i + 1);
    }
}

impl Process {
    /// A process with no children, an empty address space and the default priority.
    pub fn new(pid: usize) -> (r: Process)
        ensures
            r.pid == pid,
            r.priority == DEFAULT_PRIORITY,
            r.children@ == Seq::<ChildProcess>::empty(),
            r.memory@ == Map::<usize, PageView>::empty(),
            space_wf(r.memory@),
    {
        Process { pid, children: Vec::new(), memory: AddressSpace::new(), priority: DEFAULT_PRIORITY }
    }

    /// The pid of the process.
    pub fn sys_getpid(&self) -> (r: isize)
        ensures
            r == self.pid as isize,
    {
        self.pid as isize
    }

    /// The kernel has made a copy of this process with pid `child_pid`,
    /// which returns 0 from the call; the parent records its new child and
    /// returns the child's pid.
    pub fn sys_fork(&mut self, child_pid: usize) -> (r: isize)
        ensures
            r == child_pid as isize,
            final(self).children@ == old(self).children@.push(
                ChildProcess { pid: child_pid, zombie: false, exit_code: 0 },
            ),
            final(self).pid == old(self).pid,
            final(self).priority == old(self).priority,
            final(self).memory@ == old(self).memory@,
    {
        self.children.push(ChildProcess { pid: child_pid, zombie: false, exit_code: 0 });
        child_pid as isize
    }

    /// Replaces the program: `image` is the address space the kernel built
    /// from the program file, or `None` when there is no such program (-1).
    pub fn sys_exec(&mut self, image: Option<AddressSpace>) -> (r: isize)
        ensures
            r == if image is Some { 0isize } else { -1isize },
            image is Some ==> final(self).memory@ == image->0@,
            image is None ==> final(self).memory@ == old(self).memory@,
            final(self).pid == old(self).pid,
            final(self).priority == old(self).priority,
            final(self).children@ == old(self).children@,
    {
        match image {
            Some(space) => {
                self.memory = space;
                0
            },
            None => -1,
        }
    }

    /// Starts a program in a new child process: `child_pid` is the pid the
    /// kernel gave the new process, or `None` when there is no such program (-1).
    pub fn sys_spawn(&mut self, child_pid: Option<usize>) -> (r: isize)
        ensures
            child_pid is None ==> r == -1 && final(self).children@ == old(self).children@,
            child_pid is Some ==> r == child_pid->0 as isize && final(self).children@ == old(
                self,
            ).children@.push(ChildProcess { pid: child_pid->0, zombie: false, exit_code: 0 }),
            final(self).pid == old(self).pid,
            final(self).priority == old(self).priority,
            final(self).memory@ == old(self).memory@,
    {
        match child_pid {
            Some(pid) => {
                self.children.push(ChildProcess { pid, zombie: false, exit_code: 0 });
                pid as isize
            },
            None => -1,
        }
    }

    /// Waits for a child selected by `pid` (-1: any child); see
    /// [`waitpid_result`]. Returns the value for user space and, for a
    /// reaped child, the exit code to store at the caller's pointer.
    pub fn sys_waitpid(&mut self, pid: isize) -> (r: (isize, Option<i32>))
        ensures
            (final(self).children@, r.0, r.1) == waitpid_result(old(self).children@, pid),
            final(self).pid == old(self).pid,
            final(self).priority == old(self).priority,
            final(self).memory@ == old(self).memory@,
    {
        let ghost cs = self.children@;
        let mut any = false;
        let mut i: usize = 0;
        while i < self.children.len()
            invariant
                cs == self.children@,
                cs == old(self).children@,
                self.pid == old(self).pid,
                self.priority == old(self).priority,
                self.memory@ == old(self).memory@,
                i <= cs.len(),
                any == exists|k: int| 0 <= k < i && child_matches(#[trigger] cs[k], pid),
            decreases cs.len() - i,
        {
            let c = self.children[i];
            if pid == -1 || pid as usize == c.pid {
                any = true;
            }
            proof {
                if child_matches(cs[i as int], pid) {
                    assert(exists|k: int| 0 <= k < i + 1 && child_matches(#[trigger] cs[k], pid));
                }
                if exists|k: int| 0 <= k < i + 1 && child_matches(#[trigger] cs[k], pid) {
                    let k = choose|k: int| 0 <= k < i + 1 && child_matches(#[trigger] cs[k], pid);
                    if k < i {
                        assert(exists|k: int| 0 <= k < i && child_matches(#[trigger] cs[k], pid));
                    }
                }
            }
            i += 1;
        }
        if !any {
            return (-1, None);
        }
        proof {
            lemma_first_reapable_from(cs, pid, 0);
        }
        let mut j: usize = 0;
        while j < self.children.len()
            invariant
                cs == self.children@,
                cs == old(self).children@,
                self.pid == old(self).pid,
                self.priority == old(self).priority,
                self.memory@ == old(self).memory@,
                exists|k: int| 0 <= k < cs.len() && child_matches(#[trigger] cs[k], pid),
                j <= cs.len(),
                j <= first_reapable_from(cs, pid, 0),
                first_reapable_from(cs, pid, 0) <= cs.len(),
                first_reapable_from(cs, pid, 0) < cs.len() ==> {
                    let k = first_reapable_from(cs, pid, 0);
                    cs[k].zombie && child_matches(cs[k], pid)
                },
                forall|k: int|
                    0 <= k < first_reapable_from(cs, pid, 0) ==> !(#[trigger] cs[k].zombie
                        && child_matches(cs[k], pid)),
            decreases cs.len() - j,
        {
            let c = self.children[j];
            if c.zombie && (pid == -1 || pid as usize == c.pid) {
                proof {
                    assert(cs[j as int].zombie && child_matches(cs[j as int], pid));
                    assert(j as int == first_reapable_from(cs, pid, 0));
                }
                let child = self.children.remove(j);
                return (child.pid as isize, Some(child.exit_code));
            }
            j += 1;
        }
        (-2, None)
    }

    /// Sets the scheduling priority to `prio` and returns it; a priority
    /// below 2 is refused with -1 and the priority is left as it was.
    pub fn sys_set_priority(&mut self, prio: isize) -> (r: isize)
        ensures
            prio >= 2 ==> r == prio && final(self).priority == prio as usize,
            prio < 2 ==> r == -1 && final(self).priority == old(self).priority,
            final(self).pid == old(self).pid,
            final(self).children@ == old(self).children@,
            final(self).memory@ == old(self).memory@,
    {
        if prio < 2 {
            return -1;
        }
        self.priority = prio as usize;
        prio
    }

    /// Stores the time `us` (microseconds since boot) as a [`TimeVal`] at the
    /// user address `ts` and returns 0; returns -1 and writes nothing when
    /// the page of `ts` is not accessible from user mode or the value would
    /// not fit in that page.
    pub fn sys_get_time(&mut self, ts: usize, us: usize) -> (r: isize)
        requires
            space_wf(old(self).memory@),
        ensures
            final(self).memory@ == store_result(old(self).memory@, ts, timeval_bytes(time_of(us))).0,
            r == if store_result(old(self).memory@, ts, timeval_bytes(time_of(us))).1 {
                0isize
            } else {
                -1isize
            },
            space_wf(final(self).memory@),
            final(self).pid == old(self).pid,
            final(self).priority == old(self).priority,
            final(self).children@ == old(self).children@,
    {
        let tv = TimeVal::from_us(us);
        let bytes = tv.to_bytes();
        if self.memory.copy_to_user(ts, &bytes) {
            0
        } else {
            -1
        }
    }

    /// Maps `len` bytes at `start` with permissions `port`; see [`mmap_result`].
    pub fn sys_mmap(&mut self, start: usize, len: usize, port: usize) -> (r: isize)
        requires
            space_wf(old(self).memory@),
            start % PAGE_SIZE == 0 && 0 < port <= 7 && len > 0 ==> start + len <= usize::MAX,
        ensures
            (final(self).memory@, r) == mmap_result(old(self).memory@, start, len, port),
            space_wf(final(self).memory@),
            final(self).pid == old(self).pid,
            final(self).priority == old(self).priority,
            final(self).children@ == old(self).children@,
    {
        self.memory.map_range(start, len, port)
    }

    /// Unmaps `len` bytes at `start`; see [`munmap_result`].
    pub fn sys_munmap(&mut self, start: usize, len: usize) -> (r: isize)
        requires
            space_wf(old(self).memory@),
            start % PAGE_SIZE == 0 && len > 0 ==> start + len <= usize::MAX,
        ensures
            (final(self).memory@, r) == munmap_result(old(self).memory@, start, len),
            space_wf(final(self).memory@),
            final(self).pid == old(self).pid,
            final(self).priority == old(self).priority,
            final(self).children@ == old(self).children@,
    {
        self.memory.unmap_range(start, len)
    }

    /// Reads (request 0) or writes (request 1, the low byte of `id`) the
    /// byte of user memory at address `data`; see [`trace_result`].
    pub fn sys_trace(&mut self, trace_request: usize, id: usize, data: usize) -> (r: isize)
        requires
            space_wf(old(self).memory@),
        ensures
            (final(self).memory@, r) == trace_result(old(self).memory@, trace_request, id, data),
            space_wf(final(self).memory@),
            final(self).pid == old(self).pid,
            final(self).priority == old(self).priority,
            final(self).children@ == old(self).children@,
    {
        self.memory.trace_byte(trace_request, id, data)
    }
}

/// Ends the calling task with `exit_code`; the call does not return.
pub fn sys_exit(exit_code: i32) -> (r: Action)
    ensures
        r == Action::Exit(exit_code),
{
    Action::Exit(exit_code)
}

/// Gives up the processor; returns 0 once the task runs again.
pub fn sys_yield() -> (r: Outcome)
    ensures
        r == (Outcome { ret: 0, action: Action::Yield }),
{
    Outcome { ret: 0, action: Action::Yield }
}

/// The result of moving the program break: the old break the kernel
/// returned, or -1 when the kernel refused to move it.
pub fn sys_sbrk(old_brk: Option<usize>) -> (r: isize)
    ensures
        r == match old_brk {
            Some(b) => b as isize,
            None => -1isize,
        },
{
    match old_brk {
        Some(b) => b as isize,
        None => -1,
    }
}


/// What `waitpid` answers, in terms of the children alone:
/// - no exit code and -1 exactly when no child has the pid asked for (any
///   child for -1), and the children are kept;
/// - no exit code and -2 when some child has that pid but none of them has
///   exited, and the children are kept;
/// - otherwise the first exited child with that pid is removed, and its pid
///   and exit code are returned.
pub proof fn lemma_waitpid_answers(cs: Seq<ChildProcess>, pid: isize)
    ensures
        ({
            let (rest, ret, code) = waitpid_result(cs, pid);
            &&& (code is None && ret == -1) <==> !exists|i: int|
                0 <= i < cs.len() && (pid == -1 || pid as usize == (#[trigger] cs[i]).pid)
            &&& code is None ==> rest == cs && (ret == -1 || ret == -2)
            &&& code is None && ret == -2 ==> {
                &&& exists|i: int| 0 <= i < cs.len() && (pid == -1 || pid as usize == (#[trigger] cs[i]).pid)
                &&& forall|i: int|
                    0 <= i < cs.len() && (pid == -1 || pid as usize == (#[trigger] cs[i]).pid)
                        ==> !cs[i].zombie
            }
            &&& code is Some ==> exists|k: int|
                #![trigger cs[k]]
                {
                    &&& 0 <= k < cs.len()
                    &&& cs[k].zombie
                    &&& pid == -1 || pid as usize == cs[k].pid
                    &&& forall|j: int|
                        0 <= j < k ==> !(#[trigger] cs[j].zombie && (pid == -1 || pid as usize
                            == cs[j].pid))
                    &&& rest == cs.remove(k)
                    &&& ret == cs[k].pid as isize
                    &&& code == Some(cs[k].exit_code)
                }
        }),
{
    lemma_first_reapable_from(cs, pid, 0);
    let k = first_reapable_from(cs, pid, 0);
    if exists|i: int| 0 <= i < cs.len() && child_matches(#[trigger] cs[i], pid) {
        let i = choose|i: int| 0 <= i < cs.len() && child_matches(#[trigger] cs[i], pid);
        assert(pid == -1 || pid as usize == cs[i].pid);
        assert(exists|i: int| 0 <= i < cs.len() && (pid == -1 || pid as usize == (#[trigger] cs[i]).pid));
        if k < cs.len() {
            assert(cs[k].zombie);
            assert(waitpid_result(cs, pid).2 is Some);
        } else {
            assert(waitpid_result(cs, pid).1 == -2);
            assert forall|j: int|
                0 <= j < cs.len() && (pid == -1 || pid as usize == (#[trigger] cs[j]).pid)
                    implies !cs[j].zombie by {
                assert(!(cs[j].zombie && child_matches(cs[j], pid)));
            }
        }
    } else {
        assert forall|i: int| 0 <= i < cs.len() implies !(pid == -1 || pid as usize
            == (#[trigger] cs[i]).pid) by {
            assert(!child_matches(cs[i], pid));
        }
        assert(waitpid_result(cs, pid) == (cs, -1isize, None::<i32>));
    }
}


/// The bytes that `get_time` stores for the time `us` read back, as two
/// little-endian 8-byte numbers, as the whole seconds and the remaining
/// microseconds of `us`.
pub proof fn lemma_timeval_bytes_decode(us: usize)
    ensures
        timeval_bytes(time_of(us)).len() == 16,
        le_value(timeval_bytes(time_of(us)).subrange(0, 8)) == us / 1_000_000,
        le_value(timeval_bytes(time_of(us)).subrange(8, 16)) == us % 1_000_000,
        (us / 1_000_000) * 1_000_000 + us % 1_000_000 == us,
{
    let t = time_of(us);
    lemma_le_bytes_value(t.sec as nat, 8);
    lemma_le_bytes_value(t.usec as nat, 8);
    reveal_with_fuel(pow256, 9);
    assert(pow256(8) == 0x1_0000_0000_0000_0000nat);
    let b = timeval_bytes(t);
    assert(b.subrange(0, 8) =~= le_bytes(t.sec as nat, 8));
    assert(b.subrange(8, 16) =~= le_bytes(t.usec as nat, 8));
}

} // verus!
