//! The synchronisation system calls of a process: its tables of mutexes,
//! semaphores and condition variables, and the per-thread bookkeeping used
//! to detect deadlock.
//!
//! Each call does its bookkeeping and returns the value for user space
//! together with the blocking or waking work left to the kernel.
use vstd::prelude::*;
use std::collections::{BTreeMap, BTreeSet};
use crate::action::{Action, Outcome};
use crate::slots::{alloc_slot, first_free, with_item};
use crate::sem_deadlock::SemaphoreSnapshot;
use crate::banker::{
    banker_safe, lemma_no_other_holder_unsafe, semaphore_request_is_safe, units_free, units_held,
};

verus! {

/// Returned by a lock request that would deadlock.
pub const DEADLOCK_DETECTED: isize = -0xDEAD;

/// A mutex of the table; `blocking` tells a blocking mutex from a spinning one.
#[derive(Clone, Copy, PartialEq, Eq, Structural, Debug)]
pub struct MutexSlot {
    pub blocking: bool,
}

/// A semaphore of the table with the number of units it was created with.
#[derive(Clone, Copy, PartialEq, Eq, Structural, Debug)]
pub struct SemaphoreSlot {
    pub res_count: usize,
}

/// A condition variable of the table.
#[derive(Clone, Copy, PartialEq, Eq, Structural, Debug)]
pub struct CondvarSlot {}

/// The synchronisation state of one process.
pub struct SyncTable {
    mutex_list: Vec<Option<MutexSlot>>,
    semaphore_list: Vec<Option<SemaphoreSlot>>,
    condvar_list: Vec<Option<CondvarSlot>>,
    deadlock_detection_enabled: bool,
    /// Pairs (thread id, mutex id) of the mutexes each thread holds.
    thread_mutex_holds: BTreeSet<(usize, usize)>,
    /// Units held, keyed by (thread id, semaphore id).
    thread_sem_holds: BTreeMap<(usize, usize), usize>,
}

/// The abstract state of a [`SyncTable`].
pub struct SyncView {
    pub mutexes: Seq<Option<MutexSlot>>,
    pub semaphores: Seq<Option<SemaphoreSlot>>,
    pub condvars: Seq<Option<CondvarSlot>>,
    pub detection: bool,
    pub mutex_holds: Set<(usize, usize)>,
    pub sem_holds: Map<(usize, usize), usize>,
}

impl SyncView {
    /// A semaphore hold is recorded only while at least one unit is held.
    pub open spec fn wf(self) -> bool {
        forall|k: (usize, usize)| #[trigger] self.sem_holds.contains_key(k) ==> self.sem_holds[k] > 0
    }

    pub open spec fn mutex_exists(self, id: usize) -> bool {
        id < self.mutexes.len() && self.mutexes[id as int] is Some
    }

    pub open spec fn semaphore_exists(self, id: usize) -> bool {
        id < self.semaphores.len() && self.semaphores[id as int] is Some
    }

    pub open spec fn condvar_exists(self, id: usize) -> bool {
        id < self.condvars.len() && self.condvars[id as int] is Some
    }

    /// The state with other mutex holds.
    pub open spec fn with_mutex_holds(self, holds: Set<(usize, usize)>) -> SyncView {
        SyncView { mutex_holds: holds, ..self }
    }

    /// The state with other semaphore holds.
    pub open spec fn with_sem_holds(self, holds: Map<(usize, usize), usize>) -> SyncView {
        SyncView { sem_holds: holds, ..self }
    }
}

/// Deadlock detection applies to the mutex: detection is on and the mutex
/// is a blocking one (spinning mutexes are neither checked nor tracked).
pub open spec fn lock_is_tracked(v: SyncView, mutex_id: usize) -> bool {
    &&& v.detection
    &&& v.mutexes[mutex_id as int] is Some
    &&& v.mutexes[mutex_id as int]->0.blocking
}

/// A lock request: refused with `DEADLOCK_DETECTED` when detection applies
/// and the thread already holds the mutex; otherwise the mutex is locked and,
/// when detection applies, recorded as held by the thread.
pub open spec fn mutex_lock_result(v: SyncView, tid: usize, mutex_id: usize) -> (SyncView, Outcome) {
    if lock_is_tracked(v, mutex_id) && v.mutex_holds.contains((tid, mutex_id)) {
        (v, Outcome { ret: DEADLOCK_DETECTED, action: Action::Proceed })
    } else if lock_is_tracked(v, mutex_id) {
        (
            v.with_mutex_holds(v.mutex_holds.insert((tid, mutex_id))),
            Outcome { ret: 0, action: Action::LockMutex(mutex_id) },
        )
    } else {
        (v, Outcome { ret: 0, action: Action::LockMutex(mutex_id) })
    }
}

/// An unlock: with detection on the hold is forgotten; the mutex is unlocked.
pub open spec fn mutex_unlock_result(v: SyncView, tid: usize, mutex_id: usize) -> (SyncView, Outcome) {
    let v2 = if v.detection {
        v.with_mutex_holds(v.mutex_holds.remove((tid, mutex_id)))
    } else {
        v
    };
    (v2, Outcome { ret: 0, action: Action::UnlockMutex(mutex_id) })
}

/// The semaphore holds after `tid` released one unit of `sem_id`: a held
/// count goes down by one and is forgotten when it reaches zero.
pub open spec fn holds_after_up(h: Map<(usize, usize), usize>, tid: usize, sem_id: usize) -> Map<(usize, usize), usize> {
    let k = (tid, sem_id);
    if h.contains_key(k) && h[k] > 0 {
        if h[k] == 1 {
            h.remove(k)
        } else {
            h.insert(k, (h[k] - 1) as usize)
        }
    } else {
        h
    }
}

/// The semaphore holds after `tid` acquired one unit of `sem_id`.
pub open spec fn holds_after_down(h: Map<(usize, usize), usize>, tid: usize, sem_id: usize) -> Map<(usize, usize), usize> {
    let k = (tid, sem_id);
    h.insert(k, (if h.contains_key(k) { h[k] + 1 } else { 1 }) as usize)
}

pub open spec fn semaphore_up_result(v: SyncView, tid: usize, sem_id: usize) -> (SyncView, Outcome) {
    let v2 = if v.detection {
        v.with_sem_holds(holds_after_up(v.sem_holds, tid, sem_id))
    } else {
        v
    };
    (v2, Outcome { ret: 0, action: Action::SemaphoreUp(sem_id) })
}

/// Acquiring `sem_id` is refused: detection is on, no unit is free and
/// letting `tid` wait would leave the process in an unsafe state.
pub open spec fn semaphore_down_refused(
    v: SyncView,
    tid: usize,
    sem_id: usize,
    sems: Seq<Option<SemaphoreSnapshot>>,
    thread_count: nat,
) -> bool {
    &&& v.detection
    &&& sems[sem_id as int]->0.count <= 0
    &&& !banker_safe(v.sem_holds, sems, thread_count, tid, sem_id)
}

pub open spec fn semaphore_down_result(v: SyncView, tid: usize, sem_id: usize) -> (SyncView, Outcome) {
    let v2 = if v.detection {
        v.with_sem_holds(holds_after_down(v.sem_holds, tid, sem_id))
    } else {
        v
    };
    (v2, Outcome { ret: 0, action: Action::SemaphoreDown(sem_id) })
}

/// Switching deadlock detection: `0` turns it off, `1` on, anything else is refused with -1.
pub open spec fn enable_detect_result(v: SyncView, enabled: usize) -> (SyncView, isize) {
    if enabled == 0 {
        (SyncView { detection: false, ..v }, 0isize)
    } else if enabled == 1 {
        (SyncView { detection: true, ..v }, 0isize)
    } else {
        (v, -1isize)
    }
}

impl View for SyncTable {
    type V = SyncView;

    closed spec fn view(&self) -> SyncView {
        SyncView {
            mutexes: self.mutex_list@,
            semaphores: self.semaphore_list@,
            condvars: self.condvar_list@,
            detection: self.deadlock_detection_enabled,
            mutex_holds: self.thread_mutex_holds@,
            sem_holds: self.thread_sem_holds@,
        }
    }
}

impl SyncTable {
    /// Empty tables, detection off.
    pub fn new() -> (r: SyncTable)
        ensures
            r@.mutexes == Seq::<Option<MutexSlot>>::empty(),
            r@.semaphores == Seq::<Option<SemaphoreSlot>>::empty(),
            r@.condvars == Seq::<Option<CondvarSlot>>::empty(),
            !r@.detection,
            r@.mutex_holds == Set::<(usize, usize)>::empty(),
            r@.sem_holds == Map::<(usize, usize), usize>::empty(),
            r@.wf(),
    {
        SyncTable {
            mutex_list: Vec::new(),
            semaphore_list: Vec::new(),
            condvar_list: Vec::new(),
            deadlock_detection_enabled: false,
            thread_mutex_holds: BTreeSet::new(),
            thread_sem_holds: BTreeMap::new(),
        }
    }

    /// The units of each semaphore held by each thread, keyed by (thread id, semaphore id).
    pub fn thread_sem_holds(&self) -> (r: &BTreeMap<(usize, usize), usize>)
        ensures
            r@ == self@.sem_holds,
    {
        &self.thread_sem_holds
    }

    /// Whether deadlock detection is on for this process.
    pub fn deadlock_detection_enabled(&self) -> (r: bool)
        ensures
            r == self@.detection,
    {
        self.deadlock_detection_enabled
    }

    /// Creates a mutex (blocking or spinning) in the first free slot and returns its id.
    pub fn sys_mutex_create(&mut self, blocking: bool) -> (id: isize)
        ensures
            id == first_free(old(self)@.mutexes) as isize,
            final(self)@ == (SyncView {
                mutexes: with_item(old(self)@.mutexes, MutexSlot { blocking }),
                ..old(self)@
            }),
    {
        let id = alloc_slot(&mut self.mutex_list, MutexSlot { blocking });
        id as isize
    }

    /// Lock request of thread `tid` on mutex `mutex_id`.
    pub fn sys_mutex_lock(&mut self, tid: usize, mutex_id: usize) -> (r: Outcome)
        requires
            old(self)@.mutex_exists(mutex_id),
        ensures
            (final(self)@, r) == mutex_lock_result(old(self)@, tid, mutex_id),
    {
        let blocking = match &self.mutex_list[mutex_id] {
            Some(slot) => slot.blocking,
            None => false,
        };
        if self.deadlock_detection_enabled && blocking {
            if self.thread_mutex_holds.contains(&(tid, mutex_id)) {
                return Outcome { ret: DEADLOCK_DETECTED, action: Action::Proceed };
            }
            self.thread_mutex_holds.insert((tid, mutex_id));
        }
        Outcome { ret: 0, action: Action::LockMutex(mutex_id) }
    }

    /// Unlock of mutex `mutex_id` by thread `tid`.
    pub fn sys_mutex_unlock(&mut self, tid: usize, mutex_id: usize) -> (r: Outcome)
        requires
            old(self)@.mutex_exists(mutex_id),
        ensures
            (final(self)@, r) == mutex_unlock_result(old(self)@, tid, mutex_id),
    {
        if self.deadlock_detection_enabled {
            self.thread_mutex_holds.remove(&(tid, mutex_id));
        }
        Outcome { ret: 0, action: Action::UnlockMutex(mutex_id) }
    }

    /// Creates a semaphore with `res_count` units in the first free slot and returns its id.
    pub fn sys_semaphore_create(&mut self, res_count: usize) -> (id: isize)
        ensures
            id == first_free(old(self)@.semaphores) as isize,
            final(self)@ == (SyncView {
                semaphores: with_item(old(self)@.semaphores, SemaphoreSlot { res_count }),
                ..old(self)@
            }),
    {
        let id = alloc_slot(&mut self.semaphore_list, SemaphoreSlot { res_count });
        id as isize
    }

    /// Thread `tid` releases one unit of semaphore `sem_id`.
    pub fn sys_semaphore_up(&mut self, tid: usize, sem_id: usize) -> (r: Outcome)
        requires
            old(self)@.semaphore_exists(sem_id),
            old(self)@.wf(),
        ensures
            (final(self)@, r) == semaphore_up_result(old(self)@, tid, sem_id),
            final(self)@.wf(),
    {
        if self.deadlock_detection_enabled {
            let key = (tid, sem_id);
            let held: usize = match self.thread_sem_holds.get(&key) {
                Some(c) => *c,
                None => 0,
            };
            if held > 0 {
                if held == 1 {
                    self.thread_sem_holds.remove(&key);
                } else {
                    self.thread_sem_holds.insert(key, held - 1);
                }
            }
            proof {
                assert forall|k: (usize, usize)| #[trigger] self@.sem_holds.contains_key(k) implies self@.sem_holds[k] > 0 by {
                    if k != key {
                        assert(old(self)@.sem_holds.contains_key(k));
                    }
                }
            }
        }
        Outcome { ret: 0, action: Action::SemaphoreUp(sem_id) }
    }

    /// Thread `tid` acquires one unit of semaphore `sem_id`.
    ///
    /// `semaphores` is the state of the process's semaphores (counter and
    /// waiting threads) and `thread_count` its number of threads. With
    /// detection on, when no unit is free and letting the thread wait would
    /// leave the process unsafe (see [`semaphore_request_is_safe`]), the
    /// request is refused with `DEADLOCK_DETECTED`.
    pub fn sys_semaphore_down(
        &mut self,
        tid: usize,
        sem_id: usize,
        semaphores: &Vec<Option<SemaphoreSnapshot>>,
        thread_count: usize,
    ) -> (r: Outcome)
        requires
            old(self)@.semaphore_exists(sem_id),
            old(self)@.wf(),
            sem_id < semaphores.len(),
            semaphores@[sem_id as int] is Some,
            old(self)@.detection && semaphores@[sem_id as int]->0.count <= 0 && thread_count > 0
                ==> tid < thread_count,
            old(self)@.detection && old(self)@.sem_holds.contains_key((tid, sem_id))
                ==> old(self)@.sem_holds[(tid, sem_id)] < usize::MAX,
        ensures
            semaphore_down_refused(old(self)@, tid, sem_id, semaphores@, thread_count as nat)
                ==> r == (Outcome { ret: DEADLOCK_DETECTED, action: Action::Proceed })
                && final(self)@ == old(self)@,
            !semaphore_down_refused(old(self)@, tid, sem_id, semaphores@, thread_count as nat)
                ==> (final(self)@, r) == semaphore_down_result(old(self)@, tid, sem_id),
            final(self)@.wf(),
    {
        if self.deadlock_detection_enabled {
            let available = match &semaphores[sem_id] {
                Some(sem) => sem.count > 0,
                None => true,
            };
            if !available && !semaphore_request_is_safe(
                &self.thread_sem_holds,
                semaphores,
                thread_count,
                tid,
                sem_id,
            ) {
                return Outcome { ret: DEADLOCK_DETECTED, action: Action::Proceed };
            }
            let key = (tid, sem_id);
            let held: usize = match self.thread_sem_holds.get(&key) {
                Some(c) => *c,
                None => 0,
            };
            self.thread_sem_holds.insert(key, held + 1);
        }
        Outcome { ret: 0, action: Action::SemaphoreDown(sem_id) }
    }

    /// Creates a condition variable in the first free slot and returns its id.
    pub fn sys_condvar_create(&mut self) -> (id: isize)
        ensures
            id == first_free(old(self)@.condvars) as isize,
            final(self)@ == (SyncView {
                condvars: with_item(old(self)@.condvars, CondvarSlot {}),
                ..old(self)@
            }),
    {
        let id = alloc_slot(&mut self.condvar_list, CondvarSlot {});
        id as isize
    }

    /// Wakes one waiter of condition variable `condvar_id`.
    pub fn sys_condvar_signal(&self, condvar_id: usize) -> (r: Outcome)
        requires
            self@.condvar_exists(condvar_id),
        ensures
            r == (Outcome { ret: 0, action: Action::CondvarSignal(condvar_id) }),
    {
        Outcome { ret: 0, action: Action::CondvarSignal(condvar_id) }
    }

    /// Waits on condition variable `condvar_id`, releasing mutex `mutex_id` meanwhile.
    pub fn sys_condvar_wait(&self, condvar_id: usize, mutex_id: usize) -> (r: Outcome)
        requires
            self@.condvar_exists(condvar_id),
            self@.mutex_exists(mutex_id),
        ensures
            r == (Outcome { ret: 0, action: Action::CondvarWait(condvar_id, mutex_id) }),
    {
        Outcome { ret: 0, action: Action::CondvarWait(condvar_id, mutex_id) }
    }

    /// Turns deadlock detection off (`0`) or on (`1`); any other value is refused with -1.
    pub fn sys_enable_deadlock_detect(&mut self, enabled: usize) -> (r: isize)
        ensures
            (final(self)@, r) == enable_detect_result(old(self)@, enabled),
    {
        match enabled {
            0 => {
                self.deadlock_detection_enabled = false;
                0
            },
            1 => {
                self.deadlock_detection_enabled = true;
                0
            },
            _ => -1,
        }
    }
}


/// Sleeping `ms` milliseconds from the time `now_ms`: the task blocks until
/// `now_ms + ms`; the call returns 0.
pub fn sys_sleep(now_ms: usize, ms: usize) -> (r: Outcome)
    requires
        now_ms + ms <= usize::MAX,
    ensures
        r == (Outcome { ret: 0, action: Action::SleepUntil((now_ms + ms) as usize) }),
{
    Outcome { ret: 0, action: Action::SleepUntil(now_ms + ms) }
}

/// With detection on, a thread that has just locked a blocking mutex is refused with
/// `DEADLOCK_DETECTED` when it asks for the same mutex again.
pub proof fn lemma_relock_is_refused(v: SyncView, tid: usize, mutex_id: usize)
    requires
        v.detection,
        v.mutexes[mutex_id as int] == Some(MutexSlot { blocking: true }),
        mutex_lock_result(v, tid, mutex_id).1.ret == 0,
    ensures
        mutex_lock_result(mutex_lock_result(v, tid, mutex_id).0, tid, mutex_id).1 == (Outcome {
            ret: DEADLOCK_DETECTED,
            action: Action::Proceed,
        }),
{
}

/// With detection off, or on a spinning mutex, a lock request is never
/// refused and changes no bookkeeping.
pub proof fn lemma_no_refusal_without_detection(v: SyncView, tid: usize, mutex_id: usize)
    requires
        !v.detection || v.mutexes[mutex_id as int] == Some(MutexSlot { blocking: false }),
    ensures
        mutex_lock_result(v, tid, mutex_id).1.ret == 0,
        mutex_lock_result(v, tid, mutex_id).0 == v,
{
}

/// Unlocking a mutex that was just locked by the same thread undoes the
/// lock's bookkeeping, and a new lock request by that thread then succeeds.
pub proof fn lemma_lock_unlock_round_trip(v: SyncView, tid: usize, mutex_id: usize)
    requires
        !v.mutex_holds.contains((tid, mutex_id)),
    ensures
        mutex_unlock_result(mutex_lock_result(v, tid, mutex_id).0, tid, mutex_id).0 == v,
        mutex_lock_result(
            mutex_unlock_result(mutex_lock_result(v, tid, mutex_id).0, tid, mutex_id).0,
            tid,
            mutex_id,
        ).1.ret == 0,
{
    assert(v.mutex_holds.insert((tid, mutex_id)).remove((tid, mutex_id)) =~= v.mutex_holds);
    assert(v.mutex_holds.remove((tid, mutex_id)) =~= v.mutex_holds);
}

/// Releasing a unit of a semaphore right after acquiring it restores the
/// bookkeeping of semaphore holds.
pub proof fn lemma_down_up_round_trip(v: SyncView, tid: usize, sem_id: usize)
    requires
        v.wf(),
        v.sem_holds.contains_key((tid, sem_id)) ==> v.sem_holds[(tid, sem_id)] < usize::MAX,
    ensures
        semaphore_up_result(semaphore_down_result(v, tid, sem_id).0, tid, sem_id).0 == v,
{
    if v.detection {
        let k = (tid, sem_id);
        let h = v.sem_holds;
        let h2 = holds_after_down(h, tid, sem_id);
        if h.contains_key(k) {
            assert(h[k] > 0);
            assert(h2.insert(k, (h2[k] - 1) as usize) =~= h);
        } else {
            assert(h2.remove(k) =~= h);
        }
    }
}

/// A new resource takes the first free slot, which then holds it, and
/// leaves every other slot as it was.
pub proof fn lemma_created_slot<T>(s: Seq<Option<T>>, item: T)
    ensures
        0 <= first_free(s) <= s.len(),
        first_free(s) < s.len() ==> s[first_free(s)] is None,
        forall|k: int| 0 <= k < first_free(s) ==> s[k] is Some,
        with_item(s, item).len() == if first_free(s) < s.len() { s.len() } else { s.len() + 1 },
        with_item(s, item)[first_free(s)] == Some(item),
        forall|k: int| 0 <= k < s.len() && k != first_free(s) ==> #[trigger] with_item(s, item)[k] == s[k],
{
    crate::slots::lemma_first_free_from_bounds(s, 0);
}


/// With detection on, a thread that asks for a semaphore with no free unit,
/// when no other thread holds a unit of it, is refused.
pub proof fn lemma_self_wait_refused(
    v: SyncView,
    tid: usize,
    sem_id: usize,
    sems: Seq<Option<SemaphoreSnapshot>>,
    thread_count: nat,
)
    requires
        v.detection,
        sem_id < sems.len(),
        sems[sem_id as int] is Some,
        sems[sem_id as int]->0.count <= 0,
        tid < thread_count,
        forall|t: int| 0 <= t < thread_count && t != tid ==> units_held(v.sem_holds, t, sem_id as int) == 0,
    ensures
        semaphore_down_refused(v, tid, sem_id, sems, thread_count),
{
    assert(units_free(sems, sem_id as int) == 0);
    lemma_no_other_holder_unsafe(v.sem_holds, sems, thread_count, tid, sem_id);
}

} // verus!
