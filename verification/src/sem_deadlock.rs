//! Semaphore deadlock check on the wait-for graph of a process's threads.
//!
//! Thread `i` waits for thread `j` when `i` waits on a semaphore of which
//! `j` holds at least one unit. Letting the current thread wait on a
//! semaphore is safe unless a cycle of that graph can be reached from it.
use vstd::prelude::*;
use std::collections::BTreeMap;
use crate::wait_graph::{adjacency, reaches_cycle, reaches_cycle_from, square};

verus! {

/// What the check reads of one semaphore: its counter and the threads
/// (by thread id) in its wait queue, front first.
pub struct SemaphoreSnapshot {
    pub count: isize,
    pub waiters: Vec<usize>,
}

/// Thread `tid` is blocked on the semaphore `s`: the counter is negative
/// and `tid` is in its wait queue.
pub open spec fn blocks_on(s: Option<SemaphoreSnapshot>, tid: usize) -> bool {
    match s {
        Some(snap) => snap.count < 0 && snap.waiters@.contains(tid),
        None => false,
    }
}

/// The semaphore with the highest id below `k` on which `tid` is blocked.
pub open spec fn last_blocking(
    sems: Seq<Option<SemaphoreSnapshot>>,
    k: int,
    tid: usize,
) -> Option<usize>
    decreases k,
{
    if k <= 0 {
        None
    } else if blocks_on(sems[k - 1], tid) {
        Some((k - 1) as usize)
    } else {
        last_blocking(sems, k - 1, tid)
    }
}

/// The semaphore that thread `tid` waits on, the current thread being
/// about to wait on `sem_id`.
pub open spec fn waits_on(
    sems: Seq<Option<SemaphoreSnapshot>>,
    current_tid: usize,
    sem_id: usize,
    tid: usize,
) -> Option<usize> {
    if tid == current_tid {
        Some(sem_id)
    } else {
        last_blocking(sems, sems.len() as int, tid)
    }
}

/// Thread `tid` holds at least one unit of semaphore `sid`.
pub open spec fn holds_unit(holds: Map<(usize, usize), usize>, tid: usize, sid: usize) -> bool {
    holds.contains_key((tid, sid)) && holds[(tid, sid)] > 0
}

/// Edge `i -> j` of the wait-for graph.
pub open spec fn waits_for(
    holds: Map<(usize, usize), usize>,
    sems: Seq<Option<SemaphoreSnapshot>>,
    current_tid: usize,
    sem_id: usize,
    i: usize,
    j: usize,
) -> bool {
    match waits_on(sems, current_tid, sem_id, i) {
        Some(s) => holds_unit(holds, j, s),
        None => false,
    }
}

/// The wait-for graph over the threads `0 .. thread_count`.
pub open spec fn wait_for_graph(
    holds: Map<(usize, usize), usize>,
    sems: Seq<Option<SemaphoreSnapshot>>,
    thread_count: nat,
    current_tid: usize,
    sem_id: usize,
) -> Seq<Seq<bool>> {
    Seq::new(
        thread_count,
        |i: int|
            Seq::new(
                thread_count,
                |j: int| waits_for(holds, sems, current_tid, sem_id, i as usize, j as usize),
            ),
    )
}

/// Whether letting `current_tid` wait on `sem_id` is free of deadlock.
pub open spec fn sem_wait_is_safe(
    holds: Map<(usize, usize), usize>,
    sems: Seq<Option<SemaphoreSnapshot>>,
    thread_count: nat,
    current_tid: usize,
    sem_id: usize,
) -> bool {
    sem_id >= sems.len() || thread_count == 0 || !reaches_cycle(
        wait_for_graph(holds, sems, thread_count, current_tid, sem_id),
        current_tid as int,
    )
}

proof fn lemma_prefix_contains(s: Seq<usize>, w: int, t: usize)
    requires
        0 <= w < s.len(),
    ensures
        s.subrange(0, w + 1).contains(t) <==> (s.subrange(0, w).contains(t) || s[w] == t),
{
    let a = s.subrange(0, w + 1);
    let b = s.subrange(0, w);
    if a.contains(t) {
        let k = choose|k: int| 0 <= k < a.len() && a[k] == t;
        if k < w {
            assert(b[k] == t);
        }
    }
    if b.contains(t) {
        let k = choose|k: int| 0 <= k < b.len() && b[k] == t;
        assert(a[k] == t);
    }
    if s[w] == t {
        assert(a[w] == t);
    }
}

/// Each thread's last semaphore below `k` is below `k`.
proof fn lemma_last_blocking_bound(sems: Seq<Option<SemaphoreSnapshot>>, k: int, tid: usize)
    requires
        0 <= k,
    ensures
        last_blocking(sems, k, tid) matches Some(s) ==> s < k,
    decreases k,
{
    if k > 0 && !blocks_on(sems[k - 1], tid) {
        lemma_last_blocking_bound(sems, k - 1, tid);
    }
}

/// The semaphore each of the threads `0 .. n` waits on, the current thread
/// being about to wait on `sem_id`.
pub(crate) fn waiting_vector(
    semaphores: &Vec<Option<SemaphoreSnapshot>>,
    n: usize,
    current_tid: usize,
    sem_id: usize,
) -> (waiting: Vec<Option<usize>>)
    requires
        sem_id < semaphores.len(),
        current_tid < n,
    ensures
        waiting@.len() == n,
        forall|k: int|
            0 <= k < n ==> #[trigger] waiting@[k] == waits_on(semaphores@, current_tid, sem_id, k as usize),
        forall|k: int| 0 <= k < n ==> (#[trigger] waiting@[k] matches Some(s) ==> s < semaphores.len()),
{
    let sem_count = semaphores.len();
    let ghost sems = semaphores@;
    // the semaphore each thread waits on
    let mut waiting: Vec<Option<usize>> = Vec::new();
    let mut t: usize = 0;
    while t < n
        invariant
            t <= n,
            waiting@.len() == t,
            forall|k: int| 0 <= k < t ==> #[trigger] waiting@[k] == None::<usize>,
        decreases n - t,
    {
        waiting.push(None);
        t += 1;
    }
    let mut sid: usize = 0;
    while sid < sem_count
        invariant
            sem_count == semaphores.len(),
            sems == semaphores@,
            sid <= sem_count,
            waiting@.len() == n,
            forall|k: int|
                0 <= k < n ==> #[trigger] waiting@[k] == last_blocking(sems, sid as int, k as usize),
        decreases sem_count - sid,
    {
        match &semaphores[sid] {
            Some(sem) => {
                if sem.count < 0 {
                    let mut w: usize = 0;
                    while w < sem.waiters.len()
                        invariant
                            sems == semaphores@,
                            sid < sem_count,
                            sems[sid as int] == Some(*sem),
                            sem.count < 0,
                            w <= sem.waiters.len(),
                            waiting@.len() == n,
                            forall|k: int|
                                0 <= k < n ==> #[trigger] waiting@[k] == if sem.waiters@.subrange(
                                    0,
                                    w as int,
                                ).contains(k as usize) {
                                    Some(sid)
                                } else {
                                    last_blocking(sems, sid as int, k as usize)
                                },
                        decreases sem.waiters.len() - w,
                    {
                        let tid = sem.waiters[w];
                        if tid < n {
                            waiting.set(tid, Some(sid));
                        }
                        proof {
                            assert forall|k: int| 0 <= k < n implies #[trigger] waiting@[k] == if sem.waiters@.subrange(
                                0,
                                w + 1,
                            ).contains(k as usize) {
                                Some(sid)
                            } else {
                                last_blocking(sems, sid as int, k as usize)
                            } by {
                                lemma_prefix_contains(sem.waiters@, w as int, k as usize);
                            }
                        }
                        w += 1;
                    }
                    proof {
                        assert(sem.waiters@.subrange(0, sem.waiters@.len() as int) =~= sem.waiters@);
                    }
                }
            },
            None => {},
        }
        sid += 1;
    }
    waiting.set(current_tid, Some(sem_id));
    proof {
        assert forall|k: int| 0 <= k < n implies (#[trigger] waiting@[k] matches Some(s) ==> s < semaphores.len()) by {
            lemma_last_blocking_bound(semaphores@, semaphores@.len() as int, k as usize);
        }
    }
    waiting
}

/// Checks whether the current thread `current_tid` may wait on semaphore
/// `sem_id` without deadlock.
///
/// `sem_holds` counts the units of each semaphore held by each thread
/// (keyed by thread id and semaphore id), `semaphores` is the process's
/// semaphore table and `thread_count` the number of its threads. Returns
/// `true` (safe) when `sem_id` is not a semaphore of the table or the
/// process has no thread, and otherwise `false` exactly when a cycle of the
/// wait-for graph can be reached from the current thread.
pub fn check_sem_deadlock(
    sem_holds: &BTreeMap<(usize, usize), usize>,
    semaphores: &Vec<Option<SemaphoreSnapshot>>,
    thread_count: usize,
    current_tid: usize,
    sem_id: usize,
) -> (safe: bool)
    requires
        sem_id < semaphores.len() && thread_count > 0 ==> current_tid < thread_count,
    ensures
        safe == sem_wait_is_safe(
            sem_holds@,
            semaphores@,
            thread_count as nat,
            current_tid,
            sem_id,
        ),
{
    let sem_count = semaphores.len();
    if sem_id >= sem_count || thread_count == 0 {
        return true;
    }
    let n = thread_count;
    let ghost sems = semaphores@;
    let waiting = waiting_vector(semaphores, n, current_tid, sem_id);
    // the wait-for graph
    let mut g: Vec<Vec<bool>> = Vec::new();
    let mut i: usize = 0;
    while i < n
        invariant
            i <= n,
            waiting@.len() == n,
            forall|k: int|
                0 <= k < n ==> #[trigger] waiting@[k] == waits_on(
                    sems,
                    current_tid,
                    sem_id,
                    k as usize,
                ),
            g@.len() == i,
            forall|a: int|
                0 <= a < i ==> (#[trigger] g@[a])@.len() == n && forall|b: int|
                    0 <= b < n ==> #[trigger] g@[a]@[b] == waits_for(
                        sem_holds@,
                        sems,
                        current_tid,
                        sem_id,
                        a as usize,
                        b as usize,
                    ),
        decreases n - i,
    {
        let mut row: Vec<bool> = Vec::new();
        let mut j: usize = 0;
        while j < n
            invariant
                i < n,
                j <= n,
                waiting@.len() == n,
                waiting@[i as int] == waits_on(sems, current_tid, sem_id, i),
                row@.len() == j,
                forall|b: int|
                    0 <= b < j ==> #[trigger] row@[b] == waits_for(
                        sem_holds@,
                        sems,
                        current_tid,
                        sem_id,
                        i,
                        b as usize,
                    ),
            decreases n - j,
        {
            let e = match waiting[i] {
                Some(s) => match sem_holds.get(&(j, s)) {
                    Some(c) => *c > 0,
                    None => false,
                },
                None => false,
            };
            row.push(e);
            j += 1;
        }
        g.push(row);
        i += 1;
    }
    proof {
        let wg = wait_for_graph(sem_holds@, sems, n as nat, current_tid, sem_id);
        assert forall|a: int| 0 <= a < n implies #[trigger] adjacency(&g)[a] =~= wg[a] by {
            assert(adjacency(&g)[a] == g@[a]@);
        }
        assert(adjacency(&g) =~= wg);
        assert(square(adjacency(&g)));
    }
    !reaches_cycle_from(&g, current_tid)
}


/// A thread that would wait on a semaphore of which it holds a unit itself
/// waits for itself: letting it wait is never safe.
pub proof fn lemma_self_wait_is_unsafe(
    holds: Map<(usize, usize), usize>,
    sems: Seq<Option<SemaphoreSnapshot>>,
    thread_count: nat,
    current_tid: usize,
    sem_id: usize,
)
    requires
        sem_id < sems.len(),
        current_tid < thread_count,
        holds_unit(holds, current_tid, sem_id),
    ensures
        !sem_wait_is_safe(holds, sems, thread_count, current_tid, sem_id),
{
    let g = wait_for_graph(holds, sems, thread_count, current_tid, sem_id);
    let c = current_tid as int;
    let p = seq![c, c];
    assert(g[c][c]);
    assert(crate::wait_graph::step(g, p, 0));
    assert(crate::wait_graph::is_walk(g, p));
    assert(p[0] == p[p.len() - 1]);
}

/// When no thread holds a unit of any semaphore, no thread waits for
/// another and every request is safe.
pub proof fn lemma_no_holds_is_safe(
    holds: Map<(usize, usize), usize>,
    sems: Seq<Option<SemaphoreSnapshot>>,
    thread_count: nat,
    current_tid: usize,
    sem_id: usize,
)
    requires
        forall|t: usize, s: usize| !#[trigger] holds_unit(holds, t, s),
    ensures
        sem_wait_is_safe(holds, sems, thread_count, current_tid, sem_id),
{
    let g = wait_for_graph(holds, sems, thread_count, current_tid, sem_id);
    if reaches_cycle(g, current_tid as int) {
        let (p, k) = choose|p: Seq<int>, k: int|
            #![trigger crate::wait_graph::is_walk(g, p), p[k]]
            crate::wait_graph::is_walk(g, p) && p[0] == current_tid && 0 <= k < p.len() - 1
                && p[k] == p[p.len() - 1];
        assert(crate::wait_graph::step(g, p, 0));
        let i = p[0];
        let j = p[1];
        assert(g[i][j]);
        assert(waits_for(holds, sems, current_tid, sem_id, i as usize, j as usize));
    }
}


proof fn lemma_last_blocking_at_least(sems: Seq<Option<SemaphoreSnapshot>>, k: int, tid: usize, s: int)
    requires
        0 <= s < k <= sems.len(),
        sems.len() <= usize::MAX,
        sems[s] is Some,
        sems[s]->0.count < 0,
        sems[s]->0.waiters@.contains(tid),
    ensures
        last_blocking(sems, k, tid) is Some,
        s <= last_blocking(sems, k, tid)->0 < k,
        (forall|j: int|
            s < j < k ==> !(#[trigger] sems[j] is Some && sems[j]->0.count < 0
                && sems[j]->0.waiters@.contains(tid))) ==> last_blocking(sems, k, tid) == Some(
            s as usize,
        ),
    decreases k,
{
    if k - 1 > s && !blocks_on(sems[k - 1], tid) {
        lemma_last_blocking_at_least(sems, k - 1, tid, s);
    }
}

/// Every thread in the wait queue of a semaphore whose counter is negative
/// waits, whatever its place in the queue: on that semaphore, or on one
/// with a higher id whose queue also lists it. Unless it is the current
/// thread, which waits on the semaphore it asks for.
pub proof fn lemma_queued_thread_waits(
    sems: Seq<Option<SemaphoreSnapshot>>,
    current_tid: usize,
    sem_id: usize,
    tid: usize,
    s: int,
)
    requires
        0 <= s < sems.len(),
        sems.len() <= usize::MAX,
        sems[s] is Some,
        sems[s]->0.count < 0,
        sems[s]->0.waiters@.contains(tid),
        tid != current_tid,
    ensures
        waits_on(sems, current_tid, sem_id, tid) is Some,
        s <= waits_on(sems, current_tid, sem_id, tid)->0 < sems.len(),
        (forall|j: int|
            s < j < sems.len() ==> !(#[trigger] sems[j] is Some && sems[j]->0.count < 0
                && sems[j]->0.waiters@.contains(tid))) ==> waits_on(sems, current_tid, sem_id, tid)
            == Some(s as usize),
{
    lemma_last_blocking_at_least(sems, sems.len() as int, tid, s);
}

/// Two threads that wait for each other deadlock: the current thread asks
/// for `sem_id`, of which thread `tid` holds a unit, while `tid` is queued
/// (in any place) on a semaphore `s` with a negative counter, of which the
/// current thread holds a unit, and on no semaphore after `s`. Letting the
/// current thread wait is then never found safe.
pub proof fn lemma_mutual_wait_is_unsafe(
    holds: Map<(usize, usize), usize>,
    sems: Seq<Option<SemaphoreSnapshot>>,
    thread_count: nat,
    current_tid: usize,
    sem_id: usize,
    tid: usize,
    s: int,
)
    requires
        current_tid < thread_count,
        tid < thread_count,
        tid != current_tid,
        sem_id < sems.len(),
        0 <= s < sems.len(),
        sems.len() <= usize::MAX,
        sems[s] is Some,
        sems[s]->0.count < 0,
        sems[s]->0.waiters@.contains(tid),
        forall|j: int|
            s < j < sems.len() ==> !(#[trigger] sems[j] is Some && sems[j]->0.count < 0
                && sems[j]->0.waiters@.contains(tid)),
        holds.contains_key((tid, sem_id)) && holds[(tid, sem_id)] > 0,
        holds.contains_key((current_tid, s as usize)) && holds[(current_tid, s as usize)] > 0,
    ensures
        !sem_wait_is_safe(holds, sems, thread_count, current_tid, sem_id),
{
    lemma_queued_thread_waits(sems, current_tid, sem_id, tid, s);
    let g = wait_for_graph(holds, sems, thread_count, current_tid, sem_id);
    let c = current_tid as int;
    let t = tid as int;
    let p = seq![c, t, c];
    assert(g[c][t]);
    assert(g[t][c]);
    assert(crate::wait_graph::step(g, p, 0));
    assert(crate::wait_graph::step(g, p, 1));
    assert(crate::wait_graph::is_walk(g, p));
    assert(p[0] == p[p.len() - 1]);
}

} // verus!
