//! The banker's safety check for a semaphore request.
//!
//! The state is safe when the threads can finish one after another: a
//! thread can finish once the unit it waits for (if any) is free or held by
//! a thread that has already finished, and a finished thread releases every
//! unit it holds. Each thread waits for at most one unit, of the semaphore in
//! whose wait queue it stands; the requesting thread waits for a unit of the
//! semaphore it asks for.
use vstd::prelude::*;
use std::collections::BTreeMap;
use crate::sem_deadlock::{
    blocks_on, last_blocking, lemma_queued_thread_waits, waiting_vector, waits_on, SemaphoreSnapshot,
};
use crate::wait_graph::{lemma_unvisited_monotone, unvisited};

verus! {

/// Units of semaphore `s` held by thread `t`.
pub open spec fn units_held(holds: Map<(usize, usize), usize>, t: int, s: int) -> int {
    if holds.contains_key((t as usize, s as usize)) {
        holds[(t as usize, s as usize)] as int
    } else {
        0
    }
}

/// Free units of semaphore `s`: its counter when positive.
pub open spec fn units_free(sems: Seq<Option<SemaphoreSnapshot>>, s: int) -> int {
    match sems[s] {
        Some(snap) => if snap.count > 0 {
            snap.count as int
        } else {
            0
        },
        None => 0,
    }
}

/// Units of semaphore `s` held by the threads below `k` marked in `done`.
pub open spec fn units_released(holds: Map<(usize, usize), usize>, done: Seq<bool>, s: int, k: int) -> int
    decreases k,
{
    if k <= 0 {
        0
    } else {
        units_released(holds, done, s, k - 1) + if done[k - 1] {
            units_held(holds, k - 1, s)
        } else {
            0
        }
    }
}

/// Thread `t` can finish once the threads marked in `done` have finished.
pub open spec fn can_finish(
    holds: Map<(usize, usize), usize>,
    sems: Seq<Option<SemaphoreSnapshot>>,
    current_tid: usize,
    sem_id: usize,
    done: Seq<bool>,
    t: int,
) -> bool {
    match waits_on(sems, current_tid, sem_id, t as usize) {
        None => true,
        Some(s) => units_free(sems, s as int) + units_released(holds, done, s as int, done.len() as int)
            >= 1,
    }
}

/// The threads that come before position `i` of `order`.
pub open spec fn done_before(order: Seq<int>, i: int, n: nat) -> Seq<bool> {
    Seq::new(n, |t: int| order.subrange(0, i).contains(t))
}

/// `order` lists every thread once, and each can finish after those before it.
pub open spec fn is_safe_order(
    holds: Map<(usize, usize), usize>,
    sems: Seq<Option<SemaphoreSnapshot>>,
    n: nat,
    current_tid: usize,
    sem_id: usize,
    order: Seq<int>,
) -> bool {
    &&& order.no_duplicates()
    &&& forall|i: int| 0 <= i < order.len() ==> 0 <= #[trigger] order[i] < n
    &&& forall|t: int| 0 <= t < n ==> #[trigger] order.contains(t)
    &&& forall|i: int|
        0 <= i < order.len() ==> #[trigger] can_finish(
            holds,
            sems,
            current_tid,
            sem_id,
            done_before(order, i, n),
            order[i],
        )
}

/// Letting `current_tid` wait for a unit of `sem_id` leaves the process in a
/// safe state: some order lets every thread finish. A semaphore id outside
/// the table, or a process without threads, counts as safe.
pub open spec fn banker_safe(
    holds: Map<(usize, usize), usize>,
    sems: Seq<Option<SemaphoreSnapshot>>,
    n: nat,
    current_tid: usize,
    sem_id: usize,
) -> bool {
    sem_id >= sems.len() || n == 0 || exists|order: Seq<int>|
        is_safe_order(holds, sems, n, current_tid, sem_id, order)
}

proof fn lemma_released_nonneg(holds: Map<(usize, usize), usize>, done: Seq<bool>, s: int, k: int)
    ensures
        units_released(holds, done, s, k) >= 0,
    decreases k,
{
    if k > 0 {
        lemma_released_nonneg(holds, done, s, k - 1);
    }
}

proof fn lemma_released_none(holds: Map<(usize, usize), usize>, done: Seq<bool>, s: int, k: int)
    requires
        k <= done.len(),
        forall|i: int| 0 <= i < done.len() ==> !#[trigger] done[i],
    ensures
        units_released(holds, done, s, k) == 0,
    decreases k,
{
    if k > 0 {
        lemma_released_none(holds, done, s, k - 1);
    }
}

proof fn lemma_released_mark(holds: Map<(usize, usize), usize>, done: Seq<bool>, t: int, s: int, k: int)
    requires
        0 <= t < done.len(),
        !done[t],
        k <= done.len(),
    ensures
        units_released(holds, done.update(t, true), s, k) == units_released(holds, done, s, k) + if t
            < k {
            units_held(holds, t, s)
        } else {
            0
        },
    decreases k,
{
    if k > 0 {
        lemma_released_mark(holds, done, t, s, k - 1);
    }
}

proof fn lemma_released_monotone(
    holds: Map<(usize, usize), usize>,
    a: Seq<bool>,
    b: Seq<bool>,
    s: int,
    k: int,
)
    requires
        a.len() == b.len(),
        k <= a.len(),
        forall|i: int| 0 <= i < a.len() && #[trigger] a[i] ==> b[i],
    ensures
        units_released(holds, a, s, k) <= units_released(holds, b, s, k),
    decreases k,
{
    if k > 0 {
        lemma_released_monotone(holds, a, b, s, k - 1);
    }
}

/// In a state where no unfinished thread can finish, a safe order has
/// every one of its first `i` threads finished.
proof fn lemma_safe_prefix_done(
    holds: Map<(usize, usize), usize>,
    sems: Seq<Option<SemaphoreSnapshot>>,
    n: nat,
    current_tid: usize,
    sem_id: usize,
    order: Seq<int>,
    done: Seq<bool>,
    i: int,
)
    requires
        is_safe_order(holds, sems, n, current_tid, sem_id, order),
        done.len() == n,
        forall|t: int|
            0 <= t < n && !#[trigger] done[t] ==> !can_finish(holds, sems, current_tid, sem_id, done, t),
        0 <= i <= order.len(),
    ensures
        forall|j: int| 0 <= j < i ==> done[#[trigger] order[j]],
    decreases i,
{
    if i > 0 {
        lemma_safe_prefix_done(holds, sems, n, current_tid, sem_id, order, done, i - 1);
        let before = done_before(order, i - 1, n);
        assert forall|x: int| 0 <= x < n && #[trigger] before[x] implies done[x] by {
            let pre = order.subrange(0, i - 1);
            let j = choose|j: int| 0 <= j < pre.len() && pre[j] == x;
            assert(order[j] == x);
        }
        let t = order[i - 1];
        assert(can_finish(holds, sems, current_tid, sem_id, before, t));
        match waits_on(sems, current_tid, sem_id, t as usize) {
            Some(s) => {
                lemma_released_monotone(holds, before, done, s as int, n as int);
            },
            None => {},
        }
        assert(done[t]);
    }
}

/// Whether letting thread `current_tid` wait for a unit of semaphore
/// `sem_id` leaves the process in a safe state, by the banker's algorithm.
///
/// `sem_holds` counts the units held, keyed by (thread id, semaphore id);
/// `semaphores` is the process's semaphore table (counters and wait queues)
/// and `thread_count` its number of threads.
pub fn semaphore_request_is_safe(
    sem_holds: &BTreeMap<(usize, usize), usize>,
    semaphores: &Vec<Option<SemaphoreSnapshot>>,
    thread_count: usize,
    current_tid: usize,
    sem_id: usize,
) -> (safe: bool)
    requires
        sem_id < semaphores.len() && thread_count > 0 ==> current_tid < thread_count,
    ensures
        safe == banker_safe(sem_holds@, semaphores@, thread_count as nat, current_tid, sem_id),
{
    let sem_count = semaphores.len();
    if sem_id >= sem_count || thread_count == 0 {
        return true;
    }
    let n = thread_count;
    let ghost holds = sem_holds@;
    let ghost sems = semaphores@;
    let waiting = waiting_vector(semaphores, n, current_tid, sem_id);
    // the threads that have finished
    let mut done: Vec<bool> = Vec::new();
    let mut t: usize = 0;
    while t < n
        invariant
            t <= n,
            done@.len() == t,
            forall|k: int| 0 <= k < t ==> !#[trigger] done@[k],
        decreases n - t,
    {
        done.push(false);
        t += 1;
    }
    // whether a unit of each semaphore is free or released
    let mut has_unit: Vec<bool> = Vec::new();
    let mut s: usize = 0;
    while s < sem_count
        invariant
            sem_count == semaphores.len(),
            sems == semaphores@,
            done@.len() == n,
            forall|k: int| 0 <= k < n ==> !#[trigger] done@[k],
            s <= sem_count,
            has_unit@.len() == s,
            forall|j: int|
                0 <= j < s ==> #[trigger] has_unit@[j] == (units_free(sems, j) + units_released(
                    holds,
                    done@,
                    j,
                    n as int,
                ) >= 1),
        decreases sem_count - s,
    {
        let free = match &semaphores[s] {
            Some(sem) => sem.count > 0,
            None => false,
        };
        proof {
            lemma_released_none(holds, done@, s as int, n as int);
        }
        has_unit.push(free);
        s += 1;
    }
    let ghost mut order: Seq<int> = Seq::empty();
    let mut progress = true;
    while progress
        invariant
            sem_count == semaphores.len(),
            sems == semaphores@,
            holds == sem_holds@,
            n > 0,
            waiting@.len() == n,
            forall|k: int|
                0 <= k < n ==> #[trigger] waiting@[k] == waits_on(sems, current_tid, sem_id, k as usize),
            forall|k: int| 0 <= k < n ==> (#[trigger] waiting@[k] matches Some(x) ==> x < sem_count),
            done@.len() == n,
            has_unit@.len() == sem_count,
            forall|j: int|
                0 <= j < sem_count ==> #[trigger] has_unit@[j] == (units_free(sems, j)
                    + units_released(holds, done@, j, n as int) >= 1),
            order.no_duplicates(),
            forall|i: int| 0 <= i < order.len() ==> 0 <= #[trigger] order[i] < n,
            forall|x: int| 0 <= x < n ==> (#[trigger] done@[x] <==> order.contains(x)),
            forall|i: int|
                0 <= i < order.len() ==> #[trigger] can_finish(
                    holds,
                    sems,
                    current_tid,
                    sem_id,
                    done_before(order, i, n as nat),
                    order[i],
                ),
            !progress ==> forall|x: int|
                0 <= x < n && !#[trigger] done@[x] ==> !can_finish(
                    holds,
                    sems,
                    current_tid,
                    sem_id,
                    done@,
                    x,
                ),
        decreases unvisited(done@) + if progress { 1nat } else { 0nat },
    {
        progress = false;
        let ghost d0 = done@;
        let mut t: usize = 0;
        while t < n
            invariant
                sem_count == semaphores.len(),
                sems == semaphores@,
                holds == sem_holds@,
                t <= n,
                waiting@.len() == n,
                forall|k: int|
                    0 <= k < n ==> #[trigger] waiting@[k] == waits_on(
                        sems,
                        current_tid,
                        sem_id,
                        k as usize,
                    ),
                forall|k: int| 0 <= k < n ==> (#[trigger] waiting@[k] matches Some(x) ==> x < sem_count),
                done@.len() == n,
                d0.len() == n,
                has_unit@.len() == sem_count,
                forall|j: int|
                    0 <= j < sem_count ==> #[trigger] has_unit@[j] == (units_free(sems, j)
                        + units_released(holds, done@, j, n as int) >= 1),
                order.no_duplicates(),
                forall|i: int| 0 <= i < order.len() ==> 0 <= #[trigger] order[i] < n,
                forall|x: int| 0 <= x < n ==> (#[trigger] done@[x] <==> order.contains(x)),
                forall|i: int|
                    0 <= i < order.len() ==> #[trigger] can_finish(
                        holds,
                        sems,
                        current_tid,
                        sem_id,
                        done_before(order, i, n as nat),
                        order[i],
                    ),
                forall|i: int| 0 <= i < n && #[trigger] d0[i] ==> done@[i],
                progress ==> unvisited(done@) < unvisited(d0),
                !progress ==> done@ == d0,
                !progress ==> forall|x: int|
                    0 <= x < t && !#[trigger] done@[x] ==> !can_finish(
                        holds,
                        sems,
                        current_tid,
                        sem_id,
                        done@,
                        x,
                    ),
            decreases n - t,
        {
            if !done[t] {
                let ok = match waiting[t] {
                    Some(w) => has_unit[w],
                    None => true,
                };
                proof {
                    assert(ok == can_finish(holds, sems, current_tid, sem_id, done@, t as int));
                }
                if ok {
                    let ghost before = done@;
                    // the thread finishes and releases every unit it holds
                    let mut j: usize = 0;
                    while j < sem_count
                        invariant
                            sem_count == semaphores.len(),
                            sems == semaphores@,
                            holds == sem_holds@,
                            t < n,
                            done@ == before,
                            before.len() == n,
                            j <= sem_count,
                            has_unit@.len() == sem_count,
                            forall|x: int|
                                0 <= x < sem_count ==> #[trigger] has_unit@[x] == (units_free(sems, x)
                                    + units_released(holds, before, x, n as int) + if x < j {
                                    units_held(holds, t as int, x)
                                } else {
                                    0
                                } >= 1),
                        decreases sem_count - j,
                    {
                        let held: usize = match sem_holds.get(&(t, j)) {
                            Some(c) => *c,
                            None => 0,
                        };
                        proof {
                            assert(held == units_held(holds, t as int, j as int));
                            lemma_released_nonneg(holds, before, j as int, n as int);
                        }
                        if held > 0 {
                            has_unit.set(j, true);
                        }
                        j += 1;
                    }
                    done.set(t, true);
                    proof {
                        assert(!before[t as int]);
                        assert forall|x: int| 0 <= x < sem_count implies #[trigger] has_unit@[x] == (
                        units_free(sems, x) + units_released(holds, done@, x, n as int) >= 1) by {
                            lemma_released_mark(holds, before, t as int, x, n as int);
                        }
                        let old_order = order;
                        order = order.push(t as int);
                        assert(!old_order.contains(t as int));
                        assert forall|x: int| 0 <= x < n implies (#[trigger] done@[x] <==> order.contains(
                            x,
                        )) by {
                            if x == t {
                                assert(order[old_order.len() as int] == x);
                            } else {
                                assert(done@[x] == before[x]);
                                if old_order.contains(x) {
                                    let k = choose|k: int| 0 <= k < old_order.len() && old_order[k] == x;
                                    assert(order[k] == x);
                                }
                                if order.contains(x) {
                                    let k = choose|k: int| 0 <= k < order.len() && order[k] == x;
                                    assert(old_order[k] == x);
                                }
                            }
                        }
                        assert forall|i: int| 0 <= i < order.len() implies #[trigger] can_finish(
                            holds,
                            sems,
                            current_tid,
                            sem_id,
                            done_before(order, i, n as nat),
                            order[i],
                        ) by {
                            if i < old_order.len() {
                                assert(order.subrange(0, i) =~= old_order.subrange(0, i));
                                assert(done_before(order, i, n as nat) == done_before(
                                    old_order,
                                    i,
                                    n as nat,
                                ));
                            } else {
                                assert(order.subrange(0, i) =~= old_order);
                                assert forall|x: int| 0 <= x < n implies done_before(
                                    order,
                                    i,
                                    n as nat,
                                )[x] == before[x] by {
                                    assert(before[x] == old_order.contains(x));
                                }
                                assert(done_before(order, i, n as nat) =~= before);
                            }
                        }
                        assert(order.no_duplicates());
                        lemma_unvisited_monotone(d0, done@, t as int);
                        lemma_unvisited_monotone(before, done@, t as int);
                    }
                    progress = true;
                }
            }
            t += 1;
        }
    }
    // safe exactly when every thread finished
    let mut all = true;
    let mut t: usize = 0;
    while t < n
        invariant
            t <= n,
            done@.len() == n,
            all == forall|x: int| 0 <= x < t ==> #[trigger] done@[x],
        decreases n - t,
    {
        if !done[t] {
            all = false;
        }
        t += 1;
    }
    proof {
        if all {
            assert forall|x: int| 0 <= x < n implies #[trigger] order.contains(x) by {
                assert(done@[x]);
            }
            assert(is_safe_order(holds, sems, n as nat, current_tid, sem_id, order));
        } else {
            let u = choose|x: int| 0 <= x < n && !#[trigger] done@[x];
            if exists|o: Seq<int>| is_safe_order(holds, sems, n as nat, current_tid, sem_id, o) {
                let o = choose|o: Seq<int>| is_safe_order(holds, sems, n as nat, current_tid, sem_id, o);
                lemma_safe_prefix_done(
                    holds,
                    sems,
                    n as nat,
                    current_tid,
                    sem_id,
                    o,
                    done@,
                    o.len() as int,
                );
                assert(o.contains(u));
                let j = choose|j: int| 0 <= j < o.len() && o[j] == u;
                assert(done@[o[j]]);
            }
        }
    }
    all
}


proof fn lemma_released_zero(holds: Map<(usize, usize), usize>, done: Seq<bool>, s: int, k: int)
    requires
        k <= done.len(),
        forall|t: int| 0 <= t < k && #[trigger] done[t] ==> units_held(holds, t, s) == 0,
    ensures
        units_released(holds, done, s, k) == 0,
    decreases k,
{
    if k > 0 {
        lemma_released_zero(holds, done, s, k - 1);
    }
}

/// A thread that asks for a semaphore with no free unit, when no other
/// thread holds a unit of it, would wait for ever: the request is never safe.
pub proof fn lemma_no_other_holder_unsafe(
    holds: Map<(usize, usize), usize>,
    sems: Seq<Option<SemaphoreSnapshot>>,
    n: nat,
    current_tid: usize,
    sem_id: usize,
)
    requires
        sem_id < sems.len(),
        current_tid < n,
        units_free(sems, sem_id as int) == 0,
        forall|t: int| 0 <= t < n && t != current_tid ==> units_held(holds, t, sem_id as int) == 0,
    ensures
        !banker_safe(holds, sems, n, current_tid, sem_id),
{
    if exists|o: Seq<int>| is_safe_order(holds, sems, n, current_tid, sem_id, o) {
        let o = choose|o: Seq<int>| is_safe_order(holds, sems, n, current_tid, sem_id, o);
        let c = current_tid as int;
        assert(o.contains(c));
        let i = choose|i: int| 0 <= i < o.len() && o[i] == c;
        let before = done_before(o, i, n);
        assert(!before[c]) by {
            let pre = o.subrange(0, i);
            if pre.contains(c) {
                let j = choose|j: int| 0 <= j < pre.len() && pre[j] == c;
                assert(o[j] == o[i]);
            }
        }
        lemma_released_zero(holds, before, sem_id as int, n as int);
        assert(can_finish(holds, sems, current_tid, sem_id, before, o[i]));
    }
}


proof fn lemma_none_blocked(sems: Seq<Option<SemaphoreSnapshot>>, k: int, tid: usize)
    requires
        k <= sems.len(),
        forall|j: int| 0 <= j < sems.len() && #[trigger] sems[j] is Some ==> sems[j]->0.count >= 0,
    ensures
        last_blocking(sems, k, tid) is None,
    decreases k,
{
    if k > 0 {
        assert(!blocks_on(sems[k - 1], tid));
        lemma_none_blocked(sems, k - 1, tid);
    }
}

/// A request for a semaphore whose counter is positive, while no thread is
/// blocked on any semaphore, is safe: the free unit lets the requesting
/// thread go on, and every other thread can go on anyway.
pub proof fn lemma_free_unit_is_safe(
    holds: Map<(usize, usize), usize>,
    sems: Seq<Option<SemaphoreSnapshot>>,
    n: nat,
    current_tid: usize,
    sem_id: usize,
)
    requires
        sem_id < sems.len(),
        current_tid < n,
        n <= usize::MAX,
        sems[sem_id as int] is Some,
        sems[sem_id as int]->0.count >= 1,
        forall|j: int| 0 <= j < sems.len() && #[trigger] sems[j] is Some ==> sems[j]->0.count >= 0,
    ensures
        banker_safe(holds, sems, n, current_tid, sem_id),
{
    let order = Seq::new(n, |i: int| i);
    assert forall|i: int, j: int| 0 <= i < order.len() && 0 <= j < order.len() && i != j implies order[i]
        != order[j] by {}
    assert forall|t: int| 0 <= t < n implies #[trigger] order.contains(t) by {
        assert(order[t] == t);
    }
    assert forall|i: int| 0 <= i < order.len() implies #[trigger] can_finish(
        holds,
        sems,
        current_tid,
        sem_id,
        done_before(order, i, n),
        order[i],
    ) by {
        let done = done_before(order, i, n);
        assert(order[i] == i);
        if i == current_tid {
            lemma_released_nonneg(holds, done, sem_id as int, n as int);
        } else {
            lemma_none_blocked(sems, sems.len() as int, i as usize);
        }
    }
    assert(is_safe_order(holds, sems, n, current_tid, sem_id, order));
}

/// Two threads that wait for each other make the state unsafe: the current
/// thread asks for `sem_id`, which has no free unit and of whose units only
/// thread `tid` holds any, while `tid` is queued (in any place) on a
/// semaphore `s` with a negative counter, and on none after it, of whose
/// units only the current thread holds any.
pub proof fn lemma_mutual_wait_is_unsafe(
    holds: Map<(usize, usize), usize>,
    sems: Seq<Option<SemaphoreSnapshot>>,
    n: nat,
    current_tid: usize,
    sem_id: usize,
    tid: usize,
    s: int,
)
    requires
        current_tid < n,
        tid < n,
        tid != current_tid,
        sem_id < sems.len(),
        sems.len() <= usize::MAX,
        sems[sem_id as int] is Some,
        sems[sem_id as int]->0.count <= 0,
        0 <= s < sems.len(),
        sems[s] is Some,
        sems[s]->0.count < 0,
        sems[s]->0.waiters@.contains(tid),
        forall|j: int|
            s < j < sems.len() ==> !(#[trigger] sems[j] is Some && sems[j]->0.count < 0
                && sems[j]->0.waiters@.contains(tid)),
        forall|t: int| 0 <= t < n && t != tid ==> units_held(holds, t, sem_id as int) == 0,
        forall|t: int| 0 <= t < n && t != current_tid ==> units_held(holds, t, s) == 0,
    ensures
        !banker_safe(holds, sems, n, current_tid, sem_id),
{
    lemma_queued_thread_waits(sems, current_tid, sem_id, tid, s);
    if exists|o: Seq<int>| is_safe_order(holds, sems, n, current_tid, sem_id, o) {
        let o = choose|o: Seq<int>| is_safe_order(holds, sems, n, current_tid, sem_id, o);
        let c = current_tid as int;
        let t = tid as int;
        assert(o.contains(c));
        assert(o.contains(t));
        let i = choose|i: int| 0 <= i < o.len() && o[i] == c;
        let j = choose|j: int| 0 <= j < o.len() && o[j] == t;
        // whichever of the two comes first cannot finish
        let (first, other, need) = if i < j { (i, t, sem_id as int) } else { (j, c, s) };
        let before = done_before(o, first, n);
        assert(!before[other]) by {
            let pre = o.subrange(0, first);
            if pre.contains(other) {
                let k = choose|k: int| 0 <= k < pre.len() && pre[k] == other;
                assert(o[k] == other);
            }
        }
        lemma_released_zero(holds, before, need, n as int);
        assert(can_finish(holds, sems, current_tid, sem_id, before, o[first]));
    }
}

} // verus!
