//! Mutex deadlock detection by the record of the mutexes each thread holds.
//!
//! A thread that asks for a mutex it already holds would wait for itself
//! forever; with detection switched on, such a request is reported.
use vstd::prelude::*;

verus! {

/// The detector's state: whether detection is on, a resource graph with a
/// row per mutex id seen, and for each thread id the ids of the mutexes it
/// holds, in the order it took them.
pub struct DeadlockRegistry {
    enabled: bool,
    resource_graph: Vec<Vec<usize>>,
    thread_mutex: Vec<Vec<usize>>,
}

/// The abstract state of a [`DeadlockRegistry`].
pub struct RegistryView {
    pub enabled: bool,
    pub resource_graph: Seq<Seq<usize>>,
    pub thread_mutex: Seq<Seq<usize>>,
}

/// `rows` grown with empty rows to at least `n` rows.
pub open spec fn grown(rows: Seq<Seq<usize>>, n: int) -> Seq<Seq<usize>> {
    if n > rows.len() {
        rows + Seq::new((n - rows.len()) as nat, |i: int| Seq::<usize>::empty())
    } else {
        rows
    }
}

/// Entries other than `m`.
pub open spec fn other_than(m: usize) -> spec_fn(usize) -> bool {
    |x: usize| x != m
}

/// `s` without any occurrence of `m`.
pub open spec fn without(s: Seq<usize>, m: usize) -> Seq<usize> {
    s.filter(other_than(m))
}

/// The rows of a table of vectors, as sequences.
pub open spec fn row_views(rows: Seq<Vec<usize>>) -> Seq<Seq<usize>> {
    rows.map_values(|r: Vec<usize>| r@)
}

proof fn lemma_row_views(rows: Seq<Vec<usize>>)
    ensures
        row_views(rows).len() == rows.len(),
        forall|i: int| 0 <= i < rows.len() ==> #[trigger] row_views(rows)[i] == rows[i]@,
{
}

/// Thread `tid` is recorded as holding mutex `mutex_id`.
pub open spec fn holds(v: RegistryView, tid: usize, mutex_id: usize) -> bool {
    tid < v.thread_mutex.len() && v.thread_mutex[tid as int].contains(mutex_id)
}

/// The state after recording that `tid` took `mutex_id`.
pub open spec fn after_add(v: RegistryView, tid: usize, mutex_id: usize) -> RegistryView {
    if v.enabled {
        let rows = grown(v.thread_mutex, tid + 1);
        RegistryView {
            thread_mutex: rows.update(tid as int, rows[tid as int].push(mutex_id)),
            ..v
        }
    } else {
        v
    }
}

/// The state after recording that `tid` released `mutex_id`.
pub open spec fn after_remove(v: RegistryView, tid: usize, mutex_id: usize) -> RegistryView {
    if v.enabled && tid < v.thread_mutex.len() {
        RegistryView {
            thread_mutex: v.thread_mutex.update(
                tid as int,
                without(v.thread_mutex[tid as int], mutex_id),
            ),
            ..v
        }
    } else {
        v
    }
}

/// The state after a check of `tid` asking for `mutex_id`: with detection
/// on, the tables grow to have rows for that thread and that mutex.
pub open spec fn after_check(v: RegistryView, tid: usize, mutex_id: usize) -> RegistryView {
    if v.enabled {
        RegistryView {
            enabled: true,
            resource_graph: grown(v.resource_graph, mutex_id + 1),
            thread_mutex: grown(v.thread_mutex, tid + 1),
        }
    } else {
        v
    }
}

impl View for DeadlockRegistry {
    type V = RegistryView;

    closed spec fn view(&self) -> RegistryView {
        RegistryView {
            enabled: self.enabled,
            resource_graph: row_views(self.resource_graph@),
            thread_mutex: row_views(self.thread_mutex@),
        }
    }
}

/// Appends empty rows to `rows` until it has at least `n` rows.
fn grow_rows(rows: &mut Vec<Vec<usize>>, n: usize)
    ensures
        row_views(final(rows)@) == grown(row_views(old(rows)@), n as int),
{
    let ghost old_rows = row_views(rows@);
    proof { lemma_row_views(rows@); }
    if rows.len() < n {
        let ghost start = rows.len() as int;
        while rows.len() < n
            invariant
                start <= rows@.len() <= n,
                start == old_rows.len(),
                n > start,
                row_views(rows@) =~= old_rows + Seq::new(
                    (rows@.len() - start) as nat,
                    |i: int| Seq::<usize>::empty(),
                ),
            decreases n - rows.len(),
        {
            let ghost before = rows@;
            rows.push(Vec::new());
            proof {
                lemma_row_views(before);
                lemma_row_views(rows@);
                let lhs = row_views(rows@);
                let rhs = old_rows + Seq::new(
                    (rows@.len() - start) as nat,
                    |i: int| Seq::<usize>::empty(),
                );
                let prev = old_rows + Seq::new(
                    (before.len() - start) as nat,
                    |i: int| Seq::<usize>::empty(),
                );
                assert forall|k: int| 0 <= k < lhs.len() implies lhs[k] == rhs[k] by {
                    if k < before.len() {
                        assert(rows@[k] == before[k]);
                        assert(row_views(before)[k] == prev[k]);
                    }
                }
                assert(lhs =~= rhs);
            }
        }
    } else {
        assert(row_views(rows@) == old_rows);
    }
}

/// A copy of `row`.
fn copy_row(row: &Vec<usize>) -> (r: Vec<usize>)
    ensures
        r@ == row@,
{
    let mut r: Vec<usize> = Vec::new();
    let mut i: usize = 0;
    while i < row.len()
        invariant
            i <= row.len(),
            r@ == row@.subrange(0, i as int),
        decreases row.len() - i,
    {
        r.push(row[i]);
        i += 1;
    }
    assert(row@.subrange(0, row@.len() as int) =~= row@);
    r
}

/// `row` without any occurrence of `m`, the other entries in order.
fn row_without(row: &Vec<usize>, m: usize) -> (r: Vec<usize>)
    ensures
        r@ == without(row@, m),
{
    let mut r: Vec<usize> = Vec::new();
    let mut i: usize = 0;
    while i < row.len()
        invariant
            i <= row.len(),
            r@ == without(row@.subrange(0, i as int), m),
        decreases row.len() - i,
    {
        proof {
            let p = other_than(m);
            assert(row@.subrange(0, i + 1) =~= row@.subrange(0, i as int).push(row@[i as int]));
            row@.subrange(0, i as int).lemma_filter_push(row@[i as int], p);
        }
        if row[i] != m {
            r.push(row[i]);
        }
        i += 1;
    }
    assert(row@.subrange(0, row@.len() as int) =~= row@);
    r
}

impl DeadlockRegistry {
    /// Detection off, nothing recorded.
    pub fn new() -> (r: DeadlockRegistry)
        ensures
            !r@.enabled,
            r@.resource_graph == Seq::<Seq<usize>>::empty(),
            r@.thread_mutex == Seq::<Seq<usize>>::empty(),
    {
        let r = DeadlockRegistry { enabled: false, resource_graph: Vec::new(), thread_mutex: Vec::new() };
        assert(r@.resource_graph =~= Seq::<Seq<usize>>::empty());
        assert(r@.thread_mutex =~= Seq::<Seq<usize>>::empty());
        r
    }

    /// Switches detection on or off; always returns 0.
    pub fn enable_deadlock_detect(&mut self, enabled: bool) -> (r: isize)
        ensures
            r == 0,
            final(self)@ == (RegistryView { enabled, ..old(self)@ }),
    {
        self.enabled = enabled;
        0
    }

    /// Whether detection is on.
    pub fn is_deadlock_enabled(&self) -> (r: bool)
        ensures
            r == self@.enabled,
    {
        self.enabled
    }

    /// Whether thread `tid` asking for mutex `mutex_id` would deadlock: with
    /// detection on, exactly when `tid` already holds `mutex_id`; with
    /// detection off, never.
    pub fn check_deadlock(&mut self, tid: usize, mutex_id: usize) -> (r: bool)
        requires
            old(self)@.enabled ==> tid < usize::MAX && mutex_id < usize::MAX,
        ensures
            r == (old(self)@.enabled && holds(old(self)@, tid, mutex_id)),
            final(self)@ == after_check(old(self)@, tid, mutex_id),
    {
        if !self.enabled {
            return false;
        }
        let ghost v0 = self@;
        if tid >= self.thread_mutex.len() {
            grow_rows(&mut self.thread_mutex, tid + 1);
        } else {
            assert(grown(v0.thread_mutex, tid + 1) == v0.thread_mutex);
        }
        if mutex_id >= self.resource_graph.len() {
            grow_rows(&mut self.resource_graph, mutex_id + 1);
        } else {
            assert(grown(v0.resource_graph, mutex_id + 1) == v0.resource_graph);
        }
        assert(self@ == after_check(v0, tid, mutex_id));
        proof {
            lemma_row_views(self.thread_mutex@);
            assert(self@.thread_mutex.len() >= tid + 1);
        }
        let row = &self.thread_mutex[tid];
        proof {
            assert(self@.thread_mutex[tid as int] == row@);
            if tid >= v0.thread_mutex.len() {
                let extra = Seq::new(
                    (tid + 1 - v0.thread_mutex.len()) as nat,
                    |i: int| Seq::<usize>::empty(),
                );
                assert(grown(v0.thread_mutex, tid + 1)[tid as int] == extra[tid - v0.thread_mutex.len()]);
                assert(row@ == Seq::<usize>::empty());
            } else {
                assert(row@ == v0.thread_mutex[tid as int]);
            }
            assert(holds(v0, tid, mutex_id) <==> row@.contains(mutex_id));
        }
        let mut i: usize = 0;
        while i < row.len()
            invariant
                i <= row.len(),
                forall|k: int| 0 <= k < i ==> row@[k] != mutex_id,
                holds(v0, tid, mutex_id) <==> row@.contains(mutex_id),
                v0.enabled,
                v0 == old(self)@,
                self@ == after_check(v0, tid, mutex_id),
            decreases row.len() - i,
        {
            if row[i] == mutex_id {
                assert(row@[i as int] == mutex_id);
                return true;
            }
            i += 1;
        }
        false
    }

    /// Records that thread `tid` took mutex `mutex_id` (with detection on).
    pub fn add_mutex_hold(&mut self, tid: usize, mutex_id: usize)
        requires
            old(self)@.enabled ==> tid < usize::MAX,
        ensures
            final(self)@ == after_add(old(self)@, tid, mutex_id),
    {
        if !self.enabled {
            return;
        }
        let ghost v0 = self@;
        if tid >= self.thread_mutex.len() {
            grow_rows(&mut self.thread_mutex, tid + 1);
        } else {
            assert(grown(v0.thread_mutex, tid + 1) == v0.thread_mutex);
        }
        proof {
            lemma_row_views(self.thread_mutex@);
            assert(self@.thread_mutex.len() >= tid + 1);
        }
        let mut row = copy_row(&self.thread_mutex[tid]);
        row.push(mutex_id);
        let ghost mid = self.thread_mutex@;
        self.thread_mutex.set(tid, row);
        proof {
            assert(self.thread_mutex@ == mid.update(tid as int, row));
            assert(self@.thread_mutex =~= after_add(v0, tid, mutex_id).thread_mutex);
        }
    }

    /// Records that thread `tid` released mutex `mutex_id` (with detection on).
    pub fn remove_mutex_hold(&mut self, tid: usize, mutex_id: usize)
        ensures
            final(self)@ == after_remove(old(self)@, tid, mutex_id),
    {
        if !self.enabled {
            return;
        }
        if tid < self.thread_mutex.len() {
            let ghost v0 = self@;
            proof { lemma_row_views(self.thread_mutex@); }
            let row = row_without(&self.thread_mutex[tid], mutex_id);
            let ghost mid = self.thread_mutex@;
            self.thread_mutex.set(tid, row);
            proof {
                assert(self.thread_mutex@ == mid.update(tid as int, row));
                lemma_row_views(self.thread_mutex@);
                lemma_row_views(mid);
                assert(self@.thread_mutex =~= after_remove(v0, tid, mutex_id).thread_mutex);
            }
        }
    }
}


/// With detection on, once a thread's taking of a mutex is recorded, the
/// check reports that thread asking for the same mutex again.
pub proof fn lemma_recorded_hold_is_reported(v: RegistryView, tid: usize, mutex_id: usize)
    requires
        v.enabled,
        tid < usize::MAX,
    ensures
        holds(after_add(v, tid, mutex_id), tid, mutex_id),
{
    let rows = grown(v.thread_mutex, tid + 1);
    assert(rows.len() >= tid + 1);
    let row = rows[tid as int].push(mutex_id);
    assert(row[row.len() - 1] == mutex_id);
    assert(after_add(v, tid, mutex_id).thread_mutex[tid as int] == row);
}

/// With detection on, once a thread's release of a mutex is recorded, the
/// check no longer reports that thread asking for it.
pub proof fn lemma_released_hold_is_not_reported(v: RegistryView, tid: usize, mutex_id: usize)
    requires
        v.enabled,
    ensures
        !holds(after_remove(v, tid, mutex_id), tid, mutex_id),
{
    if tid < v.thread_mutex.len() {
        let row = without(v.thread_mutex[tid as int], mutex_id);
        assert(after_remove(v, tid, mutex_id).thread_mutex[tid as int] == row);
        if row.contains(mutex_id) {
            let i = choose|i: int| 0 <= i < row.len() && row[i] == mutex_id;
            v.thread_mutex[tid as int].lemma_filter_pred(other_than(mutex_id), i);
        }
    }
}

/// A check changes no record of which thread holds which mutex.
pub proof fn lemma_check_keeps_holds(v: RegistryView, tid: usize, mutex_id: usize, t: usize, m: usize)
    ensures
        holds(after_check(v, tid, mutex_id), t, m) == holds(v, t, m),
{
    if v.enabled {
        let rows = grown(v.thread_mutex, tid + 1);
        if t < rows.len() && t >= v.thread_mutex.len() {
            let extra = Seq::new(
                (tid + 1 - v.thread_mutex.len()) as nat,
                |i: int| Seq::<usize>::empty(),
            );
            assert(rows[t as int] == extra[t - v.thread_mutex.len()]);
            assert(!rows[t as int].contains(m));
        }
        if t < v.thread_mutex.len() {
            assert(rows[t as int] == v.thread_mutex[t as int]);
        }
    }
}

} // verus!
