//! Cycle detection on a wait-for graph given as an adjacency matrix.
//!
//! The search is the usual depth-first search with a "visited" and an
//! "on the current path" mark per node. Its contract is stated over walks:
//! the search from `root` reports a cycle exactly when some walk that starts
//! at `root` comes back to a node it has already passed.
use vstd::prelude::*;

verus! {

/// The adjacency matrix of `g` as nested sequences.
pub open spec fn adjacency(g: &Vec<Vec<bool>>) -> Seq<Seq<bool>> {
    Seq::new(g@.len(), |i: int| g@[i]@)
}

/// A square adjacency matrix.
pub open spec fn square(g: Seq<Seq<bool>>) -> bool {
    forall|i: int| 0 <= i < g.len() ==> (#[trigger] g[i]).len() == g.len()
}

/// The step of `p` from position `i` to position `i + 1` is an edge of `g`.
pub open spec fn step(g: Seq<Seq<bool>>, p: Seq<int>, i: int) -> bool {
    g[p[i]][p[i + 1]]
}

/// `p` is a non-empty walk in `g`: every node is a node of `g` and
/// consecutive nodes are joined by an edge.
pub open spec fn is_walk(g: Seq<Seq<bool>>, p: Seq<int>) -> bool {
    &&& p.len() >= 1
    &&& forall|i: int| 0 <= i < p.len() ==> 0 <= #[trigger] p[i] < g.len()
    &&& forall|i: int| 0 <= i < p.len() - 1 ==> #[trigger] step(g, p, i)
}

/// Some walk from `root` returns to a node it has already visited,
/// that is, a cycle of `g` can be reached from `root`.
pub open spec fn reaches_cycle(g: Seq<Seq<bool>>, root: int) -> bool {
    exists|p: Seq<int>, k: int|
        #![trigger is_walk(g, p), p[k]]
        is_walk(g, p) && p[0] == root && 0 <= k < p.len() - 1 && p[k] == p[p.len() - 1]
}

/// Number of nodes not yet marked as visited.
pub open spec fn unvisited(s: Seq<bool>) -> nat
    decreases s.len(),
{
    if s.len() == 0 {
        0
    } else {
        unvisited(s.drop_last()) + if s.last() { 0nat } else { 1nat }
    }
}

/// A node whose search has finished: visited and no longer on the current path.
pub open spec fn finished(visited: Seq<bool>, on_path: Seq<bool>, u: int) -> bool {
    visited[u] && !on_path[u]
}

/// The bookkeeping of the depth-first search between two steps:
/// `path` is the current path from the root, marked in `on_path`;
/// every node on it is visited; every finished node has only finished
/// successors, each with a smaller `rank` (the order in which nodes finished).
pub open spec fn search_state(
    g: Seq<Seq<bool>>,
    visited: Seq<bool>,
    on_path: Seq<bool>,
    path: Seq<int>,
    rank: Seq<int>,
    counter: int,
) -> bool {
    let n = g.len();
    &&& visited.len() == n
    &&& on_path.len() == n
    &&& rank.len() == n
    &&& forall|x: int| 0 <= x < n ==> (#[trigger] on_path[x] <==> path.contains(x))
    &&& forall|x: int| 0 <= x < n && #[trigger] on_path[x] ==> visited[x]
    &&& forall|i: int| 0 <= i < path.len() ==> 0 <= #[trigger] path[i] < n
    &&& path.len() >= 1 ==> is_walk(g, path)
    &&& forall|u: int|
        0 <= u < n && #[trigger] finished(visited, on_path, u) ==> 0 <= rank[u] < counter
    &&& forall|u: int, v: int|
        #![trigger g[u][v], finished(visited, on_path, u)]
        0 <= u < n && 0 <= v < n && finished(visited, on_path, u) && g[u][v] ==> {
            &&& finished(visited, on_path, v)
            &&& rank[v] < rank[u]
        }
}

pub(crate) proof fn lemma_unvisited_monotone(a: Seq<bool>, b: Seq<bool>, w: int)
    requires
        a.len() == b.len(),
        forall|i: int| 0 <= i < a.len() && #[trigger] a[i] ==> b[i],
    ensures
        unvisited(b) <= unvisited(a),
        0 <= w < a.len() && !a[w] && b[w] ==> unvisited(b) < unvisited(a),
    decreases a.len(),
{
    if a.len() > 0 {
        let a2 = a.drop_last();
        let b2 = b.drop_last();
        assert forall|i: int| 0 <= i < a2.len() && #[trigger] a2[i] implies b2[i] by {
            assert(a[i]);
        }
        lemma_unvisited_monotone(a2, b2, w);
    }
}

/// Along a walk that starts at a finished node every node is finished and
/// the ranks strictly decrease.
proof fn lemma_walk_from_finished(
    g: Seq<Seq<bool>>,
    visited: Seq<bool>,
    on_path: Seq<bool>,
    path: Seq<int>,
    rank: Seq<int>,
    counter: int,
    p: Seq<int>,
)
    requires
        search_state(g, visited, on_path, path, rank, counter),
        is_walk(g, p),
        finished(visited, on_path, p[0]),
    ensures
        forall|i: int| 0 <= i < p.len() ==> #[trigger] finished(visited, on_path, p[i]),
        forall|i: int, j: int| 0 <= i < j < p.len() ==> rank[p[j]] < rank[p[i]],
    decreases p.len(),
{
    if p.len() > 1 {
        let q = p.drop_last();
        assert forall|i: int| 0 <= i < q.len() - 1 implies #[trigger] step(g, q, i) by {
            assert(step(g, p, i));
        }
        lemma_walk_from_finished(g, visited, on_path, path, rank, counter, q);
        let m = p.len() - 2;
        assert(q[m] == p[m]);
        assert(step(g, p, m));
        assert(finished(visited, on_path, q[m]));
        assert(g[p[m]][p[m + 1]]);
        assert(finished(visited, on_path, p[m + 1]));
        assert forall|i: int, j: int| 0 <= i < j < p.len() implies rank[p[j]] < rank[p[i]] by {
            if j < p.len() - 1 {
                assert(q[i] == p[i] && q[j] == p[j]);
            } else if i < m {
                assert(q[i] == p[i] && q[m] == p[m]);
            }
        }
        assert forall|i: int| 0 <= i < p.len() implies #[trigger] finished(visited, on_path, p[i]) by {
            if i < p.len() - 1 {
                assert(q[i] == p[i]);
                assert(finished(visited, on_path, q[i]));
            }
        }
    }
}

/// No cycle can be reached from a finished node.
proof fn lemma_finished_reaches_no_cycle(
    g: Seq<Seq<bool>>,
    visited: Seq<bool>,
    on_path: Seq<bool>,
    path: Seq<int>,
    rank: Seq<int>,
    counter: int,
    root: int,
)
    requires
        search_state(g, visited, on_path, path, rank, counter),
        0 <= root < g.len(),
        finished(visited, on_path, root),
    ensures
        !reaches_cycle(g, root),
{
    if reaches_cycle(g, root) {
        let (p, k) = choose|p: Seq<int>, k: int|
            #![trigger is_walk(g, p), p[k]]
            is_walk(g, p) && p[0] == root && 0 <= k < p.len() - 1 && p[k] == p[p.len() - 1];
        lemma_walk_from_finished(g, visited, on_path, path, rank, counter, p);
        assert(rank[p[p.len() - 1]] < rank[p[k]]);
    }
}

/// Depth-first search from `node`, which is not yet visited.
///
/// `path` is the current path (the nodes whose search is under way) and
/// `rank`/`counter` are the finishing order of the nodes finished so far.
/// Returns whether a cycle was found, with the finishing order after the search.
fn has_cycle(
    node: usize,
    visited: &mut Vec<bool>,
    on_path: &mut Vec<bool>,
    g: &Vec<Vec<bool>>,
    Ghost(path): Ghost<Seq<int>>,
    Ghost(rank): Ghost<Seq<int>>,
    Ghost(counter): Ghost<int>,
) -> (res: (bool, Ghost<Seq<int>>, Ghost<int>))
    requires
        square(adjacency(g)),
        node < g.len(),
        !old(visited)@[node as int],
        search_state(adjacency(g), old(visited)@, old(on_path)@, path, rank, counter),
        counter >= 0,
        path.len() > 0 ==> adjacency(g)[path.last()][node as int],
    ensures
        final(visited)@.len() == g.len(),
        final(on_path)@.len() == g.len(),
        res.0 ==> reaches_cycle(adjacency(g), path.push(node as int)[0]),
        !res.0 ==> {
            &&& search_state(adjacency(g), final(visited)@, final(on_path)@, path, res.1@, res.2@)
            &&& res.2@ >= 0
            &&& final(on_path)@ == old(on_path)@
            &&& finished(final(visited)@, final(on_path)@, node as int)
            &&& forall|i: int|
                0 <= i < g.len() && #[trigger] old(visited)@[i] ==> final(visited)@[i]
        },
    decreases unvisited(old(visited)@),
{
    let ghost gs = adjacency(g);
    let ghost n = g.len() as int;
    let ghost v0 = visited@;
    let ghost s0 = on_path@;
    let ghost cur_path = path.push(node as int);
    visited.set(node, true);
    on_path.set(node, true);
    let ghost mut cur_rank = rank;
    let ghost mut cur_counter = counter;
    proof {
        assert forall|x: int| 0 <= x < n implies (#[trigger] on_path@[x] <==> cur_path.contains(x)) by {
            if x == node {
                assert(cur_path[path.len() as int] == x);
            } else {
                assert(on_path@[x] == s0[x]);
                if path.contains(x) {
                    let k = choose|k: int| 0 <= k < path.len() && path[k] == x;
                    assert(cur_path[k] == x);
                }
                if cur_path.contains(x) {
                    let k = choose|k: int| 0 <= k < cur_path.len() && cur_path[k] == x;
                    assert(path[k] == x);
                }
            }
        }
        assert(is_walk(gs, cur_path)) by {
            assert forall|i: int| 0 <= i < cur_path.len() - 1 implies #[trigger] step(gs, cur_path, i) by {
                if i < path.len() - 1 {
                    assert(step(gs, path, i));
                }
            }
        }
        assert forall|u: int, v: int|
            #![trigger gs[u][v], finished(visited@, on_path@, u)]
            0 <= u < n && 0 <= v < n && finished(visited@, on_path@, u) && gs[u][v] implies {
                &&& finished(visited@, on_path@, v)
                &&& cur_rank[v] < cur_rank[u]
            } by {
            assert(u != node);
            assert(finished(v0, s0, u));
            assert(finished(v0, s0, v));
        }
        assert forall|u: int| 0 <= u < n && #[trigger] finished(visited@, on_path@, u) implies 0
            <= cur_rank[u] < cur_counter by {
            assert(finished(v0, s0, u));
        }
        assert(search_state(gs, visited@, on_path@, cur_path, cur_rank, cur_counter));
        lemma_unvisited_monotone(v0, visited@, node as int);
    }
    let len = g.len();
    let mut j: usize = 0;
    while j < len
        invariant
            len == g.len(),
            n == len,
            gs == adjacency(g),
            square(gs),
            node < len,
            j <= len,
            cur_path == path.push(node as int),
            search_state(gs, visited@, on_path@, cur_path, cur_rank, cur_counter),
            visited@[node as int],
            on_path@ == s0.update(node as int, true),
            forall|i: int| 0 <= i < len && #[trigger] v0[i] ==> visited@[i],
            !v0[node as int],
            v0.len() == len,
            forall|k: int|
                0 <= k < j && #[trigger] gs[node as int][k] ==> finished(visited@, on_path@, k),
            unvisited(visited@) < unvisited(v0),
            v0 == old(visited)@,
            cur_counter >= 0,
        decreases len - j,
    {
        proof {
            assert(gs[node as int] == g@[node as int]@);
            assert(gs[node as int].len() == len);
        }
        let edge = g[node][j];
        if edge {
            if !visited[j] {
                let ghost before = visited@;
                let (found, Ghost(r2), Ghost(c2)) = has_cycle(
                    j,
                    visited,
                    on_path,
                    g,
                    Ghost(cur_path),
                    Ghost(cur_rank),
                    Ghost(cur_counter),
                );
                if found {
                    return (true, Ghost(cur_rank), Ghost(cur_counter));
                }
                proof {
                    cur_rank = r2;
                    cur_counter = c2;
                    lemma_unvisited_monotone(before, visited@, -1);
                    assert forall|i: int| 0 <= i < len && #[trigger] v0[i] implies visited@[i] by {
                        assert(before[i]);
                    }
                    assert forall|k: int|
                        0 <= k < j + 1 && #[trigger] gs[node as int][k] implies finished(
                        visited@,
                        on_path@,
                        k,
                    ) by {
                        if k < j {
                            assert(finished(before, on_path@, k));
                            assert(before[k]);
                        }
                    }
                }
            } else if on_path[j] {
                proof {
                    let p = cur_path.push(j as int);
                    assert(cur_path.contains(j as int));
                    let k = choose|k: int| 0 <= k < cur_path.len() && cur_path[k] == j;
                    assert forall|i: int| 0 <= i < p.len() - 1 implies #[trigger] step(gs, p, i) by {
                        if i < cur_path.len() - 1 {
                            assert(step(gs, cur_path, i));
                        }
                    }
                    assert(p[k] == p[p.len() - 1]);
                    assert(is_walk(gs, p));
                    assert(p[0] == cur_path[0]);
                }
                return (true, Ghost(cur_rank), Ghost(cur_counter));
            }
        }
        j += 1;
    }
    let ghost s_mid = on_path@;
    on_path.set(node, false);
    proof {
        let vf = visited@;
        let sf = on_path@;
        assert(sf =~= s0);
        let new_rank = cur_rank.update(node as int, cur_counter);
        assert(finished(vf, sf, node as int));
        assert forall|x: int| 0 <= x < n implies (#[trigger] sf[x] <==> path.contains(x)) by {
            if x != node {
                if path.contains(x) {
                    let k = choose|k: int| 0 <= k < path.len() && path[k] == x;
                    assert(cur_path[k] == x);
                }
                if cur_path.contains(x) {
                    let k = choose|k: int| 0 <= k < cur_path.len() && cur_path[k] == x;
                    if k < path.len() {
                        assert(path[k] == x);
                    }
                }
            } else {
                assert(!s0[x]);
            }
        }
        assert(path.len() >= 1 ==> is_walk(gs, path)) by {
            if path.len() >= 1 {
                assert forall|i: int| 0 <= i < path.len() - 1 implies #[trigger] step(gs, path, i) by {
                    assert(step(gs, cur_path, i));
                }
                assert forall|i: int| 0 <= i < path.len() implies 0 <= #[trigger] path[i] < n by {
                    assert(cur_path[i] == path[i]);
                }
            }
        }
        assert forall|i: int| 0 <= i < path.len() implies 0 <= #[trigger] path[i] < n by {
            assert(cur_path[i] == path[i]);
        }
        assert forall|u: int| 0 <= u < n && #[trigger] finished(vf, sf, u) implies 0 <= new_rank[u]
            < cur_counter + 1 by {
            if u != node {
                assert(finished(vf, s_mid, u));
            }
        }
        assert forall|u: int, v: int|
            #![trigger gs[u][v], finished(vf, sf, u)]
            0 <= u < n && 0 <= v < n && finished(vf, sf, u) && gs[u][v] implies {
                &&& finished(vf, sf, v)
                &&& new_rank[v] < new_rank[u]
            } by {
            if u == node {
                assert(finished(vf, s_mid, v));
                assert(0 <= cur_rank[v] < cur_counter);
            } else {
                assert(finished(vf, s_mid, u));
                assert(finished(vf, s_mid, v));
                assert(v != node);
            }
        }
        assert(search_state(gs, vf, sf, path, new_rank, cur_counter + 1));
        cur_rank = new_rank;
        cur_counter = cur_counter + 1;
    }
    (false, Ghost(cur_rank), Ghost(cur_counter))
}

/// Whether a cycle of the graph `g` can be reached from `root`.
pub fn reaches_cycle_from(g: &Vec<Vec<bool>>, root: usize) -> (r: bool)
    requires
        square(adjacency(g)),
        root < g.len(),
    ensures
        r == reaches_cycle(adjacency(g), root as int),
{
    let n = g.len();
    let mut visited: Vec<bool> = Vec::new();
    let mut on_path: Vec<bool> = Vec::new();
    let mut i: usize = 0;
    while i < n
        invariant
            i <= n,
            visited@.len() == i,
            on_path@.len() == i,
            forall|k: int| 0 <= k < i ==> !(#[trigger] visited@[k]),
            forall|k: int| 0 <= k < i ==> !(#[trigger] on_path@[k]),
        decreases n - i,
    {
        visited.push(false);
        on_path.push(false);
        i += 1;
    }
    let ghost rank = Seq::new(n as nat, |k: int| 0int);
    proof {
        let gs = adjacency(g);
        assert(gs.len() == n);
        assert forall|x: int| 0 <= x < n implies (#[trigger] on_path@[x] <==> Seq::<int>::empty().contains(x)) by {
            assert(!on_path@[x]);
        }
        assert forall|u: int| 0 <= u < n implies !#[trigger] finished(visited@, on_path@, u) by {
            assert(!visited@[u]);
        }
        assert(search_state(gs, visited@, on_path@, Seq::empty(), rank, 0));
    }
    let (found, Ghost(r2), Ghost(c2)) = has_cycle(
        root,
        &mut visited,
        &mut on_path,
        g,
        Ghost(Seq::empty()),
        Ghost(rank),
        Ghost(0),
    );
    proof {
        assert(Seq::<int>::empty().push(root as int)[0] == root);
        if !found {
            lemma_finished_reaches_no_cycle(
                adjacency(g),
                visited@,
                on_path@,
                Seq::empty(),
                r2,
                c2,
                root as int,
            );
        }
    }
    found
}

} // verus!
