//! Paths in the patch graph, given as adjacency lists: breadth-first search
//! for a path, and the nodes a new cable would close a cycle through.

use vstd::prelude::*;

verus! {

/// `a` has an outgoing edge to `b`.
pub open spec fn adj_edge(adj: Seq<Seq<usize>>, a: usize, b: usize) -> bool {
    a < adj.len() && adj[a as int].contains(b)
}

/// Consecutive entries of `p` are joined by edges.
pub open spec fn is_walk(adj: Seq<Seq<usize>>, p: Seq<usize>) -> bool {
    &&& p.len() >= 1
    &&& forall|i: int| 0 <= i < p.len() - 1 ==> #[trigger] adj_edge(adj, p[i], p[i + 1])
}

/// Some walk leads from `s` to `t`.
pub open spec fn reachable(adj: Seq<Seq<usize>>, s: usize, t: usize) -> bool {
    exists|p: Seq<usize>| #[trigger] is_walk(adj, p) && p[0] == s && p.last() == t
}

/// The adjacency lists as sequences.
pub open spec fn adj_view(adj: Seq<Vec<usize>>) -> Seq<Seq<usize>> {
    adj.map_values(|v: Vec<usize>| v@)
}

/// Every target is a node index.
pub open spec fn targets_in_range(adj: Seq<Seq<usize>>) -> bool {
    forall|a: int, j: int| 0 <= a < adj.len() && 0 <= j < adj[a].len() ==> #[trigger] adj[a][j] < adj.len()
}

/// A set holding `s` and closed under edges holds everything reachable from `s`.
proof fn lemma_closed_holds_reachable(adj: Seq<Seq<usize>>, seen: spec_fn(usize) -> bool, p: Seq<usize>)
    requires
        is_walk(adj, p),
        seen(p[0]),
        forall|a: usize, b: usize| seen(a) && #[trigger] adj_edge(adj, a, b) ==> seen(b),
    ensures
        seen(p.last()),
    decreases p.len(),
{
    if p.len() > 1 {
        let q = p.drop_last();
        assert forall|i: int| 0 <= i < q.len() - 1 implies #[trigger] adj_edge(adj, q[i], q[i + 1]) by {
            assert(adj_edge(adj, p[i], p[i + 1]));
        }
        lemma_closed_holds_reachable(adj, seen, q);
        let i = p.len() - 2;
        assert(adj_edge(adj, p[i], p[i + 1]));
    }
}

/// Breadth-first search as a sequence of steps. The state is the nodes seen,
/// each node's recorded parent, the queue of discovered nodes, the position
/// `head` of the node being expanded and the position `j` in its adjacency
/// list. Each step looks at one edge: a neighbour not yet seen gets the
/// expanded node as parent and joins the end of the queue; when the expanded
/// node's list is done, the next queued node is expanded. The search ends
/// with the parents as they stand when `goal` is first discovered, or
/// `None` once the queue is exhausted.
pub open spec fn bfs_run(
    adj: Seq<Seq<usize>>,
    goal: usize,
    seen: Seq<bool>,
    parent: Seq<usize>,
    queue: Seq<usize>,
    head: int,
    j: int,
) -> Option<Seq<usize>>
    decreases adj.len() - head, adj[queue[head] as int].len() - j,
    when 0 <= head && 0 <= j && queue.len() <= adj.len()
{
    if head >= queue.len() {
        None
    } else {
        let u = queue[head];
        if j < adj[u as int].len() {
            let v = adj[u as int][j];
            if seen[v as int] {
                bfs_run(adj, goal, seen, parent, queue, head, j + 1)
            } else if v == goal {
                Some(parent.update(v as int, u))
            } else {
                bfs_run(adj, goal, seen.update(v as int, true), parent.update(v as int, u), queue.push(v), head, j + 1)
            }
        } else {
            bfs_run(adj, goal, seen, parent, queue, head + 1, 0)
        }
    }
}

/// The path from `start` to `v` along recorded parents: `v`'s parent's path,
/// then `v` (following at most `fuel` parents).
#[verifier::opaque]
pub open spec fn parent_path(parent: Seq<usize>, start: usize, v: usize, fuel: nat) -> Seq<usize>
    decreases fuel,
{
    if v == start || fuel == 0 {
        seq![v]
    } else {
        parent_path(parent, start, parent[v as int], (fuel - 1) as nat).push(v)
    }
}

/// Only `start` seen, among `n` nodes.
pub open spec fn start_seen(n: nat, start: usize) -> Seq<bool> {
    Seq::new(n, |v: int| v == start)
}

/// No parent recorded yet (0 for each of `n` nodes).
pub open spec fn start_parents(n: nat) -> Seq<usize> {
    Seq::new(n, |v: int| 0usize)
}

/// The path the breadth-first search finds: the search starts with only
/// `start` seen and queued, and the path runs along the parents recorded when
/// `goal` is first discovered; `None` when it never is.
pub open spec fn bfs_path(adj: Seq<Seq<usize>>, start: usize, goal: usize) -> Option<Seq<usize>> {
    let n = adj.len();
    if start == goal {
        Some(seq![start])
    } else {
        match bfs_run(adj, goal, start_seen(n, start), start_parents(n), seq![start], 0, 0) {
            Some(par) => Some(parent_path(par, start, goal, n)),
            None => None,
        }
    }
}

/// The search state: every queued node was reached through a recorded
/// parent queued before it, one step deeper than that parent; depths do not
/// decrease along the queue and stay within one of the node being
/// expanded; the neighbours of expanded nodes are seen, at most one step
/// deeper; and nodes are seen exactly when queued.
pub open spec fn bfs_ok(
    adj: Seq<Seq<usize>>,
    start: usize,
    goal: usize,
    seen: Seq<bool>,
    parent: Seq<usize>,
    depth: Seq<nat>,
    queue: Seq<usize>,
    head: int,
) -> bool {
    let n = adj.len();
    &&& seen.len() == n
    &&& parent.len() == n
    &&& depth.len() == n
    &&& 1 <= queue.len() <= n
    &&& 0 <= head <= queue.len()
    &&& queue[0] == start
    &&& depth[start as int] == 0
    &&& queue.no_duplicates()
    &&& forall|k: int| 0 <= k < queue.len() ==> #[trigger] queue[k] < n
    &&& forall|k: int| 0 <= k < queue.len() ==> depth[#[trigger] queue[k] as int] <= k
    &&& forall|v: int| 0 <= v < n ==> (#[trigger] seen[v] <==> queue.contains(v as usize))
    &&& forall|k: int|
        #![trigger queue[k]]
        0 < k < queue.len() ==> exists|j: int|
            0 <= j < k && #[trigger] queue[j] == parent[queue[k] as int] && adj_edge(adj, queue[j], queue[k])
                && depth[queue[k] as int] == depth[queue[j] as int] + 1
    &&& forall|a: int, b: int|
        #![trigger queue[a], queue[b]]
        0 <= a < b < queue.len() ==> depth[queue[a] as int] <= depth[queue[b] as int]
    &&& head < queue.len() ==> forall|k: int|
        0 <= k < queue.len() ==> depth[#[trigger] queue[k] as int] <= depth[queue[head] as int] + 1
    &&& forall|k: int, w: usize|
        0 <= k < head && #[trigger] adj_edge(adj, queue[k], w) ==> seen[w as int] && depth[w as int] <= depth[
            queue[k] as int
        ] + 1
    &&& !seen[goal as int]
}

/// Every node a walk of at most `depth[queue[head]]` steps reaches from
/// `start` is already seen, no deeper than the walk is long.
proof fn lemma_bfs_near_seen(
    adj: Seq<Seq<usize>>,
    start: usize,
    seen: Seq<bool>,
    depth: Seq<nat>,
    queue: Seq<usize>,
    head: int,
    q: Seq<usize>,
)
    requires
        seen.len() == adj.len(),
        depth.len() == adj.len(),
        queue[0] == start,
        depth[start as int] == 0,
        0 <= head < queue.len(),
        forall|v: int| 0 <= v < adj.len() ==> (#[trigger] seen[v] <==> queue.contains(v as usize)),
        forall|a: int, b: int|
            #![trigger queue[a], queue[b]]
            0 <= a < b < queue.len() ==> depth[queue[a] as int] <= depth[queue[b] as int],
        forall|k: int, w: usize|
            0 <= k < head && #[trigger] adj_edge(adj, queue[k], w) ==> seen[w as int] && depth[w as int] <= depth[
                queue[k] as int
            ] + 1,
        targets_in_range(adj),
        start < adj.len(),
        is_walk(adj, q),
        q[0] == start,
        q.len() - 1 <= depth[queue[head] as int],
    ensures
        q.last() < adj.len(),
        seen[q.last() as int],
        depth[q.last() as int] <= q.len() - 1,
    decreases q.len(),
{
    if q.len() == 1 {
        assert(queue[0] == start);
        assert(queue.contains(start));
    } else {
        let r = q.drop_last();
        assert forall|i: int| 0 <= i < r.len() - 1 implies #[trigger] adj_edge(adj, r[i], r[i + 1]) by {
            assert(adj_edge(adj, q[i], q[i + 1]));
        }
        lemma_bfs_near_seen(adj, start, seen, depth, queue, head, r);
        let y = r.last();
        let x = q.last();
        let i = q.len() - 2;
        assert(adj_edge(adj, q[i], q[i + 1]));
        assert(queue.contains(y));
        let ky = choose|ky: int| 0 <= ky < queue.len() && queue[ky] == y;
        if ky >= head {
            if ky > head {
                assert(depth[queue[head] as int] <= depth[queue[ky] as int]);
            }
            assert(false);
        }
        assert(adj_edge(adj, queue[ky], x));
        let jx = choose|jx: int| 0 <= jx < adj[y as int].len() && adj[y as int][jx] == x;
        assert(adj[y as int][jx] < adj.len());
    }
}

/// Queueing `next`, a neighbour of the node being expanded, one step deeper
/// keeps the search state.
proof fn lemma_bfs_push(
    adj: Seq<Seq<usize>>,
    start: usize,
    goal: usize,
    seen: Seq<bool>,
    parent: Seq<usize>,
    depth: Seq<nat>,
    queue: Seq<usize>,
    head: int,
    next: usize,
)
    requires
        bfs_ok(adj, start, goal, seen, parent, depth, queue, head),
        head < queue.len(),
        next < adj.len(),
        next != goal,
        !seen[next as int],
        adj_edge(adj, queue[head], next),
        queue.len() + 1 <= adj.len(),
        adj.len() <= usize::MAX,
        targets_in_range(adj),
        goal < adj.len(),
    ensures
        bfs_ok(
            adj,
            start,
            goal,
            seen.update(next as int, true),
            parent.update(next as int, queue[head]),
            depth.update(next as int, depth[queue[head] as int] + 1),
            queue.push(next),
            head,
        ),
{
    let n = adj.len();
    let u = queue[head];
    let seen1 = seen.update(next as int, true);
    let parent1 = parent.update(next as int, u);
    let depth1 = depth.update(next as int, depth[u as int] + 1);
    let queue1 = queue.push(next);
    let k = queue.len() as int;
    assert(!queue.contains(next));
    assert(queue[0] == start);
    assert(queue.contains(start));
    assert(next != start);
    assert(queue1[k] == next);
    assert forall|kk: int| 0 <= kk < queue1.len() implies #[trigger] queue1[kk] < n by {
        if kk < k {
            assert(queue[kk] == queue1[kk]);
        }
    }
    assert forall|a: int, b: int| 0 <= a < b < queue1.len() implies queue1[a] != queue1[b] by {
        if b == k {
            if queue1[a] == next {
                assert(queue[a] == next);
            }
        } else {
            assert(queue[a] == queue1[a] && queue[b] == queue1[b]);
        }
    }
    assert forall|v: int| 0 <= v < n implies (#[trigger] seen1[v] <==> queue1.contains(v as usize)) by {
        if v == next as int {
            assert(queue1.contains(next));
        } else {
            let vu = v as usize;
            assert(vu as int == v);
            assert(vu != next);
            if queue1.contains(vu) {
                let q = choose|q: int| 0 <= q < queue1.len() && queue1[q] == vu;
                if q == k {
                    assert(queue1[k] == next);
                    assert(false);
                }
                assert(queue1[q] == queue[q]);
                assert(queue.contains(vu));
            }
            if queue.contains(v as usize) {
                let q = choose|q: int| 0 <= q < queue.len() && queue[q] == v as usize;
                assert(queue1[q] == v as usize);
            }
        }
    }
    assert forall|kk: int| 0 <= kk < queue.len() implies queue[kk] != next by {
        assert(queue.contains(queue[kk]));
    }
    assert forall|kk: int| 0 <= kk < queue1.len() implies depth1[#[trigger] queue1[kk] as int] <= kk by {
        if kk < k {
            assert(queue1[kk] == queue[kk]);
            assert(depth[queue[kk] as int] <= kk);
        } else {
            assert(depth[queue[head] as int] <= head);
        }
    }
    assert forall|kk: int| #![trigger queue1[kk]] 0 < kk < queue1.len() implies exists|jj: int|
        0 <= jj < kk && #[trigger] queue1[jj] == parent1[queue1[kk] as int] && adj_edge(adj, queue1[jj], queue1[kk])
            && depth1[queue1[kk] as int] == depth1[queue1[jj] as int] + 1 by {
        if kk == k {
            assert(queue1[head] == u);
            assert(0 <= head < kk && queue1[head] == parent1[queue1[kk] as int]);
        } else {
            assert(queue1[kk] == queue[kk]);
            let jj = choose|jj: int|
                0 <= jj < kk && #[trigger] queue[jj] == parent[queue[kk] as int] && adj_edge(adj, queue[jj], queue[kk])
                    && depth[queue[kk] as int] == depth[queue[jj] as int] + 1;
            assert(queue1[jj] == queue[jj]);
        }
    }
    assert forall|a: int, b: int| #![trigger queue1[a], queue1[b]] 0 <= a < b < queue1.len() implies depth1[
        queue1[a] as int
    ] <= depth1[queue1[b] as int] by {
        assert(queue1[a] == queue[a]);
        if b == k {
            assert(depth[queue[a] as int] <= depth[queue[head] as int] + 1);
        } else {
            assert(queue1[b] == queue[b]);
            assert(depth[queue[a] as int] <= depth[queue[b] as int]);
        }
    }
    assert forall|kk: int| 0 <= kk < queue1.len() implies depth1[#[trigger] queue1[kk] as int] <= depth1[
        queue1[head] as int
    ] + 1 by {
        if kk < k {
            assert(queue1[kk] == queue[kk]);
            assert(depth[queue[kk] as int] <= depth[queue[head] as int] + 1);
        }
    }
    assert forall|kk: int, w: usize| 0 <= kk < head && #[trigger] adj_edge(adj, queue1[kk], w) implies seen1[
        w as int
    ] && depth1[w as int] <= depth1[queue1[kk] as int] + 1 by {
        assert(queue1[kk] == queue[kk]);
        assert(adj_edge(adj, queue[kk], w));
        let jw = choose|jw: int| 0 <= jw < adj[queue[kk] as int].len() && adj[queue[kk] as int][jw] == w;
        assert(adj[queue[kk] as int][jw] < n);
        assert(seen[w as int]);
        assert(w != next);
        assert(queue[kk] != next) by {
            assert(queue.contains(queue[kk]));
        }
        assert(depth1[w as int] == depth[w as int]);
        assert(depth1[queue[kk] as int] == depth[queue[kk] as int]);
    }
}

/// A breadth-first search for a path from `start` to `goal` along the
/// adjacency lists, each list in the order its edges are visited: the path
/// runs along the parents recorded where each node is first discovered
/// ([`bfs_path`]). It has no repeated node and no walk from `start` to
/// `goal` is shorter; `None` comes exactly when `goal` cannot be reached.
#[verifier::spinoff_prover]
#[verifier::rlimit(60)]
pub fn find_path_nodes(adj: &Vec<Vec<usize>>, start: usize, goal: usize) -> (r: Option<Vec<usize>>)
    requires
        start < adj@.len(),
        goal < adj@.len(),
        targets_in_range(adj_view(adj@)),
    ensures
        bfs_path(adj_view(adj@), start, goal) == match r {
            Some(p) => Some(p@),
            None => None::<Seq<usize>>,
        },
        match r {
            Some(p) => {
                &&& is_walk(adj_view(adj@), p@)
                &&& p@[0] == start
                &&& p@.last() == goal
                &&& p@.no_duplicates()
                &&& forall|q: Seq<usize>|
                    #[trigger] is_walk(adj_view(adj@), q) && q[0] == start && q.last() == goal ==> p@.len() <= q.len()
            },
            None => !reachable(adj_view(adj@), start, goal),
        },
{
    let ghost av = adj_view(adj@);
    if start == goal {
        let mut p: Vec<usize> = Vec::new();
        p.push(start);
        assert(is_walk(av, p@));
        return Some(p);
    }
    let n = adj.len();
    let mut seen: Vec<bool> = Vec::new();
    let mut parent: Vec<usize> = Vec::new();
    let mut i: usize = 0;
    while i < n
        invariant
            0 <= i <= n,
            seen@.len() == i,
            parent@.len() == i,
            forall|v: int| 0 <= v < i ==> seen@[v] == (v == start),
            forall|v: int| 0 <= v < i ==> parent@[v] == 0,
        decreases n - i,
    {
        seen.push(i == start);
        parent.push(0);
        i = i + 1;
    }
    let ghost mut depth: Seq<nat> = Seq::new(n as nat, |v: int| 0nat);
    let ghost run = bfs_run(av, goal, start_seen(av.len(), start), start_parents(av.len()), seq![start], 0, 0);
    proof {
        assert(seen@ =~= start_seen(av.len(), start));
        assert(parent@ =~= start_parents(av.len()));
    }
    let mut queue: Vec<usize> = Vec::new();
    queue.push(start);
    let mut head: usize = 0;
    proof {
        assert forall|v: int| 0 <= v < n implies (#[trigger] seen@[v] <==> queue@.contains(v as usize)) by {
            if queue@.contains(v as usize) {
                let q = choose|q: int| 0 <= q < queue@.len() && queue@[q] == v as usize;
            }
            if v == start {
                assert(queue@[0] == start);
            }
        }
    }
    while head < queue.len()
        invariant
            n == adj@.len(),
            av == adj_view(adj@),
            targets_in_range(av),
            start != goal,
            start < n,
            goal < n,
            bfs_ok(av, start, goal, seen@, parent@, depth, queue@, head as int),
            run == bfs_run(av, goal, seen@, parent@, queue@, head as int, 0),
            run == bfs_run(av, goal, start_seen(av.len(), start), start_parents(av.len()), seq![start], 0, 0),
        decreases n - head,
    {
        let u = queue[head];
        let succ = &adj[u];
        assert(succ@ == av[u as int]);
        let mut j: usize = 0;
        while j < succ.len()
            invariant
                n == adj@.len(),
                av == adj_view(adj@),
                targets_in_range(av),
                start != goal,
                start < n,
                goal < n,
                head < queue@.len(),
                u == queue@[head as int],
                succ@ == av[u as int],
                0 <= j <= succ@.len(),
                bfs_ok(av, start, goal, seen@, parent@, depth, queue@, head as int),
                run == bfs_run(av, goal, seen@, parent@, queue@, head as int, j as int),
                run == bfs_run(av, goal, start_seen(av.len(), start), start_parents(av.len()), seq![start], 0, 0),
                forall|q: int|
                    0 <= q < j ==> seen@[#[trigger] succ@[q] as int] && depth[succ@[q] as int] <= depth[u as int]
                        + 1,
            decreases succ.len() - j,
        {
            let next = succ[j];
            assert(av[u as int][j as int] < n);
            assert(adj_edge(av, u, next)) by {
                assert(av[u as int][j as int] == next);
            }
            if !seen[next] {
                if next == goal {
                    proof {
                        assert forall|q: Seq<usize>|
                            #[trigger] is_walk(av, q) && q[0] == start && q.last() == goal implies depth[u as int]
                            + 2 <= q.len() by {
                            if q.len() - 1 <= depth[u as int] {
                                lemma_bfs_near_seen(av, start, seen@, depth, queue@, head as int, q);
                            }
                        }
                    }
                    let ghost parent0 = parent@;
                    parent.set(next, u);
                    proof {
                        assert(!queue@.contains(goal));
                        assert forall|kk: int| #![trigger queue@[kk]] 0 < kk < queue@.len() implies exists|jj: int|
                            0 <= jj < kk && #[trigger] queue@[jj] == parent@[queue@[kk] as int] && adj_edge(
                                av,
                                queue@[jj],
                                queue@[kk],
                            ) && depth[queue@[kk] as int] == depth[queue@[jj] as int] + 1 by {
                            assert(queue@[kk] != goal) by {
                                assert(queue@.contains(queue@[kk]));
                            }
                            let jj = choose|jj: int|
                                0 <= jj < kk && #[trigger] queue@[jj] == parent0[queue@[kk] as int] && adj_edge(
                                    av,
                                    queue@[jj],
                                    queue@[kk],
                                ) && depth[queue@[kk] as int] == depth[queue@[jj] as int] + 1;
                        }
                    }
                    proof {
                        assert(parent@ == parent0.update(goal as int, u));
                        assert(run == Some(parent@));
                    }
                    let p = trace_back(&parent, &queue, head, start, goal, Ghost(av), Ghost(depth));
                    proof {
                        assert(run == Some(parent@));
                        assert(p@ == parent_path(parent@, start, goal, av.len()));
                        assert(bfs_path(av, start, goal) == Some(parent_path(parent@, start, goal, av.len())));
                    }
                    return Some(p);
                }
                proof {
                    let old_queue = queue@;
                    assert(!old_queue.contains(next));
                    // The new queue entry fits: `n` distinct indices below `n` at most.
                    let full = Set::new(|p: usize| p < n);
                    crate::ranks::lemma_range_set_len(n as nat);
                    let ext = old_queue.push(next);
                    assert(ext.no_duplicates()) by {
                        assert forall|a: int, b: int| 0 <= a < b < ext.len() implies ext[a] != ext[b] by {
                            if b == ext.len() - 1 {
                                if ext[a] == next {
                                    assert(old_queue[a] == next);
                                }
                            } else {
                                assert(old_queue[a] == ext[a] && old_queue[b] == ext[b]);
                            }
                        }
                    }
                    ext.unique_seq_to_set();
                    assert(ext.to_set().subset_of(full)) by {
                        assert forall|x: usize| ext.to_set().contains(x) implies full.contains(x) by {
                            let q = choose|q: int| 0 <= q < ext.len() && ext[q] == x;
                            if q < old_queue.len() {
                                assert(old_queue[q] == x);
                            }
                        }
                    }
                    vstd::set_lib::lemma_len_subset(ext.to_set(), full);
                    lemma_bfs_push(av, start, goal, seen@, parent@, depth, queue@, head as int, next);
                    depth = depth.update(next as int, depth[u as int] + 1);
                    assert(run == bfs_run(
                        av,
                        goal,
                        seen@.update(next as int, true),
                        parent@.update(next as int, u),
                        queue@.push(next),
                        head as int,
                        j as int + 1,
                    ));
                }
                seen.set(next, true);
                parent.set(next, u);
                queue.push(next);
            } else {
                proof {
                    assert(queue@.contains(next));
                    let kn = choose|kn: int| 0 <= kn < queue@.len() && queue@[kn] == next;
                    assert(depth[queue@[kn] as int] <= depth[queue@[head as int] as int] + 1);
                    assert(run == bfs_run(av, goal, seen@, parent@, queue@, head as int, j as int + 1));
                }
            }
            j = j + 1;
        }
        proof {
            assert forall|kk: int, w: usize| 0 <= kk < head + 1 && #[trigger] adj_edge(av, queue@[kk], w) implies seen@[
                w as int
            ] && depth[w as int] <= depth[queue@[kk] as int] + 1 by {
                if kk == head {
                    let q = choose|q: int| 0 <= q < succ@.len() && succ@[q] == w;
                    assert(seen@[succ@[q] as int]);
                }
            }
            if head + 1 < queue@.len() {
                assert forall|k: int| 0 <= k < queue@.len() implies depth[#[trigger] queue@[k] as int] <= depth[
                    queue@[head + 1] as int
                ] + 1 by {
                    assert(depth[queue@[k] as int] <= depth[queue@[head as int] as int] + 1);
                    assert(depth[queue@[head as int] as int] <= depth[queue@[head + 1] as int]);
                }
            }
        }
        proof {
            assert(run == bfs_run(av, goal, seen@, parent@, queue@, head + 1, 0));
        }
        head = head + 1;
    }
    proof {
        let sv = seen@;
        let seenf = |v: usize| v < n && sv[v as int];
        assert forall|a: usize, b: usize| seenf(a) && #[trigger] adj_edge(av, a, b) implies seenf(b) by {
            assert(queue@.contains(a));
            let k = choose|k: int| 0 <= k < queue@.len() && queue@[k] == a;
            assert(av[a as int][av[a as int].index_of(b)] == b);
            assert(av[a as int].contains(b));
            let jb = choose|jb: int| 0 <= jb < av[a as int].len() && av[a as int][jb] == b;
            assert(b < n);
        }
        if reachable(av, start, goal) {
            let p = choose|p: Seq<usize>| #[trigger] is_walk(av, p) && p[0] == start && p.last() == goal;
            assert(seenf(start)) by {
                assert(queue@[0] == start);
                assert(queue@.contains(start));
            }
            lemma_closed_holds_reachable(av, seenf, p);
        }
        assert(run is None);
    }
    None
}

/// Following parents back from the first node of `rev` to `start`, which it
/// reaches only at its end, gives `rev` backwards.
proof fn lemma_parent_chain(parent: Seq<usize>, start: usize, rev: Seq<usize>, f: nat)
    requires
        rev.len() >= 1,
        rev.last() == start,
        forall|a: int| 0 <= a < rev.len() - 1 ==> #[trigger] rev[a + 1] == parent[rev[a] as int],
        forall|a: int| 0 <= a < rev.len() - 1 ==> #[trigger] rev[a] != start,
        f >= rev.len() - 1,
    ensures
        parent_path(parent, start, rev[0], f) == rev.reverse(),
    decreases rev.len(),
{
    reveal(parent_path);
    if rev.len() == 1 {
        assert(rev.reverse() =~= seq![start]);
    } else {
        let t = rev.drop_first();
        assert forall|a: int| 0 <= a < t.len() - 1 implies #[trigger] t[a + 1] == parent[t[a] as int] by {
            let b = a + 1;
            assert(rev[b + 1] == parent[rev[b] as int]);
            assert(t[a + 1] == rev[b + 1] && t[a] == rev[b]);
        }
        assert forall|a: int| 0 <= a < t.len() - 1 implies #[trigger] t[a] != start by {
            let b = a + 1;
            assert(rev[b] != start);
            assert(t[a] == rev[b]);
        }
        lemma_parent_chain(parent, start, t, (f - 1) as nat);
        assert(rev[1] == parent[rev[0] as int]);
        assert(rev[0] != start);
        assert(t.reverse().push(rev[0]) =~= rev.reverse());
    }
}

/// Follows recorded parents from `goal` (reached from the queued node at
/// `head`) back to `start`, and returns the path from `start` to `goal`.
#[verifier::spinoff_prover]
#[verifier::rlimit(60)]
fn trace_back(
    parent: &Vec<usize>,
    queue: &Vec<usize>,
    head: usize,
    start: usize,
    goal: usize,
    Ghost(av): Ghost<Seq<Seq<usize>>>,
    Ghost(depth): Ghost<Seq<nat>>,
) -> (p: Vec<usize>)
    requires
        depth.len() == av.len(),
        depth[start as int] == 0,
        head < queue@.len(),
        queue@.len() <= av.len(),
        queue@[0] == start,
        queue@.no_duplicates(),
        !queue@.contains(goal),
        parent@.len() == av.len(),
        goal < av.len(),
        forall|k: int| 0 <= k < queue@.len() ==> #[trigger] queue@[k] < av.len(),
        forall|k: int| 0 <= k < queue@.len() ==> depth[#[trigger] queue@[k] as int] <= k,
        forall|k: int|
            #![trigger queue@[k]]
            0 < k < queue@.len() ==> exists|j: int|
                0 <= j < k && #[trigger] queue@[j] == parent@[queue@[k] as int] && adj_edge(av, queue@[j], queue@[k])
                    && depth[queue@[k] as int] == depth[queue@[j] as int] + 1,
        parent@[goal as int] == queue@[head as int],
        adj_edge(av, queue@[head as int], goal),
    ensures
        p@ == parent_path(parent@, start, goal, av.len()),
        p@.len() == depth[queue@[head as int] as int] + 2,
        is_walk(av, p@),
        p@[0] == start,
        p@.last() == goal,
        p@.no_duplicates(),
{
    // `rev` runs backwards: goal, then queued nodes at decreasing positions.
    let mut rev: Vec<usize> = Vec::new();
    rev.push(goal);
    let mut cur = queue[head];
    proof {
        assert(queue@.contains(start)) by {
            assert(queue@[0] == start);
        }
        assert(goal != start);
    }
    let ghost mut ci: int = head as int;
    let ghost mut idx: Seq<int> = seq![-1int];
    loop
        invariant_except_break
            forall|a: int| 1 <= a < idx.len() ==> idx[a] > ci,
            adj_edge(av, cur, rev@.last()),
            rev@.len() + depth[cur as int] == depth[queue@[head as int] as int] + 1,
            cur == parent@[rev@.last() as int],
        invariant
            forall|a: int| 0 <= a < rev@.len() - 1 ==> #[trigger] rev@[a + 1] == parent@[rev@[a] as int],
            forall|k: int| 0 <= k < queue@.len() ==> depth[#[trigger] queue@[k] as int] <= k,
            depth.len() == av.len(),
            depth[start as int] == 0,
            0 <= ci < queue@.len(),
            queue@[ci] == cur,
            rev@.len() >= 1,
            rev@[0] == goal,
            idx.len() == rev@.len(),
            idx[0] == -1,
            forall|a: int| 1 <= a < idx.len() ==> 0 <= #[trigger] idx[a] < queue@.len() && queue@[idx[a]] == rev@[a],
            forall|a: int, b: int| 1 <= a < b < idx.len() ==> idx[a] > idx[b],
            forall|a: int| 0 <= a < rev@.len() - 1 ==> #[trigger] adj_edge(av, rev@[a + 1], rev@[a]),
            head < queue@.len(),
            queue@[0] == start,
            queue@.no_duplicates(),
            !queue@.contains(goal),
            parent@.len() == av.len(),
            forall|k: int| 0 <= k < queue@.len() ==> #[trigger] queue@[k] < av.len(),
            forall|k: int|
                #![trigger queue@[k]]
                0 < k < queue@.len() ==> exists|j: int|
                    0 <= j < k && #[trigger] queue@[j] == parent@[queue@[k] as int] && adj_edge(
                        av,
                        queue@[j],
                        queue@[k],
                    ) && depth[queue@[k] as int] == depth[queue@[j] as int] + 1,
        ensures
            forall|a: int| 0 <= a < rev@.len() - 1 ==> #[trigger] rev@[a + 1] == parent@[rev@[a] as int],
            rev@.len() == depth[queue@[head as int] as int] + 2,
            rev@.last() == start,
            rev@.len() >= 1,
            rev@[0] == goal,
            idx.len() == rev@.len(),
            forall|a: int| 1 <= a < idx.len() ==> 0 <= #[trigger] idx[a] < queue@.len() && queue@[idx[a]] == rev@[a],
            forall|a: int, b: int| 1 <= a < b < idx.len() ==> idx[a] > idx[b],
            forall|a: int| 0 <= a < rev@.len() - 1 ==> #[trigger] adj_edge(av, rev@[a + 1], rev@[a]),
        decreases ci,
    {
        let ghost prev_rev = rev@;
        rev.push(cur);

        proof {
            idx = idx.push(ci);
            assert forall|a: int| 0 <= a < rev@.len() - 1 implies #[trigger] adj_edge(av, rev@[a + 1], rev@[a]) by {
                if a < prev_rev.len() - 1 {
                    assert(rev@[a + 1] == prev_rev[a + 1] && rev@[a] == prev_rev[a]);
                } else {
                    assert(rev@[a] == prev_rev.last());
                }
            }
        }
        if cur == start {
            proof {
                if ci != 0 {
                    assert(queue@[0] == queue@[ci]);
                }
            }
            break;
        }
        let ghost j = choose|j: int|
            0 <= j < ci && #[trigger] queue@[j] == parent@[queue@[ci] as int] && adj_edge(av, queue@[j], queue@[ci])
                && depth[queue@[ci] as int] == depth[queue@[j] as int] + 1;
        let next = parent[cur];
        proof {
            assert(queue@[j] == next);
            assert(rev@.last() == cur);
            ci = j;
        }
        cur = next;
    }
    // Reverse `rev` into the result.
    let m = rev.len();
    let mut p: Vec<usize> = Vec::new();
    let mut k: usize = 0;
    while k < m
        invariant
            0 <= k <= m,
            m == rev@.len(),
            p@ == rev@.reverse().take(k as int),
        decreases m - k,
    {
        p.push(rev[m - 1 - k]);
        k = k + 1;
        assert(p@ =~= rev@.reverse().take(k as int));
    }
    assert(p@ =~= rev@.reverse());
    proof {
        let rv = rev@;
        assert forall|i: int| 0 <= i < p@.len() - 1 implies #[trigger] adj_edge(av, p@[i], p@[i + 1]) by {
            let a = m - 2 - i;
            assert(adj_edge(av, rv[a + 1], rv[a]));
            assert(p@[i] == rv[m - 1 - i]);
            assert(p@[i + 1] == rv[m - 2 - i]);
        }
        assert forall|a: int, b: int| 0 <= a < b < rv.len() implies rv[a] != rv[b] by {
            if a == 0 {
                assert(queue@[idx[b]] == rv[b]);
                if rv[b] == goal {
                    assert(queue@.contains(goal));
                }
            } else {
                assert(idx[a] > idx[b]);
                assert(queue@[idx[a]] == rv[a] && queue@[idx[b]] == rv[b]);
            }
        }
        assert forall|a: int| 0 <= a < rv.len() - 1 implies #[trigger] rv[a] != start by {
            assert(rv[a] != rv[rv.len() - 1]);
        }
        assert(depth[queue@[head as int] as int] <= head);
        lemma_parent_chain(parent@, start, rv, av.len());
        assert forall|a: int, b: int| 0 <= a < b < p@.len() implies p@[a] != p@[b] by {
            assert(p@[a] == rv[m - 1 - a]);
            assert(p@[b] == rv[m - 1 - b]);
        }
    }
    p
}

/// The nodes of the cycle a new cable `from_node -> to_node` would close: the
/// breadth-first path from `to_node` back to `from_node` (see
/// [`find_path_nodes`]), or just the two nodes when there is none.
pub fn find_cycle_nodes(adj: &Vec<Vec<usize>>, from_node: usize, to_node: usize) -> (r: Vec<usize>)
    requires
        from_node < adj@.len(),
        to_node < adj@.len(),
        targets_in_range(adj_view(adj@)),
    ensures
        r@ == match bfs_path(adj_view(adj@), to_node, from_node) {
            Some(p) => p,
            None => seq![from_node, to_node],
        },
        reachable(adj_view(adj@), to_node, from_node) ==> is_walk(adj_view(adj@), r@) && r@[0] == to_node
            && r@.last() == from_node && r@.no_duplicates() && forall|q: Seq<usize>|
            #[trigger] is_walk(adj_view(adj@), q) && q[0] == to_node && q.last() == from_node ==> r@.len()
                <= q.len(),
        !reachable(adj_view(adj@), to_node, from_node) ==> r@ == seq![from_node, to_node],
{
    match find_path_nodes(adj, to_node, from_node) {
        Some(p) => {
            proof {
                assert(is_walk(adj_view(adj@), p@) && p@[0] == to_node && p@.last() == from_node);
            }
            p
        },
        None => {
            let mut v: Vec<usize> = Vec::new();
            v.push(from_node);
            v.push(to_node);
            assert(v@ =~= seq![from_node, to_node]);
            v
        },
    }
}

} // verus!
