use vstd::prelude::*;
use crate::edge::{AdjEdge, Edge};
use crate::paths::{Walk, adj_wf, edges_wf, joins, passable, passes};

verus! {

/// The adjacency lists that the first `k` edges give `n` nodes: each edge,
/// in index order, is listed at its source and then at its target.
pub open spec fn adj_upto(edges: Seq<Edge>, n: int, k: int) -> Seq<Seq<AdjEdge>>
    decreases k,
{
    if k <= 0 {
        Seq::new(n as nat, |v: int| Seq::<AdjEdge>::empty())
    } else {
        let a = adj_upto(edges, n, k - 1);
        let e = edges[k - 1];
        let a1 = a.update(e.source as int, a[e.source as int].push(AdjEdge { target: e.target, edge_index: (k - 1) as usize }));
        a1.update(e.target as int, a1[e.target as int].push(AdjEdge { target: e.source, edge_index: (k - 1) as usize }))
    }
}

/// The lists of a vector of adjacency vectors.
pub open spec fn adj_views(adj: Seq<Vec<AdjEdge>>) -> Seq<Seq<AdjEdge>> {
    adj.map_values(|v: Vec<AdjEdge>| v@)
}

/// The two edge lists join the same nodes, edge by edge.
pub open spec fn same_ends(e1: Seq<Edge>, e2: Seq<Edge>) -> bool {
    &&& e1.len() == e2.len()
    &&& forall|i: int| 0 <= i < e1.len() ==> #[trigger] e1[i].source == e2[i].source && e1[i].target == e2[i].target
}

/// Adjacency lists see where rivers run, not who owns them.
pub proof fn lemma_adj_ignores_claims(e1: Seq<Edge>, e2: Seq<Edge>, n: int, k: int)
    requires
        k <= e1.len(),
        same_ends(e1, e2),
    ensures
        adj_upto(e1, n, k) == adj_upto(e2, n, k),
    decreases k,
{
    if k > 0 {
        lemma_adj_ignores_claims(e1, e2, n, k - 1);
        assert(e1[k - 1].source == e2[k - 1].source && e1[k - 1].target == e2[k - 1].target);
    }
}

/// The state of a breadth-first traversal: for each node the edge and the
/// node that discovered it, whether it has been seen, and its place in the
/// queue; the queue, the place in the queue of the node being expanded, and
/// the place in its adjacency list of the next edge to look at.
pub struct BfsState {
    pub parent: Seq<Option<(usize, usize)>>,
    pub seen: Seq<bool>,
    pub pos: Seq<usize>,
    pub queue: Seq<usize>,
    pub head: int,
    pub j: int,
}

/// A traversal of `n` nodes from `m` that has not started.
pub open spec fn bfs_init(n: int, m: int) -> BfsState {
    BfsState {
        parent: Seq::new(n as nat, |v: int| None::<(usize, usize)>),
        seen: Seq::new(n as nat, |v: int| v == m),
        pos: Seq::new(n as nat, |v: int| 0usize),
        queue: seq![m as usize],
        head: 0,
        j: 0,
    }
}

/// One step of the traversal: look at the next edge of the node being
/// expanded, and put its far end at the back of the queue, discovered by
/// that node, when the walk may cross it and the end is new; or move on to
/// the next node of the queue.
pub open spec fn bfs_step(edges: Seq<Edge>, adj: Seq<Seq<AdjEdge>>, w: Walk, st: BfsState) -> BfsState {
    if st.head >= st.queue.len() {
        st
    } else {
        let u = st.queue[st.head];
        if st.j >= adj[u as int].len() {
            BfsState { head: st.head + 1, j: 0, ..st }
        } else {
            let a = adj[u as int][st.j];
            let t = a.target as int;
            if passable(edges[a.edge_index as int].claimed, w) && !st.seen[t] {
                BfsState {
                    parent: st.parent.update(t, Some((a.edge_index, u))),
                    seen: st.seen.update(t, true),
                    pos: st.pos.update(t, st.queue.len() as usize),
                    queue: st.queue.push(a.target),
                    j: st.j + 1,
                    ..st
                }
            } else {
                BfsState { j: st.j + 1, ..st }
            }
        }
    }
}

pub open spec fn bfs_run(edges: Seq<Edge>, adj: Seq<Seq<AdjEdge>>, w: Walk, st: BfsState, k: nat) -> BfsState
    decreases k,
{
    if k == 0 { st } else { bfs_run(edges, adj, w, bfs_step(edges, adj, w, st), (k - 1) as nat) }
}

/// Enough steps for a traversal of `n` nodes over `e` edges: each node is
/// expanded once and each edge looked at twice.
pub open spec fn bfs_fuel(n: int, e: int) -> nat {
    (n + 2 * e + 1) as nat
}

/// The tree of the breadth-first traversal from `m` over the walk `w`.
pub open spec fn bfs_tree_of(edges: Seq<Edge>, w: Walk, m: int, n: int) -> BfsState {
    bfs_run(edges, adj_upto(edges, n, edges.len() as int), w, bfs_init(n, m), bfs_fuel(n, edges.len() as int))
}

proof fn lemma_bfs_done(edges: Seq<Edge>, adj: Seq<Seq<AdjEdge>>, w: Walk, st: BfsState, k: nat)
    requires
        st.head >= st.queue.len(),
    ensures
        bfs_run(edges, adj, w, st, k) == st,
    decreases k,
{
    if k > 0 {
        lemma_bfs_done(edges, adj, w, st, (k - 1) as nat);
    }
}

/// The traversal of `bfs_tree_of`, run here: for each node the edge and the
/// node that discovered it, whether it was reached, and its place in the
/// queue, which is larger than that of the node that discovered it.
pub fn bfs_tree(edges: &Vec<Edge>, adj: &Vec<Vec<AdjEdge>>, n: usize, start: usize, w: Walk)
    -> (r: (Vec<Option<(usize, usize)>>, Vec<bool>, Vec<usize>))
    requires
        edges_wf(edges@, n as int),
        adj_wf(edges@, adj@, n as int),
        adj_views(adj@) == adj_upto(edges@, n as int, edges@.len() as int),
        start < n,
        n <= 65536,
        edges@.len() <= 16777216,
    ensures
        r.0@ == bfs_tree_of(edges@, w, start as int, n as int).parent,
        r.1@ == bfs_tree_of(edges@, w, start as int, n as int).seen,
        r.2@ == bfs_tree_of(edges@, w, start as int, n as int).pos,
        r.0@.len() == n && r.1@.len() == n && r.2@.len() == n,
        forall|v: int| 0 <= v < n ==> #[trigger] r.2@[v] <= 33619970,
        forall|v: int| 0 <= v < n && #[trigger] r.0@[v] is Some ==> {
            let (e, u) = r.0@[v].unwrap();
            e < edges@.len() && u < n && r.2@[u as int] < r.2@[v]
        },
{
    let ghost adjs = adj_upto(edges@, n as int, edges@.len() as int);
    let ghost init = bfs_init(n as int, start as int);
    let ghost fuel = bfs_fuel(n as int, edges@.len() as int);
    let ghost goal = bfs_run(edges@, adjs, w, init, fuel);
    let mut parent: Vec<Option<(usize, usize)>> = Vec::new();
    let mut seen: Vec<bool> = Vec::new();
    let mut pos: Vec<usize> = Vec::new();
    let mut v: usize = 0;
    while v < n
        invariant
            v <= n,
            start < n,
            parent@.len() == v && seen@.len() == v && pos@.len() == v,
            forall|x: int| 0 <= x < v ==> #[trigger] parent@[x] is None,
            forall|x: int| 0 <= x < v ==> #[trigger] seen@[x] == (x == start as int),
            forall|x: int| 0 <= x < v ==> #[trigger] pos@[x] == 0,
        decreases n - v,
    {
        parent.push(None);
        seen.push(v == start);
        pos.push(0);
        v = v + 1;
    }
    let mut queue: Vec<usize> = Vec::new();
    queue.push(start);
    let mut head: usize = 0;
    let mut j: usize = 0;
    let total = n + 2 * edges.len() + 1;
    let mut steps: usize = 0;
    proof {
        assert(parent@ =~= init.parent);
        assert(seen@ =~= init.seen);
        assert(pos@ =~= init.pos);
        assert(queue@ =~= init.queue);
    }
    while steps < total && head < queue.len()
        invariant
            edges_wf(edges@, n as int),
            adj_wf(edges@, adj@, n as int),
            adj_views(adj@) == adjs,
            adjs == adj_upto(edges@, n as int, edges@.len() as int),
            total == fuel,
            steps <= total,
            total <= 33619969,
            goal == bfs_run(edges@, adjs, w, BfsState { parent: parent@, seen: seen@, pos: pos@, queue: queue@, head: head as int, j: j as int }, (total - steps) as nat),
            parent@.len() == n && seen@.len() == n && pos@.len() == n,
            queue@.len() <= steps + 1,
            head <= queue@.len(),
            forall|k: int| 0 <= k < queue@.len() ==> #[trigger] queue@[k] < n && seen@[queue@[k] as int],
            forall|x: int| 0 <= x < n ==> #[trigger] pos@[x] < queue@.len(),
            forall|x: int| 0 <= x < n && #[trigger] parent@[x] is Some ==> {
                let (e, u) = parent@[x].unwrap();
                e < edges@.len() && u < n && pos@[u as int] < pos@[x] && seen@[u as int]
            },
        decreases total - steps,
    {
        let ghost cur = BfsState { parent: parent@, seen: seen@, pos: pos@, queue: queue@, head: head as int, j: j as int };
        let u = queue[head];
        assert(adjs[u as int] == adj@[u as int]@);
        if j >= adj[u].len() {
            head = head + 1;
            j = 0;
        } else {
            let a = adj[u][j];
            assert(a == adjs[u as int][j as int]);
            assert(a.edge_index < edges@.len() && joins(edges@[a.edge_index as int], u as int, a.target as int));
            assert(edges@[a.edge_index as int].source < edges@[a.edge_index as int].target && edges@[a.edge_index as int].target < n);
            let t = a.target;
            if passes(&edges[a.edge_index].claimed, w) && !seen[t] {
                let ghost qlen = queue@.len();
                parent.set(t, Some((a.edge_index, u)));
                seen.set(t, true);
                pos.set(t, queue.len());
                queue.push(t);
                proof {
                    assert(pos@[u as int] < qlen);
                    assert(seen@[u as int]);
                }
            }
            j = j + 1;
        }
        steps = steps + 1;
        proof {
            let next = BfsState { parent: parent@, seen: seen@, pos: pos@, queue: queue@, head: head as int, j: j as int };
            assert(bfs_step(edges@, adjs, w, cur) == next);
        }
    }
    proof {
        let cur = BfsState { parent: parent@, seen: seen@, pos: pos@, queue: queue@, head: head as int, j: j as int };
        if head >= queue.len() {
            lemma_bfs_done(edges@, adjs, w, cur, (total - steps) as nat);
        }
        assert(goal == cur);
    }
    (parent, seen, pos)
}

} // verus!
