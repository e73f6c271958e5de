use vstd::prelude::*;
use vstd::set_lib::*;
use crate::edge::{AdjEdge, Claimed, Edge, owned_by};
use crate::prelude::PunterId;

verus! {

/// Which edges a traversal may cross.
#[derive(Debug, Clone, Copy, PartialEq, Eq, Structural)]
pub enum Walk {
    /// Every river, whatever its owner: the map's topology.
    Any,
    /// Only rivers that the punter owns.
    Owned(PunterId),
    /// Rivers that nobody has claimed yet and rivers that the punter owns.
    Open(PunterId),
}

pub open spec fn passable(c: Claimed, w: Walk) -> bool {
    match w {
        Walk::Any => true,
        Walk::Owned(p) => owned_by(c, p),
        Walk::Open(p) => c == Claimed::NotYet || owned_by(c, p),
    }
}

pub fn passes(c: &Claimed, w: Walk) -> (r: bool)
    ensures
        r == passable(*c, w),
{
    match w {
        Walk::Any => true,
        Walk::Owned(p) => c.is_owned_by(p),
        Walk::Open(p) => c.is_empty() || c.is_owned_by(p),
    }
}

/// Edge `e` connects nodes `u` and `v`, in either direction.
pub open spec fn joins(e: Edge, u: int, v: int) -> bool {
    (e.source == u && e.target == v) || (e.source == v && e.target == u)
}

/// Edge `i` is a river between `u` and `v` that walk `w` may cross.
pub open spec fn step_by(edges: Seq<Edge>, w: Walk, i: int, u: int, v: int) -> bool {
    0 <= i < edges.len() && passable(edges[i].claimed, w) && joins(edges[i], u, v)
}

pub open spec fn step(edges: Seq<Edge>, w: Walk, u: int, v: int) -> bool {
    exists|i: int| #[trigger] step_by(edges, w, i, u, v)
}

/// Node `v` can be reached from `m` in at most `k` crossings allowed by `w`.
pub open spec fn within(edges: Seq<Edge>, w: Walk, m: int, v: int, k: nat) -> bool
    decreases k,
{
    if k == 0 {
        v == m
    } else {
        within(edges, w, m, v, (k - 1) as nat) || exists|u: int|
            #[trigger] step(edges, w, u, v) && within(edges, w, m, u, (k - 1) as nat)
    }
}

/// `d` is the length of a shortest walk from `m` to `v`.
pub open spec fn exact(edges: Seq<Edge>, w: Walk, m: int, v: int, d: nat) -> bool {
    within(edges, w, m, v, d) && (d == 0 || !within(edges, w, m, v, (d - 1) as nat))
}

pub open spec fn reachable(edges: Seq<Edge>, w: Walk, m: int, v: int) -> bool {
    exists|k: nat| within(edges, w, m, v, k)
}

/// `dist` gives, for each of the `n` nodes, its distance from `m` under `w`,
/// and `None` exactly for the nodes that cannot be reached.
pub open spec fn is_dist_table(edges: Seq<Edge>, w: Walk, m: int, n: int, dist: Seq<Option<usize>>) -> bool {
    &&& dist.len() == n
    &&& forall|v: int| 0 <= v < n ==> match #[trigger] dist[v] {
        Some(d) => exact(edges, w, m, v, d as nat),
        None => !reachable(edges, w, m, v),
    }
}

/// The distance table of `m` under `w`.
pub open spec fn dist_table(edges: Seq<Edge>, w: Walk, m: int, n: int) -> Seq<Option<usize>> {
    choose|t: Seq<Option<usize>>| is_dist_table(edges, w, m, n, t)
}

/// Every edge joins two of the `n` nodes, the smaller one first.
pub open spec fn edges_wf(edges: Seq<Edge>, n: int) -> bool {
    forall|i: int| 0 <= i < edges.len() ==> #[trigger] edges[i].source < edges[i].target && edges[i].target < n
}

/// `adj` lists, for each of the `n` nodes, exactly the edges that touch it.
pub open spec fn adj_wf(edges: Seq<Edge>, adj: Seq<Vec<AdjEdge>>, n: int) -> bool {
    &&& adj.len() == n
    &&& forall|v: int, j: int| 0 <= v < n && 0 <= j < adj[v]@.len() ==> {
        let a = #[trigger] adj[v]@[j];
        a.edge_index < edges.len() && joins(edges[a.edge_index as int], v, a.target as int)
    }
    &&& forall|i: int, u: int, v: int| 0 <= i < edges.len() && #[trigger] joins(edges[i], u, v) ==>
        exists|j: int| 0 <= j < adj[u]@.len() && #[trigger] adj[u]@[j] == (AdjEdge { target: v as usize, edge_index: i as usize })
}

pub proof fn lemma_within_monotone(edges: Seq<Edge>, w: Walk, m: int, v: int, j: nat, k: nat)
    requires
        j <= k,
        within(edges, w, m, v, j),
    ensures
        within(edges, w, m, v, k),
    decreases k - j,
{
    if j < k {
        lemma_within_monotone(edges, w, m, v, j, (k - 1) as nat);
    }
}

pub proof fn lemma_within_step(edges: Seq<Edge>, w: Walk, m: int, u: int, v: int, d: nat)
    requires
        within(edges, w, m, u, d),
        step(edges, w, u, v),
    ensures
        within(edges, w, m, v, d + 1),
{
    assert(within(edges, w, m, v, (d + 1) as nat)) by {
        assert(((d + 1) as nat - 1) as nat == d);
    }
}

/// A shortest distance is unique.
pub proof fn lemma_exact_unique(edges: Seq<Edge>, w: Walk, m: int, v: int, d1: nat, d2: nat)
    requires
        exact(edges, w, m, v, d1),
        exact(edges, w, m, v, d2),
    ensures
        d1 == d2,
{
    if d1 < d2 {
        lemma_within_monotone(edges, w, m, v, d1, (d2 - 1) as nat);
    } else if d2 < d1 {
        lemma_within_monotone(edges, w, m, v, d2, (d1 - 1) as nat);
    }
}

/// There is only one distance table for a start node and a walk.
pub proof fn lemma_dist_table_unique(edges: Seq<Edge>, w: Walk, m: int, n: int, t1: Seq<Option<usize>>, t2: Seq<Option<usize>>)
    requires
        is_dist_table(edges, w, m, n, t1),
        is_dist_table(edges, w, m, n, t2),
    ensures
        t1 == t2,
{
    assert forall|v: int| 0 <= v < n implies t1[v] == t2[v] by {
        match t1[v] {
            Some(d1) => match t2[v] {
                Some(d2) => lemma_exact_unique(edges, w, m, v, d1 as nat, d2 as nat),
                None => assert(within(edges, w, m, v, d1 as nat)),
            },
            None => match t2[v] {
                Some(d2) => assert(within(edges, w, m, v, d2 as nat)),
                None => {},
            },
        }
    }
    assert(t1 =~= t2);
}

/// Walks that may cross every river see only where the rivers run, not who
/// owns them.
pub proof fn lemma_any_walk_ignores_claims(e1: Seq<Edge>, e2: Seq<Edge>, m: int, n: int, t: Seq<Option<usize>>)
    requires
        e1.len() == e2.len(),
        forall|i: int| 0 <= i < e1.len() ==> #[trigger] e1[i].source == e2[i].source && e1[i].target == e2[i].target,
        is_dist_table(e1, Walk::Any, m, n, t),
    ensures
        is_dist_table(e2, Walk::Any, m, n, t),
{
    assert forall|u: int, v: int| #[trigger] step(e1, Walk::Any, u, v) == step(e2, Walk::Any, u, v) by {
        if step(e1, Walk::Any, u, v) {
            let i = choose|i: int| #[trigger] step_by(e1, Walk::Any, i, u, v);
            assert(step_by(e2, Walk::Any, i, u, v));
        }
        if step(e2, Walk::Any, u, v) {
            let i = choose|i: int| #[trigger] step_by(e2, Walk::Any, i, u, v);
            assert(step_by(e1, Walk::Any, i, u, v));
        }
    }
    assert forall|v: int, k: nat| #[trigger] within(e1, Walk::Any, m, v, k) == within(e2, Walk::Any, m, v, k) by {
        lemma_within_same_steps(e1, e2, m, v, k);
    }
    assert forall|v: int| 0 <= v < n implies match #[trigger] t[v] {
        Some(d) => exact(e2, Walk::Any, m, v, d as nat),
        None => !reachable(e2, Walk::Any, m, v),
    } by {
        match t[v] {
            Some(d) => {
                assert(exact(e1, Walk::Any, m, v, d as nat));
                assert(within(e1, Walk::Any, m, v, d as nat) == within(e2, Walk::Any, m, v, d as nat));
                if d > 0 {
                    assert(within(e1, Walk::Any, m, v, (d - 1) as nat) == within(e2, Walk::Any, m, v, (d - 1) as nat));
                }
            },
            None => {
                if reachable(e2, Walk::Any, m, v) {
                    let k = choose|k: nat| within(e2, Walk::Any, m, v, k);
                    assert(within(e1, Walk::Any, m, v, k) == within(e2, Walk::Any, m, v, k));
                }
            },
        }
    }
}

proof fn lemma_within_same_steps(e1: Seq<Edge>, e2: Seq<Edge>, m: int, v: int, k: nat)
    requires
        forall|u: int, v: int| #[trigger] step(e1, Walk::Any, u, v) == step(e2, Walk::Any, u, v),
    ensures
        within(e1, Walk::Any, m, v, k) == within(e2, Walk::Any, m, v, k),
    decreases k,
{
    if k > 0 {
        lemma_within_same_steps(e1, e2, m, v, (k - 1) as nat);
        if within(e1, Walk::Any, m, v, k) && !within(e1, Walk::Any, m, v, (k - 1) as nat) {
            let u = choose|u: int| #[trigger] step(e1, Walk::Any, u, v) && within(e1, Walk::Any, m, u, (k - 1) as nat);
            lemma_within_same_steps(e1, e2, m, u, (k - 1) as nat);
            assert(step(e2, Walk::Any, u, v) && within(e2, Walk::Any, m, u, (k - 1) as nat));
        }
        if within(e2, Walk::Any, m, v, k) && !within(e2, Walk::Any, m, v, (k - 1) as nat) {
            let u = choose|u: int| #[trigger] step(e2, Walk::Any, u, v) && within(e2, Walk::Any, m, u, (k - 1) as nat);
            lemma_within_same_steps(e1, e2, m, u, (k - 1) as nat);
            assert(step(e1, Walk::Any, u, v) && within(e1, Walk::Any, m, u, (k - 1) as nat));
        }
    }
}

/// A set of nodes that holds `m` and is closed under the steps of `w`
/// holds every node that `w` reaches from `m`.
pub proof fn lemma_closed_holds_reach(edges: Seq<Edge>, w: Walk, m: int, s: Set<int>, v: int, k: nat)
    requires
        s.contains(m),
        forall|a: int, b: int| s.contains(a) && #[trigger] step(edges, w, a, b) ==> s.contains(b),
        within(edges, w, m, v, k),
    ensures
        s.contains(v),
    decreases k,
{
    if k > 0 {
        if within(edges, w, m, v, (k - 1) as nat) {
            lemma_closed_holds_reach(edges, w, m, s, v, (k - 1) as nat);
        } else {
            let u = choose|u: int| #[trigger] step(edges, w, u, v) && within(edges, w, m, u, (k - 1) as nat);
            lemma_closed_holds_reach(edges, w, m, s, u, (k - 1) as nat);
        }
    }
}

/// Distances from `start` over the walk `w`, by a breadth-first traversal
/// that labels one level of nodes at a time.
pub fn bfs(edges: &Vec<Edge>, adj: &Vec<Vec<AdjEdge>>, n: usize, start: usize, w: Walk) -> (dist: Vec<Option<usize>>)
    requires
        edges_wf(edges@, n as int),
        adj_wf(edges@, adj@, n as int),
        start < n,
    ensures
        is_dist_table(edges@, w, start as int, n as int, dist@),
        dist@ == dist_table(edges@, w, start as int, n as int),
        forall|v: int| 0 <= v < n && #[trigger] dist@[v] is Some ==> dist@[v].unwrap() < n,
{
    let ghost m = start as int;
    let ghost es = edges@;
    let mut dist: Vec<Option<usize>> = Vec::new();
    let mut i: usize = 0;
    while i < n
        invariant
            i <= n,
            dist@.len() == i,
            forall|v: int| 0 <= v < i ==> dist@[v] is None,
        decreases n - i,
    {
        dist.push(None);
        i = i + 1;
    }
    dist.set(start, Some(0));
    let ghost mut labelled: Set<int> = set![m];
    let mut frontier: Vec<usize> = vec![start];
    let mut level: usize = 0;
    proof {
        lemma_int_range(0, n as int);
        lemma_len_subset(labelled, set_int_range(0, n as int));
        assert(dist@[m] == Some(0usize));
    }
    loop
        invariant
            es == edges@,
            m == start as int,
            edges_wf(edges@, n as int),
            adj_wf(edges@, adj@, n as int),
            start < n,
            dist@.len() == n,
            labelled.finite(),
            labelled.len() <= n,
            labelled.contains(m),
            level + 1 <= labelled.len(),
            forall|v: int| #[trigger] labelled.contains(v) <==> (0 <= v < n && dist@[v] is Some),
            forall|v: int| 0 <= v < n && #[trigger] dist@[v] is Some ==> dist@[v].unwrap() <= level
                && exact(es, w, m, v, dist@[v].unwrap() as nat),
            forall|v: int| 0 <= v < n && #[trigger] within(es, w, m, v, level as nat) ==> dist@[v] is Some,
            frontier@.len() > 0,
            forall|j: int| 0 <= j < frontier@.len() ==> #[trigger] frontier@[j] < n && dist@[frontier@[j] as int] == Some(level),
            forall|v: int| 0 <= v < n && #[trigger] dist@[v] == Some(level) ==> exists|j: int| 0 <= j < frontier@.len() && frontier@[j] == v,
        decreases n - labelled.len(),
    {
        let mut next: Vec<usize> = Vec::new();
        let mut a: usize = 0;
        let ghost before = labelled;
        while a < frontier.len()
            invariant
                es == edges@,
                edges_wf(edges@, n as int),
                adj_wf(edges@, adj@, n as int),
                dist@.len() == n,
                labelled.finite(),
                labelled.len() <= n,
                labelled.contains(m),
                before.subset_of(labelled),
                labelled.len() == before.len() + next@.len(),
                level + 1 <= before.len(),
                level < n,
                a <= frontier@.len(),
                forall|v: int| #[trigger] labelled.contains(v) <==> (0 <= v < n && dist@[v] is Some),
                forall|v: int| 0 <= v < n && #[trigger] dist@[v] is Some ==> dist@[v].unwrap() <= level + 1
                    && exact(es, w, m, v, dist@[v].unwrap() as nat),
                forall|v: int| 0 <= v < n && #[trigger] within(es, w, m, v, level as nat) ==> dist@[v] is Some,
                forall|j: int| 0 <= j < frontier@.len() ==> #[trigger] frontier@[j] < n && dist@[frontier@[j] as int] == Some(level),
                forall|v: int| 0 <= v < n && #[trigger] dist@[v] == Some(level) ==> exists|j: int| 0 <= j < frontier@.len() && frontier@[j] == v,
                forall|j: int| 0 <= j < next@.len() ==> #[trigger] next@[j] < n && dist@[next@[j] as int] == Some((level + 1) as usize),
                forall|v: int| 0 <= v < n && #[trigger] dist@[v] == Some((level + 1) as usize) ==> exists|j: int| 0 <= j < next@.len() && next@[j] == v,
                forall|j: int, v: int| 0 <= j < a && 0 <= v < n && #[trigger] step(es, w, frontier@[j] as int, v) ==> dist@[v] is Some,
            decreases frontier@.len() - a,
        {
            let u = frontier[a];
            let ghost gu = u as int;
            let mut b: usize = 0;
            assert(labelled.contains(gu));
            assert(exact(es, w, m, gu, level as nat));
            while b < adj[u].len()
                invariant
                    es == edges@,
                    edges_wf(edges@, n as int),
                    adj_wf(edges@, adj@, n as int),
                    dist@.len() == n,
                    labelled.finite(),
                    labelled.len() <= n,
                    labelled.contains(m),
                    before.subset_of(labelled),
                    labelled.len() == before.len() + next@.len(),
                    level + 1 <= before.len(),
                    level < n,
                    a < frontier@.len(),
                    u == frontier@[a as int],
                    gu == u as int,
                    u < n,
                    dist@[gu] == Some(level),
                    exact(es, w, m, gu, level as nat),
                    b <= adj@[gu]@.len(),
                    forall|v: int| #[trigger] labelled.contains(v) <==> (0 <= v < n && dist@[v] is Some),
                    forall|v: int| 0 <= v < n && #[trigger] dist@[v] is Some ==> dist@[v].unwrap() <= level + 1
                        && exact(es, w, m, v, dist@[v].unwrap() as nat),
                    forall|v: int| 0 <= v < n && #[trigger] within(es, w, m, v, level as nat) ==> dist@[v] is Some,
                    forall|j: int| 0 <= j < frontier@.len() ==> #[trigger] frontier@[j] < n && dist@[frontier@[j] as int] == Some(level),
                    forall|v: int| 0 <= v < n && #[trigger] dist@[v] == Some(level) ==> exists|j: int| 0 <= j < frontier@.len() && frontier@[j] == v,
                    forall|j: int| 0 <= j < next@.len() ==> #[trigger] next@[j] < n && dist@[next@[j] as int] == Some((level + 1) as usize),
                    forall|v: int| 0 <= v < n && #[trigger] dist@[v] == Some((level + 1) as usize) ==> exists|j: int| 0 <= j < next@.len() && next@[j] == v,
                    forall|j: int, v: int| 0 <= j < a && 0 <= v < n && #[trigger] step(es, w, frontier@[j] as int, v) ==> dist@[v] is Some,
                    forall|j: int| 0 <= j < b ==> {
                        let ae = #[trigger] adj@[gu]@[j];
                        passable(es[ae.edge_index as int].claimed, w) ==> dist@[ae.target as int] is Some
                    },
                decreases adj@[gu]@.len() - b,
            {
                let ae = adj[u][b];
                assert(ae == adj@[gu]@[b as int]);
                assert(ae.edge_index < edges@.len() && joins(es[ae.edge_index as int], gu, ae.target as int));
                let t = ae.target;
                assert(t < n);
                if passes(&edges[ae.edge_index].claimed, w) && dist[t].is_none() {
                    proof {
                        assert(step_by(es, w, ae.edge_index as int, gu, t as int));
                        assert(step(es, w, gu, t as int));
                        lemma_within_step(es, w, m, gu, t as int, level as nat);
                        assert(!within(es, w, m, t as int, level as nat));
                        assert(exact(es, w, m, t as int, (level + 1) as nat));
                        assert(!labelled.contains(t as int));
                        lemma_int_range(0, n as int);
                        lemma_len_subset(labelled.insert(t as int), set_int_range(0, n as int));
                    }
                    let ghost old_next = next@;
                    dist.set(t, Some(level + 1));
                    next.push(t);
                    proof {
                        labelled = labelled.insert(t as int);
                        assert forall|v: int| 0 <= v < n && #[trigger] dist@[v] == Some((level + 1) as usize) implies exists|j: int| 0 <= j < next@.len() && next@[j] == v by {
                            if v == t as int {
                                assert(next@[next@.len() - 1] == t);
                            } else {
                                let j = choose|j: int| 0 <= j < old_next.len() && old_next[j] == v;
                                assert(next@[j] == v);
                            }
                        }
                    }
                }
                b = b + 1;
            }
            proof {
                assert forall|j: int, v: int| 0 <= j < a + 1 && 0 <= v < n && #[trigger] step(es, w, frontier@[j] as int, v) implies dist@[v] is Some by {
                    if j == a {
                        assert(frontier@[j] as int == gu);
                        assert(step(es, w, gu, v));
                        let i = choose|i: int| #[trigger] step_by(es, w, i, gu, v);
                        assert(step_by(es, w, i, gu, v));
                        assert(joins(es[i], gu, v));
                        assert(0 <= i < edges.len());
                        assert((i as usize) as int == i);
                        assert(0 <= v < n);
                        assert(exists|jj: int| 0 <= jj < adj@[gu]@.len() && #[trigger] adj@[gu]@[jj] == (AdjEdge { target: v as usize, edge_index: i as usize }));
                        let jj = choose|jj: int| 0 <= jj < adj@[gu]@.len() && #[trigger] adj@[gu]@[jj] == (AdjEdge { target: v as usize, edge_index: i as usize });
                        let ae = adj@[gu]@[jj];
                        assert(ae.target == v as usize);
                        assert(passable(es[ae.edge_index as int].claimed, w));
                        assert(dist@[ae.target as int] is Some);
                    }
                }
            }
            a = a + 1;
        }
        proof {
            // Every node one step beyond a labelled node is labelled.
            assert forall|v: int| 0 <= v < n && #[trigger] within(es, w, m, v, (level + 1) as nat) implies dist@[v] is Some by {
                if !within(es, w, m, v, level as nat) {
                    let u = choose|u: int| #[trigger] step(es, w, u, v) && within(es, w, m, u, level as nat);
                    let i = choose|i: int| #[trigger] step_by(es, w, i, u, v);
                    assert(0 <= u < n);
                    let d = dist@[u].unwrap();
                    if d == level {
                        let j = choose|j: int| 0 <= j < frontier@.len() && frontier@[j] == u;
                        assert(step(es, w, frontier@[j] as int, v));
                    } else {
                        lemma_within_step(es, w, m, u, v, d as nat);
                        lemma_within_monotone(es, w, m, v, (d + 1) as nat, level as nat);
                    }
                }
            }
        }
        if next.len() == 0 {
            proof {
                assert forall|a: int, b: int| labelled.contains(a) && #[trigger] step(es, w, a, b) implies labelled.contains(b) by {
                    let i = choose|i: int| #[trigger] step_by(es, w, i, a, b);
                    assert(0 <= b < n);
                    let d = dist@[a].unwrap();
                    if d == level + 1 {
                        let j = choose|j: int| 0 <= j < next@.len() && next@[j] == a;
                    }
                    lemma_within_step(es, w, m, a, b, d as nat);
                    lemma_within_monotone(es, w, m, b, (d + 1) as nat, (level + 1) as nat);
                }
                assert forall|v: int| 0 <= v < n && #[trigger] dist@[v] is None implies !reachable(es, w, m, v) by {
                    if reachable(es, w, m, v) {
                        let k = choose|k: nat| within(es, w, m, v, k);
                        lemma_closed_holds_reach(es, w, m, labelled, v, k);
                    }
                }
                assert forall|v: int| 0 <= v < n implies match #[trigger] dist@[v] {
                    Some(d) => exact(es, w, m, v, d as nat),
                    None => !reachable(es, w, m, v),
                } by {
                    if dist@[v] is Some {
                        assert(exact(es, w, m, v, dist@[v].unwrap() as nat));
                    }
                }
                assert(is_dist_table(es, w, m, n as int, dist@));
                assert forall|v: int| 0 <= v < n && #[trigger] dist@[v] is Some implies dist@[v].unwrap() < n by {
                    if dist@[v].unwrap() == level + 1 {
                        let j = choose|j: int| 0 <= j < next@.len() && next@[j] == v;
                    }
                }
                lemma_dist_table_unique(es, w, m, n as int, dist@, dist_table(es, w, m, n as int));
            }
            return dist;
        }
        proof {
            assert(next@.len() > 0);
        }
        level = level + 1;
        frontier = next;
    }
}

} // verus!
