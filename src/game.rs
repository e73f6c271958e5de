use vstd::prelude::*;
use std::collections::HashMap;
use crate::edge::{AdjEdge, Claimed, Edge, EdgeClaim, EdgeIndex, Node, claim_outcome, owned_by};
use crate::tree::{BfsState, adj_upto, adj_views, bfs_tree, bfs_tree_of, lemma_adj_ignores_claims};
use crate::paths::{Walk, exact, reachable, bfs, joins, dist_table, edges_wf, adj_wf, is_dist_table, lemma_any_walk_ignores_claims, lemma_dist_table_unique};
use crate::prelude::{PunterId, SiteId};
use crate::protocol::{Claim, Future, GameMap, Move, MoveView, Pass, River, SetupSP, Site, Splurge};

pub mod state;

verus! {

/// The largest number of sites a map may have. This limit, and those on
/// mines and rivers below, are the library's own: they keep every score
/// within `i64` and every edge weight within `u128`, so that no sum can
/// overflow.
pub const MAX_SITES: usize = 65536;

/// The largest number of mines a map may have.
pub const MAX_MINES: usize = 8192;

/// The largest number of rivers a map may have.
pub const MAX_RIVERS: usize = 16777216;

/// A bound on what one mine gives one punter: the squared distances of at
/// most `MAX_SITES` nodes, and one cubed distance.
pub const MINE_SCORE_BOUND: i64 = 562949953421312;

/// How a punter picks its move.
#[derive(Debug, Clone, Copy, PartialEq, Eq, Structural)]
pub enum Strategy {
    /// The first unclaimed river.
    Stupid,
    /// The unclaimed river that the most scoring hangs on.
    EdgeWeight,
}

/// A bound on what one node adds to the weight of an edge: a squared
/// distance below 2^32 times a path length below 2^26.
pub const NODE_WEIGHT_BOUND: u128 = 288230376151711744;

/// A bound on what one mine adds to the weight of an edge: at most
/// `MAX_SITES` nodes of `NODE_WEIGHT_BOUND`.
pub const MINE_WEIGHT_BOUND: u128 = 18889465931478580854784;

/// The optional rules of a match, and the futures chosen at setup.
#[derive(Debug, Clone)]
pub struct GameExtension {
    pub is_futures_on: bool,
    pub is_splurge_on: bool,
    pub is_options_on: bool,
    /// The target node of the future on each mine, in the order of the mines.
    pub futures: Vec<Node>,
    pub prior_passes: usize,
    pub prior_options: usize,
}

/// The state of a match as one punter sees it.
#[derive(Debug, Clone)]
pub struct Game {
    pub me: PunterId,
    punters: usize,
    /// The site identifiers in increasing order: node `i` is `site_ids[i]`.
    site_ids: Vec<SiteId>,
    mines: Vec<Node>,
    edges: Vec<Edge>,
    extension: GameExtension,
    adj_edges: Vec<Vec<AdjEdge>>,
    /// The last edge from `s` to `t`, under the key `edge_key(s, t, n)`.
    edge_st_to_edge_index: HashMap<u64, EdgeIndex>,
    /// `dist_from_mine[i][v]`: the distance from `mines[i]` to node `v`.
    dist_from_mine: Vec<Vec<Option<usize>>>,
}

/// What a game is: everything but the tables derived from the map.
pub struct GameModel {
    pub me: PunterId,
    pub punters: usize,
    pub site_ids: Seq<SiteId>,
    pub mines: Seq<Node>,
    pub edges: Seq<Edge>,
    pub futures_on: bool,
    pub splurge_on: bool,
    pub options_on: bool,
    pub futures: Seq<Node>,
    pub prior_passes: usize,
    pub prior_options: usize,
}

impl View for Game {
    type V = GameModel;

    closed spec fn view(&self) -> GameModel {
        GameModel {
            me: self.me,
            punters: self.punters,
            site_ids: self.site_ids@,
            mines: self.mines@,
            edges: self.edges@,
            futures_on: self.extension.is_futures_on,
            splurge_on: self.extension.is_splurge_on,
            options_on: self.extension.is_options_on,
            futures: self.extension.futures@,
            prior_passes: self.extension.prior_passes,
            prior_options: self.extension.prior_options,
        }
    }
}

pub open spec fn strictly_increasing(s: Seq<u64>) -> bool {
    forall|i: int, j: int| 0 <= i < j < s.len() ==> s[i] < s[j]
}

/// The game model is one that a map can give: sites in increasing order,
/// mines, edges and futures on them, and sizes within the limits.
pub open spec fn model_wf(g: GameModel) -> bool {
    let n = g.site_ids.len();
    &&& n <= MAX_SITES
    &&& strictly_increasing(g.site_ids)
    &&& g.mines.len() <= MAX_MINES
    &&& forall|i: int| 0 <= i < g.mines.len() ==> #[trigger] g.mines[i] < n
    &&& edges_wf(g.edges, n as int)
    &&& g.edges.len() <= MAX_RIVERS
    &&& g.futures.len() <= g.mines.len()
    &&& forall|i: int| 0 <= i < g.futures.len() ==> #[trigger] g.futures[i] < n
}

/// The node of site `id`, if the map has that site.
pub open spec fn node_of(ids: Seq<SiteId>, id: SiteId) -> Option<int> {
    if exists|i: int| 0 <= i < ids.len() && ids[i] == id {
        Some(choose|i: int| 0 <= i < ids.len() && ids[i] == id)
    } else {
        None
    }
}

/// Edge `e` is the last one from `s` to `t`.
pub open spec fn is_last_edge(edges: Seq<Edge>, s: int, t: int, e: int) -> bool {
    &&& 0 <= e < edges.len()
    &&& edges[e].source == s && edges[e].target == t
    &&& forall|f: int| e < f < edges.len() ==> !(#[trigger] edges[f].source == s && edges[f].target == t)
}

/// The key of the pair of nodes `s < t` among `n` nodes.
pub open spec fn edge_key(s: int, t: int, n: int) -> u64 {
    (s * n + t) as u64
}

/// `lookup` finds, for each pair of nodes `s < t`, the last of the first
/// `k` edges from `s` to `t`, and has no key for a pair without one.
pub open spec fn lookup_wf(edges: Seq<Edge>, lookup: Map<u64, EdgeIndex>, n: int, k: int) -> bool {
    forall|s: int, t: int| 0 <= s < t < n ==> {
        let key = #[trigger] edge_key(s, t, n);
        &&& lookup.contains_key(key) ==> {
            let e = lookup[key] as int;
            &&& 0 <= e < k
            &&& edges[e].source == s && edges[e].target == t
            &&& forall|f: int| e < f < k ==> !(#[trigger] edges[f].source == s && edges[f].target == t)
        }
        &&& !lookup.contains_key(key) ==> forall|f: int| 0 <= f < k ==> !(#[trigger] edges[f].source == s && edges[f].target == t)
    }
}

/// The lookup sees where rivers run, not who owns them.
proof fn lemma_lookup_ignores_claims(e1: Seq<Edge>, e2: Seq<Edge>, lookup: Map<u64, EdgeIndex>, n: int, k: int)
    requires
        crate::tree::same_ends(e1, e2),
        k <= e1.len(),
        lookup_wf(e1, lookup, n, k),
    ensures
        lookup_wf(e2, lookup, n, k),
{
    assert forall|s: int, t: int| 0 <= s < t < n implies {
        let key = #[trigger] edge_key(s, t, n);
        &&& lookup.contains_key(key) ==> {
            let e = lookup[key] as int;
            &&& 0 <= e < k
            &&& e2[e].source == s && e2[e].target == t
            &&& forall|f: int| e < f < k ==> !(#[trigger] e2[f].source == s && e2[f].target == t)
        }
        &&& !lookup.contains_key(key) ==> forall|f: int| 0 <= f < k ==> !(#[trigger] e2[f].source == s && e2[f].target == t)
    } by {
        let key = edge_key(s, t, n);
        if lookup.contains_key(key) {
            let e = lookup[key] as int;
            assert(e1[e].source == e2[e].source && e1[e].target == e2[e].target);
            assert forall|f: int| e < f < k implies !(#[trigger] e2[f].source == s && e2[f].target == t) by {
                assert(e1[f].source == e2[f].source && e1[f].target == e2[f].target);
            }
        } else {
            assert forall|f: int| 0 <= f < k implies !(#[trigger] e2[f].source == s && e2[f].target == t) by {
                assert(e1[f].source == e2[f].source && e1[f].target == e2[f].target);
            }
        }
    }
}

/// Builds the lookup of the last edge between each pair of nodes.
pub(crate) fn build_lookup(edges: &Vec<Edge>, n: usize) -> (r: HashMap<u64, EdgeIndex>)
    requires
        edges_wf(edges@, n as int),
        n <= 65536,
    ensures
        lookup_wf(edges@, r@, n as int, edges@.len() as int),
{
    broadcast use vstd::std_specs::hash::group_hash_axioms;
    let ghost es = edges@;
    let mut lookup: HashMap<u64, EdgeIndex> = HashMap::new();
    let mut k: usize = 0;
    while k < edges.len()
        invariant
            es == edges@,
            edges_wf(es, n as int),
            n <= 65536,
            k <= es.len(),
            lookup_wf(es, lookup@, n as int, k as int),
        decreases es.len() - k,
    {
        let e = edges[k];
        assert(es[k as int].source < es[k as int].target && es[k as int].target < n);
        assert((e.source as int) * (n as int) + (e.target as int) < 65536 * 65536) by (nonlinear_arith)
            requires e.source < n, e.target < n, n <= 65536;
        let key: u64 = (e.source as u64) * (n as u64) + (e.target as u64);
        let ghost before = lookup@;
        lookup.insert(key, k);
        proof {
            let es_ = es;
            let nn = n as int;
            assert(key == edge_key(e.source as int, e.target as int, nn));
            assert forall|s: int, t: int| 0 <= s < t < nn implies {
                let kk = #[trigger] edge_key(s, t, nn);
                &&& lookup@.contains_key(kk) ==> {
                    let x = lookup@[kk] as int;
                    &&& 0 <= x < k + 1
                    &&& es_[x].source == s && es_[x].target == t
                    &&& forall|f: int| x < f < k + 1 ==> !(#[trigger] es_[f].source == s && es_[f].target == t)
                }
                &&& !lookup@.contains_key(kk) ==> forall|f: int| 0 <= f < k + 1 ==> !(#[trigger] es_[f].source == s && es_[f].target == t)
            } by {
                let kk = edge_key(s, t, nn);
                if s == e.source && t == e.target {
                    assert(kk == key);
                } else {
                    if kk == key {
                        lemma_edge_key_injective(s, t, e.source as int, e.target as int, nn);
                    }
                    assert(kk != key);
                    assert(lookup@.contains_key(kk) == before.contains_key(kk));
                }
            }
        }
        k = k + 1;
    }
    lookup
}

/// Different pairs of nodes have different keys.
proof fn lemma_edge_key_injective(s1: int, t1: int, s2: int, t2: int, n: int)
    requires
        0 <= s1 < n,
        0 <= t1 < n,
        0 <= s2 < n,
        0 <= t2 < n,
        n <= 65536,
        edge_key(s1, t1, n) == edge_key(s2, t2, n),
    ensures
        s1 == s2 && t1 == t2,
{
    assert(0 <= s1 * n + t1 < 65536 * 65536) by (nonlinear_arith)
        requires 0 <= s1 < n, 0 <= t1 < n, n <= 65536;
    assert(0 <= s2 * n + t2 < 65536 * 65536) by (nonlinear_arith)
        requires 0 <= s2 < n, 0 <= t2 < n, n <= 65536;
    let x = s1 * n + t1;
    assert(x == s2 * n + t2);
    vstd::arithmetic::div_mod::lemma_fundamental_div_mod_converse(x, n, s1, t1);
    vstd::arithmetic::div_mod::lemma_fundamental_div_mod_converse(x, n, s2, t2);
}

/// The edges after punter `p` claims (or options) the river between nodes
/// `s` and `t`, with `s < t`; where the map has several such rivers the
/// last one is meant, and where it has none nothing changes.
pub open spec fn edges_after_claim(edges: Seq<Edge>, p: PunterId, s: int, t: int, is_option: bool) -> Seq<Edge> {
    if exists|e: int| is_last_edge(edges, s, t, e) {
        let e = choose|e: int| is_last_edge(edges, s, t, e);
        let c = match claim_outcome(edges[e].claimed, p, is_option) {
            Some(c) => c,
            None => edges[e].claimed,
        };
        edges.update(e, Edge { source: edges[e].source, target: edges[e].target, claimed: c })
    } else {
        edges
    }
}

/// The edges after a claim given by site identifiers.
pub open spec fn edges_after_site_claim(g: GameModel, edges: Seq<Edge>, c: Claim, is_option: bool) -> Seq<Edge> {
    match (node_of(g.site_ids, c.source), node_of(g.site_ids, c.target)) {
        (Some(s), Some(t)) => if s < t {
            edges_after_claim(edges, c.punter, s, t, is_option)
        } else {
            edges_after_claim(edges, c.punter, t, s, is_option)
        },
        _ => edges,
    }
}

/// The edges after the claims of a splurge along `route[k..]`.
pub open spec fn edges_after_route(g: GameModel, edges: Seq<Edge>, p: PunterId, route: Seq<SiteId>, k: int) -> Seq<Edge>
    decreases route.len() - k,
{
    if k < 0 || k + 1 >= route.len() {
        edges
    } else {
        edges_after_route(g, edges_after_site_claim(g, edges, Claim { punter: p, source: route[k], target: route[k + 1] }, false), p, route, k + 1)
    }
}

/// The edges after move `m`.
pub open spec fn edges_after_move(g: GameModel, m: MoveView) -> Seq<Edge> {
    match m {
        MoveView::Claim(c) => edges_after_site_claim(g, g.edges, c, false),
        MoveView::Pass(_) => g.edges,
        MoveView::Splurge(p, route) => edges_after_route(g, g.edges, p, route, 0),
        MoveView::Option_(c) => edges_after_site_claim(g, g.edges, c, true),
    }
}

pub open spec fn with_edges(g: GameModel, edges: Seq<Edge>) -> GameModel {
    GameModel { edges, ..g }
}

/// The game after the moves `ms[k..]`, skipping those of punter `me`.
pub open spec fn after_moves_excluding(g: GameModel, ms: Seq<MoveView>, me: PunterId, k: int) -> GameModel
    decreases ms.len() - k,
{
    if k < 0 || k >= ms.len() {
        g
    } else {
        let g2 = if view_punter(ms[k]) == me { g } else { with_edges(g, edges_after_move(g, ms[k])) };
        after_moves_excluding(g2, ms, me, k + 1)
    }
}

/// The game after all the moves `ms[k..]`, in order.
pub open spec fn after_moves(g: GameModel, ms: Seq<MoveView>, k: int) -> GameModel
    decreases ms.len() - k,
{
    if k < 0 || k >= ms.len() {
        g
    } else {
        after_moves(with_edges(g, edges_after_move(g, ms[k])), ms, k + 1)
    }
}

pub open spec fn view_punter(m: MoveView) -> PunterId {
    match m {
        MoveView::Claim(c) => c.punter,
        MoveView::Pass(p) => p.punter,
        MoveView::Splurge(p, _) => p,
        MoveView::Option_(c) => c.punter,
    }
}

pub open spec fn sq(d: Option<usize>) -> int {
    match d {
        Some(x) => x * x,
        None => 0,
    }
}

/// The sum of the squared distances `topo[v]` over the nodes `v < k` that
/// `own` reaches.
pub open spec fn reach_sum(topo: Seq<Option<usize>>, own: Seq<Option<usize>>, k: int) -> int
    decreases k,
{
    if k <= 0 {
        0
    } else {
        reach_sum(topo, own, k - 1) + if own[k - 1] is Some { sq(topo[k - 1]) } else { 0 }
    }
}

/// What mine `i` gives punter `p`: the squared distance of every node that
/// `p` has connected to the mine, and for our own punter the future on the
/// mine, won or lost by the cube of its distance.
pub open spec fn mine_score(g: GameModel, i: int, p: PunterId) -> int {
    let n = g.site_ids.len() as int;
    let m = g.mines[i] as int;
    let topo = dist_table(g.edges, Walk::Any, m, n);
    let own = dist_table(g.edges, Walk::Owned(p), m, n);
    reach_sum(topo, own, n) + if p == g.me && i < g.futures.len() {
        let t = g.futures[i] as int;
        let d: int = match topo[t] {
            Some(x) => x as int,
            None => 0,
        };
        if own[t] is Some { d * d * d } else { -(d * d * d) }
    } else {
        0
    }
}

pub open spec fn score_upto(g: GameModel, p: PunterId, k: int) -> int
    decreases k,
{
    if k <= 0 {
        0
    } else {
        score_upto(g, p, k - 1) + mine_score(g, k - 1, p)
    }
}

/// The score of punter `p`: the sum over all mines.
pub open spec fn score_of(g: GameModel, p: PunterId) -> int {
    score_upto(g, p, g.mines.len() as int)
}

impl Game {
    /// The derived tables agree with the model.
    pub closed spec fn wf(&self) -> bool {
        let n = self.site_ids@.len() as int;
        &&& model_wf(self@)
        &&& adj_wf(self.edges@, self.adj_edges@, n)
        &&& adj_views(self.adj_edges@) == adj_upto(self.edges@, n, self.edges@.len() as int)
        &&& lookup_wf(self.edges@, self.edge_st_to_edge_index@, n, self.edges@.len() as int)
        &&& self.dist_from_mine@.len() == self.mines@.len()
        &&& forall|i: int| 0 <= i < self.mines@.len() ==>
            is_dist_table(self.edges@, Walk::Any, #[trigger] self.mines@[i] as int, n, self.dist_from_mine@[i]@)
        &&& forall|i: int, v: int| 0 <= i < self.mines@.len() && 0 <= v < n && #[trigger] self.dist_from_mine@[i]@[v] is Some
            ==> self.dist_from_mine@[i]@[v].unwrap() < n
    }

    pub fn is_futures_on(&self) -> (r: bool)
        ensures
            r == self@.futures_on,
    {
        self.extension.is_futures_on
    }

    /// The number of nodes.
    pub fn node_count(&self) -> (r: usize)
        ensures
            r == self@.site_ids.len(),
    {
        self.site_ids.len()
    }

    /// The number of mines.
    pub fn mine_count(&self) -> (r: usize)
        ensures
            r == self@.mines.len(),
    {
        self.mines.len()
    }

    /// The distance from mine `i` to node `v` over all rivers, `None` where
    /// no river path leads there.
    pub fn distance(&self, i: usize, v: Node) -> (r: Option<usize>)
        requires
            self.wf(),
            i < self@.mines.len(),
            v < self@.site_ids.len(),
        ensures
            r == dist_table(self@.edges, Walk::Any, self@.mines[i as int] as int, self@.site_ids.len() as int)[v as int],
            match r {
                Some(d) => exact(self@.edges, Walk::Any, self@.mines[i as int] as int, v as int, d as nat),
                None => !reachable(self@.edges, Walk::Any, self@.mines[i as int] as int, v as int),
            },
    {
        proof {
            let n = self@.site_ids.len() as int;
            let m = self@.mines[i as int] as int;
            lemma_dist_table_unique(self@.edges, Walk::Any, m, n, self.dist_from_mine@[i as int]@, dist_table(self@.edges, Walk::Any, m, n));
        }
        self.dist_from_mine[i][v]
    }

    /// The number of punters in the match.
    pub fn punters(&self) -> (r: usize)
        ensures
            r == self@.punters,
    {
        self.punters
    }

    /// The edges, in the order of the map's rivers.
    pub fn edges(&self) -> (r: &Vec<Edge>)
        ensures
            r@ == self@.edges,
    {
        &self.edges
    }

    /// The node of site `id`, found by binary search.
    fn site_id_to_node(&self, id: SiteId) -> (r: Option<Node>)
        requires
            self.wf(),
        ensures
            r is Some <==> node_of(self@.site_ids, id) is Some,
            r is Some ==> r.unwrap() as int == node_of(self@.site_ids, id).unwrap(),
    {
        let r = find_site(&self.site_ids, id);
        proof {
            let ids = self@.site_ids;
            if r is Some {
                let i = choose|i: int| 0 <= i < ids.len() && ids[i] == id;
                let k = r.unwrap() as int;
                if i < k { assert(ids[i] < ids[k]); }
                if k < i { assert(ids[k] < ids[i]); }
            }
        }
        r
    }

    pub fn node_to_site_id(&self, i: Node) -> (r: SiteId)
        requires
            i < self@.site_ids.len(),
        ensures
            r == self@.site_ids[i as int],
    {
        self.site_ids[i]
    }

    /// The claim on the wire for a claim between nodes.
    pub fn convert_to_claim(&self, c: EdgeClaim) -> (r: Claim)
        requires
            c.source < self@.site_ids.len(),
            c.target < self@.site_ids.len(),
        ensures
            r == (Claim { punter: c.punter, source: self@.site_ids[c.source as int], target: self@.site_ids[c.target as int] }),
    {
        Claim { punter: c.punter, source: self.node_to_site_id(c.source), target: self.node_to_site_id(c.target) }
    }

    /// The claim between nodes for a claim on the wire, if both sites exist.
    fn convert_to_edge_claim(&self, claim: Claim) -> (r: Option<EdgeClaim>)
        requires
            self.wf(),
        ensures
            r is Some <==> (node_of(self@.site_ids, claim.source) is Some && node_of(self@.site_ids, claim.target) is Some),
            r is Some ==> {
                let s = node_of(self@.site_ids, claim.source).unwrap();
                let t = node_of(self@.site_ids, claim.target).unwrap();
                &&& r.unwrap().punter == claim.punter
                &&& r.unwrap().source == if s <= t { s } else { t }
                &&& r.unwrap().target == if s <= t { t } else { s }
            },
    {
        let s = self.site_id_to_node(claim.source);
        let t = self.site_id_to_node(claim.target);
        match (s, t) {
            (Some(s), Some(t)) => Some(EdgeClaim::new(claim.punter, s, t)),
            _ => None,
        }
    }

    /// The index of the last edge from `s` to `t`, looked up by its key.
    fn edge_index(&self, s: Node, t: Node) -> (r: Option<EdgeIndex>)
        requires
            self.wf(),
            s < t,
            t < self@.site_ids.len(),
        ensures
            r is Some ==> is_last_edge(self@.edges, s as int, t as int, r.unwrap() as int),
            r is None ==> forall|e: int| 0 <= e < self@.edges.len() ==> !(#[trigger] self@.edges[e].source == s && self@.edges[e].target == t),
    {
        broadcast use vstd::std_specs::hash::group_hash_axioms;
        let n = self.site_ids.len();
        assert((s as int) * (n as int) + (t as int) < 65536 * 65536) by (nonlinear_arith)
            requires s < n, t < n, n <= 65536;
        let key: u64 = (s as u64) * (n as u64) + (t as u64);
        assert(key == edge_key(s as int, t as int, n as int));
        match self.edge_st_to_edge_index.get(&key) {
            Some(i) => Some(*i),
            None => None,
        }
    }

    /// Applies a claim (or an option) given by nodes. A claim of a river that
    /// the map does not have, or one that the rules refuse, changes nothing.
    pub fn apply_edge_claim(&mut self, claim: EdgeClaim, is_option: bool)
        requires
            old(self).wf(),
            claim.source < claim.target,
        ensures
            final(self).wf(),
            final(self)@ == with_edges(old(self)@, edges_after_claim(old(self)@.edges, claim.punter, claim.source as int, claim.target as int, is_option)),
    {
        let ghost es = self.edges@;
        let ghost n = self.site_ids@.len() as int;
        if claim.target >= self.site_ids.len() {
            // No river reaches a node outside the map.
            proof {
                assert forall|e: int| !is_last_edge(es, claim.source as int, claim.target as int, e) by {
                    if 0 <= e < es.len() { assert(es[e].source < es[e].target && es[e].target < n); }
                }
            }
            return;
        }
        match self.edge_index(claim.source, claim.target) {
            Some(index) => {
                let mut edge = self.edges[index];
                edge.claim(claim.punter, is_option);
                self.edges.set(index, edge);
                proof {
                    let s = claim.source as int;
                    let t = claim.target as int;
                    let e = choose|e: int| is_last_edge(es, s, t, e);
                    if e < index { assert(!(es[index as int].source == s && es[index as int].target == t)); }
                    if index < e { assert(!(es[e].source == s && es[e].target == t)); }
                    assert(self.edges@ =~= edges_after_claim(es, claim.punter, s, t, is_option));
                    assert forall|i: int| 0 <= i < es.len() implies #[trigger] self.edges@[i].source == es[i].source
                        && self.edges@[i].target == es[i].target by {}
                    assert(edges_wf(self.edges@, n));
                    lemma_adj_ignores_claims(es, self.edges@, n, es.len() as int);
                    lemma_lookup_ignores_claims(es, self.edges@, self.edge_st_to_edge_index@, n, es.len() as int);
                    assert(adj_wf(self.edges@, self.adj_edges@, n)) by {
                        assert forall|i: int, u: int, v: int| 0 <= i < self.edges@.len() && #[trigger] joins(self.edges@[i], u, v)
                            implies joins(es[i], u, v) by {}
                    }
                    assert forall|i: int| 0 <= i < self.mines@.len() implies
                        is_dist_table(self.edges@, Walk::Any, #[trigger] self.mines@[i] as int, n, self.dist_from_mine@[i]@) by {
                        lemma_any_walk_ignores_claims(es, self.edges@, self.mines@[i] as int, n, self.dist_from_mine@[i]@);
                    }
                }
            },
            None => {
                proof {
                    assert(!exists|e: int| is_last_edge(es, claim.source as int, claim.target as int, e));
                }
            },
        }
    }

    /// Applies a claim given by site identifiers; one naming a site that the
    /// map does not have is discarded.
    fn apply_site_claim(&mut self, claim: Claim, is_option: bool)
        requires
            old(self).wf(),
        ensures
            final(self).wf(),
            final(self)@ == with_edges(old(self)@, edges_after_site_claim(old(self)@, old(self)@.edges, claim, is_option)),
    {
        match self.convert_to_edge_claim(claim) {
            Some(c) => {
                if c.source < c.target {
                    self.apply_edge_claim(c, is_option);
                } else {
                    // A river from a site to itself: the map has none.
                    proof {
                        assert forall|e: int| 0 <= e < self@.edges.len() implies !(#[trigger] self@.edges[e].source == c.source && self@.edges[e].target == c.target) by {
                        }
                    }
                }
            },
            None => {},
        }
    }

    fn apply_claim(&mut self, claim: Claim)
        requires
            old(self).wf(),
        ensures
            final(self).wf(),
            final(self)@ == with_edges(old(self)@, edges_after_site_claim(old(self)@, old(self)@.edges, claim, false)),
    {
        self.apply_site_claim(claim, false);
    }

    fn apply_option(&mut self, claim: Claim)
        requires
            old(self).wf(),
        ensures
            final(self).wf(),
            final(self)@ == with_edges(old(self)@, edges_after_site_claim(old(self)@, old(self)@.edges, claim, true)),
    {
        self.apply_site_claim(claim, true);
    }

    /// Applies one move: a claim, an option, each claim of a splurge in
    /// route order, or nothing for a pass.
    pub fn apply_move(&mut self, m: Move)
        requires
            old(self).wf(),
        ensures
            final(self).wf(),
            final(self)@ == with_edges(old(self)@, edges_after_move(old(self)@, m@)),
    {
        match m {
            Move::Claim { claim } => self.apply_claim(claim),
            Move::Splurge { splurge } => {
                let Splurge { punter, route } = splurge;
                let ghost g0 = self@;
                let mut k: usize = 0;
                while route.len() > 0 && k < route.len() - 1
                    invariant
                        self.wf(),
                        k <= route@.len(),
                        self@.site_ids == g0.site_ids,
                        edges_after_route(g0, self@.edges, punter, route@, k as int) == edges_after_route(g0, g0.edges, punter, route@, 0),
                        self@ == with_edges(g0, self@.edges),
                    decreases route@.len() - k,
                {
                    // A refused step changes nothing; the others still count.
                    self.apply_claim(Claim { punter, source: route[k], target: route[k + 1] });
                    k = k + 1;
                }
            },
            Move::Option_ { option } => self.apply_option(option),
            Move::Pass { .. } => {},
        }
    }

    /// Applies every move of the list, in order.
    pub fn apply_moves(&mut self, moves: Vec<Move>)
        requires
            old(self).wf(),
        ensures
            final(self).wf(),
            final(self)@ == after_moves(old(self)@, moves@.map_values(|m: Move| m@), 0),
    {
        let ghost ms = moves@.map_values(|m: Move| m@);
        let ghost g0 = self@;
        let mut k: usize = 0;
        while k < moves.len()
            invariant
                self.wf(),
                ms == moves@.map_values(|m: Move| m@),
                k <= moves@.len(),
                after_moves(self@, ms, k as int) == after_moves(g0, ms, 0),
            decreases moves@.len() - k,
        {
            let m = moves[k].duplicate();
            assert(m@ == ms[k as int]);
            self.apply_move(m);
            k = k + 1;
        }
    }

    /// Applies the moves in order, skipping those of our own punter, which
    /// were applied when they were made.
    pub fn apply_moves_excluding_me(&mut self, moves: Vec<Move>)
        requires
            old(self).wf(),
        ensures
            final(self).wf(),
            final(self)@ == after_moves_excluding(old(self)@, moves@.map_values(|m: Move| m@), old(self)@.me, 0),
    {
        let ghost ms = moves@.map_values(|m: Move| m@);
        let ghost g0 = self@;
        let me = self.me;
        let mut k: usize = 0;
        while k < moves.len()
            invariant
                self.wf(),
                self.me == me,
                me == g0.me,
                ms == moves@.map_values(|m: Move| m@),
                k <= moves@.len(),
                after_moves_excluding(self@, ms, me, k as int) == after_moves_excluding(g0, ms, me, 0),
            decreases moves@.len() - k,
        {
            let m = moves[k].duplicate();
            assert(m@ == ms[k as int]);
            if !m.claimed_by(me) {
                self.apply_move(m);
            }
            k = k + 1;
        }
    }
}

impl Game {
    /// What mine `i` gives punter `p` (see `mine_score`).
    fn score_for_mine(&self, i: usize, p: PunterId) -> (r: i64)
        requires
            self.wf(),
            i < self@.mines.len(),
        ensures
            r == mine_score(self@, i as int, p),
            -MINE_SCORE_BOUND <= r <= MINE_SCORE_BOUND,
    {
        let n = self.site_ids.len();
        let m = self.mines[i];
        let topo = &self.dist_from_mine[i];
        let own = bfs(&self.edges, &self.adj_edges, n, m, Walk::Owned(p));
        proof {
            lemma_dist_table_unique(self@.edges, Walk::Any, m as int, n as int, topo@, dist_table(self@.edges, Walk::Any, m as int, n as int));
        }
        let mut score: i64 = 0;
        let mut v: usize = 0;
        while v < n
            invariant
                self.wf(),
                n == self@.site_ids.len(),
                n <= MAX_SITES,
                i < self@.mines.len(),
                topo@ == self.dist_from_mine@[i as int]@,
                topo@.len() == n,
                own@.len() == n,
                v <= n,
                score == reach_sum(topo@, own@, v as int),
                0 <= score <= v * 4294967296,
            decreases n - v,
        {
            if own[v].is_some() {
                match topo[v] {
                    Some(d) => {
                        assert(topo@[v as int] is Some);
                        assert(d < n);
                        assert(d * d <= 4294967296) by (nonlinear_arith)
                            requires d < 65536;
                        let d64 = d as i64;
                        score = score + d64 * d64;
                    },
                    None => {},
                }
            }
            v = v + 1;
        }
        if p == self.me && i < self.extension.futures.len() {
            let t = self.extension.futures[i];
            let d: i64 = match topo[t] {
                Some(x) => {
                    assert(topo@[t as int] is Some);
                    x as i64
                },
                None => 0,
            };
            assert(0 <= d < 65536);
            assert(d * d * d <= 281474976710656) by (nonlinear_arith)
                requires 0 <= d < 65536;
            assert(0 <= d * d * d) by (nonlinear_arith)
                requires 0 <= d;
            assert(0 <= d * d <= 4294967296) by (nonlinear_arith)
                requires 0 <= d < 65536;
            let c = d * d * d;
            if own[t].is_some() {
                score = score + c;
            } else {
                score = score - c;
            }
        }
        score
    }

    /// The score of punter `p`, summed over all mines.
    pub fn score(&self, p: PunterId) -> (r: i64)
        requires
            self.wf(),
        ensures
            r == score_of(self@, p),
    {
        let mut total: i64 = 0;
        let mut i: usize = 0;
        while i < self.mines.len()
            invariant
                self.wf(),
                i <= self@.mines.len(),
                self@.mines.len() <= MAX_MINES,
                total == score_upto(self@, p, i as int),
                -(i * MINE_SCORE_BOUND) <= total <= i * MINE_SCORE_BOUND,
            decreases self@.mines.len() - i,
        {
            let s = self.score_for_mine(i, p);
            assert(i * MINE_SCORE_BOUND + MINE_SCORE_BOUND <= 8192 * MINE_SCORE_BOUND) by (nonlinear_arith)
                requires i < 8192;
            total = total + s;
            i = i + 1;
        }
        total
    }
}

/// How often edge `e` lies on the path of the traversal tree `tree` from
/// `v` back to its root, following at most `k` edges.
pub open spec fn hits(tree: BfsState, v: int, e: int, k: nat) -> nat
    decreases k,
{
    if k == 0 {
        0
    } else {
        match tree.parent[v] {
            None => 0,
            Some((pe, u)) => (if pe as int == e { 1nat } else { 0nat }) + hits(tree, u as int, e, (k - 1) as nat),
        }
    }
}

/// What one mine adds to the weight of edge `e`: each node `v < k` that
/// the traversal `tree` from the mine reaches promises its squared distance
/// `topo[v]` to every edge of its tree path back to the mine. A node's path
/// has fewer edges than its place in the queue plus one.
pub open spec fn mine_weight(topo: Seq<Option<usize>>, tree: BfsState, e: int, k: int) -> int
    decreases k,
{
    if k <= 0 {
        0
    } else {
        mine_weight(topo, tree, e, k - 1) + if tree.seen[k - 1] {
            sq(topo[k - 1]) * hits(tree, k - 1, e, (tree.pos[k - 1] + 1) as nat)
        } else {
            0
        }
    }
}

/// The weight of edge `e` from the first `i` mines: the trees are those of
/// the breadth-first traversals over rivers that are free or ours.
pub open spec fn weight_upto(g: GameModel, e: int, i: int) -> int
    decreases i,
{
    if i <= 0 {
        0
    } else {
        let n = g.site_ids.len() as int;
        let m = g.mines[i - 1] as int;
        weight_upto(g, e, i - 1) + mine_weight(
            dist_table(g.edges, Walk::Any, m, n),
            bfs_tree_of(g.edges, Walk::Open(g.me), m, n),
            e,
            n,
        )
    }
}

pub open spec fn edge_weight(g: GameModel, e: int) -> int {
    weight_upto(g, e, g.mines.len() as int)
}

/// Edge `e` is the first unclaimed edge of the greatest weight.
pub open spec fn is_best_edge(g: GameModel, e: int) -> bool {
    &&& 0 <= e < g.edges.len()
    &&& g.edges[e].claimed == Claimed::NotYet
    &&& forall|f: int| 0 <= f < g.edges.len() && #[trigger] g.edges[f].claimed == Claimed::NotYet ==> edge_weight(g, f) <= edge_weight(g, e)
    &&& forall|f: int| 0 <= f < e && #[trigger] g.edges[f].claimed == Claimed::NotYet ==> edge_weight(g, f) < edge_weight(g, e)
}

pub open spec fn has_free_edge(g: GameModel) -> bool {
    exists|f: int| 0 <= f < g.edges.len() && #[trigger] g.edges[f].claimed == Claimed::NotYet
}

/// Edge `e` is the first unclaimed edge.
pub open spec fn is_first_free_edge(g: GameModel, e: int) -> bool {
    &&& 0 <= e < g.edges.len()
    &&& g.edges[e].claimed == Claimed::NotYet
    &&& forall|f: int| 0 <= f < e ==> #[trigger] g.edges[f].claimed != Claimed::NotYet
}

/// The move that claims edge `e` for our punter.
pub open spec fn claim_move(g: GameModel, e: int) -> MoveView {
    MoveView::Claim(Claim {
        punter: g.me,
        source: g.site_ids[g.edges[e].source as int],
        target: g.site_ids[g.edges[e].target as int],
    })
}

/// The move that `strategy` picks: a claim of the chosen edge, or a pass
/// when every river is taken.
pub open spec fn strategy_move(g: GameModel, strategy: Strategy, r: MoveView) -> bool {
    if has_free_edge(g) {
        exists|e: int| #[trigger] claim_move(g, e) == r && match strategy {
            Strategy::Stupid => is_first_free_edge(g, e),
            Strategy::EdgeWeight => is_best_edge(g, e),
        }
    } else {
        r == MoveView::Pass(Pass { punter: g.me })
    }
}

/// The move that `strategy` picks in game `g`.
pub open spec fn chosen_move(g: GameModel, strategy: Strategy) -> MoveView {
    choose|m: MoveView| strategy_move(g, strategy, m)
}

/// A strategy picks one move only.
pub proof fn lemma_strategy_move_unique(g: GameModel, strategy: Strategy, m1: MoveView, m2: MoveView)
    requires
        strategy_move(g, strategy, m1),
        strategy_move(g, strategy, m2),
    ensures
        m1 == m2,
        m1 == chosen_move(g, strategy),
{
    if has_free_edge(g) {
        let e1 = choose|e: int| #[trigger] claim_move(g, e) == m1 && match strategy {
            Strategy::Stupid => is_first_free_edge(g, e),
            Strategy::EdgeWeight => is_best_edge(g, e),
        };
        let e2 = choose|e: int| #[trigger] claim_move(g, e) == m2 && match strategy {
            Strategy::Stupid => is_first_free_edge(g, e),
            Strategy::EdgeWeight => is_best_edge(g, e),
        };
        if e1 < e2 {
            assert(g.edges[e1].claimed == Claimed::NotYet);
        } else if e2 < e1 {
            assert(g.edges[e2].claimed == Claimed::NotYet);
        }
        assert(e1 == e2);
        let c = chosen_move(g, strategy);
        assert(strategy_move(g, strategy, c));
        let e3 = choose|e: int| #[trigger] claim_move(g, e) == c && match strategy {
            Strategy::Stupid => is_first_free_edge(g, e),
            Strategy::EdgeWeight => is_best_edge(g, e),
        };
        if e1 < e3 {
            assert(g.edges[e1].claimed == Claimed::NotYet);
        } else if e3 < e1 {
            assert(g.edges[e3].claimed == Claimed::NotYet);
        }
    } else {
        assert(strategy_move(g, strategy, chosen_move(g, strategy)));
    }
}

/// Applying moves never changes whose game it is.
pub proof fn lemma_after_moves_keeps_me(g: GameModel, ms: Seq<MoveView>, me: PunterId, k: int)
    ensures
        after_moves_excluding(g, ms, me, k).me == g.me,
    decreases ms.len() - k,
{
    if !(k < 0 || k >= ms.len()) {
        let g2 = if view_punter(ms[k]) == me { g } else { with_edges(g, edges_after_move(g, ms[k])) };
        lemma_after_moves_keeps_me(g2, ms, me, k + 1);
    }
}

/// A strategy's move is made in the name of the game's own punter.
pub proof fn lemma_strategy_move_punter(g: GameModel, strategy: Strategy, m: MoveView)
    requires
        strategy_move(g, strategy, m),
    ensures
        view_punter(m) == g.me,
{
    if has_free_edge(g) {
        let e = choose|e: int| #[trigger] claim_move(g, e) == m && match strategy {
            Strategy::Stupid => is_first_free_edge(g, e),
            Strategy::EdgeWeight => is_best_edge(g, e),
        };
    }
}

proof fn lemma_hits_bound(tree: BfsState, v: int, e: int, k: nat)
    ensures
        hits(tree, v, e, k) <= k,
    decreases k,
{
    if k > 0 {
        match tree.parent[v] {
            None => {},
            Some((pe, u)) => lemma_hits_bound(tree, u as int, e, (k - 1) as nat),
        }
    }
}

impl Game {
    /// Adds to `edge_weights` what mine `i` promises to each edge: every node
    /// that the traversal over free rivers and our own reaches adds its
    /// squared distance from the mine to each edge on its path back, in the
    /// tree of the nodes that discovered each other.
    fn calc_edge_weight_for(&self, edge_weights: &mut Vec<u128>, i: usize)
        requires
            self.wf(),
            i < self@.mines.len(),
            old(edge_weights)@.len() == self@.edges.len(),
            forall|e: int| 0 <= e < self@.edges.len() ==> #[trigger] old(edge_weights)@[e] <= i * MINE_WEIGHT_BOUND,
        ensures
            final(edge_weights)@.len() == self@.edges.len(),
            forall|e: int| 0 <= e < self@.edges.len() ==> #[trigger] final(edge_weights)@[e] == old(edge_weights)@[e] + mine_weight(
                dist_table(self@.edges, Walk::Any, self@.mines[i as int] as int, self@.site_ids.len() as int),
                bfs_tree_of(self@.edges, Walk::Open(self@.me), self@.mines[i as int] as int, self@.site_ids.len() as int),
                e,
                self@.site_ids.len() as int,
            ),
            forall|e: int| 0 <= e < self@.edges.len() ==> #[trigger] final(edge_weights)@[e] <= (i + 1) * MINE_WEIGHT_BOUND,
    {
        let n = self.site_ids.len();
        let m = self.mines[i];
        let w = Walk::Open(self.me);
        let topo = &self.dist_from_mine[i];
        let (parent, seen, pos) = bfs_tree(&self.edges, &self.adj_edges, n, m, w);
        let ghost es = self.edges@;
        let ghost tree = bfs_tree_of(es, w, m as int, n as int);
        let ghost start = edge_weights@;
        proof {
            lemma_dist_table_unique(es, Walk::Any, m as int, n as int, topo@, dist_table(es, Walk::Any, m as int, n as int));
        }
        let mut v: usize = 0;
        while v < n
            invariant
                self.wf(),
                es == self.edges@,
                n == self@.site_ids.len(),
                n <= MAX_SITES,
                i < self@.mines.len(),
                i < MAX_MINES,
                topo@ == self.dist_from_mine@[i as int]@,
                topo@.len() == n,
                parent@ == tree.parent,
                seen@ == tree.seen,
                pos@ == tree.pos,
                parent@.len() == n && seen@.len() == n && pos@.len() == n,
                forall|x: int| 0 <= x < n ==> #[trigger] pos@[x] <= 33619970,
                forall|x: int| 0 <= x < n && #[trigger] parent@[x] is Some ==> {
                    let (e, u) = parent@[x].unwrap();
                    e < es.len() && u < n && pos@[u as int] < pos@[x]
                },
                v <= n,
                edge_weights@.len() == es.len(),
                forall|e: int| 0 <= e < es.len() ==> #[trigger] start[e] <= i * MINE_WEIGHT_BOUND,
                forall|e: int| 0 <= e < es.len() ==> #[trigger] edge_weights@[e] == start[e] + mine_weight(topo@, tree, e, v as int),
                forall|e: int| 0 <= e < es.len() ==> 0 <= #[trigger] mine_weight(topo@, tree, e, v as int) <= v * NODE_WEIGHT_BOUND,
            decreases n - v,
        {
            if seen[v] {
                let wv: u128 = match topo[v] {
                    Some(t) => {
                        assert(topo@[v as int] is Some);
                        assert(t * t <= 4294967296) by (nonlinear_arith)
                            requires t < 65536;
                        (t as u128) * (t as u128)
                    },
                    None => 0,
                };
                assert(wv == sq(topo@[v as int]));
                assert(wv <= 4294967296);
                let ghost base = edge_weights@;
                let ghost f0 = (pos@[v as int] + 1) as nat;
                let mut x: usize = v;
                let mut f: usize = pos[v] + 1;
                proof {
                    assert forall|e: int| 0 <= e < es.len() implies #[trigger] (wv * hits(tree, v as int, e, f0)) <= NODE_WEIGHT_BOUND by {
                        lemma_hits_bound(tree, v as int, e, f0);
                        let h = hits(tree, v as int, e, f0);
                        assert(wv * h <= 4294967296 * 67108864) by (nonlinear_arith)
                            requires wv <= 4294967296, h <= 67108864;
                    }
                }
                while parent[x].is_some()
                    invariant
                        es == self.edges@,
                        parent@ == tree.parent,
                        pos@ == tree.pos,
                        parent@.len() == n && pos@.len() == n,
                        forall|x: int| 0 <= x < n && #[trigger] parent@[x] is Some ==> {
                            let (e, u) = parent@[x].unwrap();
                            e < es.len() && u < n && pos@[u as int] < pos@[x]
                        },
                        x < n,
                        pos@[x as int] < f,
                        edge_weights@.len() == es.len(),
                        wv <= 4294967296,
                        forall|e: int| 0 <= e < es.len() ==> #[trigger] base[e] <= i * MINE_WEIGHT_BOUND + v * NODE_WEIGHT_BOUND,
                        i < MAX_MINES,
                        v < MAX_SITES,
                        forall|e: int| 0 <= e < es.len() ==> #[trigger] (wv * hits(tree, v as int, e, f0)) <= NODE_WEIGHT_BOUND,
                        forall|e: int| 0 <= e < es.len() ==> #[trigger] edge_weights@[e] + wv * hits(tree, x as int, e, f as nat)
                            == base[e] + wv * hits(tree, v as int, e, f0),
                    decreases f,
                {
                    let (pe, y) = parent[x].unwrap();
                    proof {
                        assert forall|e: int| 0 <= e < es.len() implies #[trigger] hits(tree, x as int, e, f as nat)
                            == (if pe as int == e { 1nat } else { 0nat }) + hits(tree, y as int, e, (f - 1) as nat) by {
                        }
                        let hx = hits(tree, x as int, pe as int, f as nat);
                        assert(hx >= 1);
                        assert(wv * hx >= wv) by (nonlinear_arith)
                            requires hx >= 1, wv >= 0;
                        assert(i * MINE_WEIGHT_BOUND + v * NODE_WEIGHT_BOUND + NODE_WEIGHT_BOUND < 340282366920938463463374607431768211455) by (nonlinear_arith)
                            requires i < 8192, v < 65536;
                    }
                    let cur = edge_weights[pe];
                    edge_weights.set(pe, cur + wv);
                    proof {
                        assert forall|g: int| 0 <= g < es.len() implies #[trigger] edge_weights@[g] + wv * hits(tree, y as int, g, (f - 1) as nat)
                            == base[g] + wv * hits(tree, v as int, g, f0) by {
                            let hy = hits(tree, y as int, g, (f - 1) as nat);
                            let b: int = if pe as int == g { 1 } else { 0 };
                            assert(wv * (b + hy) == wv * b + wv * hy) by (nonlinear_arith);
                        }
                    }
                    x = y;
                    f = f - 1;
                }
                proof {
                    assert forall|g: int| 0 <= g < es.len() implies #[trigger] hits(tree, x as int, g, f as nat) == 0 by {}
                    assert forall|g: int| 0 <= g < es.len() implies #[trigger] edge_weights@[g] == start[g] + mine_weight(topo@, tree, g, v + 1) by {
                        assert(mine_weight(topo@, tree, g, v + 1) == mine_weight(topo@, tree, g, v as int)
                            + sq(topo@[v as int]) * hits(tree, v as int, g, f0));
                    }
                    assert forall|g: int| 0 <= g < es.len() implies 0 <= #[trigger] mine_weight(topo@, tree, g, v + 1) <= (v + 1) * NODE_WEIGHT_BOUND by {
                        assert(mine_weight(topo@, tree, g, v + 1) == mine_weight(topo@, tree, g, v as int)
                            + wv * hits(tree, v as int, g, f0));
                        assert(0 <= wv * hits(tree, v as int, g, f0)) by (nonlinear_arith)
                            requires wv >= 0;
                    }
                }
            } else {
                proof {
                    assert forall|g: int| 0 <= g < es.len() implies #[trigger] mine_weight(topo@, tree, g, v + 1) == mine_weight(topo@, tree, g, v as int) by {}
                }
            }
            v = v + 1;
        }
        proof {
            assert forall|e: int| 0 <= e < es.len() implies #[trigger] edge_weights@[e] <= (i + 1) * MINE_WEIGHT_BOUND by {
                assert(n * NODE_WEIGHT_BOUND <= MINE_WEIGHT_BOUND) by (nonlinear_arith)
                    requires n <= 65536;
            }
        }
    }
}

impl Game {
    /// The claim of the first unclaimed edge of the greatest weight, or
    /// `None` when every edge is taken.
    fn find_valuable_edge_by_weight(&self) -> (r: Option<EdgeClaim>)
        requires
            self.wf(),
        ensures
            r is Some <==> has_free_edge(self@),
            r is Some ==> exists|e: int| #[trigger] is_best_edge(self@, e) && r.unwrap() == (EdgeClaim {
                punter: self@.me,
                source: self@.edges[e].source,
                target: self@.edges[e].target,
            }),
    {
        let ghost g = self@;
        let mut weights: Vec<u128> = Vec::new();
        let mut k: usize = 0;
        while k < self.edges.len()
            invariant
                k <= self@.edges.len(),
                weights@.len() == k,
                forall|e: int| 0 <= e < k ==> #[trigger] weights@[e] == 0,
            decreases self@.edges.len() - k,
        {
            weights.push(0);
            k = k + 1;
        }
        let mut i: usize = 0;
        while i < self.mines.len()
            invariant
                self.wf(),
                g == self@,
                i <= g.mines.len(),
                weights@.len() == g.edges.len(),
                forall|e: int| 0 <= e < g.edges.len() ==> #[trigger] weights@[e] == weight_upto(g, e, i as int),
                forall|e: int| 0 <= e < g.edges.len() ==> #[trigger] weights@[e] <= i * MINE_WEIGHT_BOUND,
            decreases g.mines.len() - i,
        {
            self.calc_edge_weight_for(&mut weights, i);
            i = i + 1;
        }
        let mut best: Option<usize> = None;
        let mut e: usize = 0;
        while e < self.edges.len()
            invariant
                g == self@,
                e <= g.edges.len(),
                weights@.len() == g.edges.len(),
                forall|f: int| 0 <= f < g.edges.len() ==> #[trigger] weights@[f] == edge_weight(g, f),
                best is Some ==> best.unwrap() < e && g.edges[best.unwrap() as int].claimed == Claimed::NotYet
                    && (forall|f: int| 0 <= f < e && #[trigger] g.edges[f].claimed == Claimed::NotYet ==> weights@[f] <= weights@[best.unwrap() as int])
                    && (forall|f: int| 0 <= f < best.unwrap() && #[trigger] g.edges[f].claimed == Claimed::NotYet ==> weights@[f] < weights@[best.unwrap() as int]),
                best is None ==> forall|f: int| 0 <= f < e ==> #[trigger] g.edges[f].claimed != Claimed::NotYet,
            decreases g.edges.len() - e,
        {
            if self.edges[e].is_empty() {
                match best {
                    Some(b) => {
                        if weights[e] > weights[b] {
                            best = Some(e);
                        }
                    },
                    None => {
                        best = Some(e);
                    },
                }
            }
            e = e + 1;
        }
        match best {
            Some(b) => {
                let edge = self.edges[b];
                assert(is_best_edge(g, b as int));
                Some(EdgeClaim { punter: self.me, source: edge.source, target: edge.target })
            },
            None => None,
        }
    }

    /// The claim of the first unclaimed edge, or `None` when every edge is taken.
    fn play_stupid(&self) -> (r: Option<EdgeClaim>)
        requires
            self.wf(),
        ensures
            r is Some <==> has_free_edge(self@),
            r is Some ==> exists|e: int| #[trigger] is_first_free_edge(self@, e) && r.unwrap() == (EdgeClaim {
                punter: self@.me,
                source: self@.edges[e].source,
                target: self@.edges[e].target,
            }),
    {
        let mut e: usize = 0;
        while e < self.edges.len()
            invariant
                e <= self@.edges.len(),
                forall|f: int| 0 <= f < e ==> #[trigger] self@.edges[f].claimed != Claimed::NotYet,
            decreases self@.edges.len() - e,
        {
            if self.edges[e].is_empty() {
                let edge = self.edges[e];
                assert(is_first_free_edge(self@, e as int));
                return Some(EdgeClaim { punter: self.me, source: edge.source, target: edge.target });
            }
            e = e + 1;
        }
        None
    }

    /// The claim that the edge-weight strategy picks, or `None` when every
    /// edge is taken.
    pub fn play_edge_weight(&self) -> (r: Option<EdgeClaim>)
        requires
            self.wf(),
        ensures
            r is Some <==> has_free_edge(self@),
            r is Some ==> exists|e: int| #[trigger] is_best_edge(self@, e) && r.unwrap() == (EdgeClaim {
                punter: self@.me,
                source: self@.edges[e].source,
                target: self@.edges[e].target,
            }),
    {
        self.find_valuable_edge_by_weight()
    }

    /// The move that `strategy` picks for our punter.
    pub fn play(&self, strategy: Strategy) -> (r: Move)
        requires
            self.wf(),
        ensures
            strategy_move(self@, strategy, r@),
    {
        let c = match strategy {
            Strategy::Stupid => self.play_stupid(),
            Strategy::EdgeWeight => self.play_edge_weight(),
        };
        match c {
            Some(c) => {
                proof {
                    let e = choose|e: int| match strategy {
                        Strategy::Stupid => is_first_free_edge(self@, e),
                        Strategy::EdgeWeight => is_best_edge(self@, e),
                    } && c == (EdgeClaim { punter: self@.me, source: self@.edges[e].source, target: self@.edges[e].target });
                    assert(self@.edges[e].source < self@.edges[e].target && self@.edges[e].target < self@.site_ids.len());
                }
                let r = Move::from(self.convert_to_claim(c));
                proof {
                    let e = choose|e: int| match strategy {
                        Strategy::Stupid => is_first_free_edge(self@, e),
                        Strategy::EdgeWeight => is_best_edge(self@, e),
                    } && c == (EdgeClaim { punter: self@.me, source: self@.edges[e].source, target: self@.edges[e].target });
                    assert(claim_move(self@, e) == r@);
                }
                r
            },
            None => Move::Pass { pass: Pass { punter: self.me } },
        }
    }
}

/// The identifiers of the map's sites, in the map's order.
pub open spec fn map_site_ids(map: GameMap) -> Seq<SiteId> {
    map.sites@.map_values(|s: Site| s.id)
}

/// The identifiers of a set of sites in increasing order.
pub open spec fn sorted_of_set(ids: Set<SiteId>) -> Seq<SiteId> {
    choose|s: Seq<SiteId>| strictly_increasing(s) && s.to_set() == ids
}

/// Node `i` is the `i`-th smallest site identifier of the map.
pub open spec fn sorted_site_ids(map: GameMap) -> Seq<SiteId> {
    sorted_of_set(map_site_ids(map).to_set())
}

/// No two sites share an identifier, each mine and each river end names a
/// site of the map, no river runs from a site to itself, and the map is
/// within the size limits.
pub open spec fn valid_map(map: GameMap) -> bool {
    let ids = map_site_ids(map);
    &&& ids.no_duplicates()
    &&& map.sites@.len() <= MAX_SITES
    &&& map.mines@.len() <= MAX_MINES
    &&& map.rivers@.len() <= MAX_RIVERS
    &&& forall|k: int| 0 <= k < map.mines@.len() ==> ids.contains(#[trigger] map.mines@[k])
    &&& forall|k: int| 0 <= k < map.rivers@.len() ==> ids.contains(#[trigger] map.rivers@[k].source)
        && ids.contains(map.rivers@[k].target) && map.rivers@[k].source != map.rivers@[k].target
}

/// The edge of a river between the nodes of its ends, smaller node first.
pub open spec fn river_edge(ids: Seq<SiteId>, r: River) -> Edge {
    let s = node_of(ids, r.source).unwrap();
    let t = node_of(ids, r.target).unwrap();
    Edge {
        source: (if s < t { s } else { t }) as usize,
        target: (if s < t { t } else { s }) as usize,
        claimed: Claimed::NotYet,
    }
}

pub open spec fn flag_on(o: Option<bool>) -> bool {
    o == Some(true)
}

/// The game that a setup message starts.
pub open spec fn setup_model(setup: SetupSP) -> GameModel {
    let ids = sorted_site_ids(setup.map);
    let settings = setup.settings;
    GameModel {
        me: setup.punter,
        punters: setup.punters,
        site_ids: ids,
        mines: setup.map.mines@.map_values(|id: SiteId| node_of(ids, id).unwrap() as usize),
        edges: setup.map.rivers@.map_values(|r: River| river_edge(ids, r)),
        futures_on: settings is Some && flag_on(settings.unwrap().futures),
        splurge_on: settings is Some && flag_on(settings.unwrap().splurge),
        options_on: settings is Some && flag_on(settings.unwrap().options),
        futures: Seq::empty(),
        prior_passes: 0,
        prior_options: 0,
    }
}

/// Two increasing sequences with the same items are equal.
pub proof fn lemma_increasing_unique(a: Seq<SiteId>, b: Seq<SiteId>)
    requires
        strictly_increasing(a),
        strictly_increasing(b),
        a.to_set() == b.to_set(),
    ensures
        a == b,
    decreases a.len(),
{
    if a.len() == 0 {
        if b.len() > 0 {
            assert(b.to_set().contains(b[0]));
        }
        assert(a =~= b);
    } else {
        assert(a.to_set().contains(a[0]));
        assert(b.len() > 0);
        assert(b.to_set().contains(b[0]));
        let i = choose|i: int| 0 <= i < a.len() && a[i] == b[0];
        let j = choose|j: int| 0 <= j < b.len() && b[j] == a[0];
        if i > 0 { assert(a[0] < a[i]); }
        if j > 0 { assert(b[0] < b[j]); }
        assert(a[0] == b[0]);
        let a1 = a.subrange(1, a.len() as int);
        let b1 = b.subrange(1, b.len() as int);
        assert forall|x: SiteId| a1.to_set().contains(x) <==> b1.to_set().contains(x) by {
            if a1.contains(x) {
                let k = choose|k: int| 0 <= k < a1.len() && a1[k] == x;
                assert(a[k + 1] == x && a[0] < a[k + 1]);
                assert(b.to_set().contains(x));
                let l = choose|l: int| 0 <= l < b.len() && b[l] == x;
                assert(l != 0);
                assert(b1[l - 1] == x);
            }
            if b1.contains(x) {
                let k = choose|k: int| 0 <= k < b1.len() && b1[k] == x;
                assert(b[k + 1] == x && b[0] < b[k + 1]);
                assert(a.to_set().contains(x));
                let l = choose|l: int| 0 <= l < a.len() && a[l] == x;
                assert(l != 0);
                assert(a1[l - 1] == x);
            }
        }
        assert(a1.to_set() =~= b1.to_set());
        lemma_increasing_unique(a1, b1);
        assert(a =~= b) by {
            assert forall|k: int| 0 <= k < a.len() implies a[k] == b[k] by {
                if k > 0 { assert(a[k] == a1[k - 1]); assert(b[k] == b1[k - 1]); }
            }
        }
    }
}

/// Node numbering does not depend on the order in which the map lists its
/// sites: a map whose site list is a permutation of another's starts the
/// same game.
pub proof fn lemma_site_order_irrelevant(s1: SetupSP, s2: SetupSP)
    requires
        s1.punter == s2.punter,
        s1.punters == s2.punters,
        s1.settings == s2.settings,
        s1.map.rivers@ == s2.map.rivers@,
        s1.map.mines@ == s2.map.mines@,
        map_site_ids(s1.map).to_multiset() == map_site_ids(s2.map).to_multiset(),
    ensures
        sorted_site_ids(s1.map) == sorted_site_ids(s2.map),
        setup_model(s1) == setup_model(s2),
{
    let a = map_site_ids(s1.map);
    let b = map_site_ids(s2.map);
    assert forall|x: SiteId| a.to_set().contains(x) <==> b.to_set().contains(x) by {
        vstd::seq_lib::to_multiset_contains(a, x);
        vstd::seq_lib::to_multiset_contains(b, x);
    }
    assert(a.to_set() =~= b.to_set());
}

/// A well-formed game has a well-formed model.
pub proof fn lemma_wf_model(g: &Game)
    requires
        g.wf(),
    ensures
        model_wf(g@),
{
}

/// The edges after a splurge are as many as before.
proof fn lemma_route_keeps_len(g: GameModel, edges: Seq<Edge>, p: PunterId, route: Seq<SiteId>, k: int)
    ensures
        edges_after_route(g, edges, p, route, k).len() == edges.len(),
    decreases route.len() - k,
{
    if !(k < 0 || k + 1 >= route.len()) {
        let c = Claim { punter: p, source: route[k], target: route[k + 1] };
        lemma_site_claim_keeps_len(g, edges, c, false);
        lemma_route_keeps_len(g, edges_after_site_claim(g, edges, c, false), p, route, k + 1);
    }
}

proof fn lemma_site_claim_keeps_len(g: GameModel, edges: Seq<Edge>, c: Claim, is_option: bool)
    ensures
        edges_after_site_claim(g, edges, c, is_option).len() == edges.len(),
{
}

/// A move changes who owns rivers, never how many there are.
pub proof fn lemma_move_keeps_len(g: GameModel, m: MoveView)
    ensures
        edges_after_move(g, m).len() == g.edges.len(),
{
    match m {
        MoveView::Splurge(p, route) => lemma_route_keeps_len(g, g.edges, p, route, 0),
        _ => {},
    }
}

/// Two setups with the same fields start the same game.
pub proof fn lemma_same_map_same_model(s1: SetupSP, s2: SetupSP)
    requires
        s1.punter == s2.punter,
        s1.punters == s2.punters,
        s1.settings == s2.settings,
        s1.map.sites@ == s2.map.sites@,
        s1.map.rivers@ == s2.map.rivers@,
        s1.map.mines@ == s2.map.mines@,
    ensures
        setup_model(s1) == setup_model(s2),
        valid_map(s1.map) == valid_map(s2.map),
{
    assert(map_site_ids(s1.map) == map_site_ids(s2.map));
}

/// Relies on `slice::sort_unstable`: the same items, in increasing order.
#[verifier::external_body]
fn sort_site_ids(v: &mut Vec<SiteId>)
    ensures
        final(v)@.to_multiset() == old(v)@.to_multiset(),
        forall|i: int, j: int| 0 <= i <= j < final(v)@.len() ==> final(v)@[i] <= final(v)@[j],
{
    v.sort_unstable();
}

/// The site identifiers of the map, in increasing order and each once.
fn collect_site_ids(map: &GameMap) -> (r: Vec<SiteId>)
    ensures
        strictly_increasing(r@),
        r@.to_set() == map_site_ids(*map).to_set(),
        r@.len() <= map.sites@.len(),
{
    let ghost all = map_site_ids(*map);
    let mut ids: Vec<SiteId> = Vec::new();
    let mut k: usize = 0;
    while k < map.sites.len()
        invariant
            k <= map.sites@.len(),
            all == map_site_ids(*map),
            ids@ == all.subrange(0, k as int),
        decreases map.sites@.len() - k,
    {
        ids.push(map.sites[k].id);
        k = k + 1;
        assert(ids@ =~= all.subrange(0, k as int));
    }
    assert(ids@ =~= all);
    let ghost unsorted = ids@;
    sort_site_ids(&mut ids);
    let ghost sorted = ids@;
    assert forall|x: SiteId| sorted.contains(x) <==> unsorted.contains(x) by {
        vstd::seq_lib::to_multiset_contains(sorted, x);
        vstd::seq_lib::to_multiset_contains(unsorted, x);
    }
    assert(sorted.len() == unsorted.len()) by {
        vstd::seq_lib::to_multiset_len(sorted);
        vstd::seq_lib::to_multiset_len(unsorted);
    }
    let mut out: Vec<SiteId> = Vec::new();
    let mut i: usize = 0;
    while i < ids.len()
        invariant
            sorted == ids@,
            forall|a: int, b: int| 0 <= a <= b < sorted.len() ==> sorted[a] <= sorted[b],
            i <= sorted.len(),
            out@.len() <= i,
            strictly_increasing(out@),
            i > 0 ==> out@.len() > 0 && out@[out@.len() - 1] == sorted[i - 1],
            forall|x: SiteId| out@.contains(x) <==> sorted.subrange(0, i as int).contains(x),
        decreases sorted.len() - i,
    {
        let x = ids[i];
        let ghost before = out@;
        if out.len() == 0 || out[out.len() - 1] != x {
            out.push(x);
            proof {
                if before.len() > 0 {
                    assert(sorted[i - 1] <= sorted[i as int]);
                }
            }
        }
        proof {
            let pre = sorted.subrange(0, i as int);
            let post = sorted.subrange(0, i + 1);
            assert forall|y: SiteId| out@.contains(y) <==> post.contains(y) by {
                if post.contains(y) {
                    let k = choose|k: int| 0 <= k < post.len() && #[trigger] post[k] == y;
                    if k < i {
                        assert(pre[k] == y);
                        assert(pre.contains(y));
                        assert(before.contains(y));
                        let l = choose|l: int| 0 <= l < before.len() && #[trigger] before[l] == y;
                        assert(out@[l] == y);
                    } else if out@.len() > before.len() {
                        assert(out@[before.len() as int] == y);
                    } else {
                        assert(out@[out@.len() - 1] == y);
                    }
                }
                if out@.contains(y) {
                    let l = choose|l: int| 0 <= l < out@.len() && #[trigger] out@[l] == y;
                    if l < before.len() {
                        assert(before[l] == y);
                        assert(before.contains(y));
                        let k = choose|k: int| 0 <= k < pre.len() && #[trigger] pre[k] == y;
                        assert(post[k] == y);
                    } else {
                        assert(post[i as int] == y);
                    }
                }
            }
        }
        i = i + 1;
    }
    assert(sorted.subrange(0, sorted.len() as int) =~= sorted);
    assert(out@.to_set() =~= all.to_set());
    out
}

impl Game {
    /// Starts the game of a setup message: sites are numbered by increasing
    /// identifier, rivers become edges with the smaller node first, and the
    /// distances from each mine are computed. `None` when the map names a
    /// site it does not have, has a river from a site to itself, or is too
    /// large.
    pub fn from(setup: SetupSP) -> (r: Option<Game>)
        ensures
            r is Some <==> valid_map(setup.map),
            r is Some ==> r.unwrap().wf() && r.unwrap()@ == setup_model(setup),
            r is Some ==> strictly_increasing(r.unwrap()@.site_ids)
                && r.unwrap()@.site_ids.to_set() == map_site_ids(setup.map).to_set(),
    {
        let map = &setup.map;
        if map.sites.len() > MAX_SITES || map.mines.len() > MAX_MINES || map.rivers.len() > MAX_RIVERS {
            return None;
        }
        let site_ids = collect_site_ids(map);
        let ghost ids = site_ids@;
        proof {
            let all = map_site_ids(*map);
            assert(ids.no_duplicates()) by {
                assert forall|a: int, b: int| 0 <= a < ids.len() && 0 <= b < ids.len() && a != b implies ids[a] != ids[b] by {
                    if a < b { assert(ids[a] < ids[b]); } else { assert(ids[b] < ids[a]); }
                }
            }
            ids.unique_seq_to_set();
            if all.no_duplicates() {
                all.unique_seq_to_set();
            }
        }
        if site_ids.len() != map.sites.len() {
            // Two sites share an identifier.
            proof {
                assert(map_site_ids(*map).len() == map.sites@.len());
                if map_site_ids(*map).no_duplicates() {
                    assert(false);
                }
            }
            return None;
        }
        proof {
            let all = map_site_ids(*map);
            assert(all.to_set().len() == all.len());
            all.lemma_no_dup_set_cardinality();
        }
        proof {
            lemma_increasing_unique(ids, sorted_site_ids(setup.map));
        }
        let ghost all = map_site_ids(*map);
        let n = site_ids.len();
        assert forall|x: SiteId| ids.contains(x) <==> all.contains(x) by {
            assert(ids.to_set().contains(x) == all.to_set().contains(x));
        }

        let mut mines: Vec<Node> = Vec::new();
        let mut k: usize = 0;
        while k < map.mines.len()
            invariant
                ids == site_ids@,
                ids == sorted_site_ids(setup.map),
                strictly_increasing(ids),
                n == ids.len(),
                all == map_site_ids(*map),
                *map == setup.map,
                forall|x: SiteId| ids.contains(x) <==> all.contains(x),
                k <= map.mines@.len(),
                mines@.len() == k,
                forall|j: int| 0 <= j < k ==> ids.contains(#[trigger] map.mines@[j]),
                forall|j: int| 0 <= j < k ==> #[trigger] mines@[j] < n && mines@[j] as int == node_of(ids, map.mines@[j]).unwrap(),
            decreases map.mines@.len() - k,
        {
            let id = map.mines[k];
            match find_site(&site_ids, id) {
                Some(v) => {
                    proof { lemma_node_of(ids, id, v as int); }
                    mines.push(v);
                },
                None => {
                    proof {
                        assert(!ids.contains(id));
                        assert(!all.contains(id));
                        assert(id == setup.map.mines@[k as int]);
                        assert(!valid_map(setup.map));
                    }
                    return None;
                },
            }
            k = k + 1;
        }

        let mut edges: Vec<Edge> = Vec::new();
        let mut k: usize = 0;
        while k < map.rivers.len()
            invariant
                ids == site_ids@,
                ids == sorted_site_ids(setup.map),
                strictly_increasing(ids),
                n == ids.len(),
                all == map_site_ids(*map),
                *map == setup.map,
                forall|x: SiteId| ids.contains(x) <==> all.contains(x),
                k <= map.rivers@.len(),
                edges@.len() == k,
                forall|j: int| 0 <= j < k ==> ids.contains(#[trigger] map.rivers@[j].source)
                    && ids.contains(map.rivers@[j].target) && map.rivers@[j].source != map.rivers@[j].target,
                forall|j: int| 0 <= j < k ==> #[trigger] edges@[j] == river_edge(ids, map.rivers@[j]),
                edges_wf(edges@, n as int),
            decreases map.rivers@.len() - k,
        {
            let river = map.rivers[k];
            match (find_site(&site_ids, river.source), find_site(&site_ids, river.target)) {
                (Some(s), Some(t)) => {
                    if s == t {
                        proof {
                            assert(river == setup.map.rivers@[k as int]);
                            assert(setup.map.rivers@[k as int].source == setup.map.rivers@[k as int].target);
                            assert(!valid_map(setup.map));
                        }
                        return None;
                    }
                    proof {
                        lemma_node_of(ids, river.source, s as int);
                        lemma_node_of(ids, river.target, t as int);
                    }
                    let e = if s < t {
                        Edge { source: s, target: t, claimed: Claimed::NotYet }
                    } else {
                        Edge { source: t, target: s, claimed: Claimed::NotYet }
                    };
                    edges.push(e);
                    proof {
                        assert(ids[s as int] == river.source && ids[t as int] == river.target);
                        assert(river == setup.map.rivers@[k as int]);
                        assert(ids.contains(setup.map.rivers@[k as int].source));
                        assert(ids.contains(setup.map.rivers@[k as int].target));
                        assert forall|j: int| 0 <= j < edges@.len() implies #[trigger] edges@[j].source < edges@[j].target && edges@[j].target < n by {}
                    }
                },
                _ => {
                    proof {
                        assert(!ids.contains(river.source) || !ids.contains(river.target));
                        assert(!all.contains(river.source) || !all.contains(river.target));
                        assert(river == setup.map.rivers@[k as int]);
                        assert(!valid_map(setup.map));
                    }
                    return None;
                },
            }
            k = k + 1;
        }
        assert(valid_map(setup.map));

        let adj_edges = build_adjacency(&edges, n);
        let edge_st_to_edge_index = build_lookup(&edges, n);

        let mut dist_from_mine: Vec<Vec<Option<usize>>> = Vec::new();
        let mut i: usize = 0;
        while i < mines.len()
            invariant
                edges_wf(edges@, n as int),
                adj_wf(edges@, adj_edges@, n as int),
                forall|j: int| 0 <= j < mines@.len() ==> #[trigger] mines@[j] < n,
                i <= mines@.len(),
                dist_from_mine@.len() == i,
                forall|j: int| 0 <= j < i ==> is_dist_table(edges@, Walk::Any, #[trigger] mines@[j] as int, n as int, dist_from_mine@[j]@),
                forall|j: int, v: int| 0 <= j < i && 0 <= v < n && #[trigger] dist_from_mine@[j]@[v] is Some
                    ==> dist_from_mine@[j]@[v].unwrap() < n,
            decreases mines@.len() - i,
        {
            let d = bfs(&edges, &adj_edges, n, mines[i], Walk::Any);
            dist_from_mine.push(d);
            i = i + 1;
        }

        let (futures_on, splurge_on, options_on) = match setup.settings {
            Some(s) => (s.futures == Some(true), s.splurge == Some(true), s.options == Some(true)),
            None => (false, false, false),
        };
        let g = Game {
            me: setup.punter,
            punters: setup.punters,
            site_ids,
            mines,
            edges,
            extension: GameExtension {
                is_futures_on: futures_on,
                is_splurge_on: splurge_on,
                is_options_on: options_on,
                futures: Vec::new(),
                prior_passes: 0,
                prior_options: 0,
            },
            adj_edges,
            edge_st_to_edge_index,
            dist_from_mine,
        };
        assert(g@.mines =~= setup_model(setup).mines);
        assert(g@.edges =~= setup_model(setup).edges);
        assert(g@.futures =~= Seq::<Node>::empty());
        Some(g)
    }
}

/// The nodes below `k` that are not mines, in increasing order.
pub open spec fn non_mine_nodes(mines: Seq<Node>, k: int) -> Seq<Node>
    decreases k,
{
    if k <= 0 {
        Seq::empty()
    } else if mines.contains((k - 1) as usize) {
        non_mine_nodes(mines, k - 1)
    } else {
        non_mine_nodes(mines, k - 1).push((k - 1) as usize)
    }
}

/// The future targets: the first nodes that are not mines, one per mine
/// as far as there are such nodes.
pub open spec fn future_targets(g: GameModel) -> Seq<Node> {
    let c = non_mine_nodes(g.mines, g.site_ids.len() as int);
    if c.len() <= g.mines.len() { c } else { c.take(g.mines.len() as int) }
}

/// The futures as they are sent: each mine paired with its target.
pub open spec fn futures_message(g: GameModel) -> Seq<Future> {
    Seq::new(
        if g.futures.len() <= g.mines.len() { g.futures.len() } else { g.mines.len() },
        |i: int| Future { source: g.site_ids[g.mines[i] as int], target: g.site_ids[g.futures[i] as int] },
    )
}

proof fn lemma_non_mine_nodes(mines: Seq<Node>, k: int)
    requires
        0 <= k,
    ensures
        non_mine_nodes(mines, k).len() <= k,
        forall|j: int| 0 <= j < non_mine_nodes(mines, k).len() ==> #[trigger] non_mine_nodes(mines, k)[j] < k,
    decreases k,
{
    if k > 0 {
        lemma_non_mine_nodes(mines, k - 1);
    }
}

impl Game {
    /// Chooses the future targets, once, where the futures rule is on.
    pub fn setup_futures(&mut self)
        requires
            old(self).wf(),
        ensures
            final(self).wf(),
            final(self)@ == if old(self)@.futures_on && old(self)@.futures.len() == 0 {
                GameModel { futures: future_targets(old(self)@), ..old(self)@ }
            } else {
                old(self)@
            },
    {
        if !self.extension.is_futures_on || self.extension.futures.len() > 0 {
            return;
        }
        let ghost g = self@;
        let n = self.site_ids.len();
        let mut futures: Vec<Node> = Vec::new();
        let mut v: usize = 0;
        while v < n
            invariant
                g == self@,
                n == g.site_ids.len(),
                v <= n,
                futures@ == non_mine_nodes(g.mines, v as int),
            decreases n - v,
        {
            let mut is_mine = false;
            let mut j: usize = 0;
            while j < self.mines.len()
                invariant
                    g == self@,
                    j <= g.mines.len(),
                    is_mine == exists|i: int| 0 <= i < j && g.mines[i] == v,
                decreases g.mines.len() - j,
            {
                if self.mines[j] == v {
                    is_mine = true;
                }
                j = j + 1;
            }
            assert(is_mine == g.mines.contains(v));
            if !is_mine {
                futures.push(v);
            }
            v = v + 1;
        }
        proof { lemma_non_mine_nodes(g.mines, n as int); }
        if futures.len() > self.mines.len() {
            futures.truncate(self.mines.len());
        }
        assert(futures@ =~= future_targets(g));
        self.extension.futures = futures;
    }

    /// The futures to announce at setup, where the futures rule is on.
    pub fn convert_setup_futures_message(&self) -> (r: Option<Vec<Future>>)
        requires
            self.wf(),
        ensures
            r is Some <==> self@.futures_on,
            r is Some ==> r.unwrap()@ == futures_message(self@),
    {
        if !self.extension.is_futures_on {
            return None;
        }
        let len = if self.extension.futures.len() <= self.mines.len() { self.extension.futures.len() } else { self.mines.len() };
        let mut out: Vec<Future> = Vec::new();
        let mut i: usize = 0;
        while i < len
            invariant
                self.wf(),
                len == futures_message(self@).len(),
                i <= len,
                out@ == futures_message(self@).subrange(0, i as int),
            decreases len - i,
        {
            let mine = self.mines[i];
            let future = self.extension.futures[i];
            out.push(Future { source: self.site_ids[mine], target: self.site_ids[future] });
            i = i + 1;
            assert(out@ =~= futures_message(self@).subrange(0, i as int));
        }
        assert(out@ =~= futures_message(self@));
        Some(out)
    }
}

/// `node_of` names the position that a search found.
proof fn lemma_node_of(ids: Seq<SiteId>, id: SiteId, v: int)
    requires
        strictly_increasing(ids),
        0 <= v < ids.len(),
        ids[v] == id,
    ensures
        node_of(ids, id) == Some(v),
{
    let i = choose|i: int| 0 <= i < ids.len() && ids[i] == id;
    if i < v { assert(ids[i] < ids[v]); }
    if v < i { assert(ids[v] < ids[i]); }
}

/// The adjacency lists of `n` nodes: each edge is listed at both ends.
pub(crate) fn build_adjacency(edges: &Vec<Edge>, n: usize) -> (adj: Vec<Vec<AdjEdge>>)
    requires
        edges_wf(edges@, n as int),
    ensures
        adj_wf(edges@, adj@, n as int),
        adj_views(adj@) == adj_upto(edges@, n as int, edges@.len() as int),
{
    let mut adj: Vec<Vec<AdjEdge>> = Vec::new();
    let mut v: usize = 0;
    while v < n
        invariant
            v <= n,
            adj@.len() == v,
            forall|x: int| 0 <= x < v ==> #[trigger] adj@[x]@.len() == 0,
        decreases n - v,
    {
        adj.push(Vec::new());
        v = v + 1;
    }
    let ghost es = edges@;
    assert forall|x: int| 0 <= x < n implies #[trigger] adj_views(adj@)[x] == Seq::<AdjEdge>::empty() by {
        assert(adj_views(adj@)[x] =~= Seq::<AdjEdge>::empty());
    }
    assert(adj_views(adj@) =~= adj_upto(es, n as int, 0));
    let mut k: usize = 0;
    while k < edges.len()
        invariant
            es == edges@,
            edges_wf(es, n as int),
            k <= es.len(),
            adj@.len() == n,
            adj_views(adj@) == adj_upto(es, n as int, k as int),
            forall|v: int, j: int| 0 <= v < n && 0 <= j < adj@[v]@.len() ==> {
                let a = #[trigger] adj@[v]@[j];
                a.edge_index < k && joins(es[a.edge_index as int], v, a.target as int)
            },
            forall|i: int, u: int, v: int| 0 <= i < k && #[trigger] joins(es[i], u, v) ==>
                exists|j: int| 0 <= j < adj@[u]@.len() && #[trigger] adj@[u]@[j] == (AdjEdge { target: v as usize, edge_index: i as usize }),
        decreases es.len() - k,
    {
        let e = edges[k];
        assert(es[k as int].source < es[k as int].target && es[k as int].target < n);
        let ghost before = adj@;
        adj[e.source].push(AdjEdge { target: e.target, edge_index: k });
        adj[e.target].push(AdjEdge { target: e.source, edge_index: k });
        proof {
            let s = e.source as int;
            let t = e.target as int;
            assert(adj@[s]@ == before[s]@.push(AdjEdge { target: e.target, edge_index: k }));
            assert(adj@[t]@ == before[t]@.push(AdjEdge { target: e.source, edge_index: k }));
            assert forall|x: int| 0 <= x < n && x != s && x != t implies #[trigger] adj@[x]@ == before[x]@ by {}
            assert(adj_views(adj@) =~= adj_upto(es, n as int, k + 1));
            assert forall|i: int, u: int, v: int| 0 <= i < k + 1 && #[trigger] joins(es[i], u, v) implies
                exists|j: int| 0 <= j < adj@[u]@.len() && #[trigger] adj@[u]@[j] == (AdjEdge { target: v as usize, edge_index: i as usize }) by {
                if i < k {
                    let j = choose|j: int| 0 <= j < before[u]@.len() && #[trigger] before[u]@[j] == (AdjEdge { target: v as usize, edge_index: i as usize });
                    assert(adj@[u]@[j] == before[u]@[j]);
                } else if u == s {
                    assert(adj@[u]@[before[u]@.len() as int] == (AdjEdge { target: v as usize, edge_index: i as usize }));
                } else {
                    assert(adj@[u]@[before[u]@.len() as int] == (AdjEdge { target: v as usize, edge_index: i as usize }));
                }
            }
        }
        k = k + 1;
    }
    assert(k == es.len());
    adj
}

/// The edges that punter `p` owns, as node pairs, in edge order, among
/// the first `k` edges.
pub open spec fn owned_pairs(edges: Seq<Edge>, p: PunterId, k: int) -> Seq<(Node, Node)>
    decreases k,
{
    if k <= 0 {
        Seq::empty()
    } else if owned_by(edges[k - 1].claimed, p) {
        owned_pairs(edges, p, k - 1).push((edges[k - 1].source, edges[k - 1].target))
    } else {
        owned_pairs(edges, p, k - 1)
    }
}

/// What one punter has: its score and its edges.
#[derive(Debug, Clone)]
pub struct PunterSummary {
    pub punter: PunterId,
    pub score: i64,
    pub owned_edges: Vec<(Node, Node)>,
}

impl Game {
    /// The score and the edges of punter `p`.
    pub fn punter_summary(&self, p: PunterId) -> (r: PunterSummary)
        requires
            self.wf(),
        ensures
            r.punter == p,
            r.score == score_of(self@, p),
            r.owned_edges@ == owned_pairs(self@.edges, p, self@.edges.len() as int),
    {
        let mut owned: Vec<(Node, Node)> = Vec::new();
        let mut k: usize = 0;
        while k < self.edges.len()
            invariant
                k <= self@.edges.len(),
                owned@ == owned_pairs(self@.edges, p, k as int),
            decreases self@.edges.len() - k,
        {
            let e = self.edges[k];
            if e.claimed.is_owned_by(p) {
                owned.push((e.source, e.target));
            }
            k = k + 1;
        }
        PunterSummary { punter: p, score: self.score(p), owned_edges: owned }
    }

    /// The summary of every punter of the match, in punter order.
    pub fn summary(&self) -> (r: Vec<PunterSummary>)
        requires
            self.wf(),
        ensures
            r@.len() == self@.punters,
            forall|p: int| 0 <= p < self@.punters ==> (#[trigger] r@[p]).punter == p
                && r@[p].score == score_of(self@, p as PunterId)
                && r@[p].owned_edges@ == owned_pairs(self@.edges, p as PunterId, self@.edges.len() as int),
    {
        let mut r: Vec<PunterSummary> = Vec::new();
        let mut p: usize = 0;
        while p < self.punters
            invariant
                self.wf(),
                p <= self@.punters,
                r@.len() == p,
                forall|q: int| 0 <= q < p ==> (#[trigger] r@[q]).punter == q && r@[q].score == score_of(self@, q as PunterId)
                    && r@[q].owned_edges@ == owned_pairs(self@.edges, q as PunterId, self@.edges.len() as int),
            decreases self@.punters - p,
        {
            r.push(self.punter_summary(p));
            p = p + 1;
        }
        r
    }
}

/// Replaying the same list of moves into two games started from the same
/// setup gives the same game twice, and so the same score for every punter.
pub proof fn lemma_replay_moves_deterministic(s1: SetupSP, s2: SetupSP, moves: Seq<MoveView>, p: PunterId)
    requires
        s1.punter == s2.punter,
        s1.punters == s2.punters,
        s1.settings == s2.settings,
        s1.map.sites@ == s2.map.sites@,
        s1.map.rivers@ == s2.map.rivers@,
        s1.map.mines@ == s2.map.mines@,
    ensures
        after_moves(setup_model(s1), moves, 0) == after_moves(setup_model(s2), moves, 0),
        score_of(after_moves(setup_model(s1), moves, 0), p) == score_of(after_moves(setup_model(s2), moves, 0), p),
{
    lemma_same_map_same_model(s1, s2);
}

/// Replaying the same moves into two games started from the same setup
/// gives the same game twice, and so the same score for every punter.
pub proof fn lemma_replay_deterministic(g1: GameModel, g2: GameModel, moves: Seq<MoveView>, p: PunterId)
    requires
        g1 == g2,
    ensures
        after_moves_excluding(g1, moves, g1.me, 0) == after_moves_excluding(g2, moves, g2.me, 0),
        score_of(after_moves_excluding(g1, moves, g1.me, 0), p) == score_of(after_moves_excluding(g2, moves, g2.me, 0), p),
{
}

/// Binary search for `id` among the increasing `ids`.
fn find_site(ids: &Vec<SiteId>, id: SiteId) -> (r: Option<usize>)
    requires
        strictly_increasing(ids@),
    ensures
        r is Some ==> r.unwrap() < ids@.len() && ids@[r.unwrap() as int] == id,
        r is None ==> forall|i: int| 0 <= i < ids@.len() ==> ids@[i] != id,
{
    let mut lo: usize = 0;
    let mut hi: usize = ids.len();
    while lo < hi
        invariant
            strictly_increasing(ids@),
            lo <= hi <= ids@.len(),
            forall|i: int| 0 <= i < lo ==> ids@[i] < id,
            forall|i: int| hi <= i < ids@.len() ==> ids@[i] > id,
        decreases hi - lo,
    {
        let mid = lo + (hi - lo) / 2;
        if ids[mid] == id {
            return Some(mid);
        } else if ids[mid] < id {
            lo = mid + 1;
        } else {
            hi = mid;
        }
    }
    None
}

} // verus!
