//! Weighted undirected road-network graph.
//!
//! A `Graph` maps node identifiers to `Node`s and to adjacency lists of
//! outgoing `Edge`s.  Road segments arrive as directed records, but a road is
//! traversable both ways, so `add_edge` registers every segment under both of
//! its endpoints with the same weight.
//!
//! The mathematical model of a graph is `GraphV`: a map of nodes and a map of
//! adjacency sequences.  Walks and their costs (`is_walk`, `reaches`) are
//! defined over that model, and `is_dist_map` characterises the table of
//! single-source shortest distances that `dijkstra` computes.

use vstd::prelude::*;
use std::collections::HashMap;

verus! {

broadcast use {vstd::std_specs::hash::group_hash_axioms, vstd::seq_lib::group_seq_properties};

/// Sentinel distance for a node that no finite-cost walk has reached.
pub const UNREACHED: i32 = i32::MAX;

/// A point of the road network, identified by `id` within one area.
/// The coordinates are carried for identification only; the search uses
/// edge weights exclusively.
#[derive(Clone, Copy, Debug, PartialEq, Eq, Structural)]
pub struct Node {
    pub id: i32,
    pub x: i32,
    pub y: i32,
}

/// A directed record of a road segment from `node_a_id` to `node_b_id`
/// with a non-negative cost `weight`.
#[derive(Clone, Copy, Debug, PartialEq, Eq, Structural)]
pub struct Edge {
    pub node_a_id: i32,
    pub node_b_id: i32,
    pub weight: i32,
}

/// The in-memory graph: nodes by identifier, and adjacency lists by
/// source-node identifier.
#[derive(Debug)]
pub struct Graph {
    pub nodes: HashMap<i32, Node>,
    pub edges: HashMap<i32, Vec<Edge>>,
}

/// Mathematical model of a `Graph`.
#[verifier::ext_equal]
pub struct GraphV {
    pub nodes: Map<i32, Node>,
    pub adj: Map<i32, Seq<Edge>>,
}

impl View for Graph {
    type V = GraphV;

    open spec fn view(&self) -> GraphV {
        GraphV {
            nodes: self.nodes@,
            adj: Map::new(
                |k: i32| self.edges@.contains_key(k),
                |k: i32| self.edges@[k]@,
            ),
        }
    }
}

/// The same segment with its endpoints swapped.
pub open spec fn reversed(e: Edge) -> Edge {
    Edge { node_a_id: e.node_b_id, node_b_id: e.node_a_id, weight: e.weight }
}

impl GraphV {
    /// The graph with no nodes and no edges.
    pub open spec fn empty() -> GraphV {
        GraphV { nodes: Map::empty(), adj: Map::empty() }
    }

    /// Adjacency list of `k`, empty when `k` has no registered edges.
    pub open spec fn adj_of(self, k: i32) -> Seq<Edge> {
        if self.adj.contains_key(k) {
            self.adj[k]
        } else {
            Seq::empty()
        }
    }

    /// Effect of `add_node`: insert or overwrite at the node's identifier.
    pub open spec fn with_node(self, n: Node) -> GraphV {
        GraphV { nodes: self.nodes.insert(n.id, n), adj: self.adj }
    }

    /// One directed registration: append `e` to the adjacency list of its
    /// source node.
    pub open spec fn with_half_edge(self, e: Edge) -> GraphV {
        GraphV { nodes: self.nodes, adj: self.adj.insert(e.node_a_id, self.adj_of(e.node_a_id).push(e)) }
    }

    /// Effect of `add_edge`: the segment is registered under both endpoints
    /// with the same weight.
    pub open spec fn with_edge(self, e: Edge) -> GraphV {
        self.with_half_edge(e).with_half_edge(reversed(e))
    }

    /// Some registered edge leads from `u` to `v` at cost `w`.
    pub open spec fn has_edge(self, u: i32, v: i32, w: int) -> bool {
        exists|i: int|
            #![trigger self.adj_of(u)[i]]
            0 <= i < self.adj_of(u).len()
                && self.adj_of(u)[i].node_b_id == v
                && self.adj_of(u)[i].weight as int == w
    }

    /// Well-formedness: every adjacency entry is filed under its own source
    /// node, both of its endpoints are nodes of the graph, and its weight is
    /// non-negative.
    pub open spec fn wf(self) -> bool {
        forall|k: i32, i: int|
            #![trigger self.adj_of(k)[i]]
            0 <= i < self.adj_of(k).len() ==> {
                let e = self.adj_of(k)[i];
                &&& e.node_a_id == k
                &&& self.nodes.contains_key(k)
                &&& self.nodes.contains_key(e.node_b_id)
                &&& e.weight >= 0
            }
    }
}

/// `p` is a walk through `g` of total cost `c`: a non-empty sequence of node
/// identifiers in which each step follows some registered edge, `c` being the
/// sum of the chosen edges' weights.
pub open spec fn is_walk(g: GraphV, p: Seq<i32>, c: int) -> bool
    decreases p.len(),
{
    if p.len() == 0 {
        false
    } else if p.len() == 1 {
        c == 0
    } else {
        exists|w: int| g.has_edge(p[0], p[1], w) && is_walk(g, p.drop_first(), c - w)
    }
}

/// Some walk through `g` leads from `a` to `b` at total cost `c`.
pub open spec fn reaches(g: GraphV, a: i32, b: i32, c: int) -> bool {
    exists|p: Seq<i32>| p.len() > 0 && p.first() == a && p.last() == b && is_walk(g, p, c)
}

/// `m` is the table of shortest distances from `start` over `g`: its keys are
/// the graph's nodes together with `start`; `start` itself is at distance 0;
/// every finite entry is the cost of an actual walk; and no walk is cheaper
/// than the recorded entry.  A node whose entry is `UNREACHED` has no walk
/// cheaper than `UNREACHED`.
pub open spec fn is_dist_map(g: GraphV, start: i32, m: Map<i32, i32>) -> bool {
    &&& m.dom() == g.nodes.dom().insert(start)
    &&& m.contains_key(start) && m[start] == 0
    &&& forall|v: i32| #[trigger] m.contains_key(v) ==> 0 <= m[v] <= UNREACHED
    &&& forall|v: i32| m.contains_key(v) && m[v] < UNREACHED
        ==> #[trigger] reaches(g, start, v, m[v] as int)
    &&& forall|v: i32, c: int| m.contains_key(v) && #[trigger] reaches(g, start, v, c)
        ==> m[v] as int <= c
}

/// Every edge of `m`'s key set is fully relaxed: following one registered
/// edge from a keyed node never improves on the recorded distance of the
/// target, as long as the candidate sum stays below the sentinel.
spec fn relaxed(g: GraphV, m: Map<i32, i32>) -> bool {
    forall|u: i32, i: int|
        #![trigger g.adj_of(u)[i], m.contains_key(u)]
        m.contains_key(u) && 0 <= i < g.adj_of(u).len()
            && (m[u] as int + g.adj_of(u)[i].weight as int) < UNREACHED as int
        ==> {
            let e = g.adj_of(u)[i];
            m.contains_key(e.node_b_id)
                && m[e.node_b_id] as int <= m[u] as int + e.weight as int
        }
}

/// Removing one entry of a duplicate-free sequence removes exactly that
/// value and keeps the rest duplicate-free.
proof fn lemma_remove_at(p: Seq<i32>, i: int)
    requires
        0 <= i < p.len(),
        p.no_duplicates(),
    ensures
        p.remove(i).no_duplicates(),
        forall|v: i32| #[trigger] p.remove(i).contains(v) <==> (p.contains(v) && v != p[i]),
{
    p.remove_ensures(i);
    let r = p.remove(i);
    assert forall|v: i32| #[trigger] r.contains(v) implies (p.contains(v) && v != p[i]) by {
        let j = choose|j: int| 0 <= j < r.len() && r[j] == v;
        if j < i {
            assert(p[j] == v);
        } else {
            assert(p[j + 1] == v);
        }
    };
    assert forall|v: i32| p.contains(v) && v != p[i] implies #[trigger] r.contains(v) by {
        let j = choose|j: int| 0 <= j < p.len() && p[j] == v;
        if j < i {
            assert(r[j] == v);
        } else {
            assert(r[j - 1] == v);
        }
    };
    assert forall|a: int, b: int|
        0 <= a < r.len() && 0 <= b < r.len() && a != b implies r[a] != r[b] by {
        let a2 = if a < i { a } else { a + 1 };
        let b2 = if b < i { b } else { b + 1 };
        assert(r[a] == p[a2] && r[b] == p[b2]);
    };
}

/// In a well-formed graph every walk has non-negative cost.
proof fn lemma_walk_cost_nonneg(g: GraphV, p: Seq<i32>, c: int)
    requires
        g.wf(),
        is_walk(g, p, c),
    ensures
        c >= 0,
    decreases p.len(),
{
    if p.len() > 1 {
        let w = choose|w: int| g.has_edge(p[0], p[1], w) && is_walk(g, p.drop_first(), c - w);
        let i = choose|i: int|
            0 <= i < g.adj_of(p[0]).len()
                && (#[trigger] g.adj_of(p[0])[i]).node_b_id == p[1]
                && g.adj_of(p[0])[i].weight as int == w;
        assert(g.adj_of(p[0])[i].weight >= 0);
        lemma_walk_cost_nonneg(g, p.drop_first(), c - w);
    }
}

/// A walk can be extended by one registered edge leaving its last node.
proof fn lemma_walk_extend(g: GraphV, p: Seq<i32>, c: int, v: i32, w: int)
    requires
        is_walk(g, p, c),
        g.has_edge(p.last(), v, w),
    ensures
        is_walk(g, p.push(v), c + w),
    decreases p.len(),
{
    if p.len() == 1 {
        assert(p.push(v).drop_first() =~= seq![v]);
        assert(is_walk(g, p.push(v).drop_first(), c + w - w));
        assert(g.has_edge(p.push(v)[0], p.push(v)[1], w));
    } else {
        let w0 = choose|w0: int| g.has_edge(p[0], p[1], w0) && is_walk(g, p.drop_first(), c - w0);
        lemma_walk_extend(g, p.drop_first(), c - w0, v, w);
        assert(p.push(v).drop_first() =~= p.drop_first().push(v));
        assert(g.has_edge(p.push(v)[0], p.push(v)[1], w0));
        assert(is_walk(g, p.push(v).drop_first(), c + w - w0));
    }
}

/// Reachability is reflexive at cost 0.
proof fn lemma_reaches_self(g: GraphV, a: i32)
    ensures
        reaches(g, a, a, 0),
{
    let p = seq![a];
    assert(is_walk(g, p, 0));
    assert(p.len() > 0 && p.first() == a && p.last() == a);
}

/// Reachability extends along one registered edge.
proof fn lemma_reaches_extend(g: GraphV, a: i32, u: i32, c: int, v: i32, w: int)
    requires
        reaches(g, a, u, c),
        g.has_edge(u, v, w),
    ensures
        reaches(g, a, v, c + w),
{
    let p = choose|p: Seq<i32>| p.len() > 0 && p.first() == a && p.last() == u && is_walk(g, p, c);
    lemma_walk_extend(g, p, c, v, w);
    let q = p.push(v);
    assert(q.len() > 0 && q.first() == a && q.last() == v && is_walk(g, q, c + w));
}

/// Every node that a walk visits after its first step is a node of the graph.
proof fn lemma_walk_visits_nodes(g: GraphV, p: Seq<i32>, c: int, t: int)
    requires
        g.wf(),
        is_walk(g, p, c),
        1 <= t < p.len(),
    ensures
        g.nodes.contains_key(p[t]),
    decreases t,
{
    let w = choose|w: int| g.has_edge(p[0], p[1], w) && is_walk(g, p.drop_first(), c - w);
    if t == 1 {
        let i = choose|i: int|
            0 <= i < g.adj_of(p[0]).len()
                && (#[trigger] g.adj_of(p[0])[i]).node_b_id == p[1]
                && g.adj_of(p[0])[i].weight as int == w;
        assert(g.nodes.contains_key(g.adj_of(p[0])[i].node_b_id));
    } else {
        lemma_walk_visits_nodes(g, p.drop_first(), c - w, t - 1);
        assert(p.drop_first()[t - 1] == p[t]);
    }
}

/// Two walks that meet at a node concatenate to one walk whose cost is the
/// sum of theirs.
proof fn lemma_walk_concat(g: GraphV, p: Seq<i32>, q: Seq<i32>, c1: int, c2: int)
    requires
        is_walk(g, p, c1),
        is_walk(g, q, c2),
        p.last() == q.first(),
    ensures
        is_walk(g, p + q.drop_first(), c1 + c2),
    decreases p.len(),
{
    if p.len() == 1 {
        assert(p + q.drop_first() =~= q);
    } else {
        let w = choose|w: int| g.has_edge(p[0], p[1], w) && is_walk(g, p.drop_first(), c1 - w);
        lemma_walk_concat(g, p.drop_first(), q, c1 - w, c2);
        let full = p + q.drop_first();
        assert(full.drop_first() =~= p.drop_first() + q.drop_first());
        assert(g.has_edge(full[0], full[1], w));
        assert(is_walk(g, full.drop_first(), c1 + c2 - w));
    }
}

/// A walk splits at any visited position into a prefix walk and a suffix
/// walk whose costs add up to the whole.
proof fn lemma_walk_split(g: GraphV, p: Seq<i32>, c: int, i: int)
    requires
        is_walk(g, p, c),
        0 <= i < p.len(),
    ensures
        exists|c1: int, c2: int|
            c1 + c2 == c && #[trigger] is_walk(g, p.take(i + 1), c1)
                && #[trigger] is_walk(g, p.skip(i), c2),
    decreases i,
{
    if i == 0 {
        assert(p.take(1) =~= seq![p[0]]);
        assert(p.skip(0) =~= p);
        assert(is_walk(g, p.take(1), 0));
        assert(is_walk(g, p.skip(0), c));
    } else {
        let w = choose|w: int| g.has_edge(p[0], p[1], w) && is_walk(g, p.drop_first(), c - w);
        lemma_walk_split(g, p.drop_first(), c - w, i - 1);
        let (c1, c2) = choose|c1: int, c2: int|
            c1 + c2 == c - w && #[trigger] is_walk(g, p.drop_first().take(i), c1)
                && #[trigger] is_walk(g, p.drop_first().skip(i - 1), c2);
        assert(p.take(i + 1).drop_first() =~= p.drop_first().take(i));
        assert(g.has_edge(p.take(i + 1)[0], p.take(i + 1)[1], w));
        assert(is_walk(g, p.take(i + 1).drop_first(), (w + c1) - w));
        assert(is_walk(g, p.take(i + 1), w + c1));
        assert(p.skip(i) =~= p.drop_first().skip(i - 1));
        assert(is_walk(g, p.skip(i), c2));
        assert((w + c1) + c2 == c);
    }
}

/// In a fully relaxed table, no walk undercuts the recorded distances: if the
/// walk's first node is keyed at most `d0` and `d0 + c` stays below the
/// sentinel, the walk's last node is keyed at most `d0 + c`.
proof fn lemma_walk_lower_bound(g: GraphV, m: Map<i32, i32>, p: Seq<i32>, c: int, d0: int)
    requires
        g.wf(),
        relaxed(g, m),
        is_walk(g, p, c),
        m.contains_key(p[0]),
        m[p[0]] as int <= d0,
        0 <= d0,
        d0 + c < UNREACHED as int,
    ensures
        m.contains_key(p.last()),
        m[p.last()] as int <= d0 + c,
    decreases p.len(),
{
    if p.len() > 1 {
        let w = choose|w: int| g.has_edge(p[0], p[1], w) && is_walk(g, p.drop_first(), c - w);
        let i = choose|i: int|
            0 <= i < g.adj_of(p[0]).len()
                && (#[trigger] g.adj_of(p[0])[i]).node_b_id == p[1]
                && g.adj_of(p[0])[i].weight as int == w;
        assert(g.adj_of(p[0])[i].weight >= 0);
        lemma_walk_cost_nonneg(g, p.drop_first(), c - w);
        assert((m[p[0]] as int + g.adj_of(p[0])[i].weight as int) < UNREACHED as int);
        assert(m.contains_key(p[1]) && m[p[1]] as int <= m[p[0]] as int + w);
        lemma_walk_lower_bound(g, m, p.drop_first(), c - w, d0 + w);
        assert(p.drop_first().last() == p.last());
    }
}

/// A fully relaxed table rooted at 0 is minimal: no walk from `start`
/// reaches a keyed node more cheaply than its entry.
proof fn lemma_relaxed_is_minimal(g: GraphV, start: i32, m: Map<i32, i32>, v: i32, c: int)
    requires
        g.wf(),
        relaxed(g, m),
        m.contains_key(start),
        m[start] == 0,
        forall|u: i32| #[trigger] m.contains_key(u) ==> 0 <= m[u] <= UNREACHED,
        m.contains_key(v),
        reaches(g, start, v, c),
    ensures
        m[v] as int <= c,
{
    if c < UNREACHED as int {
        let p = choose|p: Seq<i32>|
            p.len() > 0 && p.first() == start && p.last() == v && is_walk(g, p, c);
        lemma_walk_lower_bound(g, m, p, c, 0);
    }
}

/// The shortest-distance characterisation is categorical: two tables that
/// both satisfy it for the same graph and start node are equal.  This is the
/// solver's determinism: the distances depend on nothing but the graph and
/// the start node.
pub proof fn lemma_dist_map_unique(g: GraphV, start: i32, m1: Map<i32, i32>, m2: Map<i32, i32>)
    requires
        is_dist_map(g, start, m1),
        is_dist_map(g, start, m2),
    ensures
        m1 == m2,
{
    assert forall|v: i32| #[trigger] m1.contains_key(v) implies m1[v] == m2[v] by {
        assert(m2.contains_key(v));
        if m1[v] < UNREACHED {
            assert(reaches(g, start, v, m1[v] as int));
            assert(m2[v] <= m1[v]);
        }
        if m2[v] < UNREACHED {
            assert(reaches(g, start, v, m2[v] as int));
            assert(m1[v] <= m2[v]);
        }
    }
    assert(m1 =~= m2);
}

/// Registering a segment makes it traversable in both directions at equal
/// cost: afterwards an edge leads from either endpoint to the other at the
/// segment's weight, and so does a walk.
pub proof fn lemma_add_edge_bidirectional(g: GraphV, e: Edge)
    ensures
        g.with_edge(e).has_edge(e.node_a_id, e.node_b_id, e.weight as int),
        g.with_edge(e).has_edge(e.node_b_id, e.node_a_id, e.weight as int),
        reaches(g.with_edge(e), e.node_a_id, e.node_b_id, e.weight as int),
        reaches(g.with_edge(e), e.node_b_id, e.node_a_id, e.weight as int),
{
    let a = e.node_a_id;
    let b = e.node_b_id;
    let g2 = g.with_edge(e);
    if a == b {
        assert(g2.adj_of(a) == g.adj_of(a).push(e).push(reversed(e)));
        assert(g2.adj_of(a)[g.adj_of(a).len() as int] == e);
        assert(g2.adj_of(a)[g.adj_of(a).len() as int + 1] == reversed(e));
    } else {
        assert(g2.adj_of(a) == g.adj_of(a).push(e));
        assert(g2.adj_of(a)[g.adj_of(a).len() as int] == e);
        assert(g2.adj_of(b) == g.with_half_edge(e).adj_of(b).push(reversed(e)));
        assert(g.with_half_edge(e).adj_of(b) == g.adj_of(b));
        assert(g2.adj_of(b)[g.adj_of(b).len() as int] == reversed(e));
    }
    assert(g2.has_edge(a, b, e.weight as int));
    assert(g2.has_edge(b, a, e.weight as int));
    let p = seq![a, b];
    assert(p.drop_first() =~= seq![b]);
    assert(g2.has_edge(p[0], p[1], e.weight as int));
    assert(is_walk(g2, p.drop_first(), 0));
    assert(is_walk(g2, p, e.weight as int));
    assert(p.len() > 0 && p.first() == a && p.last() == b);
    let q = seq![b, a];
    assert(q.drop_first() =~= seq![a]);
    assert(g2.has_edge(q[0], q[1], e.weight as int));
    assert(is_walk(g2, q.drop_first(), 0));
    assert(is_walk(g2, q, e.weight as int));
    assert(q.len() > 0 && q.first() == b && q.last() == a);
}

/// Along a cheapest walk from the start node the recorded distances never
/// decrease with the hop count: each visited node's entry equals the cost
/// of the walk up to it, and those costs only grow.
pub proof fn lemma_monotone_on_cheapest_walk(
    g: GraphV,
    start: i32,
    m: Map<i32, i32>,
    p: Seq<i32>,
    c: int,
    i: int,
    j: int,
)
    requires
        g.wf(),
        is_dist_map(g, start, m),
        is_walk(g, p, c),
        p.first() == start,
        m.contains_key(p.last()),
        c == m[p.last()],
        0 <= i <= j < p.len(),
    ensures
        m.contains_key(p[i]),
        m.contains_key(p[j]),
        m[p[i]] <= m[p[j]],
{
    if i >= 1 {
        lemma_walk_visits_nodes(g, p, c, i);
    }
    if j >= 1 {
        lemma_walk_visits_nodes(g, p, c, j);
    }
    assert(m.contains_key(p[i]) && m.contains_key(p[j]));

    lemma_walk_split(g, p, c, j);
    let (c1j, c2j) = choose|c1: int, c2: int|
        c1 + c2 == c && #[trigger] is_walk(g, p.take(j + 1), c1)
            && #[trigger] is_walk(g, p.skip(j), c2);
    lemma_walk_split(g, p.take(j + 1), c1j, i);
    let (c1i, cm) = choose|c1: int, c2: int|
        c1 + c2 == c1j && #[trigger] is_walk(g, p.take(j + 1).take(i + 1), c1)
            && #[trigger] is_walk(g, p.take(j + 1).skip(i), c2);
    assert(p.take(j + 1).take(i + 1) =~= p.take(i + 1));
    lemma_walk_cost_nonneg(g, p.take(j + 1).skip(i), cm);
    lemma_walk_cost_nonneg(g, p.skip(j), c2j);

    // the prefix walk bounds the entry of `p[i]` from above
    assert(p.take(i + 1).first() == start && p.take(i + 1).last() == p[i]);
    assert(reaches(g, start, p[i], c1i));
    assert(m[p[i]] as int <= c1i);

    // the entry of `p[j]` is bounded below by the prefix cost `c1j`
    if m[p[j]] < UNREACHED {
        assert(reaches(g, start, p[j], m[p[j]] as int));
        let q = choose|q: Seq<i32>|
            q.len() > 0 && q.first() == start && q.last() == p[j] && is_walk(g, q, m[p[j]] as int);
        lemma_walk_concat(g, q, p.skip(j), m[p[j]] as int, c2j);
        let qq = q + p.skip(j).drop_first();
        if p.skip(j).len() == 1 {
            assert(qq =~= q);
            assert(qq.last() == p[j]);
            assert(p.skip(j).last() == p.skip(j)[0]);
            assert(p[j] == p.last());
        } else {
            assert(qq.last() == p.skip(j).drop_first().last());
            assert(p.skip(j).drop_first().last() == p.skip(j).last());
            assert(p.skip(j).last() == p.last());
        }
        assert(qq.len() > 0 && qq.first() == start && qq.last() == p.last());
        assert(reaches(g, start, p.last(), m[p[j]] as int + c2j));
        assert(c <= m[p[j]] as int + c2j);
        assert(m[p[j]] as int >= c1j);
    } else {
        assert(c1j <= c);
        assert(c <= UNREACHED as int);
    }
    assert(m[p[i]] as int <= c1i + cm);
}

impl Graph {
    /// A graph with no nodes and no edges.
    pub fn new() -> (g: Graph)
        ensures
            g@ == GraphV::empty(),
    {
        let g = Graph { nodes: HashMap::new(), edges: HashMap::new() };
        proof {
            assert(g@ =~= GraphV::empty());
        }
        g
    }

    /// Inserts or overwrites the node at its identifier key; a duplicate
    /// identifier is not an error, the last write wins.
    pub fn add_node(&mut self, node: Node)
        ensures
            final(self)@ == old(self)@.with_node(node),
    {
        self.nodes.insert(node.id, node);
        proof {
            assert(self@ =~= old(self)@.with_node(node));
        }
    }

    /// Appends `edge` to the adjacency list of its source node.
    fn push_adj(&mut self, edge: Edge)
        ensures
            final(self)@ == old(self)@.with_half_edge(edge),
    {
        match self.edges.remove(&edge.node_a_id) {
            Some(mut list) => {
                list.push(edge);
                self.edges.insert(edge.node_a_id, list);
            },
            None => {
                let mut list: Vec<Edge> = Vec::new();
                list.push(edge);
                self.edges.insert(edge.node_a_id, list);
            },
        }
        proof {
            assert(self@.adj =~= old(self)@.with_half_edge(edge).adj);
            assert(self@ =~= old(self)@.with_half_edge(edge));
        }
    }

    /// Collects the identifier of every node, each exactly once.
    fn node_id_list(&self) -> (r: Vec<i32>)
        ensures
            r@.to_set() == self.nodes@.dom(),
            r@.no_duplicates(),
    {
        let mut r: Vec<i32> = Vec::new();
        for k in it: self.nodes.keys()
            invariant
                it.seq().unref().to_set() == self.nodes@.dom(),
                it.seq().unref().len() == self.nodes@.dom().len(),
                r@.len() == it.index(),
                forall|i: int| 0 <= i < it.index() ==> r@[i] == it.seq().unref()[i],
                r@.no_duplicates(),
        {
            proof {
                let s = it.seq().unref();
                s.lemma_no_dup_set_cardinality();
                assert(0 <= it.index() < s.len());
                assert(*k == s[it.index()]);
            }
            r.push(*k);
            proof {
                let s = it.seq().unref();
                assert forall|a: int, b: int|
                    0 <= a < r@.len() && 0 <= b < r@.len() && a != b implies r@[a] != r@[b] by {
                    assert(r@[a] == s[a] && r@[b] == s[b]);
                };
            }
        }
        proof {
            assert forall|v: i32| r@.to_set().contains(v)
                implies self.nodes@.dom().contains(v) by {
                let i = choose|i: int| 0 <= i < r@.len() && r@[i] == v;
            };
            if exists|v: i32| self.nodes@.dom().contains(v) && !r@.to_set().contains(v) {
                let v = choose|v: i32| self.nodes@.dom().contains(v) && !r@.to_set().contains(v);
                r@.to_set().lemma_subset_not_in_lt(self.nodes@.dom(), v);
                r@.unique_seq_to_set();
            }
            assert(r@.to_set() =~= self.nodes@.dom());
        }
        r
    }

    /// Single-source shortest distances from `start`: every node of the graph
    /// is keyed, as is `start` itself; `start` is at distance 0; every other
    /// entry is the least total weight of a walk from `start`, or `UNREACHED`
    /// when no walk cheaper than `UNREACHED` exists.  Candidate sums are
    /// formed in 64 bits and discarded unless they undercut the current
    /// entry, so distances saturate at the sentinel instead of wrapping.
    pub fn dijkstra(&self, start: i32) -> (r: HashMap<i32, i32>)
        requires
            self@.wf(),
        ensures
            is_dist_map(self@, start, r@),
    {
        let ghost g = self@;
        let ids = self.node_id_list();
        let mut distances: HashMap<i32, i32> = HashMap::new();
        let mut pending: Vec<i32> = Vec::new();
        distances.insert(start, 0);
        pending.push(start);
        proof {
            lemma_reaches_self(g, start);
        }

        let mut i: usize = 0;
        while i < ids.len()
            invariant
                g == self@,
                i <= ids.len(),
                ids@.to_set() == g.nodes.dom(),
                ids@.no_duplicates(),
                distances@.contains_key(start) && distances@[start] == 0,
                forall|v: i32| #[trigger] distances@.contains_key(v)
                    <==> (ids@.take(i as int).contains(v) || v == start),
                forall|v: i32| #[trigger] distances@.contains_key(v)
                    ==> distances@[v] == (if v == start { 0i32 } else { UNREACHED }),
                pending@.no_duplicates(),
                forall|v: i32| #[trigger] pending@.contains(v) <==> distances@.contains_key(v),
            decreases ids@.len() - i,
        {
            let key = ids[i];
            proof {
                if ids@.take(i as int).contains(key) {
                    let j = choose|j: int| 0 <= j < i && ids@.take(i as int)[j] == key;
                    assert(ids@[j] == ids@[i as int]);
                    assert(false);
                }
            }
            if key != start {
                proof {
                    assert(!pending@.contains(key));
                }
                let ghost pend0 = pending@;
                distances.insert(key, UNREACHED);
                pending.push(key);
                proof {
                    assert forall|a: int, b: int|
                        0 <= a < pending@.len() && 0 <= b < pending@.len() && a != b
                        implies pending@[a] != pending@[b] by {
                        if a < pend0.len() {
                            assert(pend0.contains(pend0[a]));
                        }
                        if b < pend0.len() {
                            assert(pend0.contains(pend0[b]));
                        }
                    };
                }
            }
            i += 1;
            proof {
                assert(ids@.take(i as int) =~= ids@.take(i as int - 1).push(key));
            }
        }
        proof {
            assert(ids@.take(ids@.len() as int) =~= ids@);
            assert(forall|v: i32| #[trigger] distances@.contains_key(v)
                <==> (g.nodes.dom().contains(v) || v == start));
        }

        loop
            invariant
                g == self@,
                g.wf(),
                distances@.contains_key(start) && distances@[start] == 0,
                forall|v: i32| #[trigger] distances@.contains_key(v)
                    <==> (g.nodes.dom().contains(v) || v == start),
                forall|v: i32| #[trigger] distances@.contains_key(v)
                    ==> 0 <= distances@[v] <= UNREACHED,
                pending@.no_duplicates(),
                forall|v: i32| #[trigger] pending@.contains(v) ==> distances@.contains_key(v),
                forall|v: i32| #[trigger] distances@.contains_key(v) && distances@[v] < UNREACHED
                    ==> reaches(g, start, v, distances@[v] as int),
                // every node no longer pending has its outgoing edges relaxed
                forall|u: i32, j: int|
                    #![trigger g.adj_of(u)[j], distances@[u]]
                    distances@.contains_key(u) && !pending@.contains(u)
                        && 0 <= j < g.adj_of(u).len()
                        && (distances@[u] as int + g.adj_of(u)[j].weight as int) < UNREACHED as int
                    ==> distances@[g.adj_of(u)[j].node_b_id] as int
                        <= distances@[u] as int + g.adj_of(u)[j].weight as int,
                // settled entries never exceed pending ones
                forall|u: i32, v: i32|
                    #![trigger distances@[u], pending@.contains(v)]
                    distances@.contains_key(u) && !pending@.contains(u) && pending@.contains(v)
                    ==> distances@[u] <= distances@[v],
            ensures
                distances@.contains_key(start) && distances@[start] == 0,
                forall|v: i32| #[trigger] distances@.contains_key(v)
                    <==> (g.nodes.dom().contains(v) || v == start),
                forall|v: i32| #[trigger] distances@.contains_key(v)
                    ==> 0 <= distances@[v] <= UNREACHED,
                forall|v: i32| #[trigger] distances@.contains_key(v) && distances@[v] < UNREACHED
                    ==> reaches(g, start, v, distances@[v] as int),
                relaxed(g, distances@),
            decreases pending@.len(),
        {
            if pending.len() == 0 {
                proof {
                    assert forall|u: i32, j: int|
                        distances@.contains_key(u) && 0 <= j < g.adj_of(u).len()
                            && (distances@[u] as int + g.adj_of(u)[j].weight as int)
                                < UNREACHED as int
                        implies distances@[#[trigger] g.adj_of(u)[j].node_b_id] as int
                            <= distances@[u] as int + g.adj_of(u)[j].weight as int by {
                        assert(!pending@.contains(u));
                        assert(distances@[u] == distances@[u]);
                    };
                }
                break;
            }

            // choose the pending node with the least tentative distance,
            // ties broken by the smaller node identifier
            let mut best: usize = 0;
            proof {
                assert(pending@.contains(pending@[0]));
            }
            let mut bd: i32 = *distances.get(&pending[0]).unwrap();
            let mut j: usize = 1;
            while j < pending.len()
                invariant
                    g == self@,
                    pending@.len() > 0,
                    best < j <= pending@.len(),
                    forall|v: i32| #[trigger] pending@.contains(v) ==> distances@.contains_key(v),
                    distances@.contains_key(pending@[best as int]),
                    bd == distances@[pending@[best as int]],
                    forall|t: int| 0 <= t < j ==> bd <= distances@[#[trigger] pending@[t]],
                decreases pending@.len() - j,
            {
                proof {
                    assert(pending@.contains(pending@[j as int]));
                }
                let d = *distances.get(&pending[j]).unwrap();
                if d < bd || (d == bd && pending[j] < pending[best]) {
                    best = j;
                    bd = d;
                }
                j += 1;
            }

            if bd == UNREACHED {
                proof {
                    assert forall|u: i32, i2: int|
                        distances@.contains_key(u) && 0 <= i2 < g.adj_of(u).len()
                            && (distances@[u] as int + g.adj_of(u)[i2].weight as int)
                                < UNREACHED as int
                        implies distances@[#[trigger] g.adj_of(u)[i2].node_b_id] as int
                            <= distances@[u] as int + g.adj_of(u)[i2].weight as int by {
                        if pending@.contains(u) {
                            let t = choose|t: int| 0 <= t < pending@.len() && pending@[t] == u;
                            assert(bd <= distances@[pending@[t]]);
                            assert(distances@[u] == UNREACHED);
                        } else {
                            assert(distances@[u] == distances@[u]);
                        }
                    };
                }
                break;
            }

            let ghost pend0 = pending@;
            let u = pending.remove(best);
            let du = bd;
            proof {
                lemma_remove_at(pend0, best as int);
                assert(u == pend0[best as int]);
                assert(pend0.contains(u));
                assert(distances@[u] == du);
                assert(0 <= du < UNREACHED);
                assert(!pending@.contains(u));
                assert(reaches(g, start, u, du as int));
                assert forall|s: i32|
                    #[trigger] distances@.contains_key(s) && !pending@.contains(s)
                    implies distances@[s] <= du by {
                    if s != u {
                        assert(!pend0.contains(s));
                        assert(distances@[s] <= distances@[u]);
                    }
                };
                assert forall|s: i32, v: i32|
                    distances@.contains_key(s) && !pending@.contains(s)
                        && #[trigger] pending@.contains(v)
                    implies #[trigger] distances@[s] <= distances@[v] by {
                    assert(pend0.contains(v));
                    let t = choose|t: int| 0 <= t < pend0.len() && pend0[t] == v;
                    assert(bd <= distances@[pend0[t]]);
                    assert(distances@[s] <= du);
                };
            }

            match self.edges.get(&u) {
                None => {
                    proof {
                        assert(!g.adj.contains_key(u));
                        assert(g.adj_of(u).len() == 0);
                    }
                },
                Some(neighbors) => {
                    proof {
                        assert(g.adj_of(u) == neighbors@);
                    }
                    let mut q: usize = 0;
                    while q < neighbors.len()
                        invariant
                            g == self@,
                            g.wf(),
                            neighbors@ == g.adj_of(u),
                            q <= neighbors@.len(),
                            distances@.contains_key(start) && distances@[start] == 0,
                            forall|v: i32| #[trigger] distances@.contains_key(v)
                                <==> (g.nodes.dom().contains(v) || v == start),
                            forall|v: i32| #[trigger] distances@.contains_key(v)
                                ==> 0 <= distances@[v] <= UNREACHED,
                            pending@.no_duplicates(),
                            forall|v: i32| #[trigger] pending@.contains(v)
                                ==> distances@.contains_key(v),
                            !pending@.contains(u),
                            distances@.contains_key(u) && distances@[u] == du,
                            0 <= du < UNREACHED,
                            reaches(g, start, u, du as int),
                            forall|v: i32| #[trigger] distances@.contains_key(v)
                                && distances@[v] < UNREACHED
                                ==> reaches(g, start, v, distances@[v] as int),
                            // all settled entries, u included, are at most du
                            forall|s: i32| #[trigger] distances@.contains_key(s)
                                && !pending@.contains(s) ==> distances@[s] <= du,
                            // settled nodes other than u are fully relaxed
                            forall|s: i32, j2: int|
                                #![trigger g.adj_of(s)[j2], distances@[s]]
                                distances@.contains_key(s) && !pending@.contains(s) && s != u
                                    && 0 <= j2 < g.adj_of(s).len()
                                    && (distances@[s] as int + g.adj_of(s)[j2].weight as int)
                                        < UNREACHED as int
                                ==> distances@[g.adj_of(s)[j2].node_b_id] as int
                                    <= distances@[s] as int + g.adj_of(s)[j2].weight as int,
                            // u's first q edges are relaxed
                            forall|t: int|
                                0 <= t < q
                                    && (du as int + (#[trigger] neighbors@[t]).weight as int)
                                        < UNREACHED as int
                                ==> distances@[neighbors@[t].node_b_id] as int
                                    <= du as int + neighbors@[t].weight as int,
                            // settled entries never exceed pending ones
                            forall|s: i32, v: i32|
                                #![trigger distances@[s], pending@.contains(v)]
                                distances@.contains_key(s) && !pending@.contains(s)
                                    && pending@.contains(v)
                                ==> distances@[s] <= distances@[v],
                        decreases neighbors@.len() - q,
                    {
                        let e = neighbors[q];
                        proof {
                            assert(g.adj_of(u)[q as int] == e);
                            assert(e.node_a_id == u && g.nodes.contains_key(e.node_b_id)
                                && e.weight >= 0);
                        }
                        let dv = *distances.get(&e.node_b_id).unwrap();
                        let cand64: i64 = du as i64 + e.weight as i64;
                        if cand64 < dv as i64 {
                            proof {
                                assert(0 <= cand64 < UNREACHED as i64);
                            }
                            let cand: i32 = cand64 as i32;
                            proof {
                                // the improved node is still pending: a settled
                                // node is at most du, hence at most the sum
                                if !pending@.contains(e.node_b_id) {
                                    assert(distances@[e.node_b_id] <= du);
                                    assert(false);
                                }
                                assert(g.has_edge(u, e.node_b_id, e.weight as int));
                                lemma_reaches_extend(
                                    g, start, u, du as int, e.node_b_id, e.weight as int);
                            }
                            distances.insert(e.node_b_id, cand);
                        }
                        q += 1;
                    }
                },
            }
        }

        proof {
            let m = distances@;
            assert(m.dom() =~= g.nodes.dom().insert(start));
            assert forall|v: i32, c: int| m.contains_key(v) && #[trigger] reaches(g, start, v, c)
                implies m[v] as int <= c by {
                lemma_relaxed_is_minimal(g, start, m, v, c);
            };
        }
        distances
    }

    /// Registers the segment under its source node, and separately registers
    /// the reversed segment, same weight, under its target node: the road is
    /// traversable both ways even though the record is directed.
    pub fn add_edge(&mut self, edge: Edge)
        ensures
            final(self)@ == old(self)@.with_edge(edge),
    {
        self.push_adj(edge);
        let reverse_edge = Edge {
            node_a_id: edge.node_b_id,
            node_b_id: edge.node_a_id,
            weight: edge.weight,
        };
        self.push_adj(reverse_edge);
    }
}

} // verus!
