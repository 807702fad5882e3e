//! Matching policy and dispatch core.
//!
//! Given an order's origin node, the area's road network and the available
//! vehicles of that area, `dispatch` builds the graph, computes shortest
//! distances from the origin, and selects the nearest vehicle:
//! least distance first, earliest in the input on ties, none beyond the
//! reachability threshold.  A vehicle standing on a node that the area's
//! graph does not know is an inconsistent input, reported as an error rather
//! than treated as unreachable.

use vstd::prelude::*;
use std::collections::HashMap;
use crate::graph::{Edge, Graph, GraphV, Node, is_dist_map, lemma_dist_map_unique};

verus! {

broadcast use vstd::std_specs::hash::group_hash_axioms;

/// Default reachability threshold: a candidate farther away than this is not
/// dispatched even when a finite route exists.
pub const DEFAULT_DISPATCH_THRESHOLD: i32 = 10000000;

/// An available service vehicle, reduced to what the matching policy reads:
/// its identifier, its driver, the node it stands on, and its area.
#[derive(Clone, Copy, Debug, PartialEq, Eq, Structural)]
pub struct TowTruck {
    pub id: i32,
    pub driver_id: i32,
    pub node_id: i32,
    pub area_id: i32,
}

/// Failure of the matching core.  A candidate vehicle standing on a node
/// that is absent from the distance table points at an area mismatch in the
/// caller's data, not at a legitimate lack of vehicles.
#[derive(Clone, Copy, Debug, PartialEq, Eq, Structural)]
pub enum DispatchError {
    InconsistentInput,
}

/// Every candidate's node is keyed in the distance table.
pub open spec fn all_nodes_keyed(trucks: Seq<TowTruck>, m: Map<i32, i32>) -> bool {
    forall|t: int| 0 <= t < trucks.len() ==> m.contains_key((#[trigger] trucks[t]).node_id)
}

/// Index of the candidate with the least distance among the first `n`,
/// the earliest such index winning ties.
pub open spec fn best_idx(trucks: Seq<TowTruck>, m: Map<i32, i32>, n: int) -> int
    decreases n,
{
    if n <= 1 {
        0
    } else {
        let j = best_idx(trucks, m, n - 1);
        if m[trucks[n - 1].node_id] < m[trucks[j].node_id] {
            n - 1
        } else {
            j
        }
    }
}

/// The matching policy as a function of its inputs: an error if any
/// candidate's node is missing from the table; no match if there is no
/// candidate or the nearest one is farther than `threshold`; otherwise the
/// first candidate at the least distance.  A distance equal to `threshold`
/// is still accepted; only `distance > threshold` is rejected.
pub open spec fn match_spec(trucks: Seq<TowTruck>, m: Map<i32, i32>, threshold: i32) -> Result<
    Option<TowTruck>,
    DispatchError,
> {
    if !all_nodes_keyed(trucks, m) {
        Err(DispatchError::InconsistentInput)
    } else if trucks.len() == 0 {
        Ok(None)
    } else {
        let i = best_idx(trucks, m, trucks.len() as int);
        if m[trucks[i].node_id] > threshold {
            Ok(None)
        } else {
            Ok(Some(trucks[i]))
        }
    }
}

/// The selected index points at a least-distance candidate, and every
/// strictly earlier candidate is strictly farther.
pub proof fn lemma_best_idx_is_first_min(trucks: Seq<TowTruck>, m: Map<i32, i32>, n: int)
    requires
        1 <= n <= trucks.len(),
    ensures
        0 <= best_idx(trucks, m, n) < n,
        forall|t: int| 0 <= t < n
            ==> m[trucks[best_idx(trucks, m, n)].node_id] <= m[(#[trigger] trucks[t]).node_id],
        forall|t: int| 0 <= t < best_idx(trucks, m, n)
            ==> m[(#[trigger] trucks[t]).node_id] > m[trucks[best_idx(trucks, m, n)].node_id],
    decreases n,
{
    if n > 1 {
        lemma_best_idx_is_first_min(trucks, m, n - 1);
    }
}

/// Tie-break stability of the policy: when two candidates stand at the same,
/// least, distance, the selected candidate is never the later of the two;
/// the selection index is at most the earlier one's.
pub proof fn lemma_tie_break_stable(
    trucks: Seq<TowTruck>,
    m: Map<i32, i32>,
    threshold: i32,
    a: int,
    b: int,
)
    requires
        all_nodes_keyed(trucks, m),
        0 <= a < b < trucks.len(),
        m[trucks[a].node_id] == m[trucks[b].node_id],
        forall|t: int| 0 <= t < trucks.len()
            ==> m[trucks[a].node_id] <= m[(#[trigger] trucks[t]).node_id],
        m[trucks[a].node_id] <= threshold,
    ensures
        best_idx(trucks, m, trucks.len() as int) <= a,
        match_spec(trucks, m, threshold) == Ok::<Option<TowTruck>, DispatchError>(
            Some(trucks[best_idx(trucks, m, trucks.len() as int)]),
        ),
        m[trucks[best_idx(trucks, m, trucks.len() as int)].node_id] == m[trucks[a].node_id],
{
    let n = trucks.len() as int;
    lemma_best_idx_is_first_min(trucks, m, n);
    let i = best_idx(trucks, m, n);
    assert(m[trucks[i].node_id] <= m[trucks[a].node_id]);
    assert(m[trucks[a].node_id] <= m[trucks[i].node_id]);
    if i > a {
        assert(m[trucks[a].node_id] > m[trucks[i].node_id]);
    }
}

/// Threshold enforcement is inclusive at the boundary: the nearest candidate
/// is still dispatched when its distance equals the threshold; only a
/// distance strictly greater than the threshold is rejected.
pub proof fn lemma_threshold_boundary(trucks: Seq<TowTruck>, m: Map<i32, i32>, threshold: i32)
    requires
        all_nodes_keyed(trucks, m),
        trucks.len() > 0,
    ensures
        m[trucks[best_idx(trucks, m, trucks.len() as int)].node_id] <= threshold
            ==> match_spec(trucks, m, threshold) == Ok::<Option<TowTruck>, DispatchError>(
            Some(trucks[best_idx(trucks, m, trucks.len() as int)]),
        ),
        m[trucks[best_idx(trucks, m, trucks.len() as int)].node_id] > threshold
            ==> match_spec(trucks, m, threshold) == Ok::<Option<TowTruck>, DispatchError>(None),
{
}

/// Selects the nearest candidate from the distance table: least distance,
/// earliest in the input on ties, none farther than `threshold`.  An empty
/// candidate list is no match and no error; a candidate whose node is not
/// keyed in the table is an inconsistent input.
pub fn match_nearest(
    trucks: &Vec<TowTruck>,
    distances: &HashMap<i32, i32>,
    threshold: i32,
) -> (r: Result<Option<TowTruck>, DispatchError>)
    ensures
        r == match_spec(trucks@, distances@, threshold),
{
    let n = trucks.len();
    if n == 0 {
        return Ok(None);
    }
    let mut best: usize = 0;
    let mut bd: i32 = match distances.get(&trucks[0].node_id) {
        Some(d) => *d,
        None => {
            proof {
                assert(!distances@.contains_key(trucks@[0].node_id));
            }
            return Err(DispatchError::InconsistentInput);
        },
    };
    let mut k: usize = 1;
    while k < n
        invariant
            1 <= k <= n == trucks@.len(),
            best < k,
            forall|t: int| 0 <= t < k
                ==> distances@.contains_key((#[trigger] trucks@[t]).node_id),
            bd == distances@[trucks@[best as int].node_id],
            best as int == best_idx(trucks@, distances@, k as int),
        decreases n - k,
    {
        let d = match distances.get(&trucks[k].node_id) {
            Some(d) => *d,
            None => {
                proof {
                    assert(!distances@.contains_key(trucks@[k as int].node_id));
                }
                return Err(DispatchError::InconsistentInput);
            },
        };
        if d < bd {
            best = k;
            bd = d;
        }
        k += 1;
    }
    proof {
        assert(all_nodes_keyed(trucks@, distances@));
    }
    if bd > threshold {
        Ok(None)
    } else {
        Ok(Some(trucks[best]))
    }
}

/// The identifier `id` occurs among the listed nodes.
pub open spec fn node_listed(nodes: Seq<Node>, id: i32) -> bool {
    exists|i: int| 0 <= i < nodes.len() && (#[trigger] nodes[i]).id == id
}

/// The graph model after adding each listed node in order.
pub open spec fn with_nodes(g: GraphV, nodes: Seq<Node>) -> GraphV
    decreases nodes.len(),
{
    if nodes.len() == 0 {
        g
    } else {
        with_nodes(g, nodes.drop_last()).with_node(nodes.last())
    }
}

/// The graph model after registering each listed segment in order, both
/// directions each.
pub open spec fn with_edges(g: GraphV, edges: Seq<Edge>) -> GraphV
    decreases edges.len(),
{
    if edges.len() == 0 {
        g
    } else {
        with_edges(g, edges.drop_last()).with_edge(edges.last())
    }
}

/// The graph model that `dispatch` builds for one request.
pub open spec fn built(nodes: Seq<Node>, edges: Seq<Edge>) -> GraphV {
    with_edges(with_nodes(GraphV::empty(), nodes), edges)
}

/// Registering one half of a segment keeps the graph well-formed, as long as
/// both endpoints are nodes and the weight is non-negative.
proof fn lemma_with_half_edge_wf(g: GraphV, e: Edge)
    requires
        g.wf(),
        e.weight >= 0,
        g.nodes.contains_key(e.node_a_id),
        g.nodes.contains_key(e.node_b_id),
    ensures
        g.with_half_edge(e).wf(),
        g.with_half_edge(e).nodes == g.nodes,
{
    let g2 = g.with_half_edge(e);
    assert forall|k: i32, i: int|
        #![trigger g2.adj_of(k)[i]]
        0 <= i < g2.adj_of(k).len() implies {
        let e2 = g2.adj_of(k)[i];
        &&& e2.node_a_id == k
        &&& g2.nodes.contains_key(k)
        &&& g2.nodes.contains_key(e2.node_b_id)
        &&& e2.weight >= 0
    } by {
        if k == e.node_a_id {
            assert(g2.adj_of(k) == g.adj_of(k).push(e));
            if i < g.adj_of(k).len() {
                assert(g2.adj_of(k)[i] == g.adj_of(k)[i]);
            } else {
                assert(g2.adj_of(k)[i] == e);
            }
        } else {
            assert(g2.adj_of(k) == g.adj_of(k));
        }
    };
}

/// Registering a whole segment, both directions, keeps the graph
/// well-formed and its node set unchanged.
proof fn lemma_with_edge_wf(g: GraphV, e: Edge)
    requires
        g.wf(),
        e.weight >= 0,
        g.nodes.contains_key(e.node_a_id),
        g.nodes.contains_key(e.node_b_id),
    ensures
        g.with_edge(e).wf(),
        g.with_edge(e).nodes == g.nodes,
{
    lemma_with_half_edge_wf(g, e);
    lemma_with_half_edge_wf(g.with_half_edge(e), crate::graph::reversed(e));
}

/// The dispatch core for one order, after the caller has fetched the
/// area-scoped data: builds a fresh graph from the area's nodes and
/// segments, computes shortest distances from the order's origin node, and
/// applies the matching policy to the available vehicles of the area.
///
/// Every segment must carry a non-negative weight and connect listed nodes;
/// the result is then exactly the policy's verdict on the (unique) table of
/// shortest distances from the origin.
pub fn dispatch(
    order_node_id: i32,
    nodes: &Vec<Node>,
    edges: &Vec<Edge>,
    trucks: &Vec<TowTruck>,
    threshold: i32,
) -> (r: Result<Option<TowTruck>, DispatchError>)
    requires
        forall|i: int| 0 <= i < edges@.len() ==> {
            let e = #[trigger] edges@[i];
            &&& e.weight >= 0
            &&& node_listed(nodes@, e.node_a_id)
            &&& node_listed(nodes@, e.node_b_id)
        },
    ensures
        exists|m: Map<i32, i32>|
            #[trigger] is_dist_map(built(nodes@, edges@), order_node_id, m)
                && r == match_spec(trucks@, m, threshold),
        forall|m: Map<i32, i32>| #[trigger] is_dist_map(built(nodes@, edges@), order_node_id, m)
            ==> r == match_spec(trucks@, m, threshold),
{
    let mut graph = Graph::new();

    let mut i: usize = 0;
    while i < nodes.len()
        invariant
            i <= nodes@.len(),
            graph@ == with_nodes(GraphV::empty(), nodes@.take(i as int)),
            graph@.adj == GraphV::empty().adj,
            forall|id: i32| #[trigger] graph@.nodes.contains_key(id)
                <==> node_listed(nodes@.take(i as int), id),
        decreases nodes@.len() - i,
    {
        graph.add_node(nodes[i]);
        i += 1;
        proof {
            let pfx = nodes@.take(i as int);
            assert(pfx.drop_last() =~= nodes@.take(i as int - 1));
            assert(pfx.last() == nodes@[i as int - 1]);
            assert forall|id: i32| #[trigger] graph@.nodes.contains_key(id)
                implies node_listed(pfx, id) by {
                if id == nodes@[i as int - 1].id {
                    assert(pfx[i as int - 1].id == id);
                } else {
                    let j = choose|j: int|
                        0 <= j < nodes@.take(i as int - 1).len()
                            && (#[trigger] nodes@.take(i as int - 1)[j]).id == id;
                    assert(pfx[j].id == id);
                }
            };
            assert forall|id: i32| node_listed(pfx, id)
                implies #[trigger] graph@.nodes.contains_key(id) by {
                let j = choose|j: int| 0 <= j < pfx.len() && (#[trigger] pfx[j]).id == id;
                if j < i as int - 1 {
                    assert(nodes@.take(i as int - 1)[j].id == id);
                }
            };
        }
    }
    proof {
        assert(nodes@.take(nodes@.len() as int) =~= nodes@);
        assert(graph@.wf());
    }

    let mut j: usize = 0;
    while j < edges.len()
        invariant
            j <= edges@.len(),
            forall|i2: int| 0 <= i2 < edges@.len() ==> {
                let e = #[trigger] edges@[i2];
                &&& e.weight >= 0
                &&& node_listed(nodes@, e.node_a_id)
                &&& node_listed(nodes@, e.node_b_id)
            },
            graph@ == with_edges(with_nodes(GraphV::empty(), nodes@), edges@.take(j as int)),
            graph@.nodes == with_nodes(GraphV::empty(), nodes@).nodes,
            forall|id: i32| #[trigger] graph@.nodes.contains_key(id) <==> node_listed(nodes@, id),
            graph@.wf(),
        decreases edges@.len() - j,
    {
        let ghost before = graph@;
        let e = edges[j];
        graph.add_edge(e);
        j += 1;
        proof {
            let pfx = edges@.take(j as int);
            assert(pfx.drop_last() =~= edges@.take(j as int - 1));
            assert(pfx.last() == edges@[j as int - 1]);
            lemma_with_edge_wf(before, e);
        }
    }
    proof {
        assert(edges@.take(edges@.len() as int) =~= edges@);
        assert(graph@ == built(nodes@, edges@));
    }

    let distances = graph.dijkstra(order_node_id);
    let r = match_nearest(trucks, &distances, threshold);
    proof {
        assert forall|m: Map<i32, i32>| is_dist_map(built(nodes@, edges@), order_node_id, m)
            implies r == match_spec(trucks@, m, threshold) by {
            lemma_dist_map_unique(built(nodes@, edges@), order_node_id, m, distances@);
        };
    }
    r
}

} // verus!

