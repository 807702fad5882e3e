use std::collections::HashMap;

use tow_dispatch::dispatch::{
    dispatch, match_nearest, DispatchError, TowTruck, DEFAULT_DISPATCH_THRESHOLD,
};
use tow_dispatch::graph::{Edge, Graph, Node, UNREACHED};

fn node(id: i32) -> Node {
    Node { id, x: 0, y: 0 }
}

fn edge(a: i32, b: i32, weight: i32) -> Edge {
    Edge { node_a_id: a, node_b_id: b, weight }
}

fn truck(id: i32, node_id: i32) -> TowTruck {
    TowTruck { id, driver_id: 100 + id, node_id, area_id: 1 }
}

fn line_graph() -> Graph {
    // nodes {1,2,3}, segments (1,2,w=5) and (2,3,w=5)
    let mut g = Graph::new();
    g.add_node(node(1));
    g.add_node(node(2));
    g.add_node(node(3));
    g.add_edge(edge(1, 2, 5));
    g.add_edge(edge(2, 3, 5));
    g
}

#[test]
fn scenario_line_graph_distances() {
    let g = line_graph();
    let d = g.dijkstra(1);
    assert_eq!(d.len(), 3);
    assert_eq!(*d.get(&1).unwrap(), 0);
    assert_eq!(*d.get(&2).unwrap(), 5);
    assert_eq!(*d.get(&3).unwrap(), 10);
}

#[test]
fn scenario_match_within_threshold() {
    let g = line_graph();
    let d = g.dijkstra(1);
    let trucks = vec![truck(7, 3)];
    let r = match_nearest(&trucks, &d, 100);
    assert_eq!(r, Ok(Some(truck(7, 3))));
}

#[test]
fn scenario_no_match_beyond_threshold() {
    let g = line_graph();
    let d = g.dijkstra(1);
    let trucks = vec![truck(7, 3)];
    let r = match_nearest(&trucks, &d, 5);
    assert_eq!(r, Ok(None));
}

#[test]
fn scenario_no_vehicles_is_no_match() {
    let g = line_graph();
    let d = g.dijkstra(1);
    let trucks: Vec<TowTruck> = Vec::new();
    let r = match_nearest(&trucks, &d, 100);
    assert_eq!(r, Ok(None));
}

#[test]
fn scenario_unknown_vehicle_node_is_an_error() {
    let g = line_graph();
    let d = g.dijkstra(1);
    let trucks = vec![truck(7, 99)];
    let r = match_nearest(&trucks, &d, 100);
    assert_eq!(r, Err(DispatchError::InconsistentInput));
}

#[test]
fn unknown_node_error_wins_over_nearer_candidates() {
    let g = line_graph();
    let d = g.dijkstra(1);
    let trucks = vec![truck(1, 2), truck(2, 99)];
    let r = match_nearest(&trucks, &d, 100);
    assert_eq!(r, Err(DispatchError::InconsistentInput));
}

#[test]
fn threshold_boundary_is_inclusive() {
    // a candidate at exactly the threshold distance is still dispatched;
    // only a strictly greater distance is rejected
    let g = line_graph();
    let d = g.dijkstra(1);
    let trucks = vec![truck(7, 3)];
    assert_eq!(match_nearest(&trucks, &d, 10), Ok(Some(truck(7, 3))));
    assert_eq!(match_nearest(&trucks, &d, 9), Ok(None));
}

#[test]
fn tie_break_prefers_earlier_candidate() {
    let mut g = Graph::new();
    g.add_node(node(1));
    g.add_node(node(2));
    g.add_node(node(3));
    g.add_edge(edge(1, 2, 4));
    g.add_edge(edge(1, 3, 4));
    let d = g.dijkstra(1);
    let trucks = vec![truck(8, 3), truck(9, 2)];
    // both candidates are at distance 4; the first listed one wins
    assert_eq!(match_nearest(&trucks, &d, 100), Ok(Some(truck(8, 3))));
    let swapped = vec![truck(9, 2), truck(8, 3)];
    assert_eq!(match_nearest(&swapped, &d, 100), Ok(Some(truck(9, 2))));
}

#[test]
fn nearest_candidate_wins() {
    let g = line_graph();
    let d = g.dijkstra(1);
    let trucks = vec![truck(4, 3), truck(5, 2)];
    assert_eq!(match_nearest(&trucks, &d, 100), Ok(Some(truck(5, 2))));
}

#[test]
fn segments_are_traversable_both_ways() {
    let mut g = Graph::new();
    g.add_node(node(1));
    g.add_node(node(2));
    g.add_edge(edge(1, 2, 7));
    let from_a = g.dijkstra(1);
    let from_b = g.dijkstra(2);
    assert_eq!(*from_a.get(&2).unwrap(), 7);
    assert_eq!(*from_b.get(&1).unwrap(), 7);
}

#[test]
fn solver_is_deterministic_across_runs() {
    let g = line_graph();
    let first = g.dijkstra(1);
    let second = g.dijkstra(1);
    assert_eq!(first, second);
}

#[test]
fn unreachable_node_keeps_sentinel_distance() {
    let mut g = Graph::new();
    g.add_node(node(1));
    g.add_node(node(2));
    g.add_node(node(4));
    g.add_edge(edge(1, 2, 3));
    let d = g.dijkstra(1);
    assert_eq!(*d.get(&4).unwrap(), UNREACHED);
}

#[test]
fn start_outside_graph_is_only_itself() {
    let g = line_graph();
    let d = g.dijkstra(42);
    assert_eq!(*d.get(&42).unwrap(), 0);
    assert_eq!(*d.get(&1).unwrap(), UNREACHED);
}

#[test]
fn duplicate_node_identifier_last_write_wins() {
    let mut g = Graph::new();
    g.add_node(node(1));
    g.add_node(Node { id: 1, x: 9, y: 9 });
    let n = g.nodes.get(&1).unwrap();
    assert_eq!((n.x, n.y), (9, 9));
}

#[test]
fn distances_never_decrease_along_a_cheapest_walk() {
    let g = line_graph();
    let d = g.dijkstra(1);
    // the cheapest walk 1 -> 2 -> 3 visits distances 0, 5, 10
    assert!(*d.get(&1).unwrap() <= *d.get(&2).unwrap());
    assert!(*d.get(&2).unwrap() <= *d.get(&3).unwrap());
}

#[test]
fn dispatch_end_to_end_matches() {
    let nodes = vec![node(1), node(2), node(3)];
    let edges = vec![edge(1, 2, 5), edge(2, 3, 5)];
    let trucks = vec![truck(7, 3)];
    let r = dispatch(1, &nodes, &edges, &trucks, 100);
    assert_eq!(r, Ok(Some(truck(7, 3))));
    let r2 = dispatch(1, &nodes, &edges, &trucks, 5);
    assert_eq!(r2, Ok(None));
    let none = dispatch(1, &nodes, &edges, &Vec::<TowTruck>::new(), 100);
    assert_eq!(none, Ok(None));
}

#[test]
fn dispatch_reports_inconsistent_vehicle_node() {
    let nodes = vec![node(1), node(2), node(3)];
    let edges = vec![edge(1, 2, 5), edge(2, 3, 5)];
    let trucks = vec![truck(7, 99)];
    let r = dispatch(1, &nodes, &edges, &trucks, DEFAULT_DISPATCH_THRESHOLD);
    assert_eq!(r, Err(DispatchError::InconsistentInput));
}

#[test]
fn match_nearest_reads_given_table() {
    let mut d: HashMap<i32, i32> = HashMap::new();
    d.insert(10, 2);
    d.insert(20, 1);
    let trucks = vec![truck(1, 10), truck(2, 20)];
    assert_eq!(match_nearest(&trucks, &d, 100), Ok(Some(truck(2, 20))));
}
