//! Dispatch matching engine for a vehicle service: a weighted undirected
//! road-network graph per operating area, a verified single-source
//! shortest-distance solver over it, and the matching policy that selects
//! the nearest available vehicle for an order within a reachability
//! threshold.

pub mod dispatch;
pub mod graph;
pub mod orders;
