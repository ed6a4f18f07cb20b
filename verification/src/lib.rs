//! A small generic graph: an adjacency relation over caller-chosen node keys,
//! and the enumeration of every simple path between two nodes.

pub mod graph;
pub mod keys;
pub mod paths;
pub mod relation;
