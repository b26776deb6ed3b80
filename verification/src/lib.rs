//! A block model: a dense three-dimensional grid of optional payload
//! cells ("blocks"), each addressed by an integer grid index, together
//! with the spatial precedence queries (predecessors, successors and
//! same-layer adjacency) that downstream sequencing algorithms consume.

pub mod block;
pub mod block_model;
