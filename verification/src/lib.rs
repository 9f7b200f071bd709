//! Hierarchical community-structure sampling on an undirected graph.
//!
//! Nodes carry bit-packed group masks; a multi-group model maintains
//! per-group rosters so that single-node moves and their undo run in
//! constant time, and a sampler keeps per-bucket edge and pair counters
//! from which the log-likelihood of the observed edge set follows in
//! closed form.

pub mod bits;
pub mod graph;
pub mod indexed_list;
pub mod multi_group_model;
pub mod sampler;
