//! An append-only annotated graph and scalar boundary helpers, the substrate
//! of a mass-spring cell simulation. Node identities are stable insertion
//! indices, adjacency is kept symmetric, and whole-graph updates are
//! synchronous: every node's new value is computed from the old snapshot.

pub mod ann_graph;
pub mod bounds;
