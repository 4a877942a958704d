//! Per-node neighbourhood-size estimation over an undirected graph.
//!
//! Every node carries a fixed-size probabilistic cardinality sketch
//! ([`HyperLogLog`]).  The [`Engine`] seeds each node's sketch with the node
//! itself and then repeatedly merges each sketch with its neighbours'
//! sketches from the previous round, until no sketch changes any more.
//! Registers only ever grow, so that fixed point exists and the iteration
//! provably terminates; the registers of the sketch of node `n` after round
//! `t` describe (approximately) the set of nodes reachable from `n` within
//! `t` hops.

pub mod engine;
pub mod graph;
pub mod hashing;
pub mod hyperloglog;
pub mod node;

pub use engine::Engine;
pub use graph::Graph;
pub use hyperloglog::HyperLogLog;
pub use node::NodeId;
