//! The dataflow graph: edges, vertices, blocks and the order of emission.

pub mod block;
pub mod cycle;
pub mod edge;
pub mod graph;
pub mod laws;
pub mod node;
pub mod order;

pub use block::ThrillerBlock;
pub use edge::ThrillerEdge;
pub use graph::Graph;
pub use node::{NodeView, ThrillerNode, ThrillerNodeInner};
