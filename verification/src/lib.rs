//! The intermediate-representation core of a generator of SIMT kernel code.
//!
//! A program is a dataflow graph. Its vertices are operations that produce
//! code, named buffers, and nested blocks; its edges are dependencies. The
//! crate keeps the bookkeeping of such a graph consistent while it is built
//! and emits the code of its vertices in an order that respects every
//! dependency.

pub mod buffer;
pub mod dataflow;
pub mod error;
pub mod id;
pub mod sequences;
pub mod task;

pub use buffer::Buffer;
pub use dataflow::{Graph, NodeView, ThrillerBlock, ThrillerEdge, ThrillerNode, ThrillerNodeInner};
pub use error::{ErrorView, ThrillerError, ThrillerResult};
pub use id::IdAllocator;
pub use task::Task;
