//! Dependencies between two vertices of one graph.

use vstd::prelude::*;

verus! {

/// A dependency: the destination needs what the source produces, so the
/// source is emitted first. The two ends are positions of vertices in the
/// graph that owns the edge. An edge never changes; the graph registers a
/// copy of it with each of its two ends.
#[derive(Debug, Clone, Copy, PartialEq, Eq, Structural)]
pub struct ThrillerEdge {
    src: usize,
    dst: usize,
}

impl View for ThrillerEdge {
    type V = (int, int);

    /// The pair of the source and the destination.
    closed spec fn view(&self) -> (int, int) {
        (self.src as int, self.dst as int)
    }
}

/// The pairs for which the edges of a sequence stand, in the same order.
pub open spec fn pairs(edges: Seq<ThrillerEdge>) -> Seq<(int, int)> {
    edges.map_values(|e: ThrillerEdge| e@)
}

/// The positions in a sequence, as mathematical integers.
pub open spec fn positions(indices: Seq<usize>) -> Seq<int> {
    indices.map_values(|i: usize| i as int)
}

impl ThrillerEdge {
    /// The edge from `src` to `dst`. It belongs to a graph only once the
    /// graph has registered it.
    pub fn new(src: usize, dst: usize) -> (edge: ThrillerEdge)
        ensures
            edge@ == (src as int, dst as int),
    {
        ThrillerEdge { src, dst }
    }

    /// The position of the vertex that the edge leaves.
    pub fn get_src(&self) -> (src: usize)
        ensures
            src == self@.0,
    {
        self.src
    }

    /// The position of the vertex that the edge enters.
    pub fn get_dst(&self) -> (dst: usize)
        ensures
            dst == self@.1,
    {
        self.dst
    }
}

} // verus!
