//! The dependency graph as a mathematical object, and the order in which an
//! emission pass reaches its vertices.

use vstd::prelude::*;

verus! {

/// A directed graph on the vertices `0 .. size`, numbered in the order of
/// their insertion. `edges` lists the edges, as pairs of a source and a
/// destination, in the order of their creation. An edge may occur more than
/// once, and a vertex may have an edge to itself.
pub struct Graph {
    pub size: nat,
    pub edges: Seq<(int, int)>,
}

/// Holds of the edges that leave `u`.
pub open spec fn leaves(u: int) -> spec_fn((int, int)) -> bool {
    |e: (int, int)| e.0 == u
}

/// Holds of the edges that enter `v`.
pub open spec fn enters(v: int) -> spec_fn((int, int)) -> bool {
    |e: (int, int)| e.1 == v
}

/// Holds of the edges from `u` to `v`.
pub open spec fn links(u: int, v: int) -> spec_fn((int, int)) -> bool {
    |e: (int, int)| e.0 == u && e.1 == v
}

/// Holds of the edges that enter `v` from a vertex outside `done`: the
/// dependencies that `v` still waits for once `done` has been emitted.
pub open spec fn waits(done: Seq<int>, v: int) -> spec_fn((int, int)) -> bool {
    |e: (int, int)| e.1 == v && !done.contains(e.0)
}

/// Holds of `v` alone.
pub open spec fn same(v: int) -> spec_fn(int) -> bool {
    |x: int| x == v
}

/// Holds of the vertices that `order` does not hold.
pub open spec fn outside(order: Seq<int>) -> spec_fn(int) -> bool {
    |v: int| !order.contains(v)
}

/// The numbers below `n`, in ascending order.
pub open spec fn upto(n: nat) -> Seq<int> {
    Seq::new(n, |v: int| v)
}

/// The source of an edge.
pub open spec fn source() -> spec_fn((int, int)) -> int {
    |e: (int, int)| e.0
}

/// The destination of an edge.
pub open spec fn target() -> spec_fn((int, int)) -> int {
    |e: (int, int)| e.1
}

impl Graph {
    /// Every edge joins two vertices of the graph.
    pub open spec fn wf(self) -> bool {
        forall|k: int|
            0 <= k < self.edges.len() ==> 0 <= (#[trigger] self.edges[k]).0 < self.size && 0
                <= self.edges[k].1 < self.size
    }

    /// The graph with one more vertex and the same edges.
    pub open spec fn with_vertex(self) -> Graph {
        Graph { size: self.size + 1, edges: self.edges }
    }

    /// The graph with one more edge, from `u` to `v`, created last.
    pub open spec fn with_edge(self, u: int, v: int) -> Graph {
        Graph { size: self.size, edges: self.edges.push((u, v)) }
    }

    /// Whether there is an edge from `u` to `v`.
    pub open spec fn has_edge(self, u: int, v: int) -> bool {
        self.edges.contains((u, v))
    }

    /// The edges that enter `v`, in the order of their creation.
    pub open spec fn in_edges(self, v: int) -> Seq<(int, int)> {
        self.edges.filter(enters(v))
    }

    /// The edges that leave `u`, in the order of their creation.
    pub open spec fn out_edges(self, u: int) -> Seq<(int, int)> {
        self.edges.filter(leaves(u))
    }

    /// The sources of the edges that enter `v`, one for each edge.
    pub open spec fn predecessors(self, v: int) -> Seq<int> {
        self.in_edges(v).map_values(source())
    }

    /// The destinations of the edges that leave `u`, one for each edge.
    pub open spec fn successors(self, u: int) -> Seq<int> {
        self.out_edges(u).map_values(target())
    }

    /// The number of edges that enter `v`.
    pub open spec fn in_degree(self, v: int) -> nat {
        self.in_edges(v).len()
    }

    /// The in-degree that is left of `v` once the vertices in `done` have
    /// been emitted: the number of edges that enter `v` from outside `done`.
    pub open spec fn pending(self, done: Seq<int>, v: int) -> nat {
        self.edges.filter(waits(done, v)).len()
    }

    /// Whether `v` can be emitted next after `done`: it is a vertex, it has
    /// not been emitted, and nothing that it depends on is left.
    pub open spec fn ready(self, done: Seq<int>, v: int) -> bool {
        &&& 0 <= v < self.size
        &&& !done.contains(v)
        &&& self.pending(done, v) == 0
    }

    /// Whether some vertex can be emitted after `done`.
    pub open spec fn some_ready(self, done: Seq<int>) -> bool {
        exists|v: int| self.ready(done, v)
    }

    /// The vertex that is emitted after `done`: among those that are ready,
    /// the one that was inserted first.
    pub open spec fn first_ready(self, done: Seq<int>) -> int {
        choose|v: int| self.ready(done, v) && forall|w: int| self.ready(done, w) ==> v <= w
    }

    /// The vertices that a pass has emitted when it stops, given that it has
    /// emitted `done` so far. A pass stops when no vertex is ready; it never
    /// holds more vertices than the graph has.
    pub open spec fn order_from(self, done: Seq<int>) -> Seq<int>
        decreases self.size - done.len(),
    {
        if done.len() < self.size && self.some_ready(done) {
            self.order_from(done.push(self.first_ready(done)))
        } else {
            done
        }
    }

    /// The vertices that an emission pass reaches, in the order in which it
    /// emits them.
    pub open spec fn order(self) -> Seq<int> {
        self.order_from(Seq::empty())
    }

    /// The vertices that `order` does not hold, in the order of their
    /// insertion.
    pub open spec fn left(self, order: Seq<int>) -> Seq<int> {
        upto(self.size).filter(outside(order))
    }

    /// Whether `done` can be the beginning of a pass: each of its vertices
    /// was ready when its turn came.
    pub open spec fn is_pass_prefix(self, done: Seq<int>) -> bool {
        forall|i: int| 0 <= i < done.len() ==> self.ready(done.take(i), #[trigger] done[i])
    }

    /// Whether `order` emits the source of every edge before the destination.
    pub open spec fn respects_edges(self, order: Seq<int>) -> bool {
        forall|i: int, k: int|
            0 <= i < order.len() && 0 <= k < self.edges.len() && (#[trigger] self.edges[k]).1
                == #[trigger] order[i] ==> order.take(i).contains(self.edges[k].0)
    }

    /// Whether `order` holds every vertex of the graph exactly once.
    pub open spec fn holds_each_once(self, order: Seq<int>) -> bool {
        &&& order.len() == self.size
        &&& order.no_duplicates()
        &&& forall|v: int| 0 <= v < self.size ==> order.contains(v)
    }

    /// Whether `walk` is a cycle: a walk along edges that ends where it
    /// began. A vertex with an edge to itself is a cycle of two entries.
    pub open spec fn is_cycle(self, walk: Seq<int>) -> bool {
        &&& walk.len() >= 2
        &&& walk.first() == walk.last()
        &&& forall|i: int|
            0 <= i < walk.len() - 1 ==> self.has_edge(#[trigger] walk[i], walk[i + 1])
    }

    /// Whether the graph has a cycle.
    pub open spec fn has_cycle(self) -> bool {
        exists|walk: Seq<int>| self.is_cycle(walk)
    }
}

} // verus!
