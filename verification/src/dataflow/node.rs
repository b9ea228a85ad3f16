//! The vertices of a dataflow graph.

use crate::buffer::Buffer;
use crate::dataflow::block::ThrillerBlock;
use crate::dataflow::edge::{pairs, positions, ThrillerEdge};
use crate::dataflow::graph::{source, target};
use crate::error::{emission_view, ErrorView, ThrillerError, ThrillerResult};
use crate::id::IdAllocator;
use crate::task::Task;
use std::rc::Rc;
use vstd::prelude::*;

verus! {

/// What a vertex holds: an operation, a buffer, or a block.
pub enum ThrillerNodeInner {
    /// An operation.
    Op(Box<dyn Task>),
    /// A buffer.
    Buffer(Rc<Buffer>),
    /// A subgraph block.
    Block(Rc<ThrillerBlock>),
}

/// The bookkeeping of a vertex as mathematical values.
pub struct NodeView {
    /// The identifier of the vertex.
    pub id: usize,
    /// The counter of the edges that enter the vertex.
    pub in_degrees: nat,
    /// The edges that enter the vertex, in the order of their creation.
    pub in_edges: Seq<(int, int)>,
    /// The edges that leave the vertex, in the order of their creation.
    pub out_edges: Seq<(int, int)>,
    /// The sources of the edges that enter the vertex.
    pub predecessors: Seq<int>,
    /// The destinations of the edges that leave the vertex.
    pub successors: Seq<int>,
}

impl NodeView {
    /// The bookkeeping of a vertex that no edge has reached yet.
    pub open spec fn fresh(id: usize) -> NodeView {
        NodeView {
            id,
            in_degrees: 0,
            in_edges: Seq::empty(),
            out_edges: Seq::empty(),
            predecessors: Seq::empty(),
            successors: Seq::empty(),
        }
    }

    /// The bookkeeping after one more edge, from `u`, has entered the vertex
    /// at position `v`.
    pub open spec fn with_in_edge(self, u: int, v: int) -> NodeView {
        NodeView {
            in_degrees: self.in_degrees + 1,
            in_edges: self.in_edges.push((u, v)),
            predecessors: self.predecessors.push(u),
            ..self
        }
    }

    /// The bookkeeping after one more edge, to `v`, has left the vertex at
    /// position `u`.
    pub open spec fn with_out_edge(self, u: int, v: int) -> NodeView {
        NodeView {
            out_edges: self.out_edges.push((u, v)),
            successors: self.successors.push(v),
            ..self
        }
    }

    /// Whether no edge is registered with the vertex.
    pub open spec fn is_isolated(self) -> bool {
        self == NodeView::fresh(self.id)
    }

    /// Whether the parts of the bookkeeping agree with each other: the
    /// counter is the number of the edges that enter the vertex, and the
    /// predecessors and successors are the far ends of its edges.
    pub open spec fn is_consistent(self) -> bool {
        &&& self.in_degrees == self.in_edges.len()
        &&& self.predecessors == self.in_edges.map_values(source())
        &&& self.successors == self.out_edges.map_values(target())
    }
}

/// A vertex of a dataflow graph. It holds an operation, a buffer or a block,
/// and the edges that the graph has registered with it.
pub struct ThrillerNode {
    inner: Box<ThrillerNodeInner>,
    in_edges: Vec<ThrillerEdge>,
    out_edges: Vec<ThrillerEdge>,
    predecessors: Vec<usize>,
    successors: Vec<usize>,
    id: usize,
    in_degrees: usize,
}

impl View for ThrillerNode {
    type V = NodeView;

    closed spec fn view(&self) -> NodeView {
        NodeView {
            id: self.id,
            in_degrees: self.in_degrees as nat,
            in_edges: pairs(self.in_edges@),
            out_edges: pairs(self.out_edges@),
            predecessors: positions(self.predecessors@),
            successors: positions(self.successors@),
        }
    }
}

impl ThrillerNode {
    /// What the vertex holds.
    pub closed spec fn inner(&self) -> ThrillerNodeInner {
        *self.inner
    }

    /// The name that `get_name` yields: that of the buffer, where the vertex
    /// holds one.
    pub open spec fn name(&self) -> Result<Seq<char>, ErrorView> {
        match self.inner() {
            ThrillerNodeInner::Buffer(buffer) => Ok(buffer@),
            _ => Err(ErrorView::TypeMismatch),
        }
    }

    /// Whether `r` can be what the emission of the vertex yields. Of an
    /// operation nothing is known. A buffer has no code. A block yields what
    /// a pass over its interior yields.
    pub open spec fn may_emit(&self, r: Result<Seq<char>, ErrorView>) -> bool
        decreases self, 0int, 0int,
    {
        match self.inner() {
            ThrillerNodeInner::Op(_) => true,
            ThrillerNodeInner::Buffer(_) => r == Err::<Seq<char>, ErrorView>(
                ErrorView::TypeMismatch,
            ),
            ThrillerNodeInner::Block(block) => block.may_emit(r),
        }
    }

    /// Whether `r` can be what a pass over the graph that owns the vertex
    /// takes from it: no code where it holds a buffer, else what its
    /// emission yields.
    pub open spec fn may_add(&self, r: Result<Seq<char>, ErrorView>) -> bool
        decreases self, 1int, 0int,
    {
        match self.inner() {
            ThrillerNodeInner::Buffer(_) => r == Ok::<Seq<char>, ErrorView>(Seq::empty()),
            _ => self.may_emit(r),
        }
    }

    /// Whether the block that the vertex holds, if it holds one, is sound.
    pub open spec fn holds_sound_block(&self) -> bool
        decreases self, 0int, 0int,
    {
        match self.inner() {
            ThrillerNodeInner::Block(block) => block.wf(),
            _ => true,
        }
    }

    /// Whether no graph inside the vertex, at any depth, has a cycle.
    pub open spec fn is_acyclic(&self) -> bool
        decreases self, 0int, 0int,
    {
        match self.inner() {
            ThrillerNodeInner::Block(block) => block.is_acyclic(),
            _ => true,
        }
    }

    /// Whether the two vertices were built alike: both hold an operation,
    /// or both a buffer, or both a block, and the blocks were built alike.
    /// Their ids and their edges play no part.
    pub open spec fn built_like(&self, other: &ThrillerNode) -> bool
        decreases self, 0int, 0int,
    {
        match (self.inner(), other.inner()) {
            (ThrillerNodeInner::Op(_), ThrillerNodeInner::Op(_)) => true,
            (ThrillerNodeInner::Buffer(_), ThrillerNodeInner::Buffer(_)) => true,
            (ThrillerNodeInner::Block(block), ThrillerNodeInner::Block(like)) => block.built_like(
                &*like,
            ),
            _ => false,
        }
    }

    /// What a vertex holds is a smaller value than the vertex: what is
    /// defined or proved of vertices by going inwards comes to an end.
    pub proof fn lemma_inner_is_smaller(&self)
        ensures
            decreases_to!(self => self.inner()),
    {
    }

    /// Brings the fact that the block inside the vertex is sound, as every
    /// block is. Nothing happens when this runs.
    pub(crate) fn inner_is_sound(&self)
        ensures
            self.holds_sound_block(),
    {
        match &*self.inner {
            ThrillerNodeInner::Block(block) => {
                proof {
                    use_type_invariant(&**block);
                }
            },
            _ => {},
        }
    }

    /// Create a new `ThrillerNode` with the given inner type. No edge is
    /// registered with it, and its id is the next one of `ids`.
    pub fn new(inner: ThrillerNodeInner, ids: &mut IdAllocator) -> (node: ThrillerNode)
        requires
            old(ids)@ < usize::MAX,
        ensures
            node.inner() == inner,
            node@ == NodeView::fresh(old(ids)@ as usize),
            node.holds_sound_block(),
            final(ids)@ == old(ids)@ + 1,
    {
        let node = ThrillerNode {
            inner: Box::new(inner),
            in_edges: Vec::new(),
            out_edges: Vec::new(),
            predecessors: Vec::new(),
            successors: Vec::new(),
            id: ids.next_id(),
            in_degrees: 0,
        };
        assert(node@ =~= NodeView::fresh(node.id)) by {
            assert(node@.in_edges =~= Seq::empty());
            assert(node@.out_edges =~= Seq::empty());
            assert(node@.predecessors =~= Seq::empty());
            assert(node@.successors =~= Seq::empty());
        }
        node.inner_is_sound();
        node
    }

    /// The name of the buffer that the vertex holds. A vertex that holds
    /// anything else has no name.
    pub fn get_name(&self) -> (r: ThrillerResult<String>)
        ensures
            emission_view(r) == self.name(),
    {
        match &*self.inner {
            ThrillerNodeInner::Buffer(buffer) => Ok(buffer.get_name().clone()),
            _ => Err(ThrillerError::TypeMismatch),
        }
    }

    /// The identifier of the vertex.
    pub fn get_id(&self) -> (id: usize)
        ensures
            id == self@.id,
    {
        self.id
    }

    /// The counter of the edges that enter the vertex.
    pub fn get_in_degrees(&self) -> (n: usize)
        ensures
            n == self@.in_degrees,
    {
        self.in_degrees
    }

    /// The positions of the vertices that depend on this one, one entry for
    /// each edge that leaves it.
    pub fn get_successors(&self) -> (r: &Vec<usize>)
        ensures
            positions(r@) == self@.successors,
    {
        &self.successors
    }

    /// The positions of the vertices on which this one depends, one entry
    /// for each edge that enters it.
    pub fn get_predecessors(&self) -> (r: &Vec<usize>)
        ensures
            positions(r@) == self@.predecessors,
    {
        &self.predecessors
    }

    /// The edges that enter the vertex.
    pub fn get_in_edges(&self) -> (r: &Vec<ThrillerEdge>)
        ensures
            pairs(r@) == self@.in_edges,
    {
        &self.in_edges
    }

    /// The edges that leave the vertex.
    pub fn get_out_edges(&self) -> (r: &Vec<ThrillerEdge>)
        ensures
            pairs(r@) == self@.out_edges,
    {
        &self.out_edges
    }

    /// What the vertex holds.
    pub fn get_inner(&self) -> (r: &ThrillerNodeInner)
        ensures
            *r == self.inner(),
    {
        &self.inner
    }

    /// Whether no edge is registered with the vertex.
    pub fn is_isolated(&self) -> (r: bool)
        ensures
            r == self@.is_isolated(),
    {
        let r = self.in_degrees == 0 && self.in_edges.len() == 0 && self.out_edges.len() == 0
            && self.predecessors.len() == 0 && self.successors.len() == 0;
        proof {
            if r {
                assert(self@.in_edges =~= Seq::empty());
                assert(self@.out_edges =~= Seq::empty());
                assert(self@.predecessors =~= Seq::empty());
                assert(self@.successors =~= Seq::empty());
            } else {
                assert(self@.in_edges.len() == self.in_edges@.len());
                assert(self@.out_edges.len() == self.out_edges@.len());
                assert(self@.predecessors.len() == self.predecessors@.len());
                assert(self@.successors.len() == self.successors@.len());
            }
        }
        r
    }

    /// Registers an edge that enters the vertex.
    pub(crate) fn push_in_edge(&mut self, edge: ThrillerEdge)
        requires
            old(self)@.in_degrees == old(self)@.in_edges.len(),
        ensures
            final(self)@ == old(self)@.with_in_edge(edge@.0, edge@.1),
            final(self).inner() == old(self).inner(),
    {
        self.in_edges.push(edge);
        self.predecessors.push(edge.get_src());
        assert(self.in_edges.len() <= usize::MAX);
        self.in_degrees = self.in_degrees + 1;
        proof {
            assert(pairs(self.in_edges@) =~= pairs(old(self).in_edges@).push(edge@));
            assert(positions(self.predecessors@) =~= positions(old(self).predecessors@).push(
                edge@.0,
            ));
        }
    }

    /// Registers an edge that leaves the vertex.
    pub(crate) fn push_out_edge(&mut self, edge: ThrillerEdge)
        ensures
            final(self)@ == old(self)@.with_out_edge(edge@.0, edge@.1),
            final(self).inner() == old(self).inner(),
    {
        self.out_edges.push(edge);
        self.successors.push(edge.get_dst());
        proof {
            assert(pairs(self.out_edges@) =~= pairs(old(self).out_edges@).push(edge@));
            assert(positions(self.successors@) =~= positions(old(self).successors@).push(
                edge@.1,
            ));
        }
    }
}

impl Task for ThrillerNode {
    /// Emits the code of the vertex: what its operation returns, as it is,
    /// or what a pass over its block returns. A buffer cannot be emitted.
    fn emit(&self) -> (r: ThrillerResult<String>)
        ensures
            self.may_emit(emission_view(r)),
            self.inner() is Buffer ==> emission_view(r) == Err::<Seq<char>, ErrorView>(
                ErrorView::TypeMismatch,
            ),
            r is Ok ==> self.is_acyclic(),
        decreases self, 0int,
    {
        match &*self.inner {
            ThrillerNodeInner::Op(task) => task.emit(),
            ThrillerNodeInner::Buffer(_) => Err(ThrillerError::TypeMismatch),
            ThrillerNodeInner::Block(block) => block.emit(),
        }
    }
}

} // verus!
