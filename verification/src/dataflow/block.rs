//! Blocks: named graphs of vertices that can stand as one vertex of an
//! enclosing graph.

use crate::dataflow::edge::{pairs, positions, ThrillerEdge};
use crate::dataflow::graph::{enters, leaves, outside, same, source, target, upto, Graph};
use crate::dataflow::node::{NodeView, ThrillerNode, ThrillerNodeInner};
use crate::error::{
    attribute, attributed, emission_view, emission_views, ErrorView, ThrillerError, ThrillerResult,
};
use crate::sequences::{
    lemma_filter_empty, lemma_filter_none, lemma_filter_push, lemma_filter_take,
};
use crate::task::Task;
use vstd::prelude::*;

verus! {

/// A named graph. It owns its vertices, in the order of their insertion, and
/// the edges among them, in the order of their creation.
pub struct ThrillerBlock {
    name: String,
    nodes: Vec<ThrillerNode>,
    edges: Vec<ThrillerEdge>,
}

impl NodeView {
    /// Whether the bookkeeping is that of the vertex at position `v` of `g`.
    pub open spec fn is_vertex_of(self, g: Graph, v: int) -> bool {
        &&& self.in_degrees == g.in_degree(v)
        &&& self.in_edges == g.in_edges(v)
        &&& self.out_edges == g.out_edges(v)
        &&& self.predecessors == g.predecessors(v)
        &&& self.successors == g.successors(v)
    }

    /// The bookkeeping of the vertex at position `v` after an edge from
    /// `src` to `dst` has been created.
    pub open spec fn linked(self, v: int, src: int, dst: int) -> NodeView {
        let left = if v == src {
            self.with_out_edge(src, dst)
        } else {
            self
        };
        if v == dst {
            left.with_in_edge(src, dst)
        } else {
            left
        }
    }
}

/// Whether each of `nodes` holds exactly the edges among `edges` that touch
/// its position, and every edge joins two positions of `nodes`.
#[verifier::opaque]
pub open spec fn sound(nodes: Seq<ThrillerNode>, edges: Seq<(int, int)>) -> bool {
    let g = Graph { size: nodes.len(), edges };
    &&& g.wf()
    &&& forall|v: int| 0 <= v < nodes.len() ==> (#[trigger] nodes[v])@.is_vertex_of(g, v)
}

/// The ids of `nodes` by position.
pub open spec fn id_at(nodes: Seq<ThrillerNode>) -> spec_fn(int) -> usize {
    |v: int| nodes[v]@.id
}

impl ThrillerBlock {
    /// The name of the block.
    pub closed spec fn name(&self) -> Seq<char> {
        self.name@
    }

    /// The vertices of the block, in the order of their insertion.
    pub closed spec fn nodes(&self) -> Seq<ThrillerNode> {
        self.nodes@
    }

    /// The edges of the block, in the order of their creation.
    pub closed spec fn edges(&self) -> Seq<(int, int)> {
        pairs(self.edges@)
    }

    /// The dependency graph of the block.
    pub open spec fn graph(&self) -> Graph {
        Graph { size: self.nodes().len(), edges: self.edges() }
    }

    /// Whether the bookkeeping of the block is sound: every edge joins two
    /// vertices of the block, each vertex holds exactly the edges of the
    /// block that touch it, and the same is true of every block inside a
    /// vertex. Every block has this property at every moment.
    #[verifier::type_invariant]
    pub open spec fn wf(&self) -> bool
        decreases self, 1int, 0int,
    {
        &&& sound(self.nodes(), self.edges())
        &&& forall|v: int|
            0 <= v < self.nodes().len() ==> (#[trigger] self.nodes()[v]).holds_sound_block()
    }

    /// Whether neither the graph of the block nor a graph inside one of its
    /// vertices, at any depth, has a cycle.
    pub open spec fn is_acyclic(&self) -> bool
        decreases self, 1int, 0int,
    {
        &&& !self.graph().has_cycle()
        &&& forall|v: int| 0 <= v < self.nodes().len() ==> (#[trigger] self.nodes()[v]).is_acyclic()
    }

    /// Whether the two blocks were built alike: they have as many vertices,
    /// the same edges created in the same order, and vertices that were
    /// built alike, position by position. Names and ids play no part.
    pub open spec fn built_like(&self, other: &ThrillerBlock) -> bool
        decreases self, 1int, 0int,
    {
        &&& self.graph() == other.graph()
        &&& forall|v: int|
            0 <= v < self.nodes().len() ==> (#[trigger] self.nodes()[v]).built_like(
                &other.nodes()[v],
            )
    }

    /// The ids of the vertices that `order` does not hold, in the order of
    /// their insertion.
    pub open spec fn stuck(&self, order: Seq<int>) -> Seq<usize> {
        self.graph().left(order).map_values(id_at(self.nodes()))
    }

    /// The text of a pass after it has taken the first `k` of `fragments`,
    /// or the first failure among them together with the id of its vertex.
    /// The fragment at position `i` is what the emission of the vertex at
    /// position `i` of the order has yielded.
    pub open spec fn text_upto(
        &self,
        fragments: Seq<Result<Seq<char>, ErrorView>>,
        k: int,
    ) -> Result<Seq<char>, ErrorView>
        decreases k,
    {
        if k <= 0 {
            Ok(Seq::empty())
        } else {
            match self.text_upto(fragments, k - 1) {
                Err(e) => Err(e),
                Ok(text) => match attributed(
                    id_at(self.nodes())(self.graph().order()[k - 1]),
                    fragments[k - 1],
                ) {
                    Err(e) => Err(e),
                    Ok(code) => Ok(text + code),
                },
            }
        }
    }

    /// The number of fragments that a pass takes: one for each vertex of the
    /// order, as far as there are fragments.
    pub open spec fn taken(&self, fragments: Seq<Result<Seq<char>, ErrorView>>) -> int {
        if fragments.len() <= self.graph().order().len() {
            fragments.len() as int
        } else {
            self.graph().order().len() as int
        }
    }

    /// What a pass over the block yields when the emissions of its vertices,
    /// in the order of the pass, yield `fragments`. The pass joins the code.
    /// It ends with the first failure, which it reports with the id of the
    /// vertex. Where no vertex fails and the order does not hold every
    /// vertex, the graph has a cycle, and the pass fails with the ids of the
    /// vertices that are left.
    pub open spec fn joined(&self, fragments: Seq<Result<Seq<char>, ErrorView>>) -> Result<
        Seq<char>,
        ErrorView,
    > {
        match self.text_upto(fragments, self.taken(fragments)) {
            Err(e) => Err(e),
            Ok(text) => if self.graph().order().len() < self.nodes().len() {
                Err(ErrorView::CycleDetected(self.stuck(self.graph().order())))
            } else {
                Ok(text)
            },
        }
    }

    /// Whether `fragments` can be what a pass over the block takes from its
    /// vertices: one fragment for each vertex of the order, up to the first
    /// failure, and each fragment one that its vertex can yield.
    pub open spec fn admits(&self, fragments: Seq<Result<Seq<char>, ErrorView>>) -> bool
        decreases self, 1int, 0int,
    {
        let order = self.graph().order();
        &&& fragments.len() <= order.len()
        &&& forall|i: int|
            0 <= i < fragments.len() && 0 <= order[i] < self.nodes().len()
                ==> self.nodes()[order[i]].may_add(#[trigger] fragments[i])
        &&& forall|i: int| 0 <= i < fragments.len() - 1 ==> (#[trigger] fragments[i]) is Ok
        &&& fragments.len() == order.len() || (fragments.len() > 0 && fragments.last() is Err)
    }

    /// Whether `r` can be what a pass over the block yields: what some
    /// fragments that the block admits are joined to.
    pub open spec fn may_emit(&self, r: Result<Seq<char>, ErrorView>) -> bool
        decreases self, 2int, 0int,
    {
        exists|fragments: Seq<Result<Seq<char>, ErrorView>>|
            self.admits(fragments) && r == self.joined(fragments)
    }

    /// What one more fragment does to the text of a pass.
    pub proof fn lemma_text_step(&self, fragments: Seq<Result<Seq<char>, ErrorView>>, k: int)
        requires
            0 <= k,
        ensures
            self.text_upto(fragments, k + 1) == match self.text_upto(fragments, k) {
                Err(e) => Err(e),
                Ok(text) => match attributed(
                    id_at(self.nodes())(self.graph().order()[k]),
                    fragments[k],
                ) {
                    Err(e) => Err(e),
                    Ok(code) => Ok(text + code),
                },
            },
    {
    }

    /// A vertex of a block is a smaller value than the block: what is
    /// defined or proved of blocks by going inwards comes to an end.
    pub proof fn lemma_vertex_is_smaller(&self, v: int)
        requires
            0 <= v < self.nodes().len(),
        ensures
            decreases_to!(self => self.nodes()[v]),
    {
    }

    /// In a sound block every edge joins two vertices of the block.
    pub proof fn lemma_graph_wf(&self)
        requires
            self.wf(),
        ensures
            self.graph().wf(),
    {
        reveal(sound);
    }

    /// In a sound block the bookkeeping of each vertex is that of its
    /// position in the graph.
    pub proof fn lemma_vertex(&self, v: int)
        requires
            self.wf(),
            0 <= v < self.nodes().len(),
        ensures
            self.nodes()[v]@.is_vertex_of(self.graph(), v),
    {
        reveal(sound);
    }

    /// A failure ends the pass: what follows does not change it.
    pub proof fn lemma_failure_stays(
        &self,
        fragments: Seq<Result<Seq<char>, ErrorView>>,
        k: int,
        m: int,
    )
        requires
            0 <= k <= m,
            self.text_upto(fragments, k) is Err,
        ensures
            self.text_upto(fragments, m) == self.text_upto(fragments, k),
        decreases m - k,
    {
        if k < m {
            self.lemma_failure_stays(fragments, k, m - 1);
        }
    }

    /// A block without vertices.
    pub fn new(name: String) -> (block: ThrillerBlock)
        ensures
            block.name() == name@,
            block.nodes() == Seq::<ThrillerNode>::empty(),
            block.edges() == Seq::<(int, int)>::empty(),
            block.wf(),
    {
        proof {
            reveal(sound);
            assert(pairs(Seq::<ThrillerEdge>::empty()) =~= Seq::empty());
        }
        let block = ThrillerBlock { name, nodes: Vec::new(), edges: Vec::new() };
        assert(block.edges() =~= Seq::empty());
        block
    }

    /// The name of the block.
    pub fn get_name(&self) -> (name: &String)
        ensures
            name@ == self.name(),
    {
        &self.name
    }

    /// The vertices of the block, in the order of their insertion.
    pub fn get_nodes(&self) -> (nodes: &Vec<ThrillerNode>)
        ensures
            nodes@ == self.nodes(),
    {
        &self.nodes
    }

    /// The edges of the block, in the order of their creation.
    pub fn get_edges(&self) -> (edges: &Vec<ThrillerEdge>)
        ensures
            pairs(edges@) == self.edges(),
    {
        &self.edges
    }

    /// Moves the block out and leaves an empty one in its place, so that the
    /// parts can be changed one by one while `self` is sound at every moment.
    fn take(&mut self) -> (taken: ThrillerBlock)
        ensures
            taken == *old(self),
    {
        proof {
            reveal(sound);
            assert(pairs(Seq::<ThrillerEdge>::empty()) =~= Seq::empty());
        }
        let mut taken = ThrillerBlock { name: String::new(), nodes: Vec::new(), edges: Vec::new() };
        core::mem::swap(self, &mut taken);
        taken
    }

    /// Inserts a vertex and returns its position. A vertex that already
    /// carries edges refers to vertices that the block does not know: it is
    /// refused, and the block stays as it is.
    pub fn add_node(&mut self, node: ThrillerNode) -> (r: ThrillerResult<usize>)
        ensures
            final(self).wf(),
            node@.is_isolated() ==> {
                &&& r matches Ok(position)
                &&& position == old(self).nodes().len()
                &&& final(self).nodes() == old(self).nodes().push(node)
                &&& final(self).edges() == old(self).edges()
                &&& final(self).name() == old(self).name()
                &&& final(self).graph() == old(self).graph().with_vertex()
            },
            !node@.is_isolated() ==> {
                &&& r matches Err(e)
                &&& e@ == ErrorView::InvalidReference
                &&& *final(self) == *old(self)
            },
    {
        proof {
            use_type_invariant(&*self);
        }
        if !node.is_isolated() {
            return Err(ThrillerError::InvalidReference);
        }
        let position: usize = self.nodes.len();
        proof {
            reveal(sound);
            let g = self.graph();
            let grown = Graph { size: g.size + 1, edges: g.edges };
            lemma_filter_none(g.edges, enters(position as int));
            lemma_filter_none(g.edges, leaves(position as int));
            assert(grown.in_edges(position as int) =~= Seq::empty());
            assert(grown.out_edges(position as int) =~= Seq::empty());
            assert(grown.predecessors(position as int) =~= Seq::empty());
            assert(grown.successors(position as int) =~= Seq::empty());
            assert(sound(self.nodes@.push(node), g.edges));
        }
        node.inner_is_sound();
        let ThrillerBlock { name, mut nodes, edges } = self.take();
        nodes.push(node);
        *self = ThrillerBlock { name, nodes, edges };
        Ok(position)
    }

    /// Registers the edge from `src` to `dst` with both of its ends and with
    /// the list of edges.
    fn link(nodes: &mut Vec<ThrillerNode>, edges: &mut Vec<ThrillerEdge>, src: usize, dst: usize) -> (edge:
        ThrillerEdge)
        requires
            sound(old(nodes)@, pairs(old(edges)@)),
            src < old(nodes)@.len(),
            dst < old(nodes)@.len(),
        ensures
            edge@ == (src as int, dst as int),
            sound(final(nodes)@, pairs(final(edges)@)),
            pairs(final(edges)@) == pairs(old(edges)@).push((src as int, dst as int)),
            final(nodes)@.len() == old(nodes)@.len(),
            forall|v: int|
                0 <= v < old(nodes)@.len() ==> {
                    &&& (#[trigger] final(nodes)@[v]).inner() == old(nodes)@[v].inner()
                    &&& final(nodes)@[v]@ == old(nodes)@[v]@.linked(v, src as int, dst as int)
                },
    {
        proof {
            reveal(sound);
        }
        let edge = ThrillerEdge::new(src, dst);
        let ghost before = Graph { size: nodes@.len(), edges: pairs(edges@) };
        let ghost after = before.with_edge(src as int, dst as int);
        nodes[src].push_out_edge(edge);
        assert(nodes@[dst as int]@.in_degrees == nodes@[dst as int]@.in_edges.len()) by {
            assert(old(nodes)@[dst as int]@.is_vertex_of(before, dst as int));
        }
        nodes[dst].push_in_edge(edge);
        edges.push(edge);
        proof {
            assert(pairs(edges@) =~= pairs(old(edges)@).push(edge@));
            assert forall|k: int| 0 <= k < after.edges.len() implies 0 <= (
            #[trigger] after.edges[k]).0 < after.size && 0 <= after.edges[k].1 < after.size by {
                if k < before.edges.len() {
                    assert(after.edges[k] == before.edges[k]);
                }
            }
            assert forall|v: int| 0 <= v < nodes@.len() implies {
                &&& (#[trigger] nodes@[v]).inner() == old(nodes)@[v].inner()
                &&& nodes@[v]@ == old(nodes)@[v]@.linked(v, src as int, dst as int)
                &&& nodes@[v]@.is_vertex_of(after, v)
            } by {
                let was = old(nodes)@[v]@;
                assert(was.is_vertex_of(before, v));
                lemma_filter_push(before.edges, edge@, enters(v));
                lemma_filter_push(before.edges, edge@, leaves(v));
                if v == dst as int {
                    assert(before.in_edges(v).push(edge@).map_values(source())
                        =~= before.in_edges(v).map_values(source()).push(src as int));
                }
                if v == src as int {
                    assert(before.out_edges(v).push(edge@).map_values(target())
                        =~= before.out_edges(v).map_values(target()).push(dst as int));
                }
            }
        }
        edge
    }

    /// Creates the edge from the vertex at position `src` to the vertex at
    /// position `dst`: the destination depends on the source. The edge is
    /// registered with both ends, and the in-degree of the destination grows
    /// by one. Where one of the two positions is not a vertex of the block,
    /// nothing is created and the block stays as it is.
    pub fn add_edge(&mut self, src: usize, dst: usize) -> (r: ThrillerResult<ThrillerEdge>)
        ensures
            final(self).wf(),
            src < old(self).nodes().len() && dst < old(self).nodes().len() ==> {
                &&& r matches Ok(edge)
                &&& edge@ == (src as int, dst as int)
                &&& final(self).name() == old(self).name()
                &&& final(self).edges() == old(self).edges().push((src as int, dst as int))
                &&& final(self).graph() == old(self).graph().with_edge(src as int, dst as int)
                &&& final(self).nodes().len() == old(self).nodes().len()
                &&& forall|v: int|
                    0 <= v < old(self).nodes().len() ==> {
                        &&& (#[trigger] final(self).nodes()[v]).inner() == old(self).nodes()[v].inner()
                        &&& final(self).nodes()[v]@ == old(self).nodes()[v]@.linked(
                            v,
                            src as int,
                            dst as int,
                        )
                    }
            },
            !(src < old(self).nodes().len() && dst < old(self).nodes().len()) ==> {
                &&& r matches Err(e)
                &&& e@ == ErrorView::InvalidReference
                &&& *final(self) == *old(self)
            },
    {
        proof {
            use_type_invariant(&*self);
        }
        if src >= self.nodes.len() || dst >= self.nodes.len() {
            return Err(ThrillerError::InvalidReference);
        }
        let ThrillerBlock { name, mut nodes, mut edges } = self.take();
        let edge = Self::link(&mut nodes, &mut edges, src, dst);
        *self = ThrillerBlock { name, nodes, edges };
        Ok(edge)
    }
}

/// The first position whose vertex has not been emitted and waits for
/// nothing, or the number of positions where there is none.
fn find_ready(pending: &Vec<usize>, emitted: &Vec<bool>) -> (v: usize)
    requires
        pending@.len() == emitted@.len(),
    ensures
        v <= pending@.len(),
        v < pending@.len() ==> !emitted@[v as int] && pending@[v as int] == 0,
        forall|w: int| 0 <= w < v ==> emitted@[w] || pending@[w] != 0,
{
    let n: usize = pending.len();
    let mut v: usize = 0;
    while v < n && (emitted[v] || pending[v] != 0)
        invariant
            v <= n,
            n == pending@.len(),
            n == emitted@.len(),
            forall|w: int| 0 <= w < v ==> emitted@[w] || pending@[w] != 0,
        decreases n - v,
    {
        v = v + 1;
    }
    v
}

/// Takes from the counter of each position one for each time that it occurs
/// among `successors`.
fn release(pending: &mut Vec<usize>, successors: &Vec<usize>)
    requires
        forall|j: int| 0 <= j < successors@.len() ==> successors@[j] < old(pending)@.len(),
        forall|w: int|
            0 <= w < old(pending)@.len() ==> old(pending)@[w] >= positions(successors@).filter(
                same(w),
            ).len(),
    ensures
        final(pending)@.len() == old(pending)@.len(),
        forall|w: int|
            0 <= w < old(pending)@.len() ==> final(pending)@[w] == old(pending)@[w] - positions(
                successors@,
            ).filter(same(w)).len(),
{
    let ghost all = positions(successors@);
    let mut j: usize = 0;
    proof {
        assert(all.take(0) =~= Seq::empty());
        assert forall|w: int| 0 <= w < pending@.len() implies all.take(0).filter(same(w)).len()
            == 0 by {
            lemma_filter_empty(same(w));
        }
    }
    while j < successors.len()
        invariant
            j <= successors@.len(),
            all == positions(successors@),
            pending@.len() == old(pending)@.len(),
            forall|j: int| 0 <= j < successors@.len() ==> successors@[j] < pending@.len(),
            forall|w: int|
                0 <= w < pending@.len() ==> old(pending)@[w] >= all.filter(same(w)).len(),
            forall|w: int|
                0 <= w < pending@.len() ==> pending@[w] == old(pending)@[w] - all.take(
                    j as int,
                ).filter(same(w)).len(),
        decreases successors@.len() - j,
    {
        let s: usize = successors[j];
        proof {
            assert(all[j as int] == s as int);
            assert(all.take(j + 1) =~= all.take(j as int).push(s as int));
            assert forall|w: int| 0 <= w < pending@.len() implies all.take(j + 1).filter(
                same(w),
            ).len() == all.take(j as int).filter(same(w)).len() + if w == s {
                1int
            } else {
                0int
            } by {
                lemma_filter_push(all.take(j as int), s as int, same(w));
            }
            lemma_filter_take(all, j + 1, same(s as int));
        }
        pending.set(s, pending[s] - 1);
        j = j + 1;
    }
    proof {
        assert(all.take(j as int) =~= all);
    }
}

impl ThrillerBlock {
    /// Runs the scheduling of a pass: the order in which the vertices are
    /// reached, and for each vertex whether it was reached.
    fn schedule(&self) -> (r: (Vec<usize>, Vec<bool>))
        ensures
            positions(r.0@) == self.graph().order(),
            r.1@.len() == self.nodes().len(),
            forall|w: int|
                0 <= w < self.nodes().len() ==> #[trigger] r.1@[w] == self.graph().order().contains(
                    w,
                ),
    {
        proof {
            use_type_invariant(self);
            self.lemma_graph_wf();
        }
        let n: usize = self.nodes.len();
        let ghost g = self.graph();
        // The in-degree counters of the vertices are the starting point; the
        // pass counts down on a copy and leaves the vertices as they are.
        let mut pending: Vec<usize> = Vec::new();
        let mut emitted: Vec<bool> = Vec::new();
        let mut v: usize = 0;
        while v < n
            invariant
                n == self.nodes@.len(),
                v <= n,
                pending@.len() == v,
                emitted@.len() == v,
                self.wf(),
                g == self.graph(),
                forall|w: int| 0 <= w < v ==> #[trigger] pending@[w] == g.in_degree(w),
                forall|w: int| 0 <= w < v ==> !#[trigger] emitted@[w],
            decreases n - v,
        {
            proof {
                self.lemma_vertex(v as int);
            }
            pending.push(self.nodes[v].get_in_degrees());
            emitted.push(false);
            v = v + 1;
        }
        let mut order: Vec<usize> = Vec::new();
        let ghost mut done: Seq<int> = Seq::empty();
        let mut stuck: bool = false;
        proof {
            assert(positions(order@) =~= done);
            g.lemma_tracks_start(pending@, emitted@);
        }
        while !stuck && order.len() < n
            invariant
                n == self.nodes@.len(),
                self.wf(),
                g == self.graph(),
                order@.len() <= n,
                done == positions(order@),
                g.tracks(done, pending@, emitted@),
                pending@.len() == n,
                emitted@.len() == n,
                stuck ==> forall|w: int| 0 <= w < n ==> #[trigger] emitted@[w] || pending@[w] != 0,
            decreases n - order@.len() + if stuck { 0int } else { 1int },
        {
            let v: usize = find_ready(&pending, &emitted);
            if v == n {
                stuck = true;
            } else {
                let successors = self.nodes[v].get_successors();
                let ghost counters = pending@;
                proof {
                    self.lemma_graph_wf();
                    self.lemma_vertex(v as int);
                    g.lemma_tracks_found(done, pending@, emitted@, v as int);
                    assert forall|j: int| 0 <= j < successors@.len() implies successors@[j]
                        < pending@.len() by {
                        assert(positions(successors@)[j] == successors@[j] as int);
                    }
                }
                release(&mut pending, successors);
                proof {
                    g.lemma_tracks_step(done, counters, emitted@, v as int, pending@);
                }
                emitted.set(v, true);
                order.push(v);
                proof {
                    done = done.push(v as int);
                    assert(positions(order@) =~= done);
                }
            }
        }
        proof {
            g.lemma_tracks_end(done, pending@, emitted@);
        }
        (order, emitted)
    }

    /// The positions of the vertices that a pass reaches, in the order in
    /// which it emits them: always the first vertex, in the order of
    /// insertion, among those whose dependencies have all been emitted. The
    /// order holds every vertex exactly if the graph has no cycle.
    pub fn emission_order(&self) -> (order: Vec<usize>)
        ensures
            positions(order@) == self.graph().order(),
    {
        self.schedule().0
    }
}

impl ThrillerBlock {
    /// The ids of the vertices that a pass has not reached, given for each
    /// vertex whether the pass has reached it.
    fn left_ids(&self, reached: &Vec<bool>) -> (ids: Vec<usize>)
        requires
            reached@.len() == self.nodes().len(),
            forall|w: int|
                0 <= w < self.nodes().len() ==> #[trigger] reached@[w]
                    == self.graph().order().contains(w),
        ensures
            ids@ == self.stuck(self.graph().order()),
    {
        let n: usize = self.nodes.len();
        let ghost order = self.graph().order();
        let mut ids: Vec<usize> = Vec::new();
        let mut v: usize = 0;
        proof {
            assert(upto(0) =~= Seq::empty());
            lemma_filter_empty(outside(order));
            assert(Seq::<int>::empty().map_values(id_at(self.nodes())) =~= Seq::<usize>::empty());
        }
        while v < n
            invariant
                v <= n,
                n == self.nodes@.len(),
                reached@.len() == n,
                order == self.graph().order(),
                forall|w: int| 0 <= w < n ==> #[trigger] reached@[w] == order.contains(w),
                ids@ == upto(v as nat).filter(outside(order)).map_values(id_at(self.nodes())),
            decreases n - v,
        {
            proof {
                let before = upto(v as nat);
                assert(upto((v + 1) as nat) =~= before.push(v as int));
                lemma_filter_push(before, v as int, outside(order));
                assert(before.filter(outside(order)).push(v as int).map_values(
                    id_at(self.nodes()),
                ) =~= before.filter(outside(order)).map_values(id_at(self.nodes())).push(
                    self.nodes()[v as int]@.id,
                ));
            }
            if !reached[v] {
                ids.push(self.nodes[v].get_id());
            }
            v = v + 1;
        }
        ids
    }
}

impl ThrillerBlock {
    /// Joins `fragments` along `order`, which is the order of the graph.
    fn join_along(
        &self,
        order: &Vec<usize>,
        reached: &Vec<bool>,
        fragments: Vec<ThrillerResult<String>>,
    ) -> (r: ThrillerResult<String>)
        requires
            positions(order@) == self.graph().order(),
            reached@.len() == self.nodes().len(),
            forall|w: int|
                0 <= w < self.nodes().len() ==> #[trigger] reached@[w]
                    == self.graph().order().contains(w),
        ensures
            emission_view(r) == self.joined(emission_views(fragments@)),
    {
        let ghost given = emission_views(fragments@);
        let mut held = fragments;
        let n: usize = self.nodes.len();
        let taken: usize = if held.len() <= order.len() {
            held.len()
        } else {
            order.len()
        };
        proof {
            self.graph().lemma_order_is_pass();
            assert forall|i: int| 0 <= i < order@.len() implies #[trigger] order@[i] < n by {
                assert(positions(order@)[i] == order@[i] as int);
            }
        }
        let mut text = String::new();
        let mut k: usize = 0;
        while k < taken
            invariant
                k <= taken,
                taken <= order@.len(),
                taken == self.taken(given),
                given == emission_views(fragments@),
                held@ == fragments@,
                positions(order@) == self.graph().order(),
                n == self.nodes@.len(),
                forall|i: int| 0 <= i < order@.len() ==> #[trigger] order@[i] < n,
                self.text_upto(given, k as int) == Ok::<Seq<char>, ErrorView>(text@),
            decreases taken - k,
        {
            let v: usize = order[k];
            let failed: bool = match &held[k] {
                Ok(_) => false,
                Err(_) => true,
            };
            proof {
                assert(self.graph().order()[k as int] == v as int);
                assert(given[k as int] == emission_view(held@[k as int]));
                self.lemma_text_step(given, k as int);
            }
            if failed {
                let id: usize = self.nodes[v].get_id();
                let fragment = held.swap_remove(k);
                let r = attribute(id, fragment);
                proof {
                    assert(emission_view(fragment) == given[k as int]);
                    assert(id == id_at(self.nodes())(v as int));
                    assert(self.text_upto(given, k + 1) == emission_view(r));
                    self.lemma_failure_stays(given, k + 1, taken as int);
                }
                return r;
            }
            match &held[k] {
                Ok(code) => {
                    text.append(code.as_str());
                },
                Err(_) => {},
            }
            k = k + 1;
        }
        if order.len() < n {
            Err(ThrillerError::CycleDetected(self.left_ids(reached)))
        } else {
            Ok(text)
        }
    }

    /// Joins what the emissions of the vertices have yielded to the result
    /// of a pass. `fragments` holds the results in the order of the pass:
    /// the first one is that of the vertex that is emitted first. Fragments
    /// beyond the last vertex of the order are not read.
    pub fn join(&self, fragments: Vec<ThrillerResult<String>>) -> (r: ThrillerResult<String>)
        ensures
            emission_view(r) == self.joined(emission_views(fragments@)),
    {
        let (order, reached) = self.schedule();
        self.join_along(&order, &reached, fragments)
    }
}

impl Task for ThrillerBlock {
    /// Runs an emission pass over the block: emits the vertices in the order
    /// of the graph, up to the first that fails, and joins what they yield.
    /// A buffer is passed over and adds no code.
    fn emit(&self) -> (r: ThrillerResult<String>)
        ensures
            self.may_emit(emission_view(r)),
            r is Ok ==> self.graph().holds_each_once(self.graph().order()) && self.is_acyclic(),
            r matches Err(e) ==> e is CycleDetected || e is EmissionFailure,
            r matches Err(ThrillerError::CycleDetected(left)) ==> left@ == self.stuck(
                self.graph().order(),
            ),
        decreases self, 1int,
    {
        proof {
            use_type_invariant(self);
        }
        let (order, reached) = self.schedule();
        let n: usize = self.nodes.len();
        let ghost full = self.graph().order();
        proof {
            self.graph().lemma_order_is_pass();
            assert forall|i: int| 0 <= i < order@.len() implies #[trigger] order@[i] < n by {
                assert(positions(order@)[i] == order@[i] as int);
            }
        }
        let mut fragments: Vec<ThrillerResult<String>> = Vec::new();
        let mut failed: bool = false;
        let mut k: usize = 0;
        proof {
            assert(emission_views(fragments@) =~= Seq::empty());
        }
        while k < order.len() && !failed
            invariant
                k <= order@.len(),
                fragments@.len() == k,
                positions(order@) == full,
                full == self.graph().order(),
                n == self.nodes@.len(),
                forall|i: int| 0 <= i < order@.len() ==> #[trigger] order@[i] < n,
                forall|i: int|
                    0 <= i < k ==> self.nodes()[full[i]].may_add(
                        #[trigger] emission_views(fragments@)[i],
                    ),
                forall|i: int| 0 <= i < k - 1 ==> (#[trigger] emission_views(fragments@)[i]) is Ok,
                failed <==> k > 0 && emission_views(fragments@)[k - 1] is Err,
            decreases order@.len() - k + if failed { 0int } else { 1int },
        {
            let v: usize = order[k];
            let node = &self.nodes[v];
            let ghost before = emission_views(fragments@);
            proof {
                assert(full[k as int] == v as int);
                assert(*node == self.nodes()[v as int]);
            }
            let fragment = match node.get_inner() {
                ThrillerNodeInner::Buffer(_) => Ok(String::new()),
                _ => node.emit(),
            };
            assert(node.may_add(emission_view(fragment)));
            failed = match &fragment {
                Ok(_) => false,
                Err(_) => true,
            };
            fragments.push(fragment);
            proof {
                assert(emission_views(fragments@) =~= before.push(emission_view(fragment)));
            }
            k = k + 1;
        }
        proof {
            let taken = emission_views(fragments@);
            assert(self.admits(taken));
        }
        let r = self.join_along(&order, &reached, fragments);
        proof {
            self.lemma_outcome(emission_view(r));
            if r is Ok {
                self.lemma_code_means_acyclic(emission_view(r));
            }
        }
        r
    }
}

} // verus!
