//! What holds of every block: of its bookkeeping, and of the passes over it,
//! whatever its operations return.

use crate::dataflow::block::ThrillerBlock;
use crate::dataflow::graph::{enters, leaves, outside, upto};
use crate::dataflow::node::{ThrillerNode, ThrillerNodeInner};
use crate::error::{
    alike, emission_view, emission_views, lemma_failure_is_like_itself, ErrorView, ThrillerResult,
};
use crate::sequences::lemma_filter_member;
use vstd::prelude::*;

verus! {

impl ThrillerBlock {
    /// The in-degree counter of every vertex is the number of the edges that
    /// are registered as entering it, which is the number of the edges of
    /// the block that enter it. Its predecessors and successors are the far
    /// ends of the edges that are registered with it.
    pub proof fn lemma_in_degree_counts_in_edges(&self, v: int)
        requires
            self.wf(),
            0 <= v < self.nodes().len(),
        ensures
            self.nodes()[v]@.in_degrees == self.nodes()[v]@.in_edges.len(),
            self.nodes()[v]@.in_degrees == self.graph().in_degree(v),
            self.nodes()[v]@.is_consistent(),
    {
        self.lemma_vertex(v);
    }

    /// Every edge of a block joins two of its vertices and is registered
    /// with both: it is among the edges that leave its source and among the
    /// edges that enter its destination.
    pub proof fn lemma_edge_is_registered(&self, k: int)
        requires
            self.wf(),
            0 <= k < self.edges().len(),
        ensures
            0 <= self.edges()[k].0 < self.nodes().len(),
            0 <= self.edges()[k].1 < self.nodes().len(),
            self.nodes()[self.edges()[k].0]@.out_edges.contains(self.edges()[k]),
            self.nodes()[self.edges()[k].1]@.in_edges.contains(self.edges()[k]),
    {
        let (u, v) = self.edges()[k];
        self.lemma_graph_wf();
        assert(0 <= self.graph().edges[k].0 < self.graph().size);
        self.lemma_vertex(u);
        self.lemma_vertex(v);
        self.edges().lemma_filter_contains(leaves(u), k);
        self.edges().lemma_filter_contains(enters(v), k);
    }

    /// A vertex holds no edge but those of the block that touch it: each
    /// edge registered as entering it is an edge of the block that ends at
    /// it, and each edge registered as leaving it is one that starts at it.
    pub proof fn lemma_registered_edges_are_own(&self, v: int)
        requires
            self.wf(),
            0 <= v < self.nodes().len(),
        ensures
            forall|i: int|
                0 <= i < self.nodes()[v]@.in_edges.len() ==> {
                    &&& (#[trigger] self.nodes()[v]@.in_edges[i]).1 == v
                    &&& self.edges().contains(self.nodes()[v]@.in_edges[i])
                },
            forall|i: int|
                0 <= i < self.nodes()[v]@.out_edges.len() ==> {
                    &&& (#[trigger] self.nodes()[v]@.out_edges[i]).0 == v
                    &&& self.edges().contains(self.nodes()[v]@.out_edges[i])
                },
    {
        self.lemma_vertex(v);
        assert forall|i: int| 0 <= i < self.nodes()[v]@.in_edges.len() implies {
            &&& (#[trigger] self.nodes()[v]@.in_edges[i]).1 == v
            &&& self.edges().contains(self.nodes()[v]@.in_edges[i])
        } by {
            lemma_filter_member(self.edges(), enters(v), i);
        }
        assert forall|i: int| 0 <= i < self.nodes()[v]@.out_edges.len() implies {
            &&& (#[trigger] self.nodes()[v]@.out_edges[i]).0 == v
            &&& self.edges().contains(self.nodes()[v]@.out_edges[i])
        } by {
            lemma_filter_member(self.edges(), leaves(v), i);
        }
    }

    /// The text of a pass is there after `k` fragments exactly if each of
    /// them is code.
    pub proof fn lemma_text_is_ok(&self, fragments: Seq<Result<Seq<char>, ErrorView>>, k: int)
        requires
            0 <= k <= fragments.len(),
        ensures
            self.text_upto(fragments, k) is Ok <==> forall|i: int|
                0 <= i < k ==> (#[trigger] fragments[i]) is Ok,
        decreases k,
    {
        if k > 0 {
            self.lemma_text_is_ok(fragments, k - 1);
            self.lemma_text_step(fragments, k - 1);
            if !(self.text_upto(fragments, k) is Ok) && self.text_upto(fragments, k - 1) is Ok {
                assert(fragments[k - 1] is Err);
            }
        }
    }

    /// Whether `r` reports the failure that is the fragment at position `i`,
    /// with the id of the vertex at position `i` of the order.
    pub open spec fn reports(
        &self,
        fragments: Seq<Result<Seq<char>, ErrorView>>,
        i: int,
        r: Result<Seq<char>, ErrorView>,
    ) -> bool {
        &&& fragments[i] is Err
        &&& r == Err::<Seq<char>, ErrorView>(
            ErrorView::EmissionFailure(
                self.nodes()[self.graph().order()[i]]@.id,
                Box::new(fragments[i]->Err_0),
            ),
        )
    }

    /// Where a pass ends with a failure after `k` fragments, one of them is
    /// a failure, and the pass reports it with the id of its vertex.
    pub proof fn lemma_text_failure(&self, fragments: Seq<Result<Seq<char>, ErrorView>>, k: int)
        requires
            0 <= k <= fragments.len(),
            self.text_upto(fragments, k) is Err,
        ensures
            exists|i: int|
                0 <= i < k && #[trigger] self.reports(fragments, i, self.text_upto(fragments, k)),
        decreases k,
    {
        self.lemma_text_step(fragments, k - 1);
        if self.text_upto(fragments, k - 1) is Err {
            self.lemma_text_failure(fragments, k - 1);
            let i = choose|i: int|
                0 <= i < k - 1 && #[trigger] self.reports(
                    fragments,
                    i,
                    self.text_upto(fragments, k - 1),
                );
            assert(self.reports(fragments, i, self.text_upto(fragments, k)));
        } else {
            assert(self.reports(fragments, k - 1, self.text_upto(fragments, k)));
        }
    }

    /// What a pass can yield, whatever the operations return. Code means
    /// that the graph has no cycle and that the pass has emitted every
    /// vertex exactly once. A graph with a cycle never yields code. A pass
    /// fails with a cycle or with the failure of a vertex and in no other
    /// way. A cycle is reported with the ids of the vertices that the order
    /// does not hold. A failure of a vertex is reported with the id of a
    /// vertex of the order that is no buffer and can fail so.
    pub proof fn lemma_outcome(&self, r: Result<Seq<char>, ErrorView>)
        requires
            self.wf(),
            self.may_emit(r),
        ensures
            r is Ok ==> self.graph().holds_each_once(self.graph().order())
                && !self.graph().has_cycle(),
            self.graph().has_cycle() ==> r is Err,
            r matches Err(e) ==> e is CycleDetected || e is EmissionFailure,
            r matches Err(ErrorView::CycleDetected(left)) ==> left == self.stuck(
                self.graph().order(),
            ) && self.graph().order().len() < self.nodes().len(),
            r matches Err(ErrorView::EmissionFailure(id, cause)) ==> exists|i: int|
                0 <= i < self.graph().order().len() && id == self.nodes()[
                #[trigger] self.graph().order()[i]]@.id && !(self.nodes()[self.graph().order()[i]].inner() is Buffer)
                    && self.nodes()[self.graph().order()[i]].may_emit(
                    Err::<Seq<char>, ErrorView>(*cause),
                ),
    {
        let g = self.graph();
        let order = g.order();
        let fragments = choose|fragments: Seq<Result<Seq<char>, ErrorView>>|
            self.admits(fragments) && r == self.joined(fragments);
        let k = fragments.len() as int;
        self.lemma_graph_wf();
        g.lemma_order_is_pass();
        g.lemma_complete_iff_acyclic();
        if !g.has_cycle() {
            g.lemma_acyclic_emits_each_once();
        }
        if self.text_upto(fragments, k) is Err {
            self.lemma_text_failure(fragments, k);
            let i = choose|i: int|
                0 <= i < k && #[trigger] self.reports(fragments, i, self.text_upto(fragments, k));
            assert(self.nodes()[order[i]].may_add(fragments[i]));
            assert(0 <= i < order.len());
        }
    }

    /// Fragments without code leave the text empty.
    proof fn lemma_text_of_nothing(&self, fragments: Seq<Result<Seq<char>, ErrorView>>, k: int)
        requires
            0 <= k <= fragments.len(),
            forall|i: int|
                0 <= i < k ==> #[trigger] fragments[i] == Ok::<Seq<char>, ErrorView>(Seq::empty()),
        ensures
            self.text_upto(fragments, k) == Ok::<Seq<char>, ErrorView>(Seq::empty()),
        decreases k,
    {
        if k > 0 {
            self.lemma_text_of_nothing(fragments, k - 1);
            assert(fragments[k - 1] == Ok::<Seq<char>, ErrorView>(Seq::empty()));
            assert(Seq::<char>::empty() + Seq::<char>::empty() =~= Seq::<char>::empty());
        }
    }

    /// Where a pass reaches buffers only, no operation decides what it
    /// yields: it yields no code where the graph has no cycle, and reports
    /// the cycle where it has one.
    pub proof fn lemma_buffers_decide(&self, r: Result<Seq<char>, ErrorView>)
        requires
            self.wf(),
            forall|i: int|
                0 <= i < self.graph().order().len() ==> self.nodes()[
                #[trigger] self.graph().order()[i]].inner() is Buffer,
            self.may_emit(r),
        ensures
            r == if self.graph().order().len() < self.nodes().len() {
                Err::<Seq<char>, ErrorView>(
                    ErrorView::CycleDetected(self.stuck(self.graph().order())),
                )
            } else {
                Ok::<Seq<char>, ErrorView>(Seq::empty())
            },
    {
        let order = self.graph().order();
        let fragments = choose|fragments: Seq<Result<Seq<char>, ErrorView>>|
            self.admits(fragments) && r == self.joined(fragments);
        self.lemma_graph_wf();
        self.graph().lemma_order_is_pass();
        assert forall|i: int| 0 <= i < fragments.len() implies #[trigger] fragments[i] == Ok::<
            Seq<char>,
            ErrorView,
        >(Seq::empty()) by {
            assert(self.nodes()[order[i]].inner() is Buffer);
            assert(self.nodes()[order[i]].may_add(fragments[i]));
        }
        self.lemma_text_of_nothing(fragments, fragments.len() as int);
    }

    /// In a block whose graph has no cycle, a pass in which no vertex fails
    /// emits every vertex exactly once, each after everything that it
    /// depends on, and yields the joined code of all of them.
    pub proof fn lemma_acyclic_pass_emits_each_once(
        &self,
        fragments: Seq<Result<Seq<char>, ErrorView>>,
    )
        requires
            self.wf(),
            !self.graph().has_cycle(),
            self.admits(fragments),
            forall|i: int| 0 <= i < fragments.len() ==> (#[trigger] fragments[i]) is Ok,
        ensures
            self.graph().holds_each_once(self.graph().order()),
            self.graph().respects_edges(self.graph().order()),
            fragments.len() == self.nodes().len(),
            self.joined(fragments) is Ok,
            self.joined(fragments) == self.text_upto(fragments, self.nodes().len() as int),
    {
        let g = self.graph();
        self.lemma_graph_wf();
        g.lemma_acyclic_emits_each_once();
        g.lemma_order_is_pass();
        self.lemma_text_is_ok(fragments, fragments.len() as int);
    }

    /// In a block whose graph has a cycle a pass emits no vertex of the
    /// cycle and fails, whatever the vertices that it emits yield.
    pub proof fn lemma_cycle_is_never_emitted(
        &self,
        walk: Seq<int>,
        fragments: Seq<Result<Seq<char>, ErrorView>>,
    )
        requires
            self.wf(),
            self.graph().is_cycle(walk),
        ensures
            forall|i: int|
                0 <= i < walk.len() ==> !self.graph().order().contains(#[trigger] walk[i]),
            self.graph().order().len() < self.nodes().len(),
            self.joined(fragments) is Err,
    {
        self.lemma_graph_wf();
        self.graph().lemma_cycle_is_left(walk);
    }

    /// In a block whose graph has a cycle, a pass in which no vertex fails
    /// before the pass can go no further reports the cycle: it fails with
    /// the ids of the vertices that it has not emitted, and the vertices of
    /// the cycle are among them.
    pub proof fn lemma_cyclic_pass_reports_cycle(
        &self,
        walk: Seq<int>,
        fragments: Seq<Result<Seq<char>, ErrorView>>,
    )
        requires
            self.wf(),
            self.graph().is_cycle(walk),
            self.text_upto(fragments, self.taken(fragments)) is Ok,
        ensures
            self.joined(fragments) == Err::<Seq<char>, ErrorView>(
                ErrorView::CycleDetected(self.stuck(self.graph().order())),
            ),
            forall|i: int|
                0 <= i < walk.len() ==> !self.graph().order().contains(#[trigger] walk[i]),
            forall|i: int|
                0 <= i < walk.len() ==> self.stuck(self.graph().order()).contains(
                    self.nodes()[#[trigger] walk[i]]@.id,
                ),
    {
        let g = self.graph();
        let order = g.order();
        self.lemma_graph_wf();
        g.lemma_cycle_is_left(walk);
        assert forall|i: int| 0 <= i < walk.len() implies self.stuck(order).contains(
            self.nodes()[#[trigger] walk[i]]@.id,
        ) by {
            let v = walk[i];
            let all = upto(g.size);
            assert(all[v] == v);
            all.lemma_filter_contains(outside(order), v);
            let left = g.left(order);
            let j = choose|j: int| 0 <= j < left.len() && left[j] == v;
            assert(self.stuck(order)[j] == self.nodes()[v]@.id);
        }
    }

    /// A pass that yields code has met no cycle, neither in the graph of the
    /// block nor in a graph inside one of its vertices, at any depth.
    pub proof fn lemma_code_means_acyclic(&self, r: Result<Seq<char>, ErrorView>)
        requires
            self.wf(),
            self.may_emit(r),
            r is Ok,
        ensures
            self.is_acyclic(),
        decreases self, 1int,
    {
        let order = self.graph().order();
        let fragments = choose|fragments: Seq<Result<Seq<char>, ErrorView>>|
            self.admits(fragments) && r == self.joined(fragments);
        self.lemma_outcome(r);
        self.lemma_text_is_ok(fragments, fragments.len() as int);
        assert forall|v: int| 0 <= v < self.nodes().len() implies (
        #[trigger] self.nodes()[v]).is_acyclic() by {
            assert(order.contains(v));
            let i = choose|i: int| 0 <= i < order.len() && order[i] == v;
            assert(fragments[i] is Ok);
            assert(self.nodes()[order[i]].may_add(fragments[i]));
            self.lemma_vertex_is_smaller(v);
            self.nodes()[v].lemma_code_means_acyclic(fragments[i]);
        }
    }

    /// One block, the same results of its vertices: the same output, text
    /// for text and failure for failure.
    pub proof fn lemma_same_results_same_output(
        &self,
        first: ThrillerResult<String>,
        given: Seq<ThrillerResult<String>>,
        second: ThrillerResult<String>,
        again: Seq<ThrillerResult<String>>,
    )
        requires
            emission_view(first) == self.joined(emission_views(given)),
            emission_view(second) == self.joined(emission_views(again)),
            emission_views(given) == emission_views(again),
        ensures
            emission_view(first) == emission_view(second),
    {
    }

    /// Two blocks that were built alike, with as many vertices and the same
    /// edges created in the same order, and whose vertices yield results
    /// that are the same but for ids, yield outputs that are the same but
    /// for ids: the same text, or the same kind of failure. The ids of the
    /// vertices play no part.
    pub proof fn lemma_built_alike_emit_alike(
        &self,
        other: &ThrillerBlock,
        fragments: Seq<Result<Seq<char>, ErrorView>>,
        others: Seq<Result<Seq<char>, ErrorView>>,
    )
        requires
            self.graph() == other.graph(),
            fragments.len() == others.len(),
            forall|i: int| 0 <= i < fragments.len() ==> alike(#[trigger] fragments[i], others[i]),
        ensures
            alike(self.joined(fragments), other.joined(others)),
    {
        self.lemma_text_alike(other, fragments, others, self.taken(fragments));
    }

    /// What one of two blocks that were built alike can yield, the other can
    /// yield too, but for ids: the same text, or a failure of the same kind.
    pub proof fn lemma_built_alike_yield_alike(
        &self,
        other: &ThrillerBlock,
        r: Result<Seq<char>, ErrorView>,
    )
        requires
            self.built_like(other),
            self.may_emit(r),
        ensures
            exists|like: Result<Seq<char>, ErrorView>| other.may_emit(like) && alike(r, like),
        decreases self, 1int,
    {
        let order = self.graph().order();
        let fragments = choose|fragments: Seq<Result<Seq<char>, ErrorView>>|
            self.admits(fragments) && r == self.joined(fragments);
        self.graph().lemma_order_is_pass();
        let others = Seq::new(
            fragments.len(),
            |i: int|
                choose|like: Result<Seq<char>, ErrorView>|
                    other.nodes()[order[i]].may_add(like) && alike(fragments[i], like),
        );
        assert forall|i: int| 0 <= i < fragments.len() implies other.nodes()[order[i]].may_add(
            #[trigger] others[i],
        ) && alike(fragments[i], others[i]) by {
            let v = order[i];
            assert(self.nodes()[v].may_add(fragments[i]));
            assert(self.nodes()[v].built_like(&other.nodes()[v]));
            self.lemma_vertex_is_smaller(v);
            self.nodes()[v].lemma_built_alike_yield_alike(&other.nodes()[v], fragments[i]);
        }
        assert forall|i: int| 0 <= i < others.len() - 1 implies (#[trigger] others[i]) is Ok by {
            assert(fragments[i] is Ok);
            assert(alike(fragments[i], others[i]));
        }
        if fragments.len() < order.len() {
            assert(alike(fragments[fragments.len() - 1], others[others.len() - 1]));
            assert(others.last() is Err);
        }
        assert(other.admits(others));
        self.lemma_built_alike_emit_alike(other, fragments, others);
        assert(other.may_emit(other.joined(others)));
    }

    proof fn lemma_text_alike(
        &self,
        other: &ThrillerBlock,
        fragments: Seq<Result<Seq<char>, ErrorView>>,
        others: Seq<Result<Seq<char>, ErrorView>>,
        k: int,
    )
        requires
            self.graph() == other.graph(),
            fragments.len() == others.len(),
            0 <= k <= fragments.len(),
            forall|i: int| 0 <= i < fragments.len() ==> alike(#[trigger] fragments[i], others[i]),
        ensures
            alike(self.text_upto(fragments, k), other.text_upto(others, k)),
        decreases k,
    {
        if k > 0 {
            self.lemma_text_alike(other, fragments, others, k - 1);
            assert(alike(fragments[k - 1], others[k - 1]));
        }
    }
}

impl ThrillerNode {
    /// What one of two vertices that were built alike can add to a pass, the
    /// other can add too, but for ids.
    pub proof fn lemma_built_alike_yield_alike(
        &self,
        other: &ThrillerNode,
        r: Result<Seq<char>, ErrorView>,
    )
        requires
            self.built_like(other),
            self.may_add(r),
        ensures
            exists|like: Result<Seq<char>, ErrorView>| other.may_add(like) && alike(r, like),
        decreases self, 0int,
    {
        match (self.inner(), other.inner()) {
            (ThrillerNodeInner::Block(block), ThrillerNodeInner::Block(like)) => {
                self.lemma_inner_is_smaller();
                block.lemma_built_alike_yield_alike(&*like, r);
                let yielded = choose|yielded: Result<Seq<char>, ErrorView>|
                    like.may_emit(yielded) && alike(r, yielded);
                assert(other.may_add(yielded) && alike(r, yielded));
            },
            _ => {
                if r is Err {
                    lemma_failure_is_like_itself(r->Err_0);
                }
                assert(other.may_add(r) && alike(r, r));
            },
        }
    }

    /// A vertex that yields code holds no graph with a cycle, at any depth.
    pub proof fn lemma_code_means_acyclic(&self, r: Result<Seq<char>, ErrorView>)
        requires
            self.holds_sound_block(),
            self.may_add(r),
            r is Ok,
        ensures
            self.is_acyclic(),
        decreases self, 0int,
    {
        match self.inner() {
            ThrillerNodeInner::Block(block) => {
                self.lemma_inner_is_smaller();
                block.lemma_code_means_acyclic(r);
            },
            _ => {},
        }
    }
}

} // verus!
