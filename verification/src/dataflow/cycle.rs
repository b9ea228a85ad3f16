//! Cycles: a pass emits every vertex exactly if the graph has no cycle.

use crate::dataflow::graph::Graph;
use crate::sequences::{lemma_distinct_bounded, lemma_distinct_lacks, lemma_pigeonhole};
use vstd::prelude::*;
use vstd::seq_lib::lemma_seq_contains_after_push;

verus! {

impl Graph {
    /// No vertex of a cycle is ever emitted.
    pub proof fn lemma_cycle_never_emitted(self, done: Seq<int>, walk: Seq<int>)
        requires
            self.is_pass_prefix(done),
            self.is_cycle(walk),
        ensures
            forall|i: int| 0 <= i < walk.len() ==> !done.contains(#[trigger] walk[i]),
        decreases done.len(),
    {
        if done.len() > 0 {
            let head = done.drop_last();
            let v = done.last();
            self.lemma_prefix_take(done, done.len() - 1);
            self.lemma_cycle_never_emitted(head, walk);
            assert(self.ready(done.take(done.len() - 1), done[done.len() - 1]));
            assert(done =~= head.push(v));
            self.lemma_pending_zero(head, v);
            assert forall|i: int| 0 <= i < walk.len() implies walk[i] != v by {
                if walk[i] == v {
                    // The vertex before `v` on the cycle has an edge to `v`.
                    let b: int = if i == 0 {
                        walk.len() - 2
                    } else {
                        i - 1
                    };
                    assert(self.has_edge(walk[b], walk[b + 1]));
                    assert(walk[b + 1] == v);
                    let k = choose|k: int|
                        0 <= k < self.edges.len() && self.edges[k] == (walk[b], v);
                    assert(self.edges[k].1 == v);
                    assert(head.contains(self.edges[k].0));
                    assert(!head.contains(walk[b]));
                }
            }
            assert forall|i: int| 0 <= i < walk.len() implies !done.contains(
                #[trigger] walk[i],
            ) by {
                lemma_seq_contains_after_push(head, v, walk[i]);
            }
        }
    }

    /// A vertex outside `done` with an edge to `v`: one that holds `v` back.
    spec fn blocker(self, done: Seq<int>, v: int) -> int {
        choose|u: int| 0 <= u < self.size && !done.contains(u) && self.has_edge(u, v)
    }

    /// The vertex reached from `v` by going back `k` times to a blocker.
    spec fn back(self, done: Seq<int>, v: int, k: nat) -> int
        decreases k,
    {
        if k == 0 {
            v
        } else {
            self.blocker(done, self.back(done, v, (k - 1) as nat))
        }
    }

    /// Where no vertex is ready, going back from a vertex that is left stays
    /// among the vertices that are left, along edges of the graph.
    proof fn lemma_back(self, done: Seq<int>, v: int, k: nat)
        requires
            self.wf(),
            !self.some_ready(done),
            0 <= v < self.size,
            !done.contains(v),
        ensures
            0 <= self.back(done, v, k) < self.size,
            !done.contains(self.back(done, v, k)),
            k > 0 ==> self.has_edge(
                self.back(done, v, k),
                self.back(done, v, (k - 1) as nat),
            ),
        decreases k,
    {
        if k > 0 {
            self.lemma_back(done, v, (k - 1) as nat);
            let w = self.back(done, v, (k - 1) as nat);
            assert(!self.ready(done, w));
            self.lemma_pending_zero(done, w);
            let j = choose|j: int|
                0 <= j < self.edges.len() && (#[trigger] self.edges[j]).1 == w && !done.contains(
                    self.edges[j].0,
                );
            let u = self.edges[j].0;
            assert(self.edges[j] == (u, w));
            assert(0 <= u < self.size && !done.contains(u) && self.has_edge(u, w));
        }
    }

    /// A pass that stops before it has emitted every vertex has met a cycle.
    pub proof fn lemma_stuck_has_cycle(self, done: Seq<int>)
        requires
            self.wf(),
            self.is_pass_prefix(done),
            done.len() < self.size,
            !self.some_ready(done),
        ensures
            self.has_cycle(),
    {
        self.lemma_prefix_distinct(done);
        lemma_distinct_lacks(done, self.size);
        let v = choose|v: int| 0 <= v < self.size && !done.contains(v);
        let far = Seq::new(self.size + 1, |k: int| self.back(done, v, k as nat));
        assert forall|k: int| 0 <= k < far.len() implies 0 <= #[trigger] far[k] < self.size by {
            self.lemma_back(done, v, k as nat);
        }
        lemma_pigeonhole(far, self.size);
        let (i, j) = choose|i: int, j: int| 0 <= i < j < far.len() && far[i] == far[j];
        let walk = Seq::new((j - i + 1) as nat, |t: int| far[j - t]);
        assert forall|t: int| 0 <= t < walk.len() - 1 implies self.has_edge(
            #[trigger] walk[t],
            walk[t + 1],
        ) by {
            self.lemma_back(done, v, (j - t) as nat);
            assert(walk[t] == far[j - t]);
            assert(walk[t + 1] == far[j - t - 1]);
        }
        assert(walk.first() == far[j]);
        assert(walk.last() == far[i]);
        assert(self.is_cycle(walk));
    }

    /// In a graph without a cycle a pass emits every vertex exactly once.
    pub proof fn lemma_acyclic_emits_each_once(self)
        requires
            self.wf(),
            !self.has_cycle(),
        ensures
            self.holds_each_once(self.order()),
    {
        let order = self.order();
        self.lemma_order_is_pass();
        if order.len() < self.size {
            self.lemma_stuck_has_cycle(order);
        }
        if exists|v: int| 0 <= v < self.size && !order.contains(v) {
            lemma_distinct_bounded(order, self.size);
        }
    }

    /// In a graph with a cycle a pass emits no vertex of the cycle, and so
    /// it does not emit every vertex.
    pub proof fn lemma_cycle_is_left(self, walk: Seq<int>)
        requires
            self.wf(),
            self.is_cycle(walk),
        ensures
            forall|i: int| 0 <= i < walk.len() ==> !self.order().contains(#[trigger] walk[i]),
            forall|i: int| 0 <= i < walk.len() ==> 0 <= #[trigger] walk[i] < self.size,
            self.order().len() < self.size,
    {
        let order = self.order();
        self.lemma_order_is_pass();
        self.lemma_cycle_never_emitted(order, walk);
        assert forall|i: int| 0 <= i < walk.len() implies 0 <= #[trigger] walk[i] < self.size by {
            let b: int = if i == walk.len() - 1 {
                i - 1
            } else {
                i
            };
            assert(self.has_edge(walk[b], walk[b + 1]));
            let k = choose|k: int|
                0 <= k < self.edges.len() && self.edges[k] == (walk[b], walk[b + 1]);
            assert(0 <= self.edges[k].0 < self.size);
        }
        assert(0 <= walk[0] < self.size && !order.contains(walk[0]));
        lemma_distinct_bounded(order, self.size);
    }

    /// A pass emits every vertex exactly if the graph has no cycle.
    pub proof fn lemma_complete_iff_acyclic(self)
        requires
            self.wf(),
        ensures
            self.order().len() == self.size <==> !self.has_cycle(),
    {
        if self.has_cycle() {
            let walk = choose|walk: Seq<int>| self.is_cycle(walk);
            self.lemma_cycle_is_left(walk);
        } else {
            self.lemma_acyclic_emits_each_once();
        }
    }

    /// When a pass is over, a vertex is left exactly if it waits for a vertex
    /// that is left: what depends on a cycle is not emitted either, and
    /// nothing else is held back.
    pub proof fn lemma_left_is_held_back(self, v: int)
        requires
            self.wf(),
            0 <= v < self.size,
        ensures
            !self.order().contains(v) <==> exists|k: int|
                0 <= k < self.edges.len() && (#[trigger] self.edges[k]).1 == v
                    && !self.order().contains(self.edges[k].0),
    {
        let order = self.order();
        self.lemma_order_is_pass();
        if order.contains(v) {
            let i = choose|i: int| 0 <= i < order.len() && order[i] == v;
            assert forall|k: int|
                0 <= k < self.edges.len() && (#[trigger] self.edges[k]).1 == v implies order.contains(
                self.edges[k].0,
            ) by {
                assert(order.take(i).contains(self.edges[k].0));
                let j = choose|j: int|
                    0 <= j < order.take(i).len() && order.take(i)[j] == self.edges[k].0;
                assert(order[j] == self.edges[k].0);
            }
        } else {
            lemma_distinct_bounded(order, self.size);
            assert(!self.ready(order, v));
            self.lemma_pending_zero(order, v);
        }
    }
}

} // verus!
