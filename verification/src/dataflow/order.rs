//! How a pass proceeds: what a vertex waits for, which vertex is next, and
//! how the counters of a running pass follow what has been emitted.

use crate::dataflow::graph::{enters, leaves, links, same, target, waits, Graph};
use crate::sequences::{
    lemma_distinct_bounded, lemma_filter_agree, lemma_filter_empty, lemma_filter_member,
    lemma_filter_none, lemma_filter_push,
};
use vstd::prelude::*;
use vstd::seq_lib::lemma_seq_contains_after_push;

verus! {

/// The edges that `v` waits for after `done` are those that it waits for
/// once `u` has been emitted too, and the edges from `u`.
proof fn lemma_pending_split(edges: Seq<(int, int)>, done: Seq<int>, u: int, v: int)
    requires
        !done.contains(u),
    ensures
        edges.filter(waits(done, v)).len() == edges.filter(waits(done.push(u), v)).len()
            + edges.filter(links(u, v)).len(),
    decreases edges.len(),
{
    if edges.len() == 0 {
        assert(edges =~= Seq::empty());
        lemma_filter_empty(waits(done, v));
        lemma_filter_empty(waits(done.push(u), v));
        lemma_filter_empty(links(u, v));
    } else {
        let rest = edges.drop_last();
        let e = edges.last();
        lemma_pending_split(rest, done, u, v);
        assert(edges =~= rest.push(e));
        lemma_filter_push(rest, e, waits(done, v));
        lemma_filter_push(rest, e, waits(done.push(u), v));
        lemma_filter_push(rest, e, links(u, v));
        lemma_seq_contains_after_push(done, u, e.0);
    }
}

/// Among the successors of `u`, `v` occurs once for each edge from `u` to `v`.
proof fn lemma_successor_count(edges: Seq<(int, int)>, u: int, v: int)
    ensures
        edges.filter(leaves(u)).map_values(target()).filter(same(v)).len() == edges.filter(
            links(u, v),
        ).len(),
    decreases edges.len(),
{
    if edges.len() == 0 {
        assert(edges =~= Seq::empty());
        lemma_filter_empty(leaves(u));
        lemma_filter_empty(links(u, v));
        assert(Seq::<(int, int)>::empty().map_values(target()) =~= Seq::<int>::empty());
        lemma_filter_empty(same(v));
    } else {
        let rest = edges.drop_last();
        let e = edges.last();
        lemma_successor_count(rest, u, v);
        assert(edges =~= rest.push(e));
        lemma_filter_push(rest, e, leaves(u));
        lemma_filter_push(rest, e, links(u, v));
        if e.0 == u {
            let out = rest.filter(leaves(u));
            assert(out.push(e).map_values(target()) =~= out.map_values(target()).push(e.1));
            lemma_filter_push(out.map_values(target()), e.1, same(v));
        }
    }
}

impl Graph {
    /// A vertex waits for nothing exactly if the source of every edge that
    /// enters it has been emitted.
    pub proof fn lemma_pending_zero(self, done: Seq<int>, v: int)
        ensures
            self.pending(done, v) == 0 <==> forall|k: int|
                0 <= k < self.edges.len() && (#[trigger] self.edges[k]).1 == v ==> done.contains(
                    self.edges[k].0,
                ),
    {
        lemma_filter_none(self.edges, waits(done, v));
    }

    /// Before anything is emitted a vertex waits for every edge that enters it.
    pub proof fn lemma_pending_at_start(self, v: int)
        ensures
            self.pending(Seq::empty(), v) == self.in_degree(v),
    {
        lemma_filter_agree(self.edges, waits(Seq::empty(), v), enters(v));
    }

    /// The successors of a vertex are vertices of the graph.
    pub proof fn lemma_successor_in_range(self, u: int, j: int)
        requires
            self.wf(),
            0 <= j < self.successors(u).len(),
        ensures
            0 <= self.successors(u)[j] < self.size,
    {
        lemma_filter_member(self.edges, leaves(u), j);
        let e = self.out_edges(u)[j];
        let k = choose|k: int| 0 <= k < self.edges.len() && self.edges[k] == e;
        assert(0 <= self.edges[k].1 < self.size);
    }

    /// Emitting `u` takes from what `v` waits for one edge for each time that
    /// `v` occurs among the successors of `u`.
    pub proof fn lemma_release(self, done: Seq<int>, u: int, v: int)
        requires
            !done.contains(u),
        ensures
            self.pending(done, v) == self.pending(done.push(u), v) + self.successors(u).filter(
                same(v),
            ).len(),
    {
        lemma_pending_split(self.edges, done, u, v);
        lemma_successor_count(self.edges, u, v);
    }

    /// Where some vertex is ready, `first_ready` is ready and no ready vertex
    /// was inserted before it.
    pub proof fn lemma_first_ready(self, done: Seq<int>)
        requires
            self.some_ready(done),
        ensures
            self.ready(done, self.first_ready(done)),
            forall|w: int| self.ready(done, w) ==> self.first_ready(done) <= w,
    {
        let v = choose|v: int| self.ready(done, v);
        self.lemma_least_ready(done, v);
    }

    proof fn lemma_least_ready(self, done: Seq<int>, v: int)
        requires
            self.ready(done, v),
        ensures
            exists|m: int| self.ready(done, m) && forall|w: int| self.ready(done, w) ==> m <= w,
        decreases v,
    {
        if exists|w: int| w < v && self.ready(done, w) {
            let w = choose|w: int| w < v && self.ready(done, w);
            self.lemma_least_ready(done, w);
        } else {
            assert(self.ready(done, v) && forall|w: int| self.ready(done, w) ==> v <= w);
        }
    }

    /// A ready vertex that no ready vertex precedes is the one that a pass
    /// emits next.
    pub proof fn lemma_first_ready_is(self, done: Seq<int>, v: int)
        requires
            self.ready(done, v),
            forall|w: int| 0 <= w < v ==> !self.ready(done, w),
        ensures
            self.some_ready(done),
            self.first_ready(done) == v,
    {
        self.lemma_first_ready(done);
    }

    /// The beginning of a pass holds vertices of the graph, each of them once.
    pub proof fn lemma_prefix_distinct(self, done: Seq<int>)
        requires
            self.is_pass_prefix(done),
        ensures
            done.no_duplicates(),
            forall|i: int| 0 <= i < done.len() ==> 0 <= #[trigger] done[i] < self.size,
            done.len() <= self.size,
    {
        assert forall|i: int, j: int|
            0 <= i < done.len() && 0 <= j < done.len() && i != j implies done[i] != done[j] by {
            if i < j {
                assert(self.ready(done.take(j), done[j]));
                assert(done.take(j)[i] == done[i]);
            } else {
                assert(self.ready(done.take(i), done[i]));
                assert(done.take(i)[j] == done[j]);
            }
        }
        assert forall|i: int| 0 <= i < done.len() implies 0 <= #[trigger] done[i] < self.size by {
            assert(self.ready(done.take(i), done[i]));
        }
        lemma_distinct_bounded(done, self.size);
    }

    /// A pass goes on with any vertex that is ready.
    pub proof fn lemma_prefix_push(self, done: Seq<int>, v: int)
        requires
            self.is_pass_prefix(done),
            self.ready(done, v),
        ensures
            self.is_pass_prefix(done.push(v)),
    {
        let next = done.push(v);
        assert forall|i: int| 0 <= i < next.len() implies self.ready(
            next.take(i),
            #[trigger] next[i],
        ) by {
            if i < done.len() {
                assert(next.take(i) =~= done.take(i));
                assert(self.ready(done.take(i), done[i]));
            } else {
                assert(next.take(i) =~= done);
            }
        }
    }

    /// The beginning of the beginning of a pass is one too.
    pub proof fn lemma_prefix_take(self, done: Seq<int>, k: int)
        requires
            self.is_pass_prefix(done),
            0 <= k <= done.len(),
        ensures
            self.is_pass_prefix(done.take(k)),
    {
        let head = done.take(k);
        assert forall|i: int| 0 <= i < head.len() implies self.ready(
            head.take(i),
            #[trigger] head[i],
        ) by {
            assert(head.take(i) =~= done.take(i));
            assert(self.ready(done.take(i), done[i]));
        }
    }

    /// A pass that has begun with `done` ends with a sequence that begins
    /// with `done`, in which each vertex was ready at its turn, and after
    /// which no vertex is ready or none is left.
    pub proof fn lemma_order_from(self, done: Seq<int>)
        requires
            self.is_pass_prefix(done),
        ensures
            self.is_pass_prefix(self.order_from(done)),
            self.order_from(done).len() >= done.len(),
            self.order_from(done).take(done.len() as int) == done,
            self.order_from(done).len() >= self.size || !self.some_ready(self.order_from(done)),
        decreases self.size - done.len(),
    {
        if done.len() < self.size && self.some_ready(done) {
            let v = self.first_ready(done);
            self.lemma_first_ready(done);
            self.lemma_prefix_push(done, v);
            self.lemma_order_from(done.push(v));
            let end = self.order_from(done.push(v));
            assert(end.take(done.len() as int) =~= end.take(done.len() as int + 1).take(
                done.len() as int,
            ));
            assert(done.push(v).take(done.len() as int) =~= done);
        } else {
            assert(done.take(done.len() as int) =~= done);
        }
    }

    /// The order of a pass holds vertices of the graph, none of them twice,
    /// each of them after everything that it depends on, and it ends only
    /// where no further vertex is ready.
    pub proof fn lemma_order_is_pass(self)
        ensures
            self.is_pass_prefix(self.order()),
            self.order().no_duplicates(),
            forall|i: int|
                0 <= i < self.order().len() ==> 0 <= #[trigger] self.order()[i] < self.size,
            self.order().len() <= self.size,
            self.respects_edges(self.order()),
            self.order().len() == self.size || !self.some_ready(self.order()),
    {
        let order = self.order();
        self.lemma_order_from(Seq::empty());
        self.lemma_prefix_distinct(order);
        assert forall|i: int, k: int|
            0 <= i < order.len() && 0 <= k < self.edges.len() && (#[trigger] self.edges[k]).1
                == #[trigger] order[i] implies order.take(i).contains(self.edges[k].0) by {
            assert(self.ready(order.take(i), order[i]));
            self.lemma_pending_zero(order.take(i), order[i]);
        }
    }

    /// Whether the counters and flags of a running pass describe `done`:
    /// `done` is what the pass has emitted, each flag says whether its vertex
    /// is among `done`, and each counter holds what its vertex waits for.
    #[verifier::opaque]
    pub open spec fn tracks(self, done: Seq<int>, pending: Seq<usize>, emitted: Seq<bool>) -> bool {
        &&& pending.len() == self.size
        &&& emitted.len() == self.size
        &&& self.is_pass_prefix(done)
        &&& self.order_from(done) == self.order()
        &&& forall|w: int| 0 <= w < self.size ==> #[trigger] emitted[w] == done.contains(w)
        &&& forall|w: int| 0 <= w < self.size ==> #[trigger] pending[w] == self.pending(done, w)
    }

    /// A pass starts with the in-degrees as counters and no flag set.
    pub proof fn lemma_tracks_start(self, pending: Seq<usize>, emitted: Seq<bool>)
        requires
            pending.len() == self.size,
            emitted.len() == self.size,
            forall|w: int| 0 <= w < self.size ==> #[trigger] pending[w] == self.in_degree(w),
            forall|w: int| 0 <= w < self.size ==> !#[trigger] emitted[w],
        ensures
            self.tracks(Seq::empty(), pending, emitted),
    {
        reveal(Graph::tracks);
        assert forall|w: int| 0 <= w < self.size implies #[trigger] pending[w] == self.pending(
            Seq::empty(),
            w,
        ) by {
            self.lemma_pending_at_start(w);
        }
    }

    /// Where every vertex is emitted or waits for something, the pass is
    /// over, and so it is once it holds as many vertices as the graph.
    pub proof fn lemma_tracks_end(self, done: Seq<int>, pending: Seq<usize>, emitted: Seq<bool>)
        requires
            self.tracks(done, pending, emitted),
            done.len() >= self.size || forall|w: int|
                0 <= w < self.size ==> #[trigger] emitted[w] || pending[w] != 0,
        ensures
            self.order() == done,
            forall|w: int| 0 <= w < self.size ==> #[trigger] emitted[w] == done.contains(w),
    {
        reveal(Graph::tracks);
        if done.len() < self.size {
            assert forall|w: int| !self.ready(done, w) by {
                if 0 <= w < self.size {
                    assert(emitted[w] || pending[w] != 0);
                }
            }
        }
    }

    /// What a pass knows when it has found `v` to be the first vertex that
    /// is not emitted and waits for nothing: `v` is the vertex to emit, its
    /// successors are vertices, and each counter covers the releases.
    pub proof fn lemma_tracks_found(
        self,
        done: Seq<int>,
        pending: Seq<usize>,
        emitted: Seq<bool>,
        v: int,
    )
        requires
            self.wf(),
            self.tracks(done, pending, emitted),
            0 <= v < self.size,
            !emitted[v],
            pending[v] == 0,
            forall|w: int| 0 <= w < v ==> #[trigger] emitted[w] || pending[w] != 0,
        ensures
            done.len() < self.size,
            forall|j: int|
                0 <= j < self.successors(v).len() ==> 0 <= #[trigger] self.successors(v)[j]
                    < self.size,
            forall|w: int|
                0 <= w < self.size ==> #[trigger] pending[w] >= self.successors(v).filter(
                    same(w),
                ).len(),
    {
        reveal(Graph::tracks);
        self.lemma_prefix_distinct(done);
        assert(!done.contains(v));
        lemma_distinct_bounded(done, self.size);
        assert forall|j: int| 0 <= j < self.successors(v).len() implies 0
            <= #[trigger] self.successors(v)[j] < self.size by {
            self.lemma_successor_in_range(v, j);
        }
        assert forall|w: int| 0 <= w < self.size implies #[trigger] pending[w]
            >= self.successors(v).filter(same(w)).len() by {
            self.lemma_release(done, v, w);
        }
    }

    /// After the first ready vertex `v` has been emitted and the counters of
    /// its successors have been taken down, counters and flags describe the
    /// pass with `v` at its end.
    pub proof fn lemma_tracks_step(
        self,
        done: Seq<int>,
        pending: Seq<usize>,
        emitted: Seq<bool>,
        v: int,
        counted: Seq<usize>,
    )
        requires
            self.wf(),
            self.tracks(done, pending, emitted),
            0 <= v < self.size,
            !emitted[v],
            pending[v] == 0,
            forall|w: int| 0 <= w < v ==> #[trigger] emitted[w] || pending[w] != 0,
            counted.len() == self.size,
            forall|w: int|
                0 <= w < self.size ==> #[trigger] counted[w] == pending[w] - self.successors(
                    v,
                ).filter(same(w)).len(),
        ensures
            self.tracks(done.push(v), counted, emitted.update(v, true)),
    {
        reveal(Graph::tracks);
        self.lemma_tracks_found(done, pending, emitted, v);
        assert(self.ready(done, v));
        assert forall|w: int| 0 <= w < v implies !self.ready(done, w) by {
            assert(emitted[w] || pending[w] != 0);
        }
        self.lemma_first_ready_is(done, v);
        self.lemma_prefix_push(done, v);
        let next = done.push(v);
        let flags = emitted.update(v, true);
        assert forall|w: int| 0 <= w < self.size implies #[trigger] flags[w] == next.contains(
            w,
        ) by {
            lemma_seq_contains_after_push(done, v, w);
            assert(emitted[w] == done.contains(w));
        }
        assert forall|w: int| 0 <= w < self.size implies #[trigger] counted[w] == self.pending(
            next,
            w,
        ) by {
            self.lemma_release(done, v, w);
            assert(pending[w] == self.pending(done, w));
        }
    }
}

} // verus!
