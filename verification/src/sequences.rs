//! Facts about sequences: what a filter keeps, and how many distinct numbers
//! fit below a bound.

use vstd::prelude::*;
use vstd::set_lib::{lemma_int_range, lemma_len_subset, set_int_range};

verus! {

/// Filtering a sequence that was extended by one element.
pub proof fn lemma_filter_push<A>(s: Seq<A>, a: A, p: spec_fn(A) -> bool)
    ensures
        s.push(a).filter(p) == if p(a) {
            s.filter(p).push(a)
        } else {
            s.filter(p)
        },
{
    reveal(Seq::filter);
    assert(s.push(a).drop_last() =~= s);
}

/// Nothing is left of an empty sequence.
pub proof fn lemma_filter_empty<A>(p: spec_fn(A) -> bool)
    ensures
        Seq::<A>::empty().filter(p) == Seq::<A>::empty(),
{
    reveal(Seq::filter);
}

/// A beginning of a sequence holds no more elements of a kind than the whole.
pub proof fn lemma_filter_take<A>(s: Seq<A>, j: int, p: spec_fn(A) -> bool)
    requires
        0 <= j <= s.len(),
    ensures
        s.take(j).filter(p).len() <= s.filter(p).len(),
{
    assert(s =~= s.take(j) + s.skip(j));
    Seq::filter_distributes_over_add(s.take(j), s.skip(j), p);
}

/// A sequence holds no element of a kind exactly if its filter is empty.
pub proof fn lemma_filter_none<A>(s: Seq<A>, p: spec_fn(A) -> bool)
    ensures
        s.filter(p).len() == 0 <==> forall|k: int| 0 <= k < s.len() ==> !p(#[trigger] s[k]),
    decreases s.len(),
{
    if s.len() == 0 {
        assert(s =~= Seq::empty());
        lemma_filter_empty(p);
    } else {
        let rest = s.drop_last();
        lemma_filter_none(rest, p);
        assert(s =~= rest.push(s.last()));
        lemma_filter_push(rest, s.last(), p);
        if s.filter(p).len() == 0 {
            assert forall|k: int| 0 <= k < s.len() implies !p(#[trigger] s[k]) by {
                if k < rest.len() {
                    assert(rest[k] == s[k]);
                }
            }
        } else {
            if forall|k: int| 0 <= k < s.len() ==> !p(#[trigger] s[k]) {
                assert(!p(s[s.len() - 1]));
                assert forall|k: int| 0 <= k < rest.len() implies !p(#[trigger] rest[k]) by {
                    assert(rest[k] == s[k]);
                }
            }
        }
    }
}

/// Two conditions that agree on the elements of a sequence keep the same
/// elements of it.
pub proof fn lemma_filter_agree<A>(s: Seq<A>, p: spec_fn(A) -> bool, q: spec_fn(A) -> bool)
    requires
        forall|k: int| 0 <= k < s.len() ==> p(#[trigger] s[k]) == q(s[k]),
    ensures
        s.filter(p) == s.filter(q),
    decreases s.len(),
{
    if s.len() == 0 {
        assert(s =~= Seq::empty());
        lemma_filter_empty(p);
        lemma_filter_empty(q);
    } else {
        let rest = s.drop_last();
        assert forall|k: int| 0 <= k < rest.len() implies p(#[trigger] rest[k]) == q(rest[k]) by {
            assert(rest[k] == s[k]);
        }
        lemma_filter_agree(rest, p, q);
        assert(s =~= rest.push(s.last()));
        lemma_filter_push(rest, s.last(), p);
        lemma_filter_push(rest, s.last(), q);
        assert(p(s[s.len() - 1]) == q(s[s.len() - 1]));
    }
}

/// What is kept of a sequence is an element of it and meets the condition.
pub proof fn lemma_filter_member<A>(s: Seq<A>, p: spec_fn(A) -> bool, i: int)
    requires
        0 <= i < s.filter(p).len(),
    ensures
        s.contains(s.filter(p)[i]),
        p(s.filter(p)[i]),
    decreases s.len(),
{
    if s.len() == 0 {
        assert(s =~= Seq::empty());
        lemma_filter_empty(p);
    } else {
        let rest = s.drop_last();
        assert(s =~= rest.push(s.last()));
        lemma_filter_push(rest, s.last(), p);
        if i < rest.filter(p).len() {
            lemma_filter_member(rest, p, i);
            let k = choose|k: int| 0 <= k < rest.len() && rest[k] == rest.filter(p)[i];
            assert(s[k] == rest[k]);
        } else {
            assert(s[s.len() - 1] == s.last());
        }
    }
}

/// A sequence without duplicates whose entries are below `n` has at most `n`
/// entries, and fewer if it lacks one of the numbers below `n`.
pub proof fn lemma_distinct_bounded(s: Seq<int>, n: nat)
    requires
        s.no_duplicates(),
        forall|i: int| 0 <= i < s.len() ==> 0 <= #[trigger] s[i] < n,
    ensures
        s.len() <= n,
        (exists|v: int| 0 <= v < n && !s.contains(v)) ==> s.len() < n,
{
    s.unique_seq_to_set();
    lemma_int_range(0, n as int);
    assert(s.to_set().subset_of(set_int_range(0, n as int)));
    lemma_len_subset(s.to_set(), set_int_range(0, n as int));
    if exists|v: int| 0 <= v < n && !s.contains(v) {
        let v = choose|v: int| 0 <= v < n && !s.contains(v);
        let rest = set_int_range(0, n as int).remove(v);
        assert(s.to_set().subset_of(rest));
        lemma_len_subset(s.to_set(), rest);
    }
}

/// A sequence without duplicates whose entries are below `n` and that has
/// fewer than `n` entries lacks one of the numbers below `n`.
pub proof fn lemma_distinct_lacks(s: Seq<int>, n: nat)
    requires
        s.no_duplicates(),
        s.len() < n,
    ensures
        exists|v: int| 0 <= v < n && !s.contains(v),
{
    if forall|v: int| 0 <= v < n ==> s.contains(v) {
        s.unique_seq_to_set();
        lemma_int_range(0, n as int);
        assert(set_int_range(0, n as int).subset_of(s.to_set()));
        lemma_len_subset(set_int_range(0, n as int), s.to_set());
    }
}

/// More than `n` numbers below `n` hold some number twice.
pub proof fn lemma_pigeonhole(s: Seq<int>, n: nat)
    requires
        s.len() > n,
        forall|i: int| 0 <= i < s.len() ==> 0 <= #[trigger] s[i] < n,
    ensures
        exists|i: int, j: int| 0 <= i < j < s.len() && s[i] == s[j],
{
    if s.no_duplicates() {
        lemma_distinct_bounded(s, n);
    } else {
        let (i, j) = choose|i: int, j: int|
            0 <= i < s.len() && 0 <= j < s.len() && i != j && s[i] == s[j];
        if i < j {
            assert(0 <= i < j < s.len() && s[i] == s[j]);
        } else {
            assert(0 <= j < i < s.len() && s[j] == s[i]);
        }
    }
}

} // verus!
