//! Facts about filtered link lists.
use vstd::prelude::*;

verus! {

/// Filtering by two predicates that agree on the elements gives the same.
pub proof fn lemma_filter_congruent<A>(s: Seq<A>, p: spec_fn(A) -> bool, q: spec_fn(A) -> bool)
    requires
        forall|i: int| 0 <= i < s.len() ==> p(#[trigger] s[i]) == q(s[i]),
    ensures
        s.filter(p) == s.filter(q),
    decreases s.len(),
{
    reveal(Seq::filter);
    if s.len() > 0 {
        let t = s.drop_last();
        assert forall|i: int| 0 <= i < t.len() implies p(#[trigger] t[i]) == q(t[i]) by {
            assert(t[i] == s[i]);
        }
        lemma_filter_congruent(t, p, q);
        assert(p(s[s.len() - 1]) == q(s[s.len() - 1]));
    }
}

/// A filter that every element passes changes nothing.
pub proof fn lemma_filter_all<A>(s: Seq<A>, p: spec_fn(A) -> bool)
    requires
        forall|i: int| 0 <= i < s.len() ==> p(#[trigger] s[i]),
    ensures
        s.filter(p) == s,
    decreases s.len(),
{
    reveal(Seq::filter);
    if s.len() > 0 {
        let t = s.drop_last();
        assert forall|i: int| 0 <= i < t.len() implies p(#[trigger] t[i]) by {
            assert(t[i] == s[i]);
        }
        lemma_filter_all(t, p);
        assert(p(s[s.len() - 1]));
        assert(t.push(s.last()) =~= s);
    }
}

/// Filtering twice is filtering by both predicates.
pub proof fn lemma_filter_twice<A>(
    s: Seq<A>,
    p: spec_fn(A) -> bool,
    q: spec_fn(A) -> bool,
    both: spec_fn(A) -> bool,
)
    requires
        forall|i: int| 0 <= i < s.len() ==> both(#[trigger] s[i]) == (p(s[i]) && q(s[i])),
    ensures
        s.filter(p).filter(q) == s.filter(both),
    decreases s.len(),
{
    reveal(Seq::filter);
    if s.len() > 0 {
        let t = s.drop_last();
        assert forall|i: int| 0 <= i < t.len() implies both(#[trigger] t[i]) == (p(t[i]) && q(
            t[i],
        )) by {
            assert(t[i] == s[i]);
        }
        lemma_filter_twice(t, p, q, both);
        let x = s.last();
        assert(both(s[s.len() - 1]) == (p(x) && q(x)));
        if p(x) {
            assert(t.filter(p).push(x).drop_last() =~= t.filter(p));
        }
    }
}

/// What filtering does to a sequence with one more element.
pub proof fn lemma_filter_push<A>(s: Seq<A>, x: A, p: spec_fn(A) -> bool)
    ensures
        s.push(x).filter(p) == if p(x) {
            s.filter(p).push(x)
        } else {
            s.filter(p)
        },
{
    reveal(Seq::filter);
    assert(s.push(x).drop_last() =~= s);
}

/// The empty sequence stays empty.
pub proof fn lemma_filter_empty<A>(p: spec_fn(A) -> bool)
    ensures
        Seq::<A>::empty().filter(p) == Seq::<A>::empty(),
{
    reveal(Seq::filter);
}

/// Every element of a filtered sequence passes the filter and comes from
/// the sequence.
pub proof fn lemma_filter_elements<A>(s: Seq<A>, p: spec_fn(A) -> bool)
    ensures
        forall|i: int|
            0 <= i < s.filter(p).len() ==> p(#[trigger] s.filter(p)[i]) && s.contains(
                s.filter(p)[i],
            ),
    decreases s.len(),
{
    reveal(Seq::filter);
    if s.len() > 0 {
        let t = s.drop_last();
        lemma_filter_elements(t, p);
        assert forall|i: int| 0 <= i < s.filter(p).len() implies p(#[trigger] s.filter(p)[i])
            && s.contains(s.filter(p)[i]) by {
            if i < t.filter(p).len() {
                let e = t.filter(p)[i];
                assert(t.contains(e));
                let j = choose|j: int| 0 <= j < t.len() && t[j] == e;
                assert(s[j] == e);
            } else {
                assert(s[s.len() - 1] == s.last());
            }
        }
    }
}

} // verus!
