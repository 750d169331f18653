//! Facts about filtered sequences that the scheduler's proofs rest on.

use vstd::prelude::*;

verus! {

/// Filtering keeps exactly the members that satisfy the predicate.
pub proof fn lemma_filter_members<A>(s: Seq<A>, p: spec_fn(A) -> bool)
    ensures
        forall|x: A| #[trigger] s.filter(p).contains(x) <==> s.contains(x) && p(x),
{
    assert forall|x: A| #[trigger] s.filter(p).contains(x) implies s.contains(x) && p(x) by {
        s.lemma_filter_contains_rev(p, x);
        let i = choose|i: int| 0 <= i < s.filter(p).len() && s.filter(p)[i] == x;
        s.lemma_filter_pred(p, i);
    }
    assert forall|x: A| s.contains(x) && p(x) implies #[trigger] s.filter(p).contains(x) by {
        let i = choose|i: int| 0 <= i < s.len() && s[i] == x;
        s.lemma_filter_contains(p, i);
    }
}

/// Filtering keeps the relative order: any two positions of the filtered
/// sequence come from two positions of the unfiltered one, in the same order.
pub proof fn lemma_filter_order<A>(s: Seq<A>, p: spec_fn(A) -> bool, i: int, j: int)
    requires
        0 <= i < j < s.filter(p).len(),
    ensures
        exists|a: int, b: int|
            #![trigger s[a], s[b]]
            0 <= a < b < s.len() && s[a] == s.filter(p)[i] && s[b] == s.filter(p)[j],
    decreases s.len(),
{
    reveal(Seq::filter);
    let d = s.drop_last();
    let fd = d.filter(p);
    if p(s.last()) && j == s.filter(p).len() - 1 {
        assert(fd.contains(fd[i]));
        d.lemma_filter_contains_rev(p, fd[i]);
        let a = choose|a: int| 0 <= a < d.len() && d[a] == fd[i];
        let b = s.len() - 1;
        assert(s[a] == s.filter(p)[i] && s[b] == s.filter(p)[j]);
    } else {
        lemma_filter_order(d, p, i, j);
        let (a, b) = choose|a: int, b: int|
            #![trigger d[a], d[b]]
            0 <= a < b < d.len() && d[a] == fd[i] && d[b] == fd[j];
        assert(s[a] == s.filter(p)[i] && s[b] == s.filter(p)[j]);
    }
}

/// Filtering by a predicate that every element satisfies changes nothing.
pub proof fn lemma_filter_all<A>(s: Seq<A>, p: spec_fn(A) -> bool)
    requires
        forall|i: int| 0 <= i < s.len() ==> p(#[trigger] s[i]),
    ensures
        s.filter(p) == s,
    decreases s.len(),
{
    reveal(Seq::filter);
    if s.len() > 0 {
        lemma_filter_all(s.drop_last(), p);
        assert(s.drop_last().push(s.last()) =~= s);
    }
}

/// Filtering by a predicate that no element satisfies leaves nothing.
pub proof fn lemma_filter_none<A>(s: Seq<A>, p: spec_fn(A) -> bool)
    requires
        forall|i: int| 0 <= i < s.len() ==> !p(#[trigger] s[i]),
    ensures
        s.filter(p) == Seq::<A>::empty(),
    decreases s.len(),
{
    reveal(Seq::filter);
    if s.len() > 0 {
        lemma_filter_none(s.drop_last(), p);
    }
}

/// Extending a prefix by one element extends its filter by that element,
/// if the element satisfies the predicate.
pub proof fn lemma_filter_step<A>(s: Seq<A>, p: spec_fn(A) -> bool, i: int)
    requires
        0 <= i < s.len(),
    ensures
        s.take(i + 1).filter(p) == if p(s[i]) {
            s.take(i).filter(p).push(s[i])
        } else {
            s.take(i).filter(p)
        },
{
    reveal(Seq::filter);
    assert(s.take(i + 1).drop_last() =~= s.take(i));
}

/// The first element that satisfies the predicate is the first element of
/// the filtered sequence.
pub proof fn lemma_filter_first<A>(s: Seq<A>, p: spec_fn(A) -> bool, i: int)
    requires
        0 <= i < s.len(),
        p(s[i]),
        forall|j: int| 0 <= j < i ==> !p(#[trigger] s[j]),
    ensures
        s.filter(p).len() > 0,
        s.filter(p)[0] == s[i],
    decreases s.len(),
{
    reveal(Seq::filter);
    let d = s.drop_last();
    if i == s.len() - 1 {
        lemma_filter_none(d, p);
    } else {
        lemma_filter_first(d, p, i);
    }
}

/// Mapping a prefix that is one element longer maps one element more.
pub proof fn lemma_map_step<A, B>(s: Seq<A>, f: spec_fn(A) -> B, i: int)
    requires
        0 <= i < s.len(),
    ensures
        s.take(i + 1).map_values(f) == s.take(i).map_values(f).push(f(s[i])),
{
    assert(s.take(i + 1).map_values(f) =~= s.take(i).map_values(f).push(f(s[i])));
}

} // verus!
