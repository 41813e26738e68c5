//! How sequences change by one element: what walking a list needs.

use vstd::prelude::*;

verus! {

/// The first `i + 1` elements are the first `i` and one more.
pub proof fn lemma_take_next<T>(s: Seq<T>, i: int)
    requires
        0 <= i < s.len(),
    ensures
        s.take(i + 1) == s.take(i).push(s[i]),
        s.take(i + 1).drop_last() == s.take(i),
        s.take(i + 1).last() == s[i],
{
    assert(s.take(i + 1) =~= s.take(i).push(s[i]));
    assert(s.take(i + 1).drop_last() =~= s.take(i));
}

/// What a filter keeps of a sequence that has grown by one element.
pub proof fn lemma_filter_push<T>(s: Seq<T>, x: T, keep: spec_fn(T) -> bool)
    ensures
        s.push(x).filter(keep) == if keep(x) {
            s.filter(keep).push(x)
        } else {
            s.filter(keep)
        },
{
    assert(s.push(x).drop_last() =~= s);
    reveal(Seq::filter);
}

/// What a filter keeps of one element more.
pub proof fn lemma_filter_next<T>(s: Seq<T>, i: int, keep: spec_fn(T) -> bool)
    requires
        0 <= i < s.len(),
    ensures
        s.take(i + 1).filter(keep) == if keep(s[i]) {
            s.take(i).filter(keep).push(s[i])
        } else {
            s.take(i).filter(keep)
        },
{
    lemma_take_next(s, i);
    lemma_filter_push(s.take(i), s[i], keep);
}

/// A filter keeps nothing of an empty sequence.
pub proof fn lemma_filter_empty<T>(keep: spec_fn(T) -> bool)
    ensures
        Seq::<T>::empty().filter(keep) == Seq::<T>::empty(),
{
    reveal(Seq::filter);
}

/// A filter that every element meets keeps the sequence as it is.
pub proof fn lemma_filter_all<T>(s: Seq<T>, keep: spec_fn(T) -> bool)
    requires
        forall|i: int| 0 <= i < s.len() ==> keep(#[trigger] s[i]),
    ensures
        s.filter(keep) == s,
    decreases s.len(),
{
    if s.len() == 0 {
        lemma_filter_empty(keep);
        assert(s =~= Seq::empty());
    } else {
        let front = s.drop_last();
        assert forall|i: int| 0 <= i < front.len() implies keep(#[trigger] front[i]) by {
            assert(front[i] == s[i]);
        }
        lemma_filter_all(front, keep);
        assert(s =~= front.push(s.last()));
        lemma_filter_push(front, s.last(), keep);
    }
}

/// A filter keeps an element exactly where it stood in the sequence and meets
/// the filter.
pub proof fn lemma_filter_contains<T>(s: Seq<T>, keep: spec_fn(T) -> bool, x: T)
    ensures
        s.filter(keep).contains(x) <==> s.contains(x) && keep(x),
    decreases s.len(),
{
    if s.len() == 0 {
        lemma_filter_empty(keep);
        assert(s =~= Seq::empty());
    } else {
        let front = s.drop_last();
        let last = s.last();
        lemma_filter_contains(front, keep, x);
        assert(s =~= front.push(last));
        lemma_filter_push(front, last, keep);
        lemma_push_contains(front, last, x);
        lemma_push_contains(front.filter(keep), last, x);
    }
}

/// What a sequence holds once it has grown by one element.
pub proof fn lemma_push_contains<T>(s: Seq<T>, x: T, y: T)
    ensures
        s.push(x).contains(y) <==> s.contains(y) || y == x,
{
    assert(s.push(x)[s.len() as int] == x);
    if s.contains(y) {
        assert(s.push(x)[s.index_of(y)] == y);
    }
    if s.push(x).contains(y) && y != x {
        assert(s[s.push(x).index_of(y)] == y);
    }
}

} // verus!
