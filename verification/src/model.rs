//! Sequences of views and facts about filtered sequences.

use vstd::prelude::*;

verus! {

/// The values of every item of a list.
pub open spec fn views<T: View>(items: Seq<T>) -> Seq<T::V> {
    Seq::new(items.len(), |i: int| items[i]@)
}

/// The first item that satisfies a predicate.
pub open spec fn first_where<A>(s: Seq<A>, pred: spec_fn(A) -> bool) -> Option<A>
    decreases s.len(),
{
    if s.len() == 0 {
        None
    } else if pred(s[0]) {
        Some(s[0])
    } else {
        first_where(s.drop_first(), pred)
    }
}

/// What `first_where` finds is in the sequence and satisfies the predicate; it finds
/// nothing only where nothing satisfies it.
pub proof fn lemma_first_where<A>(s: Seq<A>, pred: spec_fn(A) -> bool)
    ensures
        match first_where(s, pred) {
            Some(found) => s.contains(found) && pred(found),
            None => forall|i: int| 0 <= i < s.len() ==> !pred(#[trigger] s[i]),
        },
    decreases s.len(),
{
    if s.len() > 0 {
        lemma_first_where(s.drop_first(), pred);
        if pred(s[0]) {
            assert(s.contains(s[0]));
        } else {
            match first_where(s.drop_first(), pred) {
                Some(found) => {
                    let i = choose|i: int|
                        0 <= i < s.drop_first().len() && s.drop_first()[i] == found;
                    assert(s[i + 1] == found);
                },
                None => {
                    assert forall|i: int| 0 <= i < s.len() implies !pred(#[trigger] s[i]) by {
                        if i > 0 {
                            assert(s[i] == s.drop_first()[i - 1]);
                        }
                    }
                },
            }
        }
    }
}

/// Looking one item further.
pub proof fn lemma_first_where_skip<A>(s: Seq<A>, i: int, pred: spec_fn(A) -> bool)
    requires
        0 <= i < s.len(),
    ensures
        first_where(s.skip(i), pred) == if pred(s[i]) {
            Some(s[i])
        } else {
            first_where(s.skip(i + 1), pred)
        },
{
    assert(s.skip(i).drop_first() =~= s.skip(i + 1));
}

/// A search finds an item at the end only where it finds none before.
pub proof fn lemma_first_where_push<A>(s: Seq<A>, x: A, pred: spec_fn(A) -> bool)
    ensures
        first_where(s.push(x), pred) == match first_where(s, pred) {
            Some(found) => Some(found),
            None => if pred(x) {
                Some(x)
            } else {
                None
            },
        },
    decreases s.len(),
{
    reveal_with_fuel(first_where, 2);
    if s.len() == 0 {
        assert(s.push(x).drop_first() =~= s);
    } else {
        lemma_first_where_push(s.drop_first(), x, pred);
        assert(s.push(x).drop_first() =~= s.drop_first().push(x));
    }
}

/// The values of an optional item.
pub open spec fn opt_view<T: View>(item: Option<T>) -> Option<T::V> {
    match item {
        Some(item) => Some(item@),
        None => None,
    }
}

/// Filtering a sequence with one more item at its end.
pub proof fn lemma_filter_push<A>(s: Seq<A>, x: A, pred: spec_fn(A) -> bool)
    ensures
        s.push(x).filter(pred) == if pred(x) {
            s.filter(pred).push(x)
        } else {
            s.filter(pred)
        },
{
    reveal(Seq::filter);
    assert(s.push(x).drop_last() =~= s);
}

/// Filtering one item more of a sequence.
pub proof fn lemma_filter_take<A>(s: Seq<A>, i: int, pred: spec_fn(A) -> bool)
    requires
        0 <= i < s.len(),
    ensures
        s.take(i + 1).filter(pred) == if pred(s[i]) {
            s.take(i).filter(pred).push(s[i])
        } else {
            s.take(i).filter(pred)
        },
{
    assert(s.take(i + 1) =~= s.take(i).push(s[i]));
    lemma_filter_push(s.take(i), s[i], pred);
}

/// A filter that every item passes changes nothing.
pub proof fn lemma_filter_all<A>(s: Seq<A>, pred: spec_fn(A) -> bool)
    requires
        forall|i: int| 0 <= i < s.len() ==> pred(#[trigger] s[i]),
    ensures
        s.filter(pred) == s,
    decreases s.len(),
{
    reveal(Seq::filter);
    if s.len() > 0 {
        lemma_filter_all(s.drop_last(), pred);
        assert(s.drop_last().push(s.last()) =~= s);
    }
}

/// One sequence is what is left of another when some items are taken out.
pub open spec fn is_subsequence<A>(part: Seq<A>, whole: Seq<A>) -> bool
    decreases whole.len(),
{
    if part.len() == 0 {
        true
    } else if whole.len() == 0 {
        false
    } else if part.last() == whole.last() && is_subsequence(part.drop_last(), whole.drop_last()) {
        true
    } else {
        is_subsequence(part, whole.drop_last())
    }
}

/// What a filter keeps is a subsequence: nothing is added, and the order stays.
pub proof fn lemma_filter_is_subsequence<A>(s: Seq<A>, pred: spec_fn(A) -> bool)
    ensures
        is_subsequence(s.filter(pred), s),
    decreases s.len(),
{
    reveal(Seq::filter);
    if s.len() > 0 {
        lemma_filter_is_subsequence(s.drop_last(), pred);
        if pred(s.last()) {
            assert(s.filter(pred).drop_last() =~= s.drop_last().filter(pred));
        }
    }
}

/// Leaving out the front of a subsequence leaves a subsequence.
pub proof fn lemma_skip_is_subsequence<A>(part: Seq<A>, whole: Seq<A>, n: int)
    requires
        is_subsequence(part, whole),
        0 <= n <= part.len(),
    ensures
        is_subsequence(part.skip(n), whole),
    decreases whole.len(),
{
    if n < part.len() {
        let rest = part.skip(n);
        assert(rest.last() == part.last());
        if part.last() == whole.last() && is_subsequence(part.drop_last(), whole.drop_last()) {
            lemma_skip_is_subsequence(part.drop_last(), whole.drop_last(), n);
            assert(part.drop_last().skip(n) =~= rest.drop_last());
        } else {
            lemma_skip_is_subsequence(part, whole.drop_last(), n);
        }
    }
}

/// A subsequence is no longer than the whole, and as long only when it is the whole.
pub proof fn lemma_full_subsequence<A>(part: Seq<A>, whole: Seq<A>)
    requires
        is_subsequence(part, whole),
    ensures
        part.len() <= whole.len(),
        part.len() == whole.len() ==> part == whole,
    decreases whole.len(),
{
    if part.len() > 0 {
        if part.last() == whole.last() && is_subsequence(part.drop_last(), whole.drop_last()) {
            lemma_full_subsequence(part.drop_last(), whole.drop_last());
            if part.len() == whole.len() {
                assert(part =~= part.drop_last().push(part.last()));
                assert(whole =~= whole.drop_last().push(whole.last()));
            }
        } else {
            lemma_full_subsequence(part, whole.drop_last());
        }
    } else if whole.len() == 0 {
        assert(part =~= whole);
    }
}

/// The values of a list are those of its items, one for one and in their order.
pub proof fn law_views_are_one_for_one<T: View>(items: Seq<T>, item: T)
    ensures
        views(Seq::<T>::empty()).len() == 0,
        views(items.push(item)) == views(items).push(item@),
        opt_view(Some(item)) == Some(item@),
        opt_view(None::<T>) is None,
{
    assert(views(items.push(item)) =~= views(items).push(item@));
}

} // verus!
