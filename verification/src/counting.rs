//! Sums over sequences, and how they change when a sequence grows, shrinks or
//! changes in one place.
use vstd::prelude::*;

verus! {

/// The sum of `weight` over the elements of `s`.
pub open spec fn total<A>(s: Seq<A>, weight: spec_fn(A) -> nat) -> nat
    decreases s.len(),
{
    if s.len() == 0 {
        0
    } else {
        total(s.drop_last(), weight) + weight(s.last())
    }
}

/// How a sum changes when an element is appended.
pub proof fn lemma_total_push<A>(s: Seq<A>, a: A, weight: spec_fn(A) -> nat)
    ensures
        total(s.push(a), weight) == total(s, weight) + weight(a),
{
    assert(s.push(a).drop_last() =~= s);
}

/// How a sum changes when one element changes.
pub proof fn lemma_total_update<A>(s: Seq<A>, i: int, a: A, weight: spec_fn(A) -> nat)
    requires
        0 <= i < s.len(),
    ensures
        total(s.update(i, a), weight) + weight(s[i]) == total(s, weight) + weight(a),
    decreases s.len(),
{
    if i == s.len() - 1 {
        assert(s.update(i, a).drop_last() =~= s.drop_last());
    } else {
        lemma_total_update(s.drop_last(), i, a, weight);
        assert(s.update(i, a).drop_last() =~= s.drop_last().update(i, a));
    }
}

/// How a sum changes when the first element leaves.
pub proof fn lemma_total_drop_first<A>(s: Seq<A>, weight: spec_fn(A) -> nat)
    requires
        s.len() > 0,
    ensures
        total(s.drop_first(), weight) + weight(s[0]) == total(s, weight),
    decreases s.len(),
{
    if s.len() == 1 {
        assert(s.drop_first() =~= Seq::<A>::empty());
        assert(s.drop_last() =~= Seq::<A>::empty());
    } else {
        lemma_total_drop_first(s.drop_last(), weight);
        assert(s.drop_first().drop_last() =~= s.drop_last().drop_first());
    }
}

/// A sum is zero exactly when every element weighs nothing.
pub proof fn lemma_total_zero<A>(s: Seq<A>, weight: spec_fn(A) -> nat)
    ensures
        total(s, weight) == 0 <==> forall|i: int| 0 <= i < s.len() ==> weight(#[trigger] s[i]) == 0,
    decreases s.len(),
{
    if s.len() > 0 {
        lemma_total_zero(s.drop_last(), weight);
        if total(s, weight) == 0 {
            assert forall|i: int| 0 <= i < s.len() implies weight(#[trigger] s[i]) == 0 by {
                if i < s.len() - 1 {
                    assert(s.drop_last()[i] == s[i]);
                }
            }
        } else {
            if forall|i: int| 0 <= i < s.len() ==> weight(#[trigger] s[i]) == 0 {
                assert forall|i: int| 0 <= i < s.drop_last().len() implies weight(
                    #[trigger] s.drop_last()[i],
                ) == 0 by {
                    assert(s.drop_last()[i] == s[i]);
                }
                assert(weight(s[s.len() - 1]) == 0);
            }
        }
    }
}

/// Where every element weighs at most one, the sum is at most the length, and
/// it is the length exactly when every element weighs one.
pub proof fn lemma_total_of_flags<A>(s: Seq<A>, weight: spec_fn(A) -> nat)
    requires
        forall|a: A| #[trigger] weight(a) <= 1,
    ensures
        total(s, weight) <= s.len(),
        total(s, weight) == s.len() <==> forall|i: int|
            0 <= i < s.len() ==> weight(#[trigger] s[i]) == 1,
    decreases s.len(),
{
    if s.len() > 0 {
        lemma_total_of_flags(s.drop_last(), weight);
        if total(s, weight) == s.len() {
            assert forall|i: int| 0 <= i < s.len() implies weight(#[trigger] s[i]) == 1 by {
                if i < s.len() - 1 {
                    assert(s.drop_last()[i] == s[i]);
                }
            }
        } else {
            if forall|i: int| 0 <= i < s.len() ==> weight(#[trigger] s[i]) == 1 {
                assert forall|i: int| 0 <= i < s.drop_last().len() implies weight(
                    #[trigger] s.drop_last()[i],
                ) == 1 by {
                    assert(s.drop_last()[i] == s[i]);
                }
                assert(weight(s[s.len() - 1]) == 1);
            }
        }
    }
}

/// A sum is at least what one of its elements weighs.
pub proof fn lemma_total_at_least<A>(s: Seq<A>, i: int, weight: spec_fn(A) -> nat)
    requires
        0 <= i < s.len(),
    ensures
        total(s, weight) >= weight(s[i]),
    decreases s.len(),
{
    if i < s.len() - 1 {
        lemma_total_at_least(s.drop_last(), i, weight);
    }
}

} // verus!
