//! Summation of a per-element measure over a sequence, with the update and
//! bound lemmas that the maze's bookkeeping invariants rest on.

use vstd::prelude::*;

verus! {

/// The sum of `f` over every element of `s`.
pub open spec fn sum_by<T>(s: Seq<T>, f: spec_fn(T) -> int) -> int
    decreases s.len(),
{
    if s.len() == 0 {
        0
    } else {
        sum_by(s.drop_last(), f) + f(s.last())
    }
}

/// Overwriting one element changes the sum by the difference of its measure.
pub proof fn lemma_sum_by_update<T>(s: Seq<T>, f: spec_fn(T) -> int, i: int, v: T)
    requires
        0 <= i < s.len(),
    ensures
        sum_by(s.update(i, v), f) == sum_by(s, f) - f(s[i]) + f(v),
    decreases s.len(),
{
    let t = s.update(i, v);
    if i == s.len() - 1 {
        assert(t.drop_last() =~= s.drop_last());
    } else {
        assert(t.drop_last() =~= s.drop_last().update(i, v));
        lemma_sum_by_update(s.drop_last(), f, i, v);
    }
}

/// A sum of nonnegative measures is nonnegative.
pub proof fn lemma_sum_by_nonneg<T>(s: Seq<T>, f: spec_fn(T) -> int)
    requires
        forall|i: int| 0 <= i < s.len() ==> #[trigger] f(s[i]) >= 0,
    ensures
        sum_by(s, f) >= 0,
    decreases s.len(),
{
    if s.len() > 0 {
        lemma_sum_by_nonneg(s.drop_last(), f);
    }
}

/// A sum of measures that never exceed 1 is at most the length.
pub proof fn lemma_sum_by_le_len<T>(s: Seq<T>, f: spec_fn(T) -> int)
    requires
        forall|i: int| 0 <= i < s.len() ==> #[trigger] f(s[i]) <= 1,
    ensures
        sum_by(s, f) <= s.len(),
    decreases s.len(),
{
    if s.len() > 0 {
        lemma_sum_by_le_len(s.drop_last(), f);
    }
}

/// When every element measures 0, the sum is 0.
pub proof fn lemma_sum_by_zero<T>(s: Seq<T>, f: spec_fn(T) -> int)
    requires
        forall|i: int| 0 <= i < s.len() ==> #[trigger] f(s[i]) == 0,
    ensures
        sum_by(s, f) == 0,
    decreases s.len(),
{
    if s.len() > 0 {
        lemma_sum_by_zero(s.drop_last(), f);
    }
}

/// Two sequences whose elements measure the same, element by element, sum
/// to the same.
pub proof fn lemma_sum_by_pointwise_eq<T>(s1: Seq<T>, s2: Seq<T>, f: spec_fn(T) -> int)
    requires
        s1.len() == s2.len(),
        forall|i: int| 0 <= i < s1.len() ==> f(#[trigger] s1[i]) == f(s2[i]),
    ensures
        sum_by(s1, f) == sum_by(s2, f),
    decreases s1.len(),
{
    if s1.len() > 0 {
        lemma_sum_by_pointwise_eq(s1.drop_last(), s2.drop_last(), f);
    }
}

/// A sum of measures at most 1 with a known 0 at `i` is below the length.
pub proof fn lemma_sum_by_short_at<T>(s: Seq<T>, f: spec_fn(T) -> int, i: int)
    requires
        forall|k: int| 0 <= k < s.len() ==> #[trigger] f(s[k]) <= 1,
        0 <= i < s.len(),
        f(s[i]) <= 0,
    ensures
        sum_by(s, f) <= s.len() - 1,
    decreases s.len(),
{
    if i == s.len() - 1 {
        lemma_sum_by_le_len(s.drop_last(), f);
    } else {
        lemma_sum_by_short_at(s.drop_last(), f, i);
    }
}

/// When every element measures exactly 1, the sum is the length.
pub proof fn lemma_sum_by_full<T>(s: Seq<T>, f: spec_fn(T) -> int)
    requires
        forall|i: int| 0 <= i < s.len() ==> #[trigger] f(s[i]) == 1,
    ensures
        sum_by(s, f) == s.len(),
    decreases s.len(),
{
    if s.len() > 0 {
        lemma_sum_by_full(s.drop_last(), f);
    }
}

} // verus!
