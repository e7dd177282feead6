//! Sums of sequences of integers, and the facts about them that the pools
//! and payouts rest on.

use vstd::prelude::*;

verus! {

/// The sum of a sequence of integers.
pub open spec fn sum(values: Seq<int>) -> int
    decreases values.len(),
{
    if values.len() == 0 {
        0
    } else {
        sum(values.drop_last()) + values.last()
    }
}

/// Appending a value adds it to the sum.
pub proof fn lemma_sum_push(values: Seq<int>, x: int)
    ensures
        sum(values.push(x)) == sum(values) + x,
{
    assert(values.push(x).drop_last() =~= values);
}

/// Replacing a value changes the sum by the difference.
pub proof fn lemma_sum_update(values: Seq<int>, i: int, x: int)
    requires
        0 <= i < values.len(),
    ensures
        sum(values.update(i, x)) == sum(values) - values[i] + x,
    decreases values.len(),
{
    if i == values.len() - 1 {
        assert(values.update(i, x).drop_last() =~= values.drop_last());
    } else {
        lemma_sum_update(values.drop_last(), i, x);
        assert(values.update(i, x).drop_last() =~= values.drop_last().update(i, x));
    }
}

/// The sum of a prefix grows by the next value.
pub proof fn lemma_sum_take(values: Seq<int>, n: int)
    requires
        0 <= n < values.len(),
    ensures
        sum(values.take(n + 1)) == sum(values.take(n)) + values[n],
{
    assert(values.take(n + 1).drop_last() =~= values.take(n));
}

/// Where no value is negative, neither is the sum, and no value or prefix
/// exceeds it.
pub proof fn lemma_sum_bounds(values: Seq<int>)
    requires
        forall|i: int| 0 <= i < values.len() ==> values[i] >= 0,
    ensures
        sum(values) >= 0,
        forall|i: int| 0 <= i < values.len() ==> values[i] <= sum(values),
        forall|n: int| 0 <= n <= values.len() ==> 0 <= #[trigger] sum(values.take(n)) <= sum(values),
    decreases values.len(),
{
    if values.len() > 0 {
        let front = values.drop_last();
        lemma_sum_bounds(front);
        assert forall|n: int| 0 <= n <= values.len() implies 0 <= #[trigger] sum(values.take(n))
            <= sum(values) by {
            if n == values.len() {
                assert(values.take(n) =~= values);
            } else {
                assert(values.take(n) =~= front.take(n));
            }
        }
        assert forall|i: int| 0 <= i < values.len() implies values[i] <= sum(values) by {
            if i < values.len() - 1 {
                assert(front[i] == values[i]);
            }
        }
    } else {
        assert forall|n: int| 0 <= n <= values.len() implies 0 <= #[trigger] sum(values.take(n))
            <= sum(values) by {
            assert(values.take(n) =~= values);
        }
    }
}

/// A sequence that is nowhere larger than another has no larger sum; where
/// it is smaller somewhere, its sum is smaller.
pub proof fn lemma_sum_compare(lower: Seq<int>, upper: Seq<int>)
    requires
        lower.len() == upper.len(),
        forall|i: int| 0 <= i < lower.len() ==> lower[i] <= upper[i],
    ensures
        sum(lower) <= sum(upper),
        sum(lower) == sum(upper) <==> (forall|i: int| 0 <= i < lower.len() ==> lower[i] == upper[i]),
    decreases lower.len(),
{
    if lower.len() > 0 {
        let l = lower.drop_last();
        let u = upper.drop_last();
        lemma_sum_compare(l, u);
        let last = lower.len() - 1;
        if sum(lower) == sum(upper) {
            assert(lower[last] == upper[last]);
            assert forall|i: int| 0 <= i < lower.len() implies lower[i] == upper[i] by {
                if i < last {
                    assert(l[i] == lower[i] && u[i] == upper[i]);
                }
            }
        }
        if forall|i: int| 0 <= i < lower.len() ==> lower[i] == upper[i] {
            assert forall|i: int| 0 <= i < l.len() implies l[i] == u[i] by {
                assert(l[i] == lower[i] && u[i] == upper[i]);
            }
        }
    }
}

/// Scaling every value scales the sum.
pub proof fn lemma_sum_scaled(values: Seq<int>, factor: int, scaled: Seq<int>)
    requires
        scaled.len() == values.len(),
        forall|i: int| 0 <= i < values.len() ==> scaled[i] == factor * values[i],
    ensures
        sum(scaled) == factor * sum(values),
    decreases values.len(),
{
    if values.len() > 0 {
        lemma_sum_scaled(values.drop_last(), factor, scaled.drop_last());
        assert(factor * (sum(values.drop_last()) + values.last()) == factor * sum(
            values.drop_last(),
        ) + factor * values.last()) by (nonlinear_arith);
    } else {
        assert(factor * 0 == 0) by (nonlinear_arith);
    }
}

/// The sum of a sequence that adds up two others value by value is the sum
/// of their sums.
pub proof fn lemma_sum_added(a: Seq<int>, b: Seq<int>, both: Seq<int>)
    requires
        a.len() == both.len(),
        b.len() == both.len(),
        forall|i: int| 0 <= i < both.len() ==> both[i] == a[i] + b[i],
    ensures
        sum(both) == sum(a) + sum(b),
    decreases both.len(),
{
    if both.len() > 0 {
        lemma_sum_added(a.drop_last(), b.drop_last(), both.drop_last());
    }
}

/// A sequence of zeros adds up to zero.
pub proof fn lemma_sum_zeros(values: Seq<int>)
    requires
        forall|i: int| 0 <= i < values.len() ==> values[i] == 0,
    ensures
        sum(values) == 0,
    decreases values.len(),
{
    if values.len() > 0 {
        lemma_sum_zeros(values.drop_last());
    }
}

} // verus!
