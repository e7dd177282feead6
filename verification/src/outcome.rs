//! From prices to outcomes: the relative change of a price, the prediction
//! that it proves right, and the comparison of two changes.

use vstd::prelude::*;

verus! {

/// Price changes are measured in units of 0.01%: a change of one unit is one
/// ten-thousandth of the starting price.
pub const CHANGE_SCALE: i128 = 10000;

/// Changes of at most this many units, in either direction, count as no
/// movement.
pub const DEAD_BAND: i128 = 5;

/// The movement of the price that a stake predicts.
#[derive(Copy, Clone, Debug, PartialEq, Eq, Structural)]
pub enum Prediction {
    /// The price rises by more than the dead band.
    Up,
    /// The price falls by more than the dead band.
    Down,
    /// The price stays within the dead band.
    Stable,
}

/// How a comparison of two assets ends.
#[derive(Copy, Clone, Debug, PartialEq, Eq, Structural)]
pub enum BattleOutcome {
    /// The first asset changed by more.
    First,
    /// The second asset changed by more.
    Second,
    /// The two changes are closer than the dead band.
    Tie,
}

/// The quotient of `a` by `b`, rounded toward zero.
pub open spec fn div_toward_zero(a: int, b: int) -> int
    recommends
        b != 0,
{
    if a >= 0 && b > 0 {
        a / b
    } else if a < 0 && b < 0 {
        (-a) / (-b)
    } else if a < 0 {
        -((-a) / b)
    } else {
        -(a / (-b))
    }
}

/// The relative change from `start` to `end` in units of 0.01%, rounded
/// toward zero.
pub open spec fn price_change(start: int, end: int) -> int
    recommends
        start != 0,
{
    div_toward_zero((end - start) * CHANGE_SCALE, start)
}

/// Whether `price_change(start, end)` can be computed step by step in `i128`.
pub open spec fn change_representable(start: int, end: int) -> bool {
    &&& start != 0
    &&& i128::MIN <= end - start <= i128::MAX
    &&& i128::MIN <= (end - start) * CHANGE_SCALE <= i128::MAX
}

/// The prediction that a change of `change` units proves right.
pub open spec fn prediction_for_change(change: int) -> Prediction {
    if change > DEAD_BAND {
        Prediction::Up
    } else if change < -DEAD_BAND {
        Prediction::Down
    } else {
        Prediction::Stable
    }
}

/// The prediction that a move of the price from `start` to `end` proves right.
pub open spec fn winning_prediction(start: int, end: int) -> Prediction
    recommends
        start > 0,
{
    prediction_for_change(price_change(start, end))
}

/// Whether two changes are closer to each other than the dead band.
pub open spec fn is_tie(change_a: int, change_b: int) -> bool {
    -DEAD_BAND < change_a - change_b < DEAD_BAND
}

/// How the comparison of two changes ends.
pub open spec fn battle_outcome(change_a: int, change_b: int) -> BattleOutcome {
    if is_tie(change_a, change_b) {
        BattleOutcome::Tie
    } else if change_a > change_b {
        BattleOutcome::First
    } else {
        BattleOutcome::Second
    }
}

/// For a positive divisor, the truncated quotient reaches `k >= 0` exactly
/// when the dividend reaches `k * s`.
proof fn lemma_quotient_reaches(x: int, s: int, k: int)
    requires
        s > 0,
        k >= 0,
    ensures
        div_toward_zero(x, s) >= k + 1 <==> x >= (k + 1) * s,
        div_toward_zero(x, s) <= -(k + 1) <==> -x >= (k + 1) * s,
{
    if x >= 0 {
        assert(x / s >= k + 1 <==> x >= (k + 1) * s) by (nonlinear_arith)
            requires
                s > 0,
                x >= 0,
                k >= 0,
        ;
        assert(x / s >= 0) by (nonlinear_arith)
            requires
                s > 0,
                x >= 0,
        ;
        assert((k + 1) * s > 0) by (nonlinear_arith)
            requires
                s > 0,
                k >= 0,
        ;
    } else {
        let y = -x;
        assert(y / s >= k + 1 <==> y >= (k + 1) * s) by (nonlinear_arith)
            requires
                s > 0,
                y >= 0,
                k >= 0,
        ;
        assert(y / s >= 0) by (nonlinear_arith)
            requires
                s > 0,
                y >= 0,
        ;
        assert((k + 1) * s > 0) by (nonlinear_arith)
            requires
                s > 0,
                k >= 0,
        ;
    }
}

/// Computes the relative change from `start` to `end` in units of 0.01%,
/// rounded toward zero, where every step of the formula fits in `i128`.
pub fn checked_price_change(start: i128, end: i128) -> (change: Option<i128>)
    ensures
        change is Some <==> change_representable(start as int, end as int),
        change matches Some(c) ==> c == price_change(start as int, end as int),
{
    if start == 0 {
        return None;
    }
    let diff = match end.checked_sub(start) {
        Some(d) => d,
        None => {
            return None;
        },
    };
    let scaled = match diff.checked_mul(CHANGE_SCALE) {
        Some(s) => s,
        None => {
            return None;
        },
    };
    // The least value of `i128` is no multiple of the scale, so the scaled
    // difference is above it and the division cannot overflow.
    assert(scaled != i128::MIN) by {
        assert(scaled == diff * 10000);
        assert(i128::MIN == -170141183460469231731687303715884105728);
    }
    let quotient = scaled.checked_div(start);
    assert(quotient is Some) by {
        lemma_truncated_quotient_bounded(scaled as int, start as int);
    }
    quotient
}

/// A truncated quotient is no larger in magnitude than its dividend.
proof fn lemma_truncated_quotient_bounded(x: int, s: int)
    requires
        s != 0,
    ensures
        x >= 0 ==> -x <= div_toward_zero(x, s) <= x,
        x < 0 ==> x <= div_toward_zero(x, s) <= -x,
{
    let ax = if x >= 0 { x } else { -x };
    let as_ = if s > 0 { s } else { -s };
    assert(0 <= ax / as_ <= ax) by (nonlinear_arith)
        requires
            ax >= 0,
            as_ > 0,
    ;
}

/// Names the prediction that a change of `change` units proves right: a
/// change of exactly the dead band, in either direction, is no movement.
pub fn classify_change(change: i128) -> (won: Prediction)
    ensures
        won == prediction_for_change(change as int),
{
    if change > DEAD_BAND {
        Prediction::Up
    } else if change < -DEAD_BAND {
        Prediction::Down
    } else {
        Prediction::Stable
    }
}

/// Names the prediction that a move of the price from `start` to `end` proves
/// right. The answer is that of the exact change, also for prices so far
/// apart that the change itself does not fit in `i128`.
pub fn resolve_prediction(start: i128, end: i128) -> (won: Prediction)
    requires
        start > 0,
    ensures
        won == winning_prediction(start as int, end as int),
{
    // The smallest gap between the prices that leaves the dead band: the
    // scaled gap must reach the starting price one time more than the dead
    // band allows.
    let least: i128 = DEAD_BAND + 1;
    let whole: i128 = start / CHANGE_SCALE;
    let rest: i128 = start % CHANGE_SCALE;
    let threshold: i128 = least * whole + (least * rest + (CHANGE_SCALE - 1)) / CHANGE_SCALE;
    assert(threshold * CHANGE_SCALE >= least * start > (threshold - 1) * CHANGE_SCALE);
    proof {
        lemma_quotient_reaches((end - start) * CHANGE_SCALE, start as int, DEAD_BAND as int);
    }
    if end >= start {
        let gap: i128 = end - start;
        if gap >= threshold {
            Prediction::Up
        } else {
            Prediction::Stable
        }
    } else if end <= 0 {
        Prediction::Down
    } else {
        let gap: i128 = start - end;
        if gap >= threshold {
            Prediction::Down
        } else {
            Prediction::Stable
        }
    }
}

/// Tells whether two changes are closer to each other than the dead band.
pub fn tie(change_a: i128, change_b: i128) -> (tied: bool)
    ensures
        tied == is_tie(change_a as int, change_b as int),
{
    if change_a >= change_b {
        match change_b.checked_add(DEAD_BAND) {
            Some(limit) => change_a < limit,
            None => true,
        }
    } else {
        match change_a.checked_add(DEAD_BAND) {
            Some(limit) => change_b < limit,
            None => true,
        }
    }
}

/// Compares the changes of two assets: the larger change wins unless the two
/// are tied.
pub fn compare_changes(change_a: i128, change_b: i128) -> (result: BattleOutcome)
    ensures
        result == battle_outcome(change_a as int, change_b as int),
{
    if tie(change_a, change_b) {
        BattleOutcome::Tie
    } else if change_a > change_b {
        BattleOutcome::First
    } else {
        BattleOutcome::Second
    }
}

/// A tie does not depend on the order in which the two changes are given.
pub proof fn tie_is_symmetric(change_a: int, change_b: int)
    ensures
        is_tie(change_a, change_b) == is_tie(change_b, change_a),
{
}

/// Swapping the two assets swaps the winner and keeps a tie.
pub proof fn battle_outcome_mirrors(change_a: int, change_b: int)
    ensures
        battle_outcome(change_a, change_b) is Tie <==> battle_outcome(change_b, change_a) is Tie,
        battle_outcome(change_a, change_b) is First <==> battle_outcome(change_b, change_a) is Second,
        battle_outcome(change_a, change_b) is Second <==> battle_outcome(change_b, change_a) is First,
{
}

impl Prediction {
    /// Lists the predictions that a stake can choose from.
    pub fn all() -> (choices: Vec<Prediction>)
        ensures
            choices@ == seq![Prediction::Up, Prediction::Down, Prediction::Stable],
    {
        let mut choices: Vec<Prediction> = Vec::new();
        choices.push(Prediction::Up);
        choices.push(Prediction::Down);
        choices.push(Prediction::Stable);
        assert(choices@ =~= seq![Prediction::Up, Prediction::Down, Prediction::Stable]);
        choices
    }
}

} // verus!
