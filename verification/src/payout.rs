//! From pools to payouts: the fee, what is left to distribute, and the share
//! of a winning stake.

use crate::sums::{lemma_sum_bounds, lemma_sum_compare, lemma_sum_scaled, sum};
use vstd::arithmetic::div_mod::{lemma_fundamental_div_mod, lemma_fundamental_div_mod_converse};
use vstd::prelude::*;

verus! {

/// The house keeps one part in this many of a pool that has winners.
pub const FEE_DIVISOR: i128 = 20;

/// The fee on a pool of `total`: a twentieth, rounded down.
pub open spec fn fee_of(total: int) -> int {
    total / (FEE_DIVISOR as int)
}

/// What is left of a pool of `total` for its winners once the fee is taken.
pub open spec fn distributable_of(total: int) -> int {
    total - fee_of(total)
}

/// The share of `distributable` that a winning stake of `amount` earns when
/// the winning stakes add up to `winning_pool`, rounded down.
pub open spec fn payout_of(amount: int, distributable: int, winning_pool: int) -> int
    recommends
        winning_pool > 0,
{
    (amount * distributable) / winning_pool
}

/// Computes the fee on a pool.
pub fn fee(total_pool: i128) -> (kept: i128)
    requires
        total_pool >= 0,
    ensures
        kept == fee_of(total_pool as int),
        0 <= kept <= total_pool,
{
    total_pool / FEE_DIVISOR
}

/// Computes what a pool leaves for its winners.
pub fn distributable(total_pool: i128) -> (left: i128)
    requires
        total_pool >= 0,
    ensures
        left == distributable_of(total_pool as int),
        0 <= left <= total_pool,
{
    total_pool - fee(total_pool)
}

/// Divides the product `a * b` by `c` without ever forming the product:
/// returns quotient and remainder.
fn product_quotient(a: u128, b: u128, c: u128) -> (qr: (u128, u128))
    requires
        0 < c <= i128::MAX,
        a <= c,
    ensures
        qr.0 * c + qr.1 == a * b,
        qr.1 < c,
    decreases a,
{
    if a == 0 {
        assert(a * b == 0) by (nonlinear_arith)
            requires
                a == 0,
        ;
        assert(0 * c + 0 == 0) by (nonlinear_arith);
        return (0, 0);
    }
    let half: u128 = a / 2;
    let odd: bool = a % 2 == 1;
    let (half_q, half_r) = product_quotient(half, b, c);
    let ghost product: int = a * b;
    assert(product <= c * b) by (nonlinear_arith)
        requires
            product == a * b,
            a <= c,
            b >= 0,
    ;
    // Twice the half: 2 * half * b == (2 * half_q) * c + 2 * half_r.
    let ghost doubled: int = 2 * (half * b);
    assert(doubled == (2 * half_q) * c + 2 * half_r) by (nonlinear_arith)
        requires
            half_q * c + half_r == half * b,
            doubled == 2 * (half * b),
    ;
    assert(doubled <= product && (odd ==> doubled + b == product) && (!odd ==> doubled
        == product)) by (nonlinear_arith)
        requires
            doubled == 2 * (half * b),
            product == a * b,
            half == a / 2,
            odd == (a % 2 == 1),
            b >= 0,
    ;
    assert(2 * half_q <= b) by (nonlinear_arith)
        requires
            (2 * half_q) * c + 2 * half_r == doubled,
            doubled <= c * b,
            c > 0,
            half_r >= 0,
    ;
    let mut q: u128 = 2 * half_q;
    let mut r: u128 = 2 * half_r;
    if r >= c {
        assert(q + 1 <= b) by (nonlinear_arith)
            requires
                q * c + r == doubled,
                doubled <= c * b,
                r >= c,
                c > 0,
        ;
        assert((q + 1) * c + (r - c) == q * c + r) by (nonlinear_arith);
        r = r - c;
        q = q + 1;
    }
    assert(q * c + r == doubled && r < c);
    if odd {
        let whole: u128 = b / c;
        let rest: u128 = b % c;
        assert(b == whole * c + rest) by (nonlinear_arith)
            requires
                whole == b / c,
                rest == b % c,
                c > 0,
        ;
        assert((q + whole) * c + (r + rest) == product) by (nonlinear_arith)
            requires
                q * c + r == doubled,
                b == whole * c + rest,
                doubled + b == product,
        ;
        assert(q + whole <= b) by (nonlinear_arith)
            requires
                (q + whole) * c + (r + rest) == product,
                product <= c * b,
                c > 0,
                r >= 0,
                rest >= 0,
        ;
        q = q + whole;
        r = r + rest;
        if r >= c {
            assert(q + 1 <= b) by (nonlinear_arith)
                requires
                    q * c + r == product,
                    product <= c * b,
                    r >= c,
                    c > 0,
            ;
            assert((q + 1) * c + (r - c) == q * c + r) by (nonlinear_arith);
            r = r - c;
            q = q + 1;
        }
    }
    (q, r)
}

/// Computes the share of `distributable` that a winning stake of `amount`
/// earns when the winning stakes add up to `winning_pool`, rounded down. The
/// product of stake and pool may exceed `i128`; the share never does.
pub fn payout(amount: i128, distributable: i128, winning_pool: i128) -> (share: i128)
    requires
        0 <= amount <= winning_pool,
        0 < winning_pool,
        0 <= distributable,
    ensures
        share == payout_of(amount as int, distributable as int, winning_pool as int),
        0 <= share <= distributable,
{
    let (q, r) = product_quotient(amount as u128, distributable as u128, winning_pool as u128);
    proof {
        lemma_fundamental_div_mod_converse(
            amount * distributable,
            winning_pool as int,
            q as int,
            r as int,
        );
        assert(q <= distributable) by (nonlinear_arith)
            requires
                q * winning_pool + r == amount * distributable,
                0 <= amount <= winning_pool,
                0 < winning_pool,
                0 <= distributable,
                r >= 0,
                q >= 0,
        ;
    }
    q as i128
}

/// What each of `stakes` earns of `left` when they share it in proportion,
/// each share rounded down.
pub open spec fn shares_of(stakes: Seq<int>, left: int) -> Seq<int> {
    Seq::new(stakes.len(), |i: int| payout_of(stakes[i], left, sum(stakes)))
}

/// Stakes that share an amount in proportion, each share rounded down, never
/// get more than the amount together, and get all of it only where every
/// share divides evenly.
pub proof fn lemma_shares_within(stakes: Seq<int>, left: int)
    requires
        forall|i: int| 0 <= i < stakes.len() ==> stakes[i] >= 0,
        sum(stakes) > 0,
        left >= 0,
    ensures
        forall|i: int| 0 <= i < stakes.len() ==> 0 <= #[trigger] shares_of(stakes, left)[i],
        0 <= sum(shares_of(stakes, left)) <= left,
        sum(shares_of(stakes, left)) == left <==> (forall|i: int|
            0 <= i < stakes.len() ==> (#[trigger] stakes[i] * left) % sum(stakes) == 0),
{
    let pool = sum(stakes);
    let shares = shares_of(stakes, left);
    let n = stakes.len();
    let lower = Seq::new(n, |i: int| pool * shares[i]);
    let upper = Seq::new(n, |i: int| left * stakes[i]);
    assert forall|i: int| 0 <= i < n implies 0 <= shares[i] && lower[i] <= upper[i] && (lower[i]
        == upper[i] <==> (stakes[i] * left) % pool == 0) by {
        let product = stakes[i] * left;
        assert(product >= 0) by (nonlinear_arith)
            requires
                product == stakes[i] * left,
                stakes[i] >= 0,
                left >= 0,
        ;
        lemma_fundamental_div_mod(product, pool);
        assert(0 <= product % pool < pool);
        assert(shares[i] == product / pool);
        assert(product / pool >= 0) by (nonlinear_arith)
            requires
                product >= 0,
                pool > 0,
        ;
        assert(left * stakes[i] == product) by (nonlinear_arith)
            requires
                product == stakes[i] * left,
        ;
    }
    lemma_sum_scaled(shares, pool, lower);
    lemma_sum_scaled(stakes, left, upper);
    lemma_sum_compare(lower, upper);
    lemma_sum_bounds(shares);
    let paid = sum(shares);
    assert(pool * paid <= left * pool);
    assert(paid <= left && (paid == left <==> pool * paid == left * pool)) by (nonlinear_arith)
        requires
            pool * paid <= left * pool,
            pool > 0,
    ;
    if paid == left {
        assert forall|i: int| 0 <= i < stakes.len() implies (#[trigger] stakes[i] * left) % pool
            == 0 by {
            assert(lower[i] == upper[i]);
        }
    }
    if forall|i: int| 0 <= i < stakes.len() ==> (#[trigger] stakes[i] * left) % pool == 0 {
        assert forall|i: int| 0 <= i < n implies lower[i] == upper[i] by {
            assert((stakes[i] * left) % pool == 0);
        }
    }
}

} // verus!
