use parimutuel::outcome::{
    checked_price_change, classify_change, compare_changes, resolve_prediction, tie, BattleOutcome,
    Prediction,
};
use parimutuel::payout::{distributable, fee, payout};

#[test]
fn change_of_exactly_the_dead_band_is_stable() {
    let change = checked_price_change(100000, 100051);
    assert_eq!(change, Some(5));
    assert_eq!(classify_change(5), Prediction::Stable);
    assert_eq!(resolve_prediction(100000, 100051), Prediction::Stable);
}

#[test]
fn change_of_minus_the_dead_band_is_stable() {
    assert_eq!(checked_price_change(100000, 99950), Some(-5));
    assert_eq!(classify_change(-5), Prediction::Stable);
    assert_eq!(resolve_prediction(100000, 99950), Prediction::Stable);
}

#[test]
fn change_just_beyond_the_dead_band_moves() {
    assert_eq!(checked_price_change(100000, 100060), Some(6));
    assert_eq!(classify_change(6), Prediction::Up);
    assert_eq!(resolve_prediction(100000, 100060), Prediction::Up);
    assert_eq!(checked_price_change(100000, 99940), Some(-6));
    assert_eq!(classify_change(-6), Prediction::Down);
    assert_eq!(resolve_prediction(100000, 99940), Prediction::Down);
}

#[test]
fn change_is_rounded_toward_zero() {
    // 5.9 units up and down: both round to 5 in magnitude.
    assert_eq!(checked_price_change(100000, 100059), Some(5));
    assert_eq!(checked_price_change(100000, 99941), Some(-5));
    assert_eq!(resolve_prediction(100000, 100059), Prediction::Stable);
    assert_eq!(resolve_prediction(100000, 99941), Prediction::Stable);
    // -10000 / 3 is -3333.3: toward zero it is -3333, not -3334.
    assert_eq!(checked_price_change(3, 2), Some(-3333));
    assert_eq!(checked_price_change(3, 4), Some(3333));
}

#[test]
fn change_of_six_percent_is_six_hundred_units() {
    assert_eq!(checked_price_change(100, 106), Some(600));
    assert_eq!(resolve_prediction(100, 106), Prediction::Up);
    assert_eq!(checked_price_change(100, 100), Some(0));
    assert_eq!(resolve_prediction(100, 100), Prediction::Stable);
}

#[test]
fn change_with_negative_start_follows_the_formula() {
    // ((-90) - (-100)) * 10000 / (-100) = 100000 / -100 = -1000
    assert_eq!(checked_price_change(-100, -90), Some(-1000));
    assert_eq!(checked_price_change(-3, -2), Some(-3333));
}

#[test]
fn change_that_cannot_be_computed_is_none() {
    assert_eq!(checked_price_change(0, 5), None);
    assert_eq!(checked_price_change(1, i128::MAX), None);
    assert_eq!(checked_price_change(i128::MAX, -1), None);
    assert_eq!(checked_price_change(1, i128::MAX / 10000 + 2), None);
    assert_eq!(
        checked_price_change(1, i128::MAX / 10000 + 1),
        Some((i128::MAX / 10000) * 10000)
    );
}

#[test]
fn outcome_is_exact_for_prices_beyond_the_formula() {
    // The change itself overflows here; the outcome is still that of the
    // exact change.
    assert_eq!(resolve_prediction(1, i128::MAX), Prediction::Up);
    assert_eq!(resolve_prediction(i128::MAX, 1), Prediction::Down);
    assert_eq!(resolve_prediction(i128::MAX, i128::MIN), Prediction::Down);
    assert_eq!(resolve_prediction(i128::MAX, -5), Prediction::Down);
    assert_eq!(resolve_prediction(i128::MAX, 0), Prediction::Down);
    assert_eq!(resolve_prediction(i128::MAX, i128::MAX), Prediction::Stable);
    assert_eq!(resolve_prediction(i128::MAX, i128::MAX - 1), Prediction::Stable);
    // Six ten-thousandths of the largest price, rounded up, is the least
    // gap that leaves the dead band.
    let least_gap = (i128::MAX / 10000) * 6 + (((i128::MAX % 10000) * 6) + 9999) / 10000;
    assert_eq!(
        resolve_prediction(i128::MAX, i128::MAX - least_gap),
        Prediction::Down
    );
    assert_eq!(
        resolve_prediction(i128::MAX, i128::MAX - least_gap + 1),
        Prediction::Stable
    );
}

#[test]
fn outcome_for_small_prices() {
    // With a starting price of 1 any move of one unit is 10000 units of change.
    assert_eq!(resolve_prediction(1, 2), Prediction::Up);
    assert_eq!(resolve_prediction(1, 1), Prediction::Stable);
    assert_eq!(resolve_prediction(1, 0), Prediction::Down);
    assert_eq!(resolve_prediction(1, -7), Prediction::Down);
    // 10000 -> 10005 is 5 units, 10000 -> 10006 is 6.
    assert_eq!(resolve_prediction(10000, 10005), Prediction::Stable);
    assert_eq!(resolve_prediction(10000, 10006), Prediction::Up);
    assert_eq!(resolve_prediction(10000, 9995), Prediction::Stable);
    assert_eq!(resolve_prediction(10000, 9994), Prediction::Down);
    // 16667 -> 16677 is 5.998 units, 16667 -> 16678 is 6.6.
    assert_eq!(resolve_prediction(16667, 16677), Prediction::Stable);
    assert_eq!(resolve_prediction(16667, 16678), Prediction::Up);
}

#[test]
fn outcome_agrees_with_the_change_where_it_fits() {
    let starts: [i128; 6] = [1, 7, 100, 9999, 10000, 123456789];
    let offsets: [i128; 11] = [-1000, -75, -8, -6, -1, 0, 1, 6, 8, 75, 1000];
    for start in starts {
        for offset in offsets {
            let end = start + offset;
            let change = checked_price_change(start, end).unwrap();
            assert_eq!(resolve_prediction(start, end), classify_change(change));
        }
    }
}

#[test]
fn tie_is_closer_than_five_units() {
    assert!(tie(10, 10));
    assert!(tie(10, 14));
    assert!(tie(14, 10));
    assert!(!tie(10, 15));
    assert!(!tie(15, 10));
    assert!(tie(-2, 2));
    assert!(!tie(-3, 2));
    assert!(tie(i128::MAX, i128::MAX - 4));
    assert!(!tie(i128::MAX, i128::MAX - 5));
    assert!(!tie(i128::MIN, i128::MAX));
    assert!(!tie(i128::MAX, i128::MIN));
    assert!(tie(i128::MIN, i128::MIN + 4));
}

#[test]
fn tie_does_not_depend_on_the_order() {
    let values: [i128; 9] = [i128::MIN, -100, -5, -1, 0, 4, 5, 99, i128::MAX];
    for a in values {
        for b in values {
            assert_eq!(tie(a, b), tie(b, a));
        }
    }
}

#[test]
fn larger_change_wins_unless_tied() {
    assert_eq!(compare_changes(600, 100), BattleOutcome::First);
    assert_eq!(compare_changes(100, 600), BattleOutcome::Second);
    assert_eq!(compare_changes(100, 104), BattleOutcome::Tie);
    assert_eq!(compare_changes(104, 100), BattleOutcome::Tie);
    assert_eq!(compare_changes(100, 105), BattleOutcome::Second);
    assert_eq!(compare_changes(-300, -310), BattleOutcome::First);
}

#[test]
fn predictions_to_choose_from() {
    assert_eq!(
        Prediction::all(),
        vec![Prediction::Up, Prediction::Down, Prediction::Stable]
    );
}

#[test]
fn fee_is_a_twentieth_rounded_down() {
    assert_eq!(fee(200), 10);
    assert_eq!(distributable(200), 190);
    assert_eq!(fee(19), 0);
    assert_eq!(distributable(19), 19);
    assert_eq!(fee(20), 1);
    assert_eq!(fee(39), 1);
    assert_eq!(distributable(39), 38);
    assert_eq!(fee(0), 0);
    assert_eq!(distributable(0), 0);
    assert_eq!(fee(i128::MAX), i128::MAX / 20);
    assert_eq!(distributable(i128::MAX), i128::MAX - i128::MAX / 20);
}

#[test]
fn payout_is_the_share_rounded_down() {
    assert_eq!(payout(100, 190, 100), 190);
    assert_eq!(payout(1, 190, 3), 63);
    assert_eq!(payout(2, 190, 3), 126);
    assert_eq!(payout(0, 190, 3), 0);
    assert_eq!(payout(3, 0, 3), 0);
    assert_eq!(payout(1, 1, 2), 0);
    assert_eq!(payout(50, 95, 100), 47);
}

#[test]
fn payout_is_exact_where_the_product_overflows() {
    let big: i128 = 1_000_000_000_000_000_000_000_000_000_000;
    assert_eq!(payout(big, big, big), big);
    assert_eq!(payout(big / 2, big, big), big / 2);
    assert_eq!(payout(i128::MAX, i128::MAX, i128::MAX), i128::MAX);
    assert_eq!(payout(i128::MAX - 1, i128::MAX, i128::MAX), i128::MAX - 1);
    assert_eq!(payout(1, i128::MAX, i128::MAX), 1);
    assert_eq!(payout(i128::MAX / 3, i128::MAX, i128::MAX), i128::MAX / 3);
    // (2^100 + 1) * (2^100 + 3) / (2^101) = 2^99 + 2, remainder 3.
    let a: i128 = (1 << 100) + 1;
    let b: i128 = (1 << 100) + 3;
    let c: i128 = 1 << 101;
    assert_eq!(payout(a, b, c), (1 << 99) + 2);
}

/// The product of two numbers below 2^127 as a pair of halves: high and low
/// 128 bits.
fn wide_product(a: u128, b: u128) -> (u128, u128) {
    let mask: u128 = (1 << 64) - 1;
    let (a_high, a_low) = (a >> 64, a & mask);
    let (b_high, b_low) = (b >> 64, b & mask);
    let low_low = a_low * b_low;
    let high_low = a_high * b_low;
    let low_high = a_low * b_high;
    let high_high = a_high * b_high;
    let middle = (low_low >> 64) + (high_low & mask) + (low_high & mask);
    let low = (low_low & mask) | (middle << 64);
    let high = high_high + (high_low >> 64) + (low_high >> 64) + (middle >> 64);
    (high, low)
}

/// Whether the first pair is no larger than the second.
fn wide_at_most(left: (u128, u128), right: (u128, u128)) -> bool {
    left.0 < right.0 || (left.0 == right.0 && left.1 <= right.1)
}

#[test]
fn payout_is_the_floor_of_the_exact_quotient() {
    // A fixed run of scattered values, large and small.
    let mut state: u128 = 0x2545_F491_4F6C_DD1D_9E37_79B9_7F4A_7C15;
    let mut next = move || {
        state ^= state << 13;
        state ^= state >> 7;
        state ^= state << 17;
        state
    };
    for round in 0..2000 {
        let shift = (round % 120) as u32;
        let pool = ((next() >> 1) >> shift).max(1);
        let amount = next() % (pool + 1);
        let left = (next() >> 1) >> ((round * 7) % 127) as u32;
        let share = payout(amount as i128, left as i128, pool as i128) as u128;
        // share * pool <= amount * left < (share + 1) * pool
        let product = wide_product(amount, left);
        assert!(wide_at_most(wide_product(share, pool), product));
        assert!(!wide_at_most(wide_product(share + 1, pool), product));
    }
}

#[test]
fn outcome_agrees_with_the_change_on_scattered_prices() {
    let mut state: u128 = 0x9E37_79B9_7F4A_7C15_F39C_C060_5CED_C834;
    let mut next = move || {
        state ^= state << 13;
        state ^= state >> 7;
        state ^= state << 17;
        state
    };
    let mut seen = [0u32; 3];
    for round in 0..3000 {
        let start = (((next() >> 1) >> (14 + round % 100)) as i128).max(1);
        // A move of up to about twenty units of change, up or down.
        let reach = (start / 500).max(3) as u128;
        let offset = (next() % (2 * reach + 1)) as i128 - reach as i128;
        let end = start + offset;
        let change = checked_price_change(start, end).unwrap();
        let won = resolve_prediction(start, end);
        assert_eq!(won, classify_change(change));
        match won {
            Prediction::Up => seen[0] += 1,
            Prediction::Down => seen[1] += 1,
            Prediction::Stable => seen[2] += 1,
        }
    }
    assert!(seen[0] > 0 && seen[1] > 0 && seen[2] > 0);
}
