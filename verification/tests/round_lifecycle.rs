use parimutuel::ledger::Credit;
use parimutuel::oracle::PriceData;
use parimutuel::outcome::Prediction;
use parimutuel::round::{Bet, Round, RoundStatus, WINDOW};
use parimutuel::Error;

fn bet(user: &str, prediction: Prediction, amount: i128) -> Bet {
    Bet {
        user: user.to_string(),
        prediction,
        amount,
    }
}

fn price(value: i128, timestamp: u64) -> Option<PriceData> {
    Some(PriceData {
        price: value,
        timestamp,
    })
}

fn credit(user: &str, amount: i128) -> Credit {
    Credit {
        user: user.to_string(),
        amount,
    }
}

#[test]
fn new_round_is_open_and_empty() {
    let round = Round::new(1, 1000, 250);
    assert_eq!(round.round_number, 1);
    assert_eq!(round.start_time, 1000);
    assert_eq!(round.start_price, 250);
    assert_eq!(round.end_price, None);
    assert!(round.bets.is_empty());
    assert!(!round.is_settled);
    assert_eq!(round.winning_prediction, None);
    assert_eq!(round.stats(), (0, 0, 0, 0));
    assert!(round.is_well_formed());
    assert_eq!(round.closes_at(), 1300);
    assert_eq!(WINDOW, 300);
}

#[test]
fn pools_follow_the_stakes() {
    let mut round = Round::new(1, 0, 100);
    assert_eq!(round.add_bet(1, bet("a", Prediction::Up, 100)), Ok(()));
    assert_eq!(round.stats(), (100, 100, 0, 0));
    assert_eq!(round.add_bet(2, bet("b", Prediction::Down, 40)), Ok(()));
    assert_eq!(round.stats(), (140, 100, 40, 0));
    assert_eq!(round.add_bet(3, bet("c", Prediction::Stable, 7)), Ok(()));
    assert_eq!(round.stats(), (147, 100, 40, 7));
    assert_eq!(round.add_bet(4, bet("a", Prediction::Up, 3)), Ok(()));
    assert_eq!(round.stats(), (150, 103, 40, 7));
    assert_eq!(round.pool(Prediction::Up), 103);
    assert_eq!(round.pool(Prediction::Down), 40);
    assert_eq!(round.pool(Prediction::Stable), 7);
    let staked: i128 = round.bets.iter().map(|b| b.amount).sum();
    assert_eq!(round.total_pool, staked);
    assert_eq!(
        round.up_pool + round.down_pool + round.stable_pool,
        round.total_pool
    );
    assert_eq!(round.bets.len(), 4);
    assert_eq!(round.bets[3], bet("a", Prediction::Up, 3));
    assert!(round.is_well_formed());
}

#[test]
fn stake_at_the_end_of_the_window_is_refused() {
    let mut round = Round::new(1, 1000, 100);
    assert!(round.accepts_bets(1299));
    assert!(!round.accepts_bets(1300));
    assert!(!round.accepts_bets(1301));
    assert_eq!(round.add_bet(1299, bet("a", Prediction::Up, 10)), Ok(()));
    assert_eq!(
        round.add_bet(1300, bet("b", Prediction::Up, 10)),
        Err(Error::BettingClosed)
    );
    assert_eq!(
        round.add_bet(5000, bet("b", Prediction::Up, 10)),
        Err(Error::BettingClosed)
    );
    assert_eq!(round.stats(), (10, 10, 0, 0));
    assert_eq!(round.bets.len(), 1);
}

#[test]
fn stake_that_is_not_positive_is_refused() {
    let mut round = Round::new(1, 0, 100);
    assert_eq!(
        round.add_bet(1, bet("a", Prediction::Up, 0)),
        Err(Error::InvalidAmount)
    );
    assert_eq!(
        round.add_bet(1, bet("a", Prediction::Up, -5)),
        Err(Error::InvalidAmount)
    );
    // The amount is looked at first, also where the window has ended.
    assert_eq!(
        round.add_bet(300, bet("a", Prediction::Up, 0)),
        Err(Error::InvalidAmount)
    );
    assert_eq!(round, Round::new(1, 0, 100));
}

#[test]
fn status_goes_from_open_to_settled() {
    let mut round = Round::new(1, 0, 100);
    assert_eq!(round.status(0), RoundStatus::Open);
    assert_eq!(round.status(299), RoundStatus::Open);
    assert_eq!(round.status(300), RoundStatus::AwaitingSettlement);
    assert!(!round.ready_to_settle(299));
    assert!(round.ready_to_settle(300));
    assert_eq!(round.settle(300, price(100, 300)), Ok(Prediction::Stable));
    assert_eq!(round.status(300), RoundStatus::Settled);
    assert_eq!(round.status(0), RoundStatus::Settled);
    assert!(!round.ready_to_settle(300));
    assert!(!round.accepts_bets(0));
}

#[test]
fn settlement_before_the_end_of_the_window_is_refused() {
    let mut round = Round::new(1, 0, 100);
    assert_eq!(round.add_bet(0, bet("a", Prediction::Up, 10)), Ok(()));
    let before = round.clone();
    assert_eq!(round.settle(299, price(106, 300)), Err(Error::BettingClosed));
    assert_eq!(round, before);
}

#[test]
fn settlement_without_a_price_can_be_repeated() {
    let mut round = Round::new(1, 0, 100);
    assert_eq!(round.add_bet(0, bet("a", Prediction::Up, 10)), Ok(()));
    let before = round.clone();
    assert_eq!(round.settle(300, None), Err(Error::NoPrice));
    assert_eq!(round, before);
    assert!(!round.is_settled);
    assert_eq!(round.settle(400, price(106, 300)), Ok(Prediction::Up));
    assert!(round.is_settled);
    assert_eq!(round.end_price, Some(106));
    assert_eq!(round.winning_prediction, Some(Prediction::Up));
}

#[test]
fn settled_round_is_settled_for_good() {
    let mut round = Round::new(1, 0, 100);
    assert_eq!(round.add_bet(0, bet("a", Prediction::Up, 10)), Ok(()));
    assert_eq!(round.settle(300, price(106, 300)), Ok(Prediction::Up));
    let after_first = round.clone();
    assert_eq!(
        round.settle(300, price(50, 300)),
        Err(Error::RoundAlreadySettled)
    );
    assert_eq!(round.settle(301, None), Err(Error::RoundAlreadySettled));
    assert_eq!(round, after_first);
    assert_eq!(
        round.add_bet(10, bet("b", Prediction::Down, 10)),
        Err(Error::BettingClosed)
    );
    assert_eq!(round, after_first);
    assert!(round.is_well_formed());
}

#[test]
fn winners_share_the_pool_after_the_fee() {
    let mut round = Round::new(1, 0, 100);
    assert_eq!(round.add_bet(0, bet("a", Prediction::Up, 100)), Ok(()));
    assert_eq!(round.add_bet(0, bet("b", Prediction::Down, 100)), Ok(()));
    assert!(round.payouts().is_empty());
    assert_eq!(round.settle(300, price(106, 300)), Ok(Prediction::Up));
    assert_eq!(round.payouts(), vec![credit("a", 190)]);
}

#[test]
fn shares_are_rounded_down_and_stay_within_the_pool() {
    let mut round = Round::new(1, 0, 1000);
    assert_eq!(round.add_bet(0, bet("a", Prediction::Down, 1)), Ok(()));
    assert_eq!(round.add_bet(0, bet("b", Prediction::Down, 1)), Ok(()));
    assert_eq!(round.add_bet(0, bet("c", Prediction::Down, 1)), Ok(()));
    assert_eq!(round.add_bet(0, bet("d", Prediction::Up, 7)), Ok(()));
    assert_eq!(round.add_bet(0, bet("a", Prediction::Down, 4)), Ok(()));
    assert_eq!(round.settle(300, price(900, 300)), Ok(Prediction::Down));
    // total 14, fee 0, distributable 14, winning pool 7
    let credits = round.payouts();
    assert_eq!(
        credits,
        vec![
            credit("a", 2),
            credit("b", 2),
            credit("c", 2),
            credit("a", 8)
        ]
    );
    let paid: i128 = credits.iter().map(|c| c.amount).sum();
    assert_eq!(paid, 14);

    let mut uneven = Round::new(2, 0, 1000);
    assert_eq!(uneven.add_bet(0, bet("a", Prediction::Up, 1)), Ok(()));
    assert_eq!(uneven.add_bet(0, bet("b", Prediction::Up, 2)), Ok(()));
    assert_eq!(uneven.add_bet(0, bet("c", Prediction::Stable, 97)), Ok(()));
    assert_eq!(uneven.settle(300, price(2000, 300)), Ok(Prediction::Up));
    // total 100, fee 5, distributable 95, winning pool 3: 31 and 63, one lost
    let credits = uneven.payouts();
    assert_eq!(credits, vec![credit("a", 31), credit("b", 63)]);
    let paid: i128 = credits.iter().map(|c| c.amount).sum();
    assert!(paid < 95);
}

#[test]
fn round_without_winner_pays_nobody() {
    let mut round = Round::new(1, 0, 100);
    assert_eq!(round.add_bet(0, bet("a", Prediction::Up, 100)), Ok(()));
    assert_eq!(round.add_bet(0, bet("b", Prediction::Down, 100)), Ok(()));
    assert_eq!(round.settle(300, price(100, 300)), Ok(Prediction::Stable));
    assert!(round.payouts().is_empty());
    assert!(round.is_settled);
    assert_eq!(round.stats(), (200, 100, 100, 0));
}

#[test]
fn round_without_stakes_settles() {
    let mut round = Round::new(1, 0, 100);
    assert_eq!(round.settle(300, price(1, 300)), Ok(Prediction::Down));
    assert!(round.payouts().is_empty());
    assert!(round.is_well_formed());
}

#[test]
fn copy_of_a_round_is_equal() {
    let mut round = Round::new(3, 10, 100);
    assert_eq!(round.add_bet(11, bet("a", Prediction::Up, 5)), Ok(()));
    assert_eq!(round.add_bet(12, bet("b", Prediction::Stable, 6)), Ok(()));
    let copy = round.clone();
    assert_eq!(copy, round);
    assert_eq!(copy.bets[0].clone(), bet("a", Prediction::Up, 5));
}

#[test]
fn malformed_rounds_are_told_apart() {
    let good = Round::new(1, 0, 100);
    assert!(good.is_well_formed());

    let mut no_price = Round::new(1, 0, 100);
    no_price.start_price = 0;
    assert!(!no_price.is_well_formed());

    let mut late = Round::new(1, 0, 100);
    late.start_time = u64::MAX - 299;
    assert!(!late.is_well_formed());
    late.start_time = u64::MAX - 300;
    assert!(late.is_well_formed());

    let mut wrong_pool = Round::new(1, 0, 100);
    assert_eq!(wrong_pool.add_bet(0, bet("a", Prediction::Up, 5)), Ok(()));
    wrong_pool.up_pool = 4;
    assert!(!wrong_pool.is_well_formed());
    wrong_pool.up_pool = 5;
    wrong_pool.total_pool = 6;
    assert!(!wrong_pool.is_well_formed());
    wrong_pool.total_pool = 5;
    assert!(wrong_pool.is_well_formed());
    wrong_pool.down_pool = 1;
    assert!(!wrong_pool.is_well_formed());

    let mut zero_stake = Round::new(1, 0, 100);
    zero_stake.bets.push(bet("a", Prediction::Up, 0));
    assert!(!zero_stake.is_well_formed());

    let mut overflowing = Round::new(1, 0, 100);
    overflowing.bets.push(bet("a", Prediction::Up, i128::MAX));
    overflowing.bets.push(bet("b", Prediction::Up, 1));
    overflowing.up_pool = i128::MAX;
    overflowing.total_pool = i128::MAX;
    assert!(!overflowing.is_well_formed());

    let mut half_settled = Round::new(1, 0, 100);
    half_settled.is_settled = true;
    assert!(!half_settled.is_well_formed());
    half_settled.end_price = Some(106);
    assert!(!half_settled.is_well_formed());
    half_settled.winning_prediction = Some(Prediction::Down);
    assert!(!half_settled.is_well_formed());
    half_settled.winning_prediction = Some(Prediction::Up);
    assert!(half_settled.is_well_formed());
    half_settled.is_settled = false;
    assert!(!half_settled.is_well_formed());
}
