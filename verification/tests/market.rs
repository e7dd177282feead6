use parimutuel::ledger::Credit;
use parimutuel::oracle::{read_price, read_prices, PriceData};
use parimutuel::outcome::Prediction;
use parimutuel::round::{Bet, Round};
use parimutuel::{Contract, Error, RollPolicy};

fn name(user: &str) -> String {
    user.to_string()
}

fn sample(price: i128, timestamp: u64) -> Option<PriceData> {
    Some(PriceData { price, timestamp })
}

/// A market with one round opened at 0 with the price 100, in which `a`
/// staked 100 on Up and `b` staked 100 on Down.
fn market_with_two_stakes() -> Contract {
    let mut market = Contract::new();
    assert_eq!(
        market.place_bet(0, name("a"), Prediction::Up, 100, 1000, sample(100, 0)),
        Ok(1)
    );
    assert_eq!(
        market.place_bet(10, name("b"), Prediction::Down, 100, 100, None),
        Ok(1)
    );
    market
}

#[test]
fn new_market_has_no_round() {
    let market = Contract::new();
    assert_eq!(market.get_total_rounds(), 0);
    assert_eq!(market.get_current_round_number(), 0);
    assert_eq!(market.get_current_round(), Err(Error::NoActiveRound));
    assert_eq!(market.get_round(0), None);
    assert_eq!(market.get_round(1), None);
    assert_eq!(market.get_round_stats(1), None);
    assert!(market.get_completed_rounds(10).is_empty());
    assert!(!market.is_betting_open(0));
    assert!(!market.is_round_ready_to_settle(1000));
    assert!(market.needs_new_round(0));
    assert_eq!(market.get_user_winnings(&name("a")), 0);
    assert_eq!(market.liabilities(), 0);
    assert_eq!(market.last_settle_time, None);
    assert!(market.is_well_formed());
}

#[test]
fn round_from_first_stake_to_claim() {
    let mut market = market_with_two_stakes();
    assert_eq!(market.get_round_stats(1), Some((200, 100, 100, 0)));
    assert_eq!(market.liabilities(), 200);
    assert!(market.is_betting_open(299));
    assert!(!market.is_betting_open(300));
    assert!(market.is_round_ready_to_settle(300));

    assert_eq!(
        market.settle_round(1, 300, sample(106, 300)),
        Ok(Prediction::Up)
    );
    let round = market.get_round(1).unwrap();
    assert!(round.is_settled);
    assert_eq!(round.start_price, 100);
    assert_eq!(round.end_price, Some(106));
    assert_eq!(round.winning_prediction, Some(Prediction::Up));
    assert_eq!(round.total_pool, 200);
    assert_eq!(
        round.payouts(),
        vec![Credit {
            user: name("a"),
            amount: 190
        }]
    );
    assert_eq!(market.get_user_winnings(&name("a")), 190);
    assert_eq!(market.get_user_winnings(&name("b")), 0);
    assert_eq!(market.last_settle_time, Some(300));
    assert_eq!(market.liabilities(), 190);

    assert_eq!(market.claim_winnings(301, &name("b"), None), Ok(0));
    assert_eq!(market.claim_winnings(301, &name("a"), None), Ok(190));
    assert_eq!(market.get_user_winnings(&name("a")), 0);
    assert_eq!(market.claim_winnings(302, &name("a"), None), Ok(0));
    assert_eq!(market.liabilities(), 0);
    assert!(market.is_well_formed());
}

#[test]
fn second_settlement_is_refused_and_changes_nothing() {
    let mut market = market_with_two_stakes();
    assert_eq!(
        market.settle_round(1, 300, sample(106, 300)),
        Ok(Prediction::Up)
    );
    let rounds = market.rounds.clone();
    let entries = market.ledger.entries.clone();
    assert_eq!(
        market.settle_round(1, 300, sample(106, 300)),
        Err(Error::RoundAlreadySettled)
    );
    assert_eq!(
        market.settle_round(1, 900, sample(1, 300)),
        Err(Error::RoundAlreadySettled)
    );
    assert_eq!(market.settle_round(1, 901, None), Err(Error::RoundAlreadySettled));
    assert_eq!(market.rounds, rounds);
    assert_eq!(market.ledger.entries, entries);
    assert_eq!(market.last_settle_time, Some(300));
    assert_eq!(market.get_user_winnings(&name("a")), 190);
}

#[test]
fn settlement_is_refused_with_its_reason() {
    let mut market = market_with_two_stakes();
    let before = market.rounds.clone();
    assert_eq!(
        market.settle_round(0, 300, sample(106, 300)),
        Err(Error::NoActiveRound)
    );
    assert_eq!(
        market.settle_round(2, 300, sample(106, 300)),
        Err(Error::NoActiveRound)
    );
    assert_eq!(
        market.settle_round(1, 299, sample(106, 300)),
        Err(Error::BettingClosed)
    );
    assert_eq!(market.settle_round(1, 300, None), Err(Error::NoPrice));
    assert_eq!(market.rounds, before);
    assert!(market.ledger.entries.is_empty());
    assert_eq!(market.last_settle_time, None);
    // The round is still open to settlement.
    assert_eq!(
        market.settle_round(1, 5000, sample(94, 300)),
        Ok(Prediction::Down)
    );
    assert_eq!(market.get_user_winnings(&name("b")), 190);
    assert_eq!(market.last_settle_time, Some(5000));
}

#[test]
fn stake_is_refused_with_its_reason() {
    let mut market = Contract::new();
    assert_eq!(
        market.place_bet(0, name("a"), Prediction::Up, 0, 1000, sample(100, 0)),
        Err(Error::InvalidAmount)
    );
    assert_eq!(
        market.place_bet(0, name("a"), Prediction::Up, -1, 1000, sample(100, 0)),
        Err(Error::InvalidAmount)
    );
    assert_eq!(
        market.place_bet(0, name("a"), Prediction::Up, 10, 1000, None),
        Err(Error::NoPrice)
    );
    assert_eq!(
        market.place_bet(0, name("a"), Prediction::Up, 10, 9, sample(100, 0)),
        Err(Error::InsufficientFunds)
    );
    // The amount is looked at first, then the price, then the balance.
    assert_eq!(
        market.place_bet(0, name("a"), Prediction::Up, 0, -5, None),
        Err(Error::InvalidAmount)
    );
    assert_eq!(
        market.place_bet(0, name("a"), Prediction::Up, 10, 9, None),
        Err(Error::NoPrice)
    );
    // Nothing was opened on the way.
    assert_eq!(market, Contract::new());
    // A stake of the whole balance is taken.
    assert_eq!(
        market.place_bet(0, name("a"), Prediction::Up, 10, 10, sample(100, 0)),
        Ok(1)
    );
    // With an open round no price is needed.
    assert_eq!(
        market.place_bet(1, name("a"), Prediction::Up, 10, 10, None),
        Ok(1)
    );
    assert_eq!(
        market.place_bet(1, name("a"), Prediction::Up, 11, 10, None),
        Err(Error::InsufficientFunds)
    );
    assert_eq!(market.get_round_stats(1), Some((20, 20, 0, 0)));
}

#[test]
fn stake_at_the_end_of_the_window_opens_a_new_round() {
    let mut market = market_with_two_stakes();
    let first = market.get_round(1).unwrap();
    assert!(!market.needs_new_round(299));
    assert!(market.needs_new_round(300));
    // Without a price the new round cannot be opened, and nothing changes.
    assert_eq!(
        market.place_bet(300, name("c"), Prediction::Stable, 5, 5, None),
        Err(Error::NoPrice)
    );
    assert_eq!(market.get_total_rounds(), 1);
    assert_eq!(
        market.place_bet(300, name("c"), Prediction::Stable, 5, 5, sample(106, 300)),
        Ok(2)
    );
    assert_eq!(market.get_total_rounds(), 2);
    assert_eq!(market.get_current_round_number(), 2);
    // The first round did not take the stake.
    assert_eq!(market.get_round(1), Some(first));
    let mut expected = Round::new(2, 300, 106);
    assert_eq!(
        expected.add_bet(
            300,
            Bet {
                user: name("c"),
                prediction: Prediction::Stable,
                amount: 5
            }
        ),
        Ok(())
    );
    assert_eq!(market.get_round(2), Some(expected.clone()));
    assert_eq!(market.get_current_round(), Ok(expected));
    assert_eq!(market.liabilities(), 205);
    // The first round can still be settled.
    assert_eq!(
        market.settle_round(1, 301, sample(100, 300)),
        Ok(Prediction::Stable)
    );
    assert_eq!(market.liabilities(), 5);
    assert!(market.is_well_formed());
}

#[test]
fn stake_after_settlement_opens_a_new_round() {
    let mut market = market_with_two_stakes();
    assert_eq!(
        market.settle_round(1, 300, sample(106, 300)),
        Ok(Prediction::Up)
    );
    assert!(market.needs_new_round(300));
    assert_eq!(
        market.place_bet(301, name("a"), Prediction::Down, 1, 1, sample(107, 301)),
        Ok(2)
    );
    assert_eq!(market.get_round(2).unwrap().start_price, 107);
    assert_eq!(market.get_round(2).unwrap().start_time, 301);
}

#[test]
fn round_without_winner_settles_and_pays_nobody() {
    let mut market = market_with_two_stakes();
    assert_eq!(
        market.settle_round(1, 300, sample(100, 300)),
        Ok(Prediction::Stable)
    );
    assert!(market.ledger.entries.is_empty());
    assert_eq!(market.get_user_winnings(&name("a")), 0);
    assert_eq!(market.get_user_winnings(&name("b")), 0);
    assert_eq!(market.claim_winnings(301, &name("a"), None), Ok(0));
    assert!(market.get_round(1).unwrap().is_settled);
    assert_eq!(market.liabilities(), 0);
}

#[test]
fn claim_settles_the_current_round_where_it_can() {
    let mut market = market_with_two_stakes();
    // Too early: nothing to settle, nothing to claim.
    assert_eq!(
        market.claim_winnings(299, &name("a"), sample(106, 300)),
        Ok(0)
    );
    assert!(!market.get_round(1).unwrap().is_settled);
    // Ready, but the oracle has no price: the claim still returns.
    assert_eq!(market.claim_winnings(300, &name("a"), None), Ok(0));
    assert!(!market.get_round(1).unwrap().is_settled);
    // Ready and priced: the round is settled and the claim pays.
    assert_eq!(
        market.claim_winnings(300, &name("a"), sample(106, 300)),
        Ok(190)
    );
    assert!(market.get_round(1).unwrap().is_settled);
    assert_eq!(market.last_settle_time, Some(300));
    assert_eq!(market.claim_winnings(300, &name("a"), sample(106, 300)), Ok(0));
}

#[test]
fn settle_if_ready_tells_what_it_did() {
    let mut market = Contract::new();
    assert!(!market.settle_if_ready(1000, sample(1, 1)));
    let mut market = market_with_two_stakes();
    assert!(!market.settle_if_ready(299, sample(106, 300)));
    assert!(!market.settle_if_ready(300, None));
    assert!(market.settle_if_ready(300, sample(106, 300)));
    assert!(!market.settle_if_ready(300, sample(106, 300)));
    assert_eq!(market.get_user_winnings(&name("a")), 190);
}

#[test]
fn winnings_add_up_over_rounds() {
    let mut market = market_with_two_stakes();
    assert_eq!(
        market.settle_round(1, 300, sample(106, 300)),
        Ok(Prediction::Up)
    );
    assert_eq!(
        market.place_bet(400, name("a"), Prediction::Down, 30, 30, sample(106, 400)),
        Ok(2)
    );
    assert_eq!(
        market.place_bet(401, name("a"), Prediction::Down, 10, 10, None),
        Ok(2)
    );
    assert_eq!(
        market.place_bet(402, name("b"), Prediction::Down, 60, 60, None),
        Ok(2)
    );
    assert_eq!(
        market.place_bet(403, name("c"), Prediction::Up, 100, 100, None),
        Ok(2)
    );
    assert_eq!(
        market.settle_round(2, 700, sample(53, 700)),
        Ok(Prediction::Down)
    );
    // total 200, distributable 190, winning pool 100: 57 + 19 for a, 114 for b
    assert_eq!(market.get_user_winnings(&name("a")), 190 + 57 + 19);
    assert_eq!(market.get_user_winnings(&name("b")), 114);
    assert_eq!(market.get_user_winnings(&name("c")), 0);
    assert_eq!(market.liabilities(), 190 + 190);
    assert_eq!(market.claim_winnings(701, &name("a"), None), Ok(266));
    assert_eq!(market.claim_winnings(701, &name("b"), None), Ok(114));
    assert_eq!(market.liabilities(), 0);
}

#[test]
fn explicit_new_round_becomes_the_current_one() {
    let mut market = Contract::new();
    assert_eq!(market.start_new_round(5, None), Err(Error::NoPrice));
    assert_eq!(market.get_total_rounds(), 0);
    assert_eq!(market.start_new_round(5, sample(100, 5)), Ok(1));
    assert_eq!(market.start_new_round(6, sample(101, 6)), Ok(2));
    assert_eq!(market.get_current_round_number(), 2);
    assert_eq!(market.get_current_round(), Ok(Round::new(2, 6, 101)));
    assert_eq!(market.get_round(1), Some(Round::new(1, 5, 100)));
    assert_eq!(
        market.place_bet(7, name("a"), Prediction::Up, 1, 1, None),
        Ok(2)
    );
    assert_eq!(market.get_round_stats(1), Some((0, 0, 0, 0)));
    assert_eq!(market.get_round_stats(2), Some((1, 1, 0, 0)));
}

#[test]
fn completed_rounds_among_the_latest() {
    let mut market = Contract::new();
    for number in 1..=5u32 {
        let now = (number as u64) * 1000;
        assert_eq!(market.start_new_round(now, sample(100, now)), Ok(number));
    }
    assert!(market.get_completed_rounds(10).is_empty());
    assert_eq!(
        market.settle_round(2, 10_000, sample(100, 2300)),
        Ok(Prediction::Stable)
    );
    assert_eq!(
        market.settle_round(4, 10_000, sample(100, 4300)),
        Ok(Prediction::Stable)
    );
    assert_eq!(
        market.settle_round(5, 10_000, sample(100, 5300)),
        Ok(Prediction::Stable)
    );
    assert_eq!(market.get_completed_rounds(10), vec![2, 4, 5]);
    assert_eq!(market.get_completed_rounds(5), vec![2, 4, 5]);
    assert_eq!(market.get_completed_rounds(4), vec![2, 4, 5]);
    assert_eq!(market.get_completed_rounds(3), vec![4, 5]);
    assert_eq!(market.get_completed_rounds(2), vec![4, 5]);
    assert_eq!(market.get_completed_rounds(1), vec![5]);
    assert!(market.get_completed_rounds(0).is_empty());
    assert_eq!(market.get_completed_rounds(u32::MAX), vec![2, 4, 5]);
}

#[test]
fn oracle_answers_are_read() {
    assert_eq!(Contract::get_current_ars_price(sample(1234, 9)), Ok(1234));
    assert_eq!(Contract::get_current_ars_price(None), Err(Error::NoPrice));
    assert_eq!(read_price(sample(-3, 9)), Ok(-3));
    assert_eq!(read_price(None), Err(Error::NoPrice));
    let records = vec![
        PriceData {
            price: 5,
            timestamp: 50,
        },
        PriceData {
            price: 4,
            timestamp: 40,
        },
        PriceData {
            price: 6,
            timestamp: 30,
        },
    ];
    assert_eq!(
        Contract::fetch_last_five_ars_prices(Some(records.clone())),
        Ok(vec![5, 4, 6])
    );
    assert_eq!(
        Contract::fetch_last_five_ars_prices(None),
        Err(Error::NoPrice)
    );
    assert_eq!(
        Contract::fetch_last_five_ars_prices(Some(Vec::new())),
        Ok(Vec::new())
    );
    assert_eq!(read_prices(Some(records)), Ok(vec![5, 4, 6]));
}

#[test]
fn malformed_markets_are_told_apart() {
    let mut market = market_with_two_stakes();
    assert!(market.is_well_formed());
    market.rounds[0].round_number = 2;
    assert!(!market.is_well_formed());
    market.rounds[0].round_number = 1;
    market.rounds[0].total_pool = 199;
    assert!(!market.is_well_formed());
    market.rounds[0].total_pool = 200;
    market.ledger.entries.push(Credit {
        user: name("a"),
        amount: -1,
    });
    assert!(!market.is_well_formed());
    market.ledger.entries[0].amount = i128::MAX - 199;
    assert!(!market.is_well_formed());
    market.ledger.entries[0].amount = i128::MAX - 200;
    assert!(market.is_well_formed());
}

#[test]
fn market_that_opens_no_round_by_itself_refuses_the_stake() {
    let mut market = Contract::with_policy(RollPolicy::Reject);
    assert_eq!(market.policy, RollPolicy::Reject);
    assert_eq!(Contract::new().policy, RollPolicy::OpenNext);
    assert_eq!(
        market.place_bet(0, name("a"), Prediction::Up, 10, 10, sample(100, 0)),
        Err(Error::NoActiveRound)
    );
    assert_eq!(
        market.place_bet(0, name("a"), Prediction::Up, 0, 10, sample(100, 0)),
        Err(Error::InvalidAmount)
    );
    assert_eq!(market, Contract::with_policy(RollPolicy::Reject));
    assert_eq!(market.start_new_round(0, sample(100, 0)), Ok(1));
    assert_eq!(
        market.place_bet(299, name("a"), Prediction::Up, 10, 10, None),
        Ok(1)
    );
    assert_eq!(
        market.place_bet(299, name("a"), Prediction::Up, 10, 9, None),
        Err(Error::InsufficientFunds)
    );
    assert_eq!(
        market.place_bet(300, name("a"), Prediction::Up, 10, 10, sample(100, 300)),
        Err(Error::BettingClosed)
    );
    assert_eq!(market.get_total_rounds(), 1);
    assert_eq!(market.get_round_stats(1), Some((10, 10, 0, 0)));
    assert_eq!(
        market.settle_round(1, 300, sample(100, 300)),
        Ok(Prediction::Stable)
    );
    assert_eq!(
        market.place_bet(301, name("a"), Prediction::Up, 10, 10, sample(100, 301)),
        Err(Error::BettingClosed)
    );
    assert_eq!(market.start_new_round(301, sample(100, 301)), Ok(2));
    assert_eq!(
        market.place_bet(301, name("a"), Prediction::Up, 10, 10, None),
        Ok(2)
    );
    assert!(market.is_well_formed());
}
