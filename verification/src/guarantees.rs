//! What holds of the market across its operations.

use crate::contract::{lemma_settle_wf, ContractView};
use crate::error::Error;
use crate::ledger::{second_claim_is_empty, CreditView};
use crate::oracle::PriceData;
use crate::outcome::Prediction;
use crate::round::{no_winner_no_payout, BetView};
use vstd::prelude::*;

verus! {

/// Settling a round is final: once it has succeeded, every further attempt
/// on that round is refused as already settled and leaves the market
/// exactly as it was.
pub proof fn settlement_is_final(
    market: ContractView,
    round_number: int,
    now: nat,
    sample: Option<PriceData>,
    later: nat,
    again: Option<PriceData>,
)
    requires
        market.wf(),
        market.settle_outcome(round_number, now as int, sample) is Ok,
    ensures
        market.after_settle(round_number, now, sample).settle_outcome(
            round_number,
            later as int,
            again,
        ) == Err::<Prediction, Error>(Error::RoundAlreadySettled),
        market.after_settle(round_number, now, sample).after_settle(round_number, later, again)
            == market.after_settle(round_number, now, sample),
{
}

/// A stake never reaches a round whose window has ended: whatever an
/// attempt to place a stake at `now` does, it leaves every round that does
/// not take stakes at `now` exactly as it was.
pub proof fn closed_rounds_take_no_stake(
    market: ContractView,
    now: nat,
    bet: BetView,
    balance: int,
    sample: Option<PriceData>,
    i: int,
)
    requires
        market.wf(),
        0 <= i < market.rounds.len(),
        !market.rounds[i].accepts_at(now as int),
    ensures
        market.after_place_bet(now, bet, balance, sample).rounds[i] == market.rounds[i],
{
}

/// Where nobody predicted what came, the settlement succeeds and pays
/// nobody: every balance stays what it was.
pub proof fn settlement_without_winner_pays_nobody(
    market: ContractView,
    round_number: int,
    now: nat,
    sample: Option<PriceData>,
)
    requires
        market.wf(),
        market.settle_outcome(round_number, now as int, sample) is Ok,
        market.rounds[round_number - 1].settled_at(sample->0.price as int).winning_pool() == 0,
    ensures
        market.after_settle(round_number, now, sample).ledger == market.ledger,
        market.after_settle(round_number, now, sample).rounds[round_number - 1].credits()
            == Seq::<CreditView>::empty(),
{
    let settled = market.rounds[round_number - 1].settled_at(sample->0.price as int);
    no_winner_no_payout(settled, Seq::<char>::empty());
}

/// A claim resets the balance once: a second claim, with no settlement in
/// between that could credit anything, hands out zero and changes nothing.
pub proof fn repeated_claim_is_empty(
    market: ContractView,
    now: nat,
    user: Seq<char>,
    sample: Option<PriceData>,
    later: nat,
    again: Option<PriceData>,
)
    requires
        market.wf(),
        market.after_claim(now, user, sample).settle_outcome(
            market.rounds.len() as int,
            later as int,
            again,
        ) is Err,
    ensures
        market.after_claim(now, user, sample).claim_amount(later, user, again) == 0,
        market.after_claim(now, user, sample).after_claim(later, user, again) == market.after_claim(
            now,
            user,
            sample,
        ),
{
    let count = market.rounds.len() as int;
    let settled = market.after_settle(count, now, sample);
    if market.settle_outcome(count, now as int, sample) is Ok {
        lemma_settle_wf(market, count, now, sample);
    }
    assert(settled.wf());
    second_claim_is_empty(settled.ledger, user);
    let once = market.after_claim(now, user, sample);
    assert(once.rounds.len() == count);
    assert(once.after_settle(count, later, again) == once);
}

/// No operation touches a settled round: a stake, a settlement or a claim
/// leaves every round that is settled exactly as it was, with its prices and
/// its outcome.
pub proof fn settled_rounds_never_change(
    market: ContractView,
    i: int,
    now: nat,
    bet: BetView,
    balance: int,
    sample: Option<PriceData>,
    round_number: int,
    user: Seq<char>,
)
    requires
        market.wf(),
        0 <= i < market.rounds.len(),
        market.rounds[i].is_settled,
    ensures
        market.after_place_bet(now, bet, balance, sample).rounds[i] == market.rounds[i],
        market.after_settle(round_number, now, sample).rounds[i] == market.rounds[i],
        market.after_claim(now, user, sample).rounds[i] == market.rounds[i],
{
}

/// No operation removes or renumbers a round or changes the time and the
/// price at which it was opened.
pub proof fn rounds_keep_their_start(
    market: ContractView,
    i: int,
    now: nat,
    bet: BetView,
    balance: int,
    sample: Option<PriceData>,
    round_number: int,
    user: Seq<char>,
)
    requires
        market.wf(),
        0 <= i < market.rounds.len(),
    ensures
        ({
            let after = market.after_place_bet(now, bet, balance, sample);
            &&& after.rounds.len() >= market.rounds.len()
            &&& after.rounds[i].round_number == market.rounds[i].round_number
            &&& after.rounds[i].start_time == market.rounds[i].start_time
            &&& after.rounds[i].start_price == market.rounds[i].start_price
        }),
        ({
            let after = market.after_settle(round_number, now, sample);
            &&& after.rounds.len() == market.rounds.len()
            &&& after.rounds[i].round_number == market.rounds[i].round_number
            &&& after.rounds[i].start_time == market.rounds[i].start_time
            &&& after.rounds[i].start_price == market.rounds[i].start_price
            &&& after.rounds[i].bets == market.rounds[i].bets
            &&& after.rounds[i].total_pool == market.rounds[i].total_pool
        }),
        ({
            let after = market.after_claim(now, user, sample);
            &&& after.rounds.len() == market.rounds.len()
            &&& after.rounds[i].round_number == market.rounds[i].round_number
            &&& after.rounds[i].start_time == market.rounds[i].start_time
            &&& after.rounds[i].start_price == market.rounds[i].start_price
            &&& after.rounds[i].bets == market.rounds[i].bets
            &&& after.rounds[i].total_pool == market.rounds[i].total_pool
        }),
{
}

} // verus!
