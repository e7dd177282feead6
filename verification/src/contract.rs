//! The market: a sequence of rounds and the ledger of winnings, with the
//! operations that its participants ask for.

use crate::error::Error;
use crate::ledger::{
    balance_in, claimed, credited_all, entries_wf, entry_amounts, lemma_credited_all, total_in,
    CreditView, WinningsLedger,
};
use crate::oracle::{price_in, read_price, read_prices, PriceData};
use crate::outcome::Prediction;
use crate::round::{
    lemma_credits_carry_shares, lemma_with_bet_wf, no_winner_no_payout, payouts_within_distributable,
    pools_add_up, settle_result, stake_amounts, stakes_on, Bet, BetView, Round, RoundView, WINDOW,
};
use crate::sums::{lemma_sum_bounds, lemma_sum_push, lemma_sum_take, lemma_sum_update, sum};
use vstd::prelude::*;

verus! {

/// What a market does with a stake that finds no round open to it.
#[derive(Copy, Clone, Debug, PartialEq, Eq, Structural)]
pub enum RollPolicy {
    /// The market opens the next round and puts the stake there.
    OpenNext,
    /// The market refuses the stake. Rounds are opened on request only.
    Reject,
}

/// The market: its rounds, numbered from one in the order in which they were
/// opened, and what its participants have won and not yet claimed. The last
/// round is the current one.
#[derive(Debug, PartialEq, Eq)]
pub struct Contract {
    /// What becomes of a stake that finds no round open to it.
    pub policy: RollPolicy,
    pub rounds: Vec<Round>,
    pub ledger: WinningsLedger,
    /// The time of the latest settlement, if there was one.
    pub last_settle_time: Option<u64>,
}

/// The market as a mathematical value.
pub struct ContractView {
    pub policy: RollPolicy,
    pub rounds: Seq<RoundView>,
    pub ledger: Seq<CreditView>,
    pub last_settle_time: Option<nat>,
}

/// The views of a sequence of rounds.
pub open spec fn round_views(rounds: Seq<Round>) -> Seq<RoundView> {
    Seq::new(rounds.len(), |i: int| rounds[i]@)
}

/// For each round what it still holds for its participants: its pool while
/// it is not settled, nothing afterwards.
pub open spec fn open_pools(rounds: Seq<RoundView>) -> Seq<int> {
    Seq::new(
        rounds.len(),
        |i: int|
            if rounds[i].is_settled {
                0
            } else {
                rounds[i].total_pool
            },
    )
}

impl View for Contract {
    type V = ContractView;

    open spec fn view(&self) -> ContractView {
        ContractView {
            policy: self.policy,
            rounds: round_views(self.rounds@),
            ledger: self.ledger@,
            last_settle_time: match self.last_settle_time {
                Some(time) => Some(time as nat),
                None => None,
            },
        }
    }
}

impl ContractView {
    /// A market without rounds that owes nothing.
    pub open spec fn empty(policy: RollPolicy) -> ContractView {
        ContractView { policy, rounds: Seq::empty(), ledger: Seq::empty(), last_settle_time: None }
    }

    /// What the market holds for its participants: the winnings that were
    /// not claimed and the pools of the rounds that are not settled.
    pub open spec fn liabilities(self) -> int {
        total_in(self.ledger) + sum(open_pools(self.rounds))
    }

    /// What the market keeps true: its rounds are well formed and numbered
    /// from one, its ledger is well formed, and what it holds for its
    /// participants fits in `i128`.
    pub open spec fn wf(self) -> bool {
        &&& self.rounds.len() <= u32::MAX
        &&& forall|i: int|
            0 <= i < self.rounds.len() ==> (#[trigger] self.rounds[i]).wf()
                && self.rounds[i].round_number == i + 1
        &&& entries_wf(self.ledger)
        &&& self.liabilities() <= i128::MAX
    }

    /// The round under `round_number`, where there is one.
    pub open spec fn round(self, round_number: int) -> Option<RoundView> {
        if 1 <= round_number <= self.rounds.len() {
            Some(self.rounds[round_number - 1])
        } else {
            None
        }
    }

    /// Whether a stake at `now` needs a new round: there is none yet, or the
    /// current one is settled or past its window.
    pub open spec fn needs_new_round(self, now: int) -> bool {
        self.rounds.len() == 0 || !self.rounds.last().accepts_at(now)
    }

    /// The market after a new round was opened at `now` with the price
    /// `price`: the round gets the next number and becomes the current one.
    pub open spec fn with_new_round(self, now: nat, price: int) -> ContractView {
        ContractView {
            rounds: self.rounds.push(RoundView::opened(self.rounds.len() + 1, now, price)),
            ..self
        }
    }

    /// How an attempt to open a new round ends: with its number, or with
    /// `NoPrice` where the oracle had no price to start from.
    pub open spec fn start_result(self, sample: Option<PriceData>) -> Result<u32, Error> {
        match sample {
            Some(record) => Ok((self.rounds.len() + 1) as u32),
            None => Err(Error::NoPrice),
        }
    }

    /// Whether a stake at `now` makes the market open a new round.
    pub open spec fn opens_round(self, now: int) -> bool {
        self.needs_new_round(now) && self.policy is OpenNext
    }

    /// How an attempt to stake `amount` at `now` ends, for a participant
    /// with `balance` at their disposal: with the number of the round that
    /// takes the stake, or with the first of the errors that applies. A
    /// stake that is not positive is `InvalidAmount`. Where no round is open
    /// to the stake and the market opens none by itself, the error is
    /// `NoActiveRound` if there is no round at all and `BettingClosed`
    /// otherwise. Where a new round is to be opened and the oracle had no
    /// price to start it from, the error is `NoPrice`. A stake beyond the
    /// balance is `InsufficientFunds`.
    pub open spec fn place_bet_result(
        self,
        now: int,
        amount: int,
        balance: int,
        sample: Option<PriceData>,
    ) -> Result<u32, Error> {
        if amount <= 0 {
            Err(Error::InvalidAmount)
        } else if self.needs_new_round(now) && self.policy is Reject {
            if self.rounds.len() == 0 {
                Err(Error::NoActiveRound)
            } else {
                Err(Error::BettingClosed)
            }
        } else if self.needs_new_round(now) && sample is None {
            Err(Error::NoPrice)
        } else if amount > balance {
            Err(Error::InsufficientFunds)
        } else if self.needs_new_round(now) {
            Ok((self.rounds.len() + 1) as u32)
        } else {
            Ok(self.rounds.len() as u32)
        }
    }

    /// The market after an attempt to place `bet` at `now`. Where the
    /// attempt fails nothing changes. Otherwise a new round is opened first
    /// where one is needed, and the current round takes the stake.
    pub open spec fn after_place_bet(
        self,
        now: nat,
        bet: BetView,
        balance: int,
        sample: Option<PriceData>,
    ) -> ContractView {
        if self.place_bet_result(now as int, bet.amount, balance, sample) is Ok {
            let base = if self.needs_new_round(now as int) {
                self.with_new_round(now, sample->0.price as int)
            } else {
                self
            };
            let last = base.rounds.len() - 1;
            ContractView { rounds: base.rounds.update(last, base.rounds[last].with_bet(bet)), ..base }
        } else {
            self
        }
    }

    /// How an attempt to settle the round under `round_number` at `now`
    /// ends: with the prediction that won, with `NoActiveRound` where there
    /// is no such round, or as the round itself refuses.
    pub open spec fn settle_outcome(
        self,
        round_number: int,
        now: int,
        sample: Option<PriceData>,
    ) -> Result<Prediction, Error> {
        match self.round(round_number) {
            Some(round) => settle_result(round, now, sample),
            None => Err(Error::NoActiveRound),
        }
    }

    /// The market after an attempt to settle the round under
    /// `round_number` at `now`. Where the attempt fails nothing changes.
    /// Otherwise the round is settled at the sampled price, what it owes is
    /// credited in the order of its stakes, and the time is noted.
    pub open spec fn after_settle(
        self,
        round_number: int,
        now: nat,
        sample: Option<PriceData>,
    ) -> ContractView {
        if self.settle_outcome(round_number, now as int, sample) is Ok {
            let settled = self.rounds[round_number - 1].settled_at(sample->0.price as int);
            ContractView {
                rounds: self.rounds.update(round_number - 1, settled),
                ledger: credited_all(self.ledger, settled.credits()),
                last_settle_time: Some(now),
                ..self
            }
        } else {
            self
        }
    }

    /// The market after a claim of `user` at `now`: the current round is
    /// settled first where it is ready and the oracle has its price, then the
    /// participant's balance is reset.
    pub open spec fn after_claim(
        self,
        now: nat,
        user: Seq<char>,
        sample: Option<PriceData>,
    ) -> ContractView {
        let settled = self.after_settle(self.rounds.len() as int, now, sample);
        ContractView { ledger: claimed(settled.ledger, user), ..settled }
    }

    /// What a claim of `user` at `now` hands out: the balance after the
    /// current round was settled where it could be.
    pub open spec fn claim_amount(
        self,
        now: nat,
        user: Seq<char>,
        sample: Option<PriceData>,
    ) -> int {
        balance_in(self.after_settle(self.rounds.len() as int, now, sample).ledger, user)
    }
}

/// A settlement keeps the market well formed, adds nothing to what it holds
/// for its participants, and gives each participant what the round pays
/// them.
pub proof fn lemma_settle_wf(
    market: ContractView,
    round_number: int,
    now: nat,
    sample: Option<PriceData>,
)
    requires
        market.wf(),
        market.settle_outcome(round_number, now as int, sample) is Ok,
    ensures
        market.after_settle(round_number, now, sample).wf(),
        market.after_settle(round_number, now, sample).liabilities() <= market.liabilities(),
        market.rounds[round_number - 1].settled_at(sample->0.price as int).wf(),
        total_in(market.ledger) + total_in(
            market.rounds[round_number - 1].settled_at(sample->0.price as int).credits(),
        ) <= i128::MAX,
        forall|user: Seq<char>|
            balance_in(market.after_settle(round_number, now, sample).ledger, user) == balance_in(
                market.ledger,
                user,
            ) + market.rounds[round_number - 1].settled_at(sample->0.price as int).winnings_of(
                user,
            ),
{
    let at = round_number - 1;
    let round = market.rounds[at];
    let settled = round.settled_at(sample->0.price as int);
    let after = market.after_settle(round_number, now, sample);
    assert(round.wf());
    assert(settled.wf());
    pools_add_up(settled);
    lemma_pool_within_liabilities(market, at);
    lemma_round_replaced(market, at, settled);
    lemma_credits_carry_shares(settled, Seq::<char>::empty());
    if settled.winning_pool() > 0 {
        payouts_within_distributable(settled);
    } else {
        no_winner_no_payout(settled, Seq::<char>::empty());
    }
    assert(settled.paid_out() <= round.total_pool);
    assert(open_pools(market.rounds)[at] == round.total_pool);
    lemma_credited_all(market.ledger, settled.credits());
    assert forall|user: Seq<char>|
        balance_in(after.ledger, user) == balance_in(market.ledger, user) + settled.winnings_of(
            user,
        ) by {
        lemma_credits_carry_shares(settled, user);
    }
}

impl ContractView {
    /// The numbers of the settled rounds among those from `first` to
    /// `last`, in rising order.
    pub open spec fn completed_between(self, first: nat, last: nat) -> Seq<u32>
        decreases last,
    {
        if last < first || last == 0 {
            Seq::empty()
        } else {
            let before = self.completed_between(first, (last - 1) as nat);
            if last <= self.rounds.len() && self.rounds[last - 1].is_settled {
                before.push(last as u32)
            } else {
                before
            }
        }
    }

    /// The number of the first of the latest `limit` rounds, and one where
    /// there are no more rounds than that.
    pub open spec fn first_listed(self, limit: nat) -> nat {
        if self.rounds.len() > limit {
            (self.rounds.len() - limit + 1) as nat
        } else {
            1
        }
    }
}

/// Opening a round keeps the market well formed and adds nothing to what it
/// holds for its participants.
pub proof fn lemma_new_round_wf(market: ContractView, now: nat, price: int)
    requires
        market.wf(),
        market.rounds.len() < u32::MAX,
        now + WINDOW <= u64::MAX,
        price > 0,
    ensures
        market.with_new_round(now, price).wf(),
        market.with_new_round(now, price).liabilities() == market.liabilities(),
{
    let after = market.with_new_round(now, price);
    let opened = RoundView::opened(market.rounds.len() + 1, now, price);
    assert(opened.wf()) by {
        assert(stakes_on(opened.bets, Prediction::Up) =~= Seq::<int>::empty());
        assert(stakes_on(opened.bets, Prediction::Down) =~= Seq::<int>::empty());
        assert(stakes_on(opened.bets, Prediction::Stable) =~= Seq::<int>::empty());
        assert(stake_amounts(opened.bets) =~= Seq::<int>::empty());
    }
    assert(open_pools(after.rounds) =~= open_pools(market.rounds).push(0));
    lemma_sum_push(open_pools(market.rounds), 0);
    assert forall|i: int| 0 <= i < after.rounds.len() implies (#[trigger] after.rounds[i]).wf()
        && after.rounds[i].round_number == i + 1 by {
        if i < market.rounds.len() {
            assert(after.rounds[i] == market.rounds[i]);
        }
    }
}

/// In a well-formed market no pool of an open round exceeds what the market
/// holds for its participants, and neither part of that is negative.
pub proof fn lemma_pool_within_liabilities(market: ContractView, i: int)
    requires
        market.wf(),
        0 <= i < market.rounds.len(),
    ensures
        0 <= total_in(market.ledger),
        0 <= sum(open_pools(market.rounds)),
        !market.rounds[i].is_settled ==> market.rounds[i].total_pool <= sum(
            open_pools(market.rounds),
        ),
{
    let pools = open_pools(market.rounds);
    assert forall|k: int| 0 <= k < pools.len() implies pools[k] >= 0 by {
        assert(market.rounds[k].wf());
        pools_add_up(market.rounds[k]);
    }
    lemma_sum_bounds(pools);
    assert(pools[i] == if market.rounds[i].is_settled {
        0
    } else {
        market.rounds[i].total_pool
    });
    let amounts = entry_amounts(market.ledger);
    assert forall|k: int| 0 <= k < amounts.len() implies amounts[k] >= 0 by {
        assert(market.ledger[k].amount >= 0);
    }
    lemma_sum_bounds(amounts);
}

/// Replacing a round by a well-formed one under the same number keeps the
/// rounds well formed, and changes what the rounds hold by the difference
/// between what the two rounds hold.
pub proof fn lemma_round_replaced(market: ContractView, i: int, round: RoundView)
    requires
        market.wf(),
        0 <= i < market.rounds.len(),
        round.wf(),
        round.round_number == i + 1,
    ensures
        forall|k: int|
            0 <= k < market.rounds.len() ==> (#[trigger] market.rounds.update(i, round)[k]).wf()
                && market.rounds.update(i, round)[k].round_number == k + 1,
        sum(open_pools(market.rounds.update(i, round))) == sum(open_pools(market.rounds))
            - open_pools(market.rounds)[i] + (if round.is_settled {
            0
        } else {
            round.total_pool
        }),
{
    let after = market.rounds.update(i, round);
    let held = if round.is_settled {
        0
    } else {
        round.total_pool
    };
    assert(open_pools(after) =~= open_pools(market.rounds).update(i, held));
    lemma_sum_update(open_pools(market.rounds), i, held);
    assert forall|k: int| 0 <= k < market.rounds.len() implies (#[trigger] after[k]).wf()
        && after[k].round_number == k + 1 by {
        if k != i {
            assert(after[k] == market.rounds[k]);
        }
    }
}

impl Contract {
    /// See [`ContractView::wf`].
    pub open spec fn wf(&self) -> bool {
        self@.wf()
    }

    /// A market without rounds that owes nothing, and that opens the next
    /// round by itself whenever a stake needs one.
    pub fn new() -> (market: Contract)
        ensures
            market@ == ContractView::empty(RollPolicy::OpenNext),
            market.wf(),
    {
        Contract::with_policy(RollPolicy::OpenNext)
    }

    /// A market without rounds that owes nothing, with the given policy for
    /// stakes that find no round open to them.
    pub fn with_policy(policy: RollPolicy) -> (market: Contract)
        ensures
            market@ == ContractView::empty(policy),
            market.wf(),
    {
        let market = Contract {
            policy,
            rounds: Vec::new(),
            ledger: WinningsLedger::new(),
            last_settle_time: None,
        };
        proof {
            assert(market@.rounds =~= Seq::<RoundView>::empty());
            assert(open_pools(market@.rounds) =~= Seq::<int>::empty());
        }
        market
    }

    /// Returns how many rounds were opened so far.
    pub fn get_total_rounds(&self) -> (count: u32)
        requires
            self.wf(),
        ensures
            count == self@.rounds.len(),
    {
        self.rounds.len() as u32
    }

    /// Returns the number of the current round: that of the round opened
    /// last, or zero where none was opened yet.
    pub fn get_current_round_number(&self) -> (number: u32)
        requires
            self.wf(),
        ensures
            number == self@.rounds.len(),
    {
        self.rounds.len() as u32
    }

    /// Tells whether a stake at `now` needs a new round.
    pub fn needs_new_round(&self, now: u64) -> (needed: bool)
        requires
            self.wf(),
        ensures
            needed == self@.needs_new_round(now as int),
    {
        let count = self.rounds.len();
        if count == 0 {
            true
        } else {
            assert(self@.rounds[count - 1] == self.rounds@[count - 1]@);
            assert(self@.rounds[count - 1].wf());
            !self.rounds[count - 1].accepts_bets(now)
        }
    }

    /// Returns what the market holds for its participants: the winnings that
    /// were not claimed and the pools of the rounds that are not settled.
    pub fn liabilities(&self) -> (held: i128)
        requires
            self.wf(),
        ensures
            held == self@.liabilities(),
            held >= 0,
    {
        proof {
            if self@.rounds.len() > 0 {
                lemma_pool_within_liabilities(self@, 0);
            } else {
                assert(open_pools(self@.rounds) =~= Seq::<int>::empty());
                let amounts = entry_amounts(self@.ledger);
                assert forall|k: int| 0 <= k < amounts.len() implies amounts[k] >= 0 by {
                    assert(self@.ledger[k].amount >= 0);
                }
                lemma_sum_bounds(amounts);
            }
        }
        self.checked_liabilities().unwrap()
    }

    /// Stakes `amount` for `user` on `prediction` at `now`. `balance` is what
    /// the participant has at their disposal, and `sample` the oracle's
    /// answer for the current price, which is needed only where a new round
    /// has to be opened.
    ///
    /// The stake goes to the current round. Where that round is settled or
    /// past its window, or there is none yet, the policy of the market
    /// decides: a new round is opened first, or the stake is refused.
    /// Returns the number of the round that took the stake: the caller then
    /// moves `amount` from the participant into escrow. Where the attempt
    /// fails, the market is left as it was.
    pub fn place_bet(
        &mut self,
        now: u64,
        user: String,
        prediction: Prediction,
        amount: i128,
        balance: i128,
        sample: Option<PriceData>,
    ) -> (placed: Result<u32, Error>)
        requires
            old(self).wf(),
            sample matches Some(record) ==> record.price > 0,
            old(self)@.opens_round(now as int) ==> old(self)@.rounds.len() < u32::MAX && now + WINDOW
                <= u64::MAX,
            old(self)@.liabilities() + amount <= i128::MAX,
        ensures
            final(self).wf(),
            placed == old(self)@.place_bet_result(now as int, amount as int, balance as int, sample),
            final(self)@ == old(self)@.after_place_bet(
                now as nat,
                (BetView { user: user@, prediction, amount: amount as int }),
                balance as int,
                sample,
            ),
            placed is Ok ==> final(self)@.liabilities() == old(self)@.liabilities() + amount,
    {
        if amount <= 0 {
            return Err(Error::InvalidAmount);
        }
        let fresh = self.needs_new_round(now);
        if fresh {
            match self.policy {
                RollPolicy::Reject => {
                    if self.rounds.len() == 0 {
                        return Err(Error::NoActiveRound);
                    } else {
                        return Err(Error::BettingClosed);
                    }
                },
                RollPolicy::OpenNext => {
                    if sample.is_none() {
                        return Err(Error::NoPrice);
                    }
                },
            }
        }
        if amount > balance {
            return Err(Error::InsufficientFunds);
        }
        let ghost before = self@;
        if fresh {
            let started = self.start_new_round(now, sample);
            assert(started is Ok);
        }
        let ghost base = self@;
        let last = self.rounds.len() - 1;
        let bet = Bet { user, prediction, amount };
        proof {
            assert(base.rounds[last as int] == self.rounds@[last as int]@);
            assert(base.rounds[last as int].wf());
            assert(base.rounds[last as int].accepts_at(now as int));
            lemma_pool_within_liabilities(base, last as int);
            if fresh {
                lemma_new_round_wf(before, now as nat, sample->0.price as int);
            }
            lemma_with_bet_wf(base.rounds[last as int], bet@);
            lemma_round_replaced(base, last as int, base.rounds[last as int].with_bet(bet@));
        }
        let added = self.rounds[last].add_bet(now, bet);
        assert(added is Ok);
        assert(self@.rounds =~= base.rounds.update(
            last as int,
            base.rounds[last as int].with_bet(bet@),
        ));
        Ok(self.rounds.len() as u32)
    }

    /// Opens a new round at `now` with the oracle's answer for the current
    /// price, and returns its number. Without a price no round is opened and
    /// the error is `NoPrice`.
    pub fn start_new_round(&mut self, now: u64, sample: Option<PriceData>) -> (started: Result<
        u32,
        Error,
    >)
        requires
            old(self).wf(),
            old(self)@.rounds.len() < u32::MAX,
            now + WINDOW <= u64::MAX,
            sample matches Some(record) ==> record.price > 0,
        ensures
            final(self).wf(),
            started == old(self)@.start_result(sample),
            started is Ok ==> final(self)@ == old(self)@.with_new_round(
                now as nat,
                sample->0.price as int,
            ),
            started is Err ==> final(self)@ == old(self)@,
    {
        let price = match read_price(sample) {
            Ok(price) => price,
            Err(error) => {
                return Err(error);
            },
        };
        let number: u32 = self.rounds.len() as u32 + 1;
        proof {
            lemma_new_round_wf(self@, now as nat, price as int);
        }
        let ghost before = self@;
        self.rounds.push(Round::new(number, now, price));
        assert(self@.rounds =~= before.with_new_round(now as nat, price as int).rounds);
        Ok(number)
    }
}

impl Contract {
    /// Settles the round under `round_number` at `now`. `sample` is the
    /// oracle's answer for the price at the end of that round's window.
    ///
    /// Anybody may ask for this at any time. Without such a round the error
    /// is `NoActiveRound`; a settled round is refused with
    /// `RoundAlreadySettled`, one whose window has not ended with
    /// `BettingClosed`, and a missing price with `NoPrice`. The market is then
    /// left as it was, and the attempt can be repeated. Otherwise the round
    /// is settled for good, each stake on the prediction that won is
    /// credited with its share of the pool after the fee, and the prediction
    /// that won is returned.
    pub fn settle_round(&mut self, round_number: u32, now: u64, sample: Option<PriceData>) -> (settled:
        Result<Prediction, Error>)
        requires
            old(self).wf(),
        ensures
            final(self).wf(),
            settled == old(self)@.settle_outcome(round_number as int, now as int, sample),
            final(self)@ == old(self)@.after_settle(round_number as int, now as nat, sample),
            final(self)@.liabilities() <= old(self)@.liabilities(),
            settled is Ok ==> (forall|user: Seq<char>|
                final(self).ledger.balance(user) == old(self).ledger.balance(user)
                    + final(self)@.rounds[round_number - 1].winnings_of(user)),
    {
        if round_number == 0 || round_number as usize > self.rounds.len() {
            return Err(Error::NoActiveRound);
        }
        let at = (round_number - 1) as usize;
        let ghost before = self@;
        assert(before.rounds[at as int] == self.rounds@[at as int]@);
        assert(before.rounds[at as int].wf());
        let outcome = self.rounds[at].settle(now, sample);
        match outcome {
            Err(error) => {
                assert(self@.rounds =~= before.rounds);
                Err(error)
            },
            Ok(won) => {
                proof {
                    lemma_settle_wf(before, round_number as int, now as nat, sample);
                }
                let ghost settled = before.rounds[at as int].settled_at(sample->0.price as int);
                assert(self.rounds@[at as int]@ == settled);
                assert(round_views(self.rounds@) =~= before.rounds.update(at as int, settled));
                let credits = self.rounds[at].payouts();
                proof {
                    lemma_credits_carry_shares(settled, Seq::<char>::empty());
                    assert forall|i: int| 0 <= i < credits@.len() implies (
                    #[trigger] credits@[i]).amount >= 0 by {
                        assert(settled.credits()[i] == credits@[i]@);
                    }
                }
                self.ledger.credit_all(&credits);
                self.last_settle_time = Some(now);
                Ok(won)
            },
        }
    }

    /// Settles the current round where it is ready and the oracle has its
    /// price, and tells whether it did. Where it cannot, nothing changes and
    /// nothing is reported as an error.
    pub fn settle_if_ready(&mut self, now: u64, sample: Option<PriceData>) -> (settled: bool)
        requires
            old(self).wf(),
        ensures
            final(self).wf(),
            settled == (old(self)@.settle_outcome(
                old(self)@.rounds.len() as int,
                now as int,
                sample,
            ) is Ok),
            final(self)@ == old(self)@.after_settle(
                old(self)@.rounds.len() as int,
                now as nat,
                sample,
            ),
            final(self)@.liabilities() <= old(self)@.liabilities(),
    {
        let current = self.get_current_round_number();
        match self.settle_round(current, now, sample) {
            Ok(_) => true,
            Err(_) => false,
        }
    }

    /// Hands out what `user` has won: settles the current round first where
    /// it is ready and `sample`, the oracle's answer for the price at the end
    /// of its window, holds a price; then returns the participant's balance
    /// and resets it to zero. The caller moves the returned amount out of
    /// escrow. A claim never fails: where nothing is owed it returns zero,
    /// and a settlement that cannot be made is left for later.
    pub fn claim_winnings(&mut self, now: u64, user: &String, sample: Option<PriceData>) -> (paid:
        Result<i128, Error>)
        requires
            old(self).wf(),
        ensures
            final(self).wf(),
            paid matches Ok(amount) && amount == old(self)@.claim_amount(
                now as nat,
                user@,
                sample,
            ) && amount >= 0,
            final(self)@ == old(self)@.after_claim(now as nat, user@, sample),
            final(self).ledger.balance(user@) == 0,
            final(self)@.liabilities() <= old(self)@.liabilities() - paid->Ok_0,
    {
        self.settle_if_ready(now, sample);
        let amount = self.ledger.claim(user);
        Ok(amount)
    }

    /// Returns what `user` has won and not claimed.
    pub fn get_user_winnings(&self, user: &String) -> (amount: i128)
        requires
            self.wf(),
        ensures
            amount == self.ledger.balance(user@),
            amount >= 0,
    {
        self.ledger.get_balance(user)
    }

    /// Returns a copy of the round under `round_number`, where there is one.
    pub fn get_round(&self, round_number: u32) -> (found: Option<Round>)
        ensures
            found is Some <==> self@.round(round_number as int) is Some,
            found matches Some(round) ==> Some(round@) == self@.round(round_number as int),
    {
        if round_number == 0 || round_number as usize > self.rounds.len() {
            None
        } else {
            let at = (round_number - 1) as usize;
            assert(self@.rounds[at as int] == self.rounds@[at as int]@);
            Some(self.rounds[at].clone())
        }
    }

    /// Returns a copy of the current round, or `NoActiveRound` where no round
    /// was opened yet.
    pub fn get_current_round(&self) -> (found: Result<Round, Error>)
        ensures
            self@.rounds.len() == 0 ==> (found matches Err(error) && error == Error::NoActiveRound),
            self@.rounds.len() > 0 ==> (found matches Ok(round) && round@ == self@.rounds.last()),
    {
        let count = self.rounds.len();
        if count == 0 {
            Err(Error::NoActiveRound)
        } else {
            assert(self@.rounds[count - 1] == self.rounds@[count - 1]@);
            Ok(self.rounds[count - 1].clone())
        }
    }

    /// Returns the total pool of the round under `round_number` and its
    /// pools of Up, Down and Stable, where there is such a round.
    pub fn get_round_stats(&self, round_number: u32) -> (stats: Option<(i128, i128, i128, i128)>)
        ensures
            stats is Some <==> self@.round(round_number as int) is Some,
            stats matches Some(pools) ==> {
                let round = self@.round(round_number as int)->0;
                &&& pools.0 == round.total_pool
                &&& pools.1 == round.up_pool
                &&& pools.2 == round.down_pool
                &&& pools.3 == round.stable_pool
            },
    {
        if round_number == 0 || round_number as usize > self.rounds.len() {
            None
        } else {
            let at = (round_number - 1) as usize;
            assert(self@.rounds[at as int] == self.rounds@[at as int]@);
            Some(self.rounds[at].stats())
        }
    }

    /// Lists the numbers of the settled rounds among the latest `limit`
    /// rounds, in rising order.
    pub fn get_completed_rounds(&self, limit: u32) -> (completed: Vec<u32>)
        requires
            self.wf(),
        ensures
            completed@ == self@.completed_between(
                self@.first_listed(limit as nat),
                self@.rounds.len(),
            ),
    {
        let mut completed: Vec<u32> = Vec::new();
        let total = self.rounds.len();
        if limit == 0 {
            assert(self@.completed_between((total + 1) as nat, total as nat) =~= Seq::<u32>::empty());
            return completed;
        }
        let skipped: usize = if total > limit as usize {
            total - limit as usize
        } else {
            0
        };
        let ghost first = (skipped + 1) as nat;
        let mut at: usize = skipped;
        assert(self@.completed_between(first, skipped as nat) =~= Seq::<u32>::empty());
        while at < total
            invariant
                self.wf(),
                total == self@.rounds.len(),
                first == skipped + 1,
                skipped <= at <= total,
                completed@ == self@.completed_between(first, at as nat),
            decreases total - at,
        {
            assert(self@.rounds[at as int] == self.rounds@[at as int]@);
            if self.rounds[at].is_settled {
                completed.push((at + 1) as u32);
            }
            at = at + 1;
        }
        completed
    }

    /// Tells whether the current round takes stakes at `now`. Without a round
    /// it does not.
    pub fn is_betting_open(&self, now: u64) -> (open: bool)
        requires
            self.wf(),
        ensures
            open == (self@.rounds.len() > 0 && self@.rounds.last().accepts_at(now as int)),
    {
        let count = self.rounds.len();
        if count == 0 {
            false
        } else {
            assert(self@.rounds[count - 1] == self.rounds@[count - 1]@);
            assert(self@.rounds[count - 1].wf());
            self.rounds[count - 1].accepts_bets(now)
        }
    }

    /// Tells whether the current round can be settled at `now`. Without a
    /// round it cannot.
    pub fn is_round_ready_to_settle(&self, now: u64) -> (ready: bool)
        requires
            self.wf(),
        ensures
            ready == (self@.rounds.len() > 0 && self@.rounds.last().ready_at(now as int)),
    {
        let count = self.rounds.len();
        if count == 0 {
            false
        } else {
            assert(self@.rounds[count - 1] == self.rounds@[count - 1]@);
            assert(self@.rounds[count - 1].wf());
            self.rounds[count - 1].ready_to_settle(now)
        }
    }

    /// Reads the current price out of the oracle's answer for the latest
    /// price: `NoPrice` where the oracle had none.
    pub fn get_current_ars_price(sample: Option<PriceData>) -> (price: Result<i128, Error>)
        ensures
            price == price_in(sample),
    {
        read_price(sample)
    }

    /// Reads the prices out of the oracle's answer for its five latest
    /// records, in the oracle's order: `NoPrice` where the oracle had none.
    pub fn fetch_last_five_ars_prices(records: Option<Vec<PriceData>>) -> (prices: Result<
        Vec<i128>,
        Error,
    >)
        ensures
            records is None ==> prices == Err::<Vec<i128>, Error>(Error::NoPrice),
            records matches Some(list) ==> (prices matches Ok(read) && read@ =~= Seq::new(
                list@.len(),
                |i: int| list@[i].price,
            )),
    {
        read_prices(records)
    }
}

impl Contract {
    /// Tells whether every round is well formed and carries the number of
    /// its place.
    fn rounds_are_valid(&self) -> (valid: bool)
        ensures
            valid == (forall|i: int|
                0 <= i < self@.rounds.len() ==> (#[trigger] self@.rounds[i]).wf()
                    && self@.rounds[i].round_number == i + 1),
    {
        let mut i: usize = 0;
        while i < self.rounds.len()
            invariant
                i <= self.rounds.len(),
                forall|k: int|
                    0 <= k < i ==> (#[trigger] self@.rounds[k]).wf() && self@.rounds[k].round_number
                        == k + 1,
            decreases self.rounds.len() - i,
        {
            assert(self@.rounds[i as int] == self.rounds@[i as int]@);
            if !self.rounds[i].is_well_formed() {
                return false;
            }
            if self.rounds[i].round_number as usize != i + 1 {
                return false;
            }
            i = i + 1;
        }
        true
    }

    /// Adds up what the market holds for its participants, given that its
    /// rounds and its ledger are well formed: `None` where the sum does not
    /// fit.
    fn checked_liabilities(&self) -> (held: Option<i128>)
        requires
            self.ledger.wf(),
            forall|i: int| 0 <= i < self@.rounds.len() ==> (#[trigger] self@.rounds[i]).wf(),
        ensures
            held is Some <==> self@.liabilities() <= i128::MAX,
            held matches Some(amount) ==> amount == self@.liabilities(),
    {
        let ghost pools = open_pools(self@.rounds);
        proof {
            assert forall|k: int| 0 <= k < pools.len() implies pools[k] >= 0 by {
                assert(self@.rounds[k].wf());
                pools_add_up(self@.rounds[k]);
            }
            lemma_sum_bounds(pools);
            assert(pools.take(0) =~= Seq::<int>::empty());
        }
        let mut held: i128 = self.ledger.get_total();
        let mut i: usize = 0;
        while i < self.rounds.len()
            invariant
                i <= self.rounds.len(),
                pools == open_pools(self@.rounds),
                forall|n: int| 0 <= n <= pools.len() ==> 0 <= #[trigger] sum(pools.take(n)) <= sum(pools),
                held == total_in(self@.ledger) + sum(pools.take(i as int)),
                0 <= total_in(self@.ledger),
                forall|k: int| 0 <= k < pools.len() ==> pools[k] >= 0,
            decreases self.rounds.len() - i,
        {
            proof {
                lemma_sum_take(pools, i as int);
                assert(self@.rounds[i as int] == self.rounds@[i as int]@);
                assert(pools[i as int] == if self.rounds@[i as int].is_settled {
                    0
                } else {
                    self.rounds@[i as int].total_pool as int
                });
            }
            if !self.rounds[i].is_settled {
                held = match held.checked_add(self.rounds[i].total_pool) {
                    Some(grown) => grown,
                    None => {
                        assert(total_in(self@.ledger) + sum(pools.take(i + 1)) > i128::MAX);
                        return None;
                    },
                };
            }
            i = i + 1;
        }
        assert(pools.take(i as int) =~= pools);
        Some(held)
    }

    /// Tells whether the market is well formed, as a market is that this
    /// library made. A market that was put together in another way, or read
    /// from storage, is to be tested before it is used.
    pub fn is_well_formed(&self) -> (valid: bool)
        ensures
            valid == self.wf(),
    {
        self.rounds.len() <= u32::MAX as usize && self.rounds_are_valid()
            && self.ledger.is_well_formed() && self.checked_liabilities().is_some()
    }
}

} // verus!
