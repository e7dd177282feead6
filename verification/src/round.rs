//! One round: its stakes, its pools, its window and its settlement.

use crate::error::Error;
use crate::ledger::{amounts_for, credit_views, entry_amounts, total_for, total_in, Credit, CreditView};
use crate::oracle::PriceData;
use crate::outcome::{resolve_prediction, winning_prediction, Prediction};
use crate::payout::{
    distributable, distributable_of, lemma_shares_within, payout, payout_of, shares_of,
};
use crate::sums::{lemma_sum_bounds, lemma_sum_push, lemma_sum_take, lemma_sum_zeros, sum};
use vstd::prelude::*;

verus! {

/// How long a round takes stakes, counted from its start, in time units of
/// the ledger.
pub const WINDOW: u64 = 300;

/// One stake: who placed it, on which movement, and how much.
#[derive(Debug, PartialEq, Eq)]
pub struct Bet {
    /// The participant's account, in its text form.
    pub user: String,
    pub prediction: Prediction,
    pub amount: i128,
}

/// A stake as a mathematical value.
pub struct BetView {
    pub user: Seq<char>,
    pub prediction: Prediction,
    pub amount: int,
}

impl View for Bet {
    type V = BetView;

    open spec fn view(&self) -> BetView {
        BetView { user: self.user@, prediction: self.prediction, amount: self.amount as int }
    }
}

impl Clone for Bet {
    fn clone(&self) -> (copy: Bet)
        ensures
            copy@ == self@,
    {
        Bet { user: self.user.clone(), prediction: self.prediction, amount: self.amount }
    }
}

/// The views of a sequence of stakes.
pub open spec fn bet_views(bets: Seq<Bet>) -> Seq<BetView> {
    Seq::new(bets.len(), |i: int| bets[i]@)
}

/// What a stake adds to the pool of `prediction`.
pub open spec fn stake_on(bet: BetView, prediction: Prediction) -> int {
    if bet.prediction == prediction {
        bet.amount
    } else {
        0
    }
}

/// What each stake adds to the pool of `prediction`, in order.
pub open spec fn stakes_on(bets: Seq<BetView>, prediction: Prediction) -> Seq<int> {
    Seq::new(bets.len(), |i: int| stake_on(bets[i], prediction))
}

/// The amounts of the stakes, in order.
pub open spec fn stake_amounts(bets: Seq<BetView>) -> Seq<int> {
    Seq::new(bets.len(), |i: int| bets[i].amount)
}

/// The sum of the stakes on `prediction`.
pub open spec fn staked_on(bets: Seq<BetView>, prediction: Prediction) -> int {
    sum(stakes_on(bets, prediction))
}

/// The sum of all stakes.
pub open spec fn staked(bets: Seq<BetView>) -> int {
    sum(stake_amounts(bets))
}

/// One round of the market.
#[derive(Debug, PartialEq, Eq)]
pub struct Round {
    pub round_number: u32,
    /// When the round was opened.
    pub start_time: u64,
    /// The price at the time the round was opened.
    pub start_price: i128,
    /// The price at the end of the window, known once the round is settled.
    pub end_price: Option<i128>,
    /// The stakes, in the order in which they were admitted.
    pub bets: Vec<Bet>,
    pub is_settled: bool,
    /// The movement that the prices proved right, known once the round is
    /// settled.
    pub winning_prediction: Option<Prediction>,
    pub total_pool: i128,
    pub up_pool: i128,
    pub down_pool: i128,
    pub stable_pool: i128,
}

/// A round as a mathematical value.
pub struct RoundView {
    pub round_number: nat,
    pub start_time: nat,
    pub start_price: int,
    pub end_price: Option<int>,
    pub bets: Seq<BetView>,
    pub is_settled: bool,
    pub winning_prediction: Option<Prediction>,
    pub total_pool: int,
    pub up_pool: int,
    pub down_pool: int,
    pub stable_pool: int,
}

impl View for Round {
    type V = RoundView;

    open spec fn view(&self) -> RoundView {
        RoundView {
            round_number: self.round_number as nat,
            start_time: self.start_time as nat,
            start_price: self.start_price as int,
            end_price: match self.end_price {
                Some(price) => Some(price as int),
                None => None,
            },
            bets: bet_views(self.bets@),
            is_settled: self.is_settled,
            winning_prediction: self.winning_prediction,
            total_pool: self.total_pool as int,
            up_pool: self.up_pool as int,
            down_pool: self.down_pool as int,
            stable_pool: self.stable_pool as int,
        }
    }
}

impl RoundView {
    /// A round as it is opened: no stakes, empty pools, not settled.
    pub open spec fn opened(round_number: nat, start_time: nat, start_price: int) -> RoundView {
        RoundView {
            round_number,
            start_time,
            start_price,
            end_price: None,
            bets: Seq::empty(),
            is_settled: false,
            winning_prediction: None,
            total_pool: 0,
            up_pool: 0,
            down_pool: 0,
            stable_pool: 0,
        }
    }

    /// The time at which the window ends: the first moment at which no
    /// stake is taken and the round can be settled.
    pub open spec fn closes_at(self) -> int {
        self.start_time as int + WINDOW
    }

    /// Whether the round takes stakes at `now`.
    pub open spec fn accepts_at(self, now: int) -> bool {
        !self.is_settled && now < self.closes_at()
    }

    /// Whether the round can be settled at `now`.
    pub open spec fn ready_at(self, now: int) -> bool {
        !self.is_settled && now >= self.closes_at()
    }

    /// The pool of one prediction.
    pub open spec fn pool_of(self, prediction: Prediction) -> int {
        match prediction {
            Prediction::Up => self.up_pool,
            Prediction::Down => self.down_pool,
            Prediction::Stable => self.stable_pool,
        }
    }

    /// The round after `bet` was admitted: the stake stands behind the
    /// others, and its amount is added to the pool of its prediction and to
    /// the total.
    pub open spec fn with_bet(self, bet: BetView) -> RoundView {
        RoundView {
            bets: self.bets.push(bet),
            total_pool: self.total_pool + bet.amount,
            up_pool: self.up_pool + stake_on(bet, Prediction::Up),
            down_pool: self.down_pool + stake_on(bet, Prediction::Down),
            stable_pool: self.stable_pool + stake_on(bet, Prediction::Stable),
            ..self
        }
    }

    /// The round after it was settled at the price `end_price`.
    pub open spec fn settled_at(self, end_price: int) -> RoundView {
        RoundView {
            end_price: Some(end_price),
            is_settled: true,
            winning_prediction: Some(winning_prediction(self.start_price, end_price)),
            ..self
        }
    }

    /// What a round keeps true from the moment it is opened: a positive
    /// starting price, a window that ends at a time that can be told,
    /// positive stakes, pools that are the sums of their stakes, and an
    /// outcome exactly when it is settled.
    pub open spec fn wf(self) -> bool {
        &&& self.start_price > 0
        &&& self.closes_at() <= u64::MAX
        &&& forall|i: int| 0 <= i < self.bets.len() ==> (#[trigger] self.bets[i]).amount > 0
        &&& self.up_pool == staked_on(self.bets, Prediction::Up)
        &&& self.down_pool == staked_on(self.bets, Prediction::Down)
        &&& self.stable_pool == staked_on(self.bets, Prediction::Stable)
        &&& self.total_pool == staked(self.bets)
        &&& self.total_pool <= i128::MAX
        &&& self.is_settled <==> self.end_price is Some
        &&& self.is_settled <==> self.winning_prediction is Some
        &&& self.end_price matches Some(end_price) ==> self.winning_prediction == Some(
            winning_prediction(self.start_price, end_price),
        )
    }

    /// The pool of the prediction that won; zero while the round is open.
    pub open spec fn winning_pool(self) -> int {
        match self.winning_prediction {
            Some(won) => self.pool_of(won),
            None => 0,
        }
    }

    /// Whether the round pays for `bet`: it is settled, and the stake
    /// predicted what came.
    pub open spec fn pays(self, bet: BetView) -> bool {
        self.winning_prediction == Some(bet.prediction) && self.winning_pool() > 0
    }

    /// What the round pays for `bet`: its share of the pool after the fee
    /// where it predicted right, and nothing otherwise.
    pub open spec fn share_of(self, bet: BetView) -> int {
        if self.pays(bet) {
            payout_of(bet.amount, distributable_of(self.total_pool), self.winning_pool())
        } else {
            0
        }
    }

    /// What the round pays for each of its stakes, in order.
    pub open spec fn shares(self) -> Seq<int> {
        Seq::new(self.bets.len(), |i: int| self.share_of(self.bets[i]))
    }

    /// Everything that the round pays.
    pub open spec fn paid_out(self) -> int {
        sum(self.shares())
    }

    /// What the round pays for each of its stakes to `user`, in order.
    pub open spec fn shares_for(self, user: Seq<char>) -> Seq<int> {
        Seq::new(
            self.bets.len(),
            |i: int|
                if self.bets[i].user == user {
                    self.share_of(self.bets[i])
                } else {
                    0
                },
        )
    }

    /// Everything that the round pays to `user`.
    pub open spec fn winnings_of(self, user: Seq<char>) -> int {
        sum(self.shares_for(user))
    }

    /// The credits for the first `n` stakes: one for each stake that the
    /// round pays for, in the order of the stakes.
    pub open spec fn credits_upto(self, n: nat) -> Seq<CreditView>
        decreases n,
    {
        if n == 0 {
            Seq::empty()
        } else {
            let before = self.credits_upto((n - 1) as nat);
            let bet = self.bets[n - 1];
            if self.pays(bet) {
                before.push(CreditView { user: bet.user, amount: self.share_of(bet) })
            } else {
                before
            }
        }
    }

    /// The credits that the round owes: one for each stake that it pays
    /// for, in the order of the stakes.
    pub open spec fn credits(self) -> Seq<CreditView> {
        self.credits_upto(self.bets.len())
    }
}

/// The three pools of a round add up to its total pool, which is the sum of
/// its stakes.
pub proof fn pools_add_up(round: RoundView)
    requires
        round.wf(),
    ensures
        round.up_pool + round.down_pool + round.stable_pool == round.total_pool,
        round.total_pool == staked(round.bets),
        0 <= round.up_pool,
        0 <= round.down_pool,
        0 <= round.stable_pool,
{
    lemma_stakes_split(round.bets);
}

/// The stakes on the three predictions add up to all stakes, and no sum is
/// negative where no stake is.
pub proof fn lemma_stakes_split(bets: Seq<BetView>)
    requires
        forall|i: int| 0 <= i < bets.len() ==> (#[trigger] bets[i]).amount >= 0,
    ensures
        staked_on(bets, Prediction::Up) + staked_on(bets, Prediction::Down) + staked_on(
            bets,
            Prediction::Stable,
        ) == staked(bets),
        0 <= staked_on(bets, Prediction::Up),
        0 <= staked_on(bets, Prediction::Down),
        0 <= staked_on(bets, Prediction::Stable),
    decreases bets.len(),
{
    if bets.len() > 0 {
        let front = bets.drop_last();
        assert forall|i: int| 0 <= i < front.len() implies (#[trigger] front[i]).amount >= 0 by {
            assert(front[i] == bets[i]);
        }
        lemma_stakes_split(front);
        assert(stakes_on(bets, Prediction::Up).drop_last() =~= stakes_on(front, Prediction::Up));
        assert(stakes_on(bets, Prediction::Down).drop_last() =~= stakes_on(
            front,
            Prediction::Down,
        ));
        assert(stakes_on(bets, Prediction::Stable).drop_last() =~= stakes_on(
            front,
            Prediction::Stable,
        ));
        assert(stake_amounts(bets).drop_last() =~= stake_amounts(front));
        assert(bets.last().amount >= 0);
    }
}

/// Admitting a positive stake keeps a round well formed where the total
/// still fits.
pub proof fn lemma_with_bet_wf(round: RoundView, bet: BetView)
    requires
        round.wf(),
        bet.amount > 0,
        round.total_pool + bet.amount <= i128::MAX,
    ensures
        round.with_bet(bet).wf(),
{
    let after = round.with_bet(bet);
    assert(stakes_on(after.bets, Prediction::Up) =~= stakes_on(round.bets, Prediction::Up).push(
        stake_on(bet, Prediction::Up),
    ));
    assert(stakes_on(after.bets, Prediction::Down) =~= stakes_on(
        round.bets,
        Prediction::Down,
    ).push(stake_on(bet, Prediction::Down)));
    assert(stakes_on(after.bets, Prediction::Stable) =~= stakes_on(
        round.bets,
        Prediction::Stable,
    ).push(stake_on(bet, Prediction::Stable)));
    assert(stake_amounts(after.bets) =~= stake_amounts(round.bets).push(bet.amount));
    lemma_sum_push(stakes_on(round.bets, Prediction::Up), stake_on(bet, Prediction::Up));
    lemma_sum_push(stakes_on(round.bets, Prediction::Down), stake_on(bet, Prediction::Down));
    lemma_sum_push(stakes_on(round.bets, Prediction::Stable), stake_on(bet, Prediction::Stable));
    lemma_sum_push(stake_amounts(round.bets), bet.amount);
    assert forall|i: int| 0 <= i < after.bets.len() implies (#[trigger] after.bets[i]).amount
        > 0 by {
        if i < round.bets.len() {
            assert(after.bets[i] == round.bets[i]);
        }
    }
}

/// Where a round stands at a given time.
#[derive(Copy, Clone, Debug, PartialEq, Eq, Structural)]
pub enum RoundStatus {
    /// The round takes stakes.
    Open,
    /// The window has ended and the round waits to be settled.
    AwaitingSettlement,
    /// The round is settled: its outcome is fixed for good.
    Settled,
}

impl RoundView {
    /// Where the round stands at `now`.
    pub open spec fn status_at(self, now: int) -> RoundStatus {
        if self.is_settled {
            RoundStatus::Settled
        } else if now < self.closes_at() {
            RoundStatus::Open
        } else {
            RoundStatus::AwaitingSettlement
        }
    }
}

impl Round {
    /// See [`RoundView::wf`].
    pub open spec fn wf(&self) -> bool {
        self@.wf()
    }

    /// Opens a round at `start_time` with the price that the oracle reported
    /// then.
    pub fn new(round_number: u32, start_time: u64, start_price: i128) -> (round: Round)
        requires
            start_price > 0,
            start_time + WINDOW <= u64::MAX,
        ensures
            round@ == RoundView::opened(
                round_number as nat,
                start_time as nat,
                start_price as int,
            ),
            round.wf(),
    {
        let round = Round {
            round_number,
            start_time,
            start_price,
            end_price: None,
            bets: Vec::new(),
            is_settled: false,
            winning_prediction: None,
            total_pool: 0,
            up_pool: 0,
            down_pool: 0,
            stable_pool: 0,
        };
        proof {
            assert(round@.bets =~= Seq::<BetView>::empty());
            assert(stakes_on(round@.bets, Prediction::Up) =~= Seq::<int>::empty());
            assert(stakes_on(round@.bets, Prediction::Down) =~= Seq::<int>::empty());
            assert(stakes_on(round@.bets, Prediction::Stable) =~= Seq::<int>::empty());
            assert(stake_amounts(round@.bets) =~= Seq::<int>::empty());
        }
        round
    }

    /// The time at which the window ends. The price at exactly this time
    /// settles the round.
    pub fn closes_at(&self) -> (time: u64)
        requires
            self.wf(),
        ensures
            time == self@.closes_at(),
    {
        self.start_time + WINDOW
    }

    /// Tells whether the round takes stakes at `now`: it is not settled and
    /// its window has not ended. At the very end of the window it takes none.
    pub fn accepts_bets(&self, now: u64) -> (open: bool)
        requires
            self.wf(),
        ensures
            open == self@.accepts_at(now as int),
    {
        !self.is_settled && now < self.start_time + WINDOW
    }

    /// Tells whether the round can be settled at `now`: it is not settled and
    /// its window has ended.
    pub fn ready_to_settle(&self, now: u64) -> (ready: bool)
        requires
            self.wf(),
        ensures
            ready == self@.ready_at(now as int),
    {
        !self.is_settled && now >= self.start_time + WINDOW
    }

    /// Tells where the round stands at `now`.
    pub fn status(&self, now: u64) -> (status: RoundStatus)
        requires
            self.wf(),
        ensures
            status == self@.status_at(now as int),
    {
        if self.is_settled {
            RoundStatus::Settled
        } else if now < self.start_time + WINDOW {
            RoundStatus::Open
        } else {
            RoundStatus::AwaitingSettlement
        }
    }

    /// Returns the pool of one prediction.
    pub fn pool(&self, prediction: Prediction) -> (amount: i128)
        ensures
            amount == self@.pool_of(prediction),
    {
        match prediction {
            Prediction::Up => self.up_pool,
            Prediction::Down => self.down_pool,
            Prediction::Stable => self.stable_pool,
        }
    }

    /// Returns the total pool and the pools of Up, Down and Stable.
    pub fn stats(&self) -> (pools: (i128, i128, i128, i128))
        ensures
            pools.0 == self@.total_pool,
            pools.1 == self@.up_pool,
            pools.2 == self@.down_pool,
            pools.3 == self@.stable_pool,
    {
        (self.total_pool, self.up_pool, self.down_pool, self.stable_pool)
    }

    /// Takes a stake at `now`. A stake that is not positive is refused with
    /// `InvalidAmount`, and a positive one with `BettingClosed` where the
    /// round is settled or its window has ended; the round is then left as it
    /// was. An admitted stake stands behind the others and counts in the
    /// pool of its prediction and in the total.
    pub fn add_bet(&mut self, now: u64, bet: Bet) -> (added: Result<(), Error>)
        requires
            old(self).wf(),
            old(self).total_pool + bet.amount <= i128::MAX,
        ensures
            final(self).wf(),
            bet.amount <= 0 ==> added == Err::<(), Error>(Error::InvalidAmount),
            bet.amount > 0 && !old(self)@.accepts_at(now as int) ==> added == Err::<(), Error>(
                Error::BettingClosed,
            ),
            bet.amount > 0 && old(self)@.accepts_at(now as int) ==> added == Ok::<(), Error>(()),
            added is Ok ==> final(self)@ == old(self)@.with_bet(bet@),
            added is Err ==> final(self)@ == old(self)@,
    {
        if bet.amount <= 0 {
            return Err(Error::InvalidAmount);
        }
        if !self.accepts_bets(now) {
            return Err(Error::BettingClosed);
        }
        proof {
            lemma_with_bet_wf(self@, bet@);
            pools_add_up(self@);
        }
        let ghost before = self@;
        let amount = bet.amount;
        match bet.prediction {
            Prediction::Up => {
                self.up_pool = self.up_pool + amount;
            },
            Prediction::Down => {
                self.down_pool = self.down_pool + amount;
            },
            Prediction::Stable => {
                self.stable_pool = self.stable_pool + amount;
            },
        }
        self.total_pool = self.total_pool + amount;
        self.bets.push(bet);
        assert(self@.bets =~= before.bets.push(bet@));
        assert(self@ == before.with_bet(bet@));
        Ok(())
    }

    /// Settles the round at `now` with the oracle's answer for the price at
    /// the end of the window. A settled round is refused with
    /// `RoundAlreadySettled`, one whose window has not ended with
    /// `BettingClosed`, and a missing price with `NoPrice`; the round is then
    /// left as it was and can be settled later. Otherwise the round is
    /// settled for good, and the prediction that won is returned.
    pub fn settle(&mut self, now: u64, sample: Option<PriceData>) -> (settled: Result<
        Prediction,
        Error,
    >)
        requires
            old(self).wf(),
        ensures
            final(self).wf(),
            settled == settle_result(old(self)@, now as int, sample),
            settled is Ok ==> final(self)@ == old(self)@.settled_at(sample->0.price as int),
            settled is Err ==> final(self)@ == old(self)@,
    {
        if self.is_settled {
            return Err(Error::RoundAlreadySettled);
        }
        if now < self.start_time + WINDOW {
            return Err(Error::BettingClosed);
        }
        let end_price = match sample {
            Some(record) => record.price,
            None => {
                return Err(Error::NoPrice);
            },
        };
        let won = resolve_prediction(self.start_price, end_price);
        self.end_price = Some(end_price);
        self.winning_prediction = Some(won);
        self.is_settled = true;
        Ok(won)
    }
}

/// How an attempt to settle `round` at `now` ends.
pub open spec fn settle_result(round: RoundView, now: int, sample: Option<PriceData>) -> Result<
    Prediction,
    Error,
> {
    if round.is_settled {
        Err(Error::RoundAlreadySettled)
    } else if now < round.closes_at() {
        Err(Error::BettingClosed)
    } else {
        match sample {
            Some(record) => Ok(winning_prediction(round.start_price, record.price as int)),
            None => Err(Error::NoPrice),
        }
    }
}

/// A round that has no winner to pay owes no credit.
proof fn lemma_no_credits(round: RoundView, n: nat)
    requires
        round.winning_prediction is None || round.winning_pool() <= 0,
    ensures
        round.credits_upto(n) == Seq::<CreditView>::empty(),
    decreases n,
{
    if n > 0 {
        lemma_no_credits(round, (n - 1) as nat);
    }
}

/// In a well-formed round no stake is larger than the pool of its
/// prediction, and no pool is negative.
proof fn lemma_stake_within_pool(round: RoundView, i: int)
    requires
        round.wf(),
        0 <= i < round.bets.len(),
    ensures
        0 < round.bets[i].amount <= round.pool_of(round.bets[i].prediction),
        0 <= round.total_pool,
{
    let bet = round.bets[i];
    let stakes = stakes_on(round.bets, bet.prediction);
    assert forall|k: int| 0 <= k < stakes.len() implies stakes[k] >= 0 by {
        assert(round.bets[k].amount > 0);
    }
    lemma_sum_bounds(stakes);
    assert(stakes[i] == bet.amount);
    pools_add_up(round);
}

impl Round {
    /// Lists what the round owes: for each stake on the prediction that won,
    /// in the order of the stakes, its share of the pool after the fee.
    /// A round that is not settled, or that nobody predicted right, owes
    /// nothing.
    pub fn payouts(&self) -> (credits: Vec<Credit>)
        requires
            self.wf(),
        ensures
            credit_views(credits@) == self@.credits(),
    {
        let mut credits: Vec<Credit> = Vec::new();
        assert(credit_views(credits@) =~= Seq::<CreditView>::empty());
        let won = match self.winning_prediction {
            Some(won) => won,
            None => {
                proof {
                    lemma_no_credits(self@, self@.bets.len());
                }
                return credits;
            },
        };
        let winning_pool = self.pool(won);
        if winning_pool <= 0 {
            proof {
                lemma_no_credits(self@, self@.bets.len());
            }
            return credits;
        }
        proof {
            pools_add_up(self@);
        }
        let left = distributable(self.total_pool);
        let mut i: usize = 0;
        while i < self.bets.len()
            invariant
                i <= self.bets.len(),
                self.wf(),
                self.winning_prediction == Some(won),
                winning_pool == self@.winning_pool(),
                winning_pool > 0,
                left == distributable_of(self@.total_pool),
                0 <= left,
                credit_views(credits@) == self@.credits_upto(i as nat),
            decreases self.bets.len() - i,
        {
            let bet = &self.bets[i];
            let ghost before = credit_views(credits@);
            assert(self@.bets[i as int] == bet@);
            if bet.prediction == won {
                proof {
                    lemma_stake_within_pool(self@, i as int);
                }
                let share = payout(bet.amount, left, winning_pool);
                credits.push(Credit { user: bet.user.clone(), amount: share });
                assert(credit_views(credits@) =~= before.push(
                    CreditView { user: bet@.user, amount: share as int },
                ));
            }
            i = i + 1;
        }
        credits
    }
}

/// A settled round with winners pays out no more than its pool leaves after
/// the fee, and exactly that much only where every winning share divides
/// evenly.
pub proof fn payouts_within_distributable(round: RoundView)
    requires
        round.wf(),
        round.winning_pool() > 0,
    ensures
        0 <= round.paid_out() <= distributable_of(round.total_pool),
        round.paid_out() == distributable_of(round.total_pool) <==> (forall|i: int|
            0 <= i < round.bets.len() && round.pays(#[trigger] round.bets[i]) ==> (round.bets[i].amount
                * distributable_of(round.total_pool)) % round.winning_pool() == 0),
{
    let won = round.winning_prediction->0;
    let pool = round.winning_pool();
    let left = distributable_of(round.total_pool);
    let stakes = stakes_on(round.bets, won);
    pools_add_up(round);
    assert forall|i: int| 0 <= i < stakes.len() implies stakes[i] >= 0 by {
        assert(round.bets[i].amount > 0);
    }
    assert(0 * left == 0) by (nonlinear_arith);
    assert(round.shares() =~= shares_of(stakes, left));
    lemma_shares_within(stakes, left);
    if round.paid_out() == left {
        assert forall|i: int|
            0 <= i < round.bets.len() && round.pays(#[trigger] round.bets[i]) implies (
        round.bets[i].amount * left) % pool == 0 by {
            assert((stakes[i] * left) % pool == 0);
        }
    }
    if forall|i: int|
        0 <= i < round.bets.len() && round.pays(#[trigger] round.bets[i]) ==> (round.bets[i].amount
            * left) % pool == 0 {
        assert forall|i: int| 0 <= i < stakes.len() implies (#[trigger] stakes[i] * left) % pool
            == 0 by {
            if round.pays(round.bets[i]) {
                assert((round.bets[i].amount * left) % pool == 0);
                assert(stakes[i] == round.bets[i].amount);
            } else {
                assert(stakes[i] * left == 0) by (nonlinear_arith)
                    requires
                        stakes[i] == 0,
                ;
            }
        }
    }
}

/// A round that nobody predicted right pays nothing to anybody.
pub proof fn no_winner_no_payout(round: RoundView, user: Seq<char>)
    requires
        round.winning_pool() == 0,
    ensures
        round.credits() == Seq::<CreditView>::empty(),
        round.paid_out() == 0,
        round.winnings_of(user) == 0,
{
    lemma_no_credits(round, round.bets.len());
    lemma_sum_zeros(round.shares());
    lemma_sum_zeros(round.shares_for(user));
}

/// The credits of a round carry what the round pays: their sum is all that
/// it pays, and those of one participant add up to that participant's
/// winnings. No credit is negative.
pub proof fn lemma_credits_carry_shares(round: RoundView, user: Seq<char>)
    requires
        round.wf(),
    ensures
        total_in(round.credits()) == round.paid_out(),
        total_for(round.credits(), user) == round.winnings_of(user),
        forall|i: int| 0 <= i < round.credits().len() ==> (#[trigger] round.credits()[i]).amount >= 0,
{
    lemma_credits_upto(round, user, round.bets.len());
    assert(round.shares().take(round.bets.len() as int) =~= round.shares());
    assert(round.shares_for(user).take(round.bets.len() as int) =~= round.shares_for(user));
}

proof fn lemma_credits_upto(round: RoundView, user: Seq<char>, n: nat)
    requires
        round.wf(),
        n <= round.bets.len(),
    ensures
        total_in(round.credits_upto(n)) == sum(round.shares().take(n as int)),
        total_for(round.credits_upto(n), user) == sum(round.shares_for(user).take(n as int)),
        forall|i: int|
            0 <= i < round.credits_upto(n).len() ==> (#[trigger] round.credits_upto(n)[i]).amount
                >= 0,
    decreases n,
{
    let now = round.credits_upto(n);
    if n == 0 {
        assert(entry_amounts(now) =~= Seq::<int>::empty());
        assert(amounts_for(now, user) =~= Seq::<int>::empty());
        assert(round.shares().take(0) =~= Seq::<int>::empty());
        assert(round.shares_for(user).take(0) =~= Seq::<int>::empty());
    } else {
        let before = round.credits_upto((n - 1) as nat);
        let bet = round.bets[n - 1];
        lemma_credits_upto(round, user, (n - 1) as nat);
        lemma_sum_take(round.shares(), n - 1);
        lemma_sum_take(round.shares_for(user), n - 1);
        if round.pays(bet) {
            let share = round.share_of(bet);
            assert(share >= 0) by {
                pools_add_up(round);
                let left = distributable_of(round.total_pool);
                let product = bet.amount * left;
                assert(bet.amount > 0);
                assert(product >= 0) by (nonlinear_arith)
                    requires
                        product == bet.amount * left,
                        bet.amount > 0,
                        left >= 0,
                ;
                assert(product / round.winning_pool() >= 0) by (nonlinear_arith)
                    requires
                        product >= 0,
                        round.winning_pool() > 0,
                ;
            }
            assert(entry_amounts(now) =~= entry_amounts(before).push(share));
            assert(amounts_for(now, user) =~= amounts_for(before, user).push(
                if bet.user == user {
                    share
                } else {
                    0
                },
            ));
            lemma_sum_push(entry_amounts(before), share);
            lemma_sum_push(
                amounts_for(before, user),
                if bet.user == user {
                    share
                } else {
                    0
                },
            );
            assert forall|i: int| 0 <= i < now.len() implies (#[trigger] now[i]).amount >= 0 by {
                if i < before.len() {
                    assert(now[i] == before[i]);
                }
            }
        } else {
            assert(round.share_of(bet) == 0);
        }
    }
}

impl Clone for Round {
    fn clone(&self) -> (copy: Round)
        ensures
            copy@ == self@,
    {
        let mut bets: Vec<Bet> = Vec::new();
        let mut i: usize = 0;
        while i < self.bets.len()
            invariant
                i <= self.bets.len(),
                bet_views(bets@) =~= bet_views(self.bets@).take(i as int),
            decreases self.bets.len() - i,
        {
            let ghost copied = bets@;
            let copy = self.bets[i].clone();
            assert(copy@ == self.bets@[i as int]@);
            bets.push(copy);
            assert(bet_views(bets@) =~= bet_views(copied).push(copy@));
            assert(bet_views(self.bets@).take(i + 1) =~= bet_views(self.bets@).take(i as int).push(
                self.bets@[i as int]@,
            ));
            i = i + 1;
        }
        assert(bet_views(bets@) =~= bet_views(self.bets@));
        Round {
            round_number: self.round_number,
            start_time: self.start_time,
            start_price: self.start_price,
            end_price: self.end_price,
            bets,
            is_settled: self.is_settled,
            winning_prediction: self.winning_prediction,
            total_pool: self.total_pool,
            up_pool: self.up_pool,
            down_pool: self.down_pool,
            stable_pool: self.stable_pool,
        }
    }
}

impl RoundView {
    /// The round after each of `bets` was taken, one after the other.
    pub open spec fn with_bets(self, bets: Seq<BetView>) -> RoundView
        decreases bets.len(),
    {
        if bets.len() == 0 {
            self
        } else {
            self.with_bets(bets.drop_last()).with_bet(bets.last())
        }
    }
}

/// Whatever stakes a round takes, its three pools keep adding up to its
/// total pool, and the total pool stays the sum of all its stakes.
pub proof fn pools_track_stakes(round: RoundView, bets: Seq<BetView>)
    requires
        round.wf(),
        forall|i: int| 0 <= i < bets.len() ==> (#[trigger] bets[i]).amount > 0,
        round.total_pool + staked(bets) <= i128::MAX,
    ensures
        round.with_bets(bets).wf(),
        round.with_bets(bets).bets == round.bets + bets,
        round.with_bets(bets).total_pool == round.total_pool + staked(bets),
        round.with_bets(bets).total_pool == staked(round.with_bets(bets).bets),
        round.with_bets(bets).up_pool + round.with_bets(bets).down_pool + round.with_bets(
            bets,
        ).stable_pool == round.with_bets(bets).total_pool,
    decreases bets.len(),
{
    if bets.len() == 0 {
        assert(round.bets + bets =~= round.bets);
        assert(stake_amounts(bets) =~= Seq::<int>::empty());
        pools_add_up(round);
    } else {
        let front = bets.drop_last();
        let last = bets.last();
        assert forall|i: int| 0 <= i < front.len() implies (#[trigger] front[i]).amount > 0 by {
            assert(front[i] == bets[i]);
        }
        assert(stake_amounts(bets).drop_last() =~= stake_amounts(front));
        assert(stake_amounts(bets).last() == last.amount);
        assert(last.amount > 0);
        pools_track_stakes(round, front);
        let middle = round.with_bets(front);
        lemma_with_bet_wf(middle, last);
        pools_add_up(middle.with_bet(last));
        assert(middle.with_bet(last).bets =~= round.bets + bets);
    }
}

/// A round only moves forward: as time passes, and with every stake and
/// settlement, it goes from open to awaiting settlement to settled and
/// never back.
pub proof fn status_only_advances(
    round: RoundView,
    now: int,
    later: int,
    bet: BetView,
    end_price: int,
)
    requires
        now <= later,
    ensures
        round.status_at(now) is Settled ==> round.status_at(later) is Settled,
        round.status_at(now) is AwaitingSettlement ==> !(round.status_at(later) is Open),
        round.with_bet(bet).status_at(now) == round.status_at(now),
        round.settled_at(end_price).status_at(later) is Settled,
{
}

/// Exactly at the end of its window, and from then on, a round takes no
/// stake.
pub proof fn window_end_is_closed(round: RoundView, now: int)
    requires
        now >= round.start_time + WINDOW,
    ensures
        !round.accepts_at(now),
{
}

impl Round {
    /// Tells whether every stake of the round is positive.
    fn stakes_are_positive(&self) -> (positive: bool)
        ensures
            positive == (forall|i: int|
                0 <= i < self@.bets.len() ==> (#[trigger] self@.bets[i]).amount > 0),
    {
        let mut i: usize = 0;
        while i < self.bets.len()
            invariant
                i <= self.bets.len(),
                forall|k: int| 0 <= k < i ==> (#[trigger] self@.bets[k]).amount > 0,
            decreases self.bets.len() - i,
        {
            assert(self@.bets[i as int] == self.bets@[i as int]@);
            if self.bets[i].amount <= 0 {
                return false;
            }
            i = i + 1;
        }
        true
    }

    /// Tells whether the pools of the round are the sums of its stakes,
    /// given that every stake is positive.
    fn pools_match_stakes(&self) -> (matching: bool)
        requires
            forall|i: int| 0 <= i < self@.bets.len() ==> (#[trigger] self@.bets[i]).amount > 0,
        ensures
            matching == {
                &&& self@.up_pool == staked_on(self@.bets, Prediction::Up)
                &&& self@.down_pool == staked_on(self@.bets, Prediction::Down)
                &&& self@.stable_pool == staked_on(self@.bets, Prediction::Stable)
                &&& self@.total_pool == staked(self@.bets)
            },
    {
        let ghost bets = self@.bets;
        let ghost all = stake_amounts(bets);
        let ghost ups = stakes_on(bets, Prediction::Up);
        let ghost downs = stakes_on(bets, Prediction::Down);
        let ghost stables = stakes_on(bets, Prediction::Stable);
        proof {
            assert forall|k: int| 0 <= k < all.len() implies all[k] >= 0 by {
                assert(bets[k].amount > 0);
            }
            lemma_sum_bounds(all);
            assert(all.take(0) =~= Seq::<int>::empty());
            assert(ups.take(0) =~= Seq::<int>::empty());
            assert(downs.take(0) =~= Seq::<int>::empty());
            assert(stables.take(0) =~= Seq::<int>::empty());
        }
        let mut total: i128 = 0;
        let mut up: i128 = 0;
        let mut down: i128 = 0;
        let mut stable: i128 = 0;
        let mut i: usize = 0;
        while i < self.bets.len()
            invariant
                i <= self.bets.len(),
                bets == self@.bets,
                all == stake_amounts(bets),
                ups == stakes_on(bets, Prediction::Up),
                downs == stakes_on(bets, Prediction::Down),
                stables == stakes_on(bets, Prediction::Stable),
                forall|k: int| 0 <= k < bets.len() ==> (#[trigger] bets[k]).amount > 0,
                forall|n: int| 0 <= n <= all.len() ==> 0 <= #[trigger] sum(all.take(n)) <= sum(all),
                total == sum(all.take(i as int)),
                up == sum(ups.take(i as int)),
                down == sum(downs.take(i as int)),
                stable == sum(stables.take(i as int)),
                up + down + stable == total,
                0 <= up,
                0 <= down,
                0 <= stable,
            decreases self.bets.len() - i,
        {
            proof {
                assert(bets[i as int] == self.bets@[i as int]@);
                assert(bets[i as int].amount > 0);
                lemma_sum_take(all, i as int);
                lemma_sum_take(ups, i as int);
                lemma_sum_take(downs, i as int);
                lemma_sum_take(stables, i as int);
            }
            let amount = self.bets[i].amount;
            total = match total.checked_add(amount) {
                Some(grown) => grown,
                None => {
                    assert(sum(all.take(i + 1)) > i128::MAX);
                    return false;
                },
            };
            match self.bets[i].prediction {
                Prediction::Up => {
                    up = up + amount;
                },
                Prediction::Down => {
                    down = down + amount;
                },
                Prediction::Stable => {
                    stable = stable + amount;
                },
            }
            i = i + 1;
        }
        proof {
            assert(all.take(i as int) =~= all);
            assert(ups.take(i as int) =~= ups);
            assert(downs.take(i as int) =~= downs);
            assert(stables.take(i as int) =~= stables);
        }
        up == self.up_pool && down == self.down_pool && stable == self.stable_pool && total
            == self.total_pool
    }

    /// Tells whether the round is well formed, as a round is that this
    /// library made. A round that was put together in another way, or read
    /// from storage, is to be tested before it is used.
    pub fn is_well_formed(&self) -> (valid: bool)
        ensures
            valid == self.wf(),
    {
        if self.start_price <= 0 || self.start_time > u64::MAX - WINDOW {
            return false;
        }
        if !self.stakes_are_positive() {
            return false;
        }
        if !self.pools_match_stakes() {
            return false;
        }
        match (self.end_price, self.winning_prediction) {
            (None, None) => !self.is_settled,
            (Some(end_price), Some(won)) => self.is_settled && won == resolve_prediction(
                self.start_price,
                end_price,
            ),
            _ => false,
        }
    }
}

} // verus!
