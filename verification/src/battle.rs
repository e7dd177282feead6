//! Battles of two assets: stakes back one of the two, the asset whose price
//! changes by more wins, and a tie returns every stake.

use crate::error::Error;
use crate::ledger::{credit_views, entry_amounts, total_in, total_of, Credit, CreditView};
use crate::oracle::PriceData;
use crate::outcome::{
    battle_outcome, change_representable, checked_price_change, compare_changes, price_change,
    BattleOutcome,
};
use crate::payout::{distributable, distributable_of, lemma_shares_within, payout, payout_of, shares_of};
use crate::round::WINDOW;
use crate::sums::{
    lemma_sum_added, lemma_sum_bounds, lemma_sum_push, lemma_sum_take, lemma_sum_zeros, sum,
};
use vstd::prelude::*;

verus! {

/// The asset that a stake backs in a battle of two.
#[derive(Copy, Clone, Debug, PartialEq, Eq, Structural)]
pub enum Side {
    First,
    Second,
}

/// One stake in a battle: who placed it, on which asset, and how much.
#[derive(Debug, PartialEq, Eq)]
pub struct BattleStake {
    /// The participant's account, in its text form.
    pub user: String,
    pub side: Side,
    pub amount: i128,
}

/// A stake in a battle as a mathematical value.
pub struct BattleStakeView {
    pub user: Seq<char>,
    pub side: Side,
    pub amount: int,
}

impl View for BattleStake {
    type V = BattleStakeView;

    open spec fn view(&self) -> BattleStakeView {
        BattleStakeView { user: self.user@, side: self.side, amount: self.amount as int }
    }
}

impl Clone for BattleStake {
    fn clone(&self) -> (copy: BattleStake)
        ensures
            copy@ == self@,
    {
        BattleStake { user: self.user.clone(), side: self.side, amount: self.amount }
    }
}

/// The views of a sequence of stakes.
pub open spec fn stake_views(stakes: Seq<BattleStake>) -> Seq<BattleStakeView> {
    Seq::new(stakes.len(), |i: int| stakes[i]@)
}

/// What a stake adds to the pool of `side`.
pub open spec fn backing(stake: BattleStakeView, side: Side) -> int {
    if stake.side == side {
        stake.amount
    } else {
        0
    }
}

/// What each stake adds to the pool of `side`, in order.
pub open spec fn backings(stakes: Seq<BattleStakeView>, side: Side) -> Seq<int> {
    Seq::new(stakes.len(), |i: int| backing(stakes[i], side))
}

/// The amounts of the stakes, in order.
pub open spec fn backing_amounts(stakes: Seq<BattleStakeView>) -> Seq<int> {
    Seq::new(stakes.len(), |i: int| stakes[i].amount)
}

/// The side that an outcome makes the winner; a tie makes none.
pub open spec fn winning_side(outcome: BattleOutcome) -> Option<Side> {
    match outcome {
        BattleOutcome::First => Some(Side::First),
        BattleOutcome::Second => Some(Side::Second),
        BattleOutcome::Tie => None,
    }
}

/// A battle of two assets: the asset whose price changes by more within
/// the window wins. A battle opens no successor by itself: once its window
/// has ended, stakes are refused.
#[derive(Debug, PartialEq, Eq)]
pub struct Battle {
    /// When the battle was opened.
    pub start_time: u64,
    /// The prices of the two assets at the time the battle was opened.
    pub first_start_price: i128,
    pub second_start_price: i128,
    /// The prices of the two assets at the end of the window, known once
    /// the battle is settled.
    pub end_prices: Option<(i128, i128)>,
    /// The stakes, in the order in which they were taken.
    pub stakes: Vec<BattleStake>,
    pub is_settled: bool,
    /// How the battle ended, known once it is settled.
    pub outcome: Option<BattleOutcome>,
    pub total_pool: i128,
    pub first_pool: i128,
    pub second_pool: i128,
}

/// A battle as a mathematical value.
pub struct BattleView {
    pub start_time: nat,
    pub first_start_price: int,
    pub second_start_price: int,
    pub end_prices: Option<(int, int)>,
    pub stakes: Seq<BattleStakeView>,
    pub is_settled: bool,
    pub outcome: Option<BattleOutcome>,
    pub total_pool: int,
    pub first_pool: int,
    pub second_pool: int,
}

impl View for Battle {
    type V = BattleView;

    open spec fn view(&self) -> BattleView {
        BattleView {
            start_time: self.start_time as nat,
            first_start_price: self.first_start_price as int,
            second_start_price: self.second_start_price as int,
            end_prices: match self.end_prices {
                Some((first, second)) => Some((first as int, second as int)),
                None => None,
            },
            stakes: stake_views(self.stakes@),
            is_settled: self.is_settled,
            outcome: self.outcome,
            total_pool: self.total_pool as int,
            first_pool: self.first_pool as int,
            second_pool: self.second_pool as int,
        }
    }
}

impl BattleView {
    /// A battle as it is opened: no stakes, empty pools, not settled.
    pub open spec fn opened(start_time: nat, first_price: int, second_price: int) -> BattleView {
        BattleView {
            start_time,
            first_start_price: first_price,
            second_start_price: second_price,
            end_prices: None,
            stakes: Seq::empty(),
            is_settled: false,
            outcome: None,
            total_pool: 0,
            first_pool: 0,
            second_pool: 0,
        }
    }

    /// The time at which the window ends.
    pub open spec fn closes_at(self) -> int {
        self.start_time as int + WINDOW
    }

    /// Whether the battle takes stakes at `now`.
    pub open spec fn accepts_at(self, now: int) -> bool {
        !self.is_settled && now < self.closes_at()
    }

    /// Whether the battle can be settled at `now`.
    pub open spec fn ready_at(self, now: int) -> bool {
        !self.is_settled && now >= self.closes_at()
    }

    /// The pool of one side.
    pub open spec fn pool_of(self, side: Side) -> int {
        match side {
            Side::First => self.first_pool,
            Side::Second => self.second_pool,
        }
    }

    /// The battle after `stake` was taken.
    pub open spec fn with_stake(self, stake: BattleStakeView) -> BattleView {
        BattleView {
            stakes: self.stakes.push(stake),
            total_pool: self.total_pool + stake.amount,
            first_pool: self.first_pool + backing(stake, Side::First),
            second_pool: self.second_pool + backing(stake, Side::Second),
            ..self
        }
    }

    /// How the battle ends where the two prices end at `first_end` and
    /// `second_end`.
    pub open spec fn outcome_at(self, first_end: int, second_end: int) -> BattleOutcome {
        battle_outcome(
            price_change(self.first_start_price, first_end),
            price_change(self.second_start_price, second_end),
        )
    }

    /// Whether the changes to the prices `first_end` and `second_end` can be
    /// computed in `i128`.
    pub open spec fn can_settle_at(self, first_end: int, second_end: int) -> bool {
        change_representable(self.first_start_price, first_end) && change_representable(
            self.second_start_price,
            second_end,
        )
    }

    /// The battle after it was settled at the prices `first_end` and
    /// `second_end`.
    pub open spec fn settled_at(self, first_end: int, second_end: int) -> BattleView {
        BattleView {
            end_prices: Some((first_end, second_end)),
            is_settled: true,
            outcome: Some(self.outcome_at(first_end, second_end)),
            ..self
        }
    }

    /// What a battle keeps true from the moment it is opened: positive
    /// starting prices, a window that ends at a time that can be told,
    /// positive stakes, pools that are the sums of their stakes, and an
    /// outcome exactly when it is settled.
    pub open spec fn wf(self) -> bool {
        &&& self.first_start_price > 0
        &&& self.second_start_price > 0
        &&& self.closes_at() <= u64::MAX
        &&& forall|i: int| 0 <= i < self.stakes.len() ==> (#[trigger] self.stakes[i]).amount > 0
        &&& self.first_pool == sum(backings(self.stakes, Side::First))
        &&& self.second_pool == sum(backings(self.stakes, Side::Second))
        &&& self.total_pool == sum(backing_amounts(self.stakes))
        &&& self.total_pool <= i128::MAX
        &&& self.is_settled <==> self.end_prices is Some
        &&& self.is_settled <==> self.outcome is Some
        &&& self.end_prices matches Some((first_end, second_end)) ==> self.can_settle_at(
            first_end,
            second_end,
        ) && self.outcome == Some(self.outcome_at(first_end, second_end))
    }

    /// The pool of the side that won; zero in a tie and while the battle is
    /// open.
    pub open spec fn winning_pool(self) -> int {
        match self.outcome {
            Some(BattleOutcome::First) => self.first_pool,
            Some(BattleOutcome::Second) => self.second_pool,
            _ => 0,
        }
    }

    /// Whether the battle pays for `stake`: in a tie every stake is
    /// returned, otherwise the stakes on the winning side are paid.
    pub open spec fn pays(self, stake: BattleStakeView) -> bool {
        match self.outcome {
            Some(BattleOutcome::Tie) => true,
            Some(outcome) => winning_side(outcome) == Some(stake.side) && self.winning_pool() > 0,
            None => false,
        }
    }

    /// What the battle pays for `stake`: in a tie the stake itself, with no
    /// fee taken; otherwise its share of the pool after the fee where it
    /// backed the winner, and nothing where it did not.
    pub open spec fn due_for(self, stake: BattleStakeView) -> int {
        if self.outcome == Some(BattleOutcome::Tie) {
            stake.amount
        } else if self.pays(stake) {
            payout_of(stake.amount, distributable_of(self.total_pool), self.winning_pool())
        } else {
            0
        }
    }

    /// What the battle pays for each of its stakes, in order.
    pub open spec fn dues(self) -> Seq<int> {
        Seq::new(self.stakes.len(), |i: int| self.due_for(self.stakes[i]))
    }

    /// Everything that the battle pays.
    pub open spec fn paid_out(self) -> int {
        sum(self.dues())
    }

    /// The transfers for the first `n` stakes: one for each stake that the
    /// battle pays for, in the order of the stakes.
    pub open spec fn transfers_upto(self, n: nat) -> Seq<CreditView>
        decreases n,
    {
        if n == 0 {
            Seq::empty()
        } else {
            let before = self.transfers_upto((n - 1) as nat);
            let stake = self.stakes[n - 1];
            if self.pays(stake) {
                before.push(CreditView { user: stake.user, amount: self.due_for(stake) })
            } else {
                before
            }
        }
    }

    /// The transfers that the battle owes: one for each stake that it pays
    /// for, in the order of the stakes.
    pub open spec fn transfers(self) -> Seq<CreditView> {
        self.transfers_upto(self.stakes.len())
    }
}

/// The two pools of a battle add up to its total pool, which is the sum of
/// its stakes.
pub proof fn battle_pools_add_up(battle: BattleView)
    requires
        battle.wf(),
    ensures
        battle.first_pool + battle.second_pool == battle.total_pool,
        battle.total_pool == sum(backing_amounts(battle.stakes)),
        0 <= battle.first_pool,
        0 <= battle.second_pool,
{
    let firsts = backings(battle.stakes, Side::First);
    let seconds = backings(battle.stakes, Side::Second);
    let all = backing_amounts(battle.stakes);
    assert forall|i: int| 0 <= i < all.len() implies all[i] == firsts[i] + seconds[i] by {}
    lemma_sum_added(firsts, seconds, all);
    assert forall|i: int| 0 <= i < firsts.len() implies firsts[i] >= 0 by {
        assert(battle.stakes[i].amount > 0);
    }
    assert forall|i: int| 0 <= i < seconds.len() implies seconds[i] >= 0 by {
        assert(battle.stakes[i].amount > 0);
    }
    lemma_sum_bounds(firsts);
    lemma_sum_bounds(seconds);
}

/// Taking a positive stake keeps a battle well formed where the total still
/// fits.
pub proof fn lemma_with_stake_wf(battle: BattleView, stake: BattleStakeView)
    requires
        battle.wf(),
        stake.amount > 0,
        battle.total_pool + stake.amount <= i128::MAX,
    ensures
        battle.with_stake(stake).wf(),
{
    let after = battle.with_stake(stake);
    assert(backings(after.stakes, Side::First) =~= backings(battle.stakes, Side::First).push(
        backing(stake, Side::First),
    ));
    assert(backings(after.stakes, Side::Second) =~= backings(battle.stakes, Side::Second).push(
        backing(stake, Side::Second),
    ));
    assert(backing_amounts(after.stakes) =~= backing_amounts(battle.stakes).push(stake.amount));
    lemma_sum_push(backings(battle.stakes, Side::First), backing(stake, Side::First));
    lemma_sum_push(backings(battle.stakes, Side::Second), backing(stake, Side::Second));
    lemma_sum_push(backing_amounts(battle.stakes), stake.amount);
    assert forall|i: int| 0 <= i < after.stakes.len() implies (#[trigger] after.stakes[i]).amount
        > 0 by {
        if i < battle.stakes.len() {
            assert(after.stakes[i] == battle.stakes[i]);
        }
    }
}

/// A tie returns every stake as it was: what is paid is the whole pool.
/// Otherwise a battle pays no more than its pool leaves after the fee, and
/// nothing where nobody backed the winner.
pub proof fn battle_payouts_within_pool(battle: BattleView)
    requires
        battle.wf(),
    ensures
        battle.outcome == Some(BattleOutcome::Tie) ==> battle.paid_out() == battle.total_pool,
        battle.outcome != Some(BattleOutcome::Tie) ==> 0 <= battle.paid_out() <= distributable_of(
            battle.total_pool,
        ),
        battle.outcome != Some(BattleOutcome::Tie) && battle.winning_pool() == 0
            ==> battle.paid_out() == 0 && battle.transfers() == Seq::<CreditView>::empty(),
        0 <= battle.paid_out() <= battle.total_pool,
        forall|i: int| 0 <= i < battle.stakes.len() ==> 0 <= #[trigger] battle.dues()[i],
{
    battle_pools_add_up(battle);
    let left = distributable_of(battle.total_pool);
    if battle.outcome == Some(BattleOutcome::Tie) {
        assert(battle.dues() =~= backing_amounts(battle.stakes));
        assert forall|i: int| 0 <= i < battle.stakes.len() implies 0 <= #[trigger] battle.dues()[i] by {
            assert(battle.stakes[i].amount > 0);
        }
    } else if battle.winning_pool() > 0 {
        let side = winning_side(battle.outcome->0)->0;
        let stakes = backings(battle.stakes, side);
        assert forall|i: int| 0 <= i < stakes.len() implies stakes[i] >= 0 by {
            assert(battle.stakes[i].amount > 0);
        }
        assert(0 * left == 0) by (nonlinear_arith);
        assert(battle.dues() =~= shares_of(stakes, left));
        lemma_shares_within(stakes, left);
    } else {
        lemma_nothing_due(battle, battle.stakes.len());
        assert forall|i: int| 0 <= i < battle.dues().len() implies battle.dues()[i] == 0 by {}
        lemma_sum_zeros(battle.dues());
    }
}

/// A battle that pays for no stake owes no transfer.
proof fn lemma_nothing_due(battle: BattleView, n: nat)
    requires
        battle.outcome != Some(BattleOutcome::Tie),
        battle.winning_pool() <= 0,
    ensures
        battle.transfers_upto(n) == Seq::<CreditView>::empty(),
    decreases n,
{
    if n > 0 {
        lemma_nothing_due(battle, (n - 1) as nat);
    }
}

/// The transfers of a battle carry what the battle pays: none is negative,
/// and their sum is all that it pays.
pub proof fn lemma_transfers_carry_dues(battle: BattleView, n: nat)
    requires
        battle.wf(),
        n <= battle.stakes.len(),
    ensures
        total_in(battle.transfers_upto(n)) == sum(battle.dues().take(n as int)),
        forall|i: int|
            0 <= i < battle.transfers_upto(n).len() ==> (#[trigger] battle.transfers_upto(
                n,
            )[i]).amount >= 0,
    decreases n,
{
    let now = battle.transfers_upto(n);
    battle_payouts_within_pool(battle);
    if n == 0 {
        assert(entry_amounts(now) =~= Seq::<int>::empty());
        assert(battle.dues().take(0) =~= Seq::<int>::empty());
    } else {
        let before = battle.transfers_upto((n - 1) as nat);
        let stake = battle.stakes[n - 1];
        lemma_transfers_carry_dues(battle, (n - 1) as nat);
        lemma_sum_take(battle.dues(), n - 1);
        assert(battle.dues()[n - 1] == battle.due_for(stake));
        if battle.pays(stake) {
            let due = battle.due_for(stake);
            assert(entry_amounts(now) =~= entry_amounts(before).push(due));
            lemma_sum_push(entry_amounts(before), due);
            assert forall|i: int| 0 <= i < now.len() implies (#[trigger] now[i]).amount >= 0 by {
                if i < before.len() {
                    assert(now[i] == before[i]);
                }
            }
        } else {
            assert(battle.due_for(stake) == 0);
        }
    }
}

/// Why an attempt to settle `battle` at `now` is refused before any price
/// is looked at, or for want of a price; `None` where the battle can be
/// settled.
pub open spec fn settle_refusal(
    battle: BattleView,
    now: int,
    first: Option<PriceData>,
    second: Option<PriceData>,
) -> Option<Error> {
    if battle.is_settled {
        Some(Error::RoundAlreadySettled)
    } else if now < battle.closes_at() {
        Some(Error::BettingClosed)
    } else if first is None || second is None {
        Some(Error::NoPrice)
    } else {
        None
    }
}

impl Battle {
    /// See [`BattleView::wf`].
    pub open spec fn wf(&self) -> bool {
        self@.wf()
    }

    /// Opens a battle at `start_time` with the prices that the oracle
    /// reported then for the two assets.
    pub fn new(start_time: u64, first_price: i128, second_price: i128) -> (battle: Battle)
        requires
            first_price > 0,
            second_price > 0,
            start_time + WINDOW <= u64::MAX,
        ensures
            battle@ == BattleView::opened(
                start_time as nat,
                first_price as int,
                second_price as int,
            ),
            battle.wf(),
    {
        let battle = Battle {
            start_time,
            first_start_price: first_price,
            second_start_price: second_price,
            end_prices: None,
            stakes: Vec::new(),
            is_settled: false,
            outcome: None,
            total_pool: 0,
            first_pool: 0,
            second_pool: 0,
        };
        proof {
            assert(battle@.stakes =~= Seq::<BattleStakeView>::empty());
            assert(backings(battle@.stakes, Side::First) =~= Seq::<int>::empty());
            assert(backings(battle@.stakes, Side::Second) =~= Seq::<int>::empty());
            assert(backing_amounts(battle@.stakes) =~= Seq::<int>::empty());
        }
        battle
    }

    /// The time at which the window ends. The prices at exactly this time
    /// settle the battle.
    pub fn closes_at(&self) -> (time: u64)
        requires
            self.wf(),
        ensures
            time == self@.closes_at(),
    {
        self.start_time + WINDOW
    }

    /// Tells whether the battle takes stakes at `now`. At the very end of
    /// the window it takes none.
    pub fn accepts_stakes(&self, now: u64) -> (open: bool)
        requires
            self.wf(),
        ensures
            open == self@.accepts_at(now as int),
    {
        !self.is_settled && now < self.start_time + WINDOW
    }

    /// Tells whether the battle can be settled at `now`.
    pub fn ready_to_settle(&self, now: u64) -> (ready: bool)
        requires
            self.wf(),
        ensures
            ready == self@.ready_at(now as int),
    {
        !self.is_settled && now >= self.start_time + WINDOW
    }

    /// Returns the pool of one side.
    pub fn pool(&self, side: Side) -> (amount: i128)
        ensures
            amount == self@.pool_of(side),
    {
        match side {
            Side::First => self.first_pool,
            Side::Second => self.second_pool,
        }
    }

    /// Takes a stake at `now`. A stake that is not positive is refused with
    /// `InvalidAmount`, and a positive one with `BettingClosed` where the
    /// battle is settled or its window has ended; the battle is then left as
    /// it was.
    pub fn add_stake(&mut self, now: u64, stake: BattleStake) -> (added: Result<(), Error>)
        requires
            old(self).wf(),
            old(self).total_pool + stake.amount <= i128::MAX,
        ensures
            final(self).wf(),
            stake.amount <= 0 ==> added == Err::<(), Error>(Error::InvalidAmount),
            stake.amount > 0 && !old(self)@.accepts_at(now as int) ==> added == Err::<(), Error>(
                Error::BettingClosed,
            ),
            stake.amount > 0 && old(self)@.accepts_at(now as int) ==> added == Ok::<(), Error>(()),
            added is Ok ==> final(self)@ == old(self)@.with_stake(stake@),
            added is Err ==> final(self)@ == old(self)@,
    {
        if stake.amount <= 0 {
            return Err(Error::InvalidAmount);
        }
        if !self.accepts_stakes(now) {
            return Err(Error::BettingClosed);
        }
        proof {
            lemma_with_stake_wf(self@, stake@);
            battle_pools_add_up(self@);
        }
        let ghost before = self@;
        let amount = stake.amount;
        match stake.side {
            Side::First => {
                self.first_pool = self.first_pool + amount;
            },
            Side::Second => {
                self.second_pool = self.second_pool + amount;
            },
        }
        self.total_pool = self.total_pool + amount;
        self.stakes.push(stake);
        assert(self@.stakes =~= before.stakes.push(stake@));
        assert(self@ == before.with_stake(stake@));
        Ok(())
    }

    /// Tells whether the battle can be settled at the prices `first_end` and
    /// `second_end`: whether both changes can be computed in `i128`.
    pub fn can_settle_with(&self, first_end: i128, second_end: i128) -> (possible: bool)
        ensures
            possible == self@.can_settle_at(first_end as int, second_end as int),
    {
        checked_price_change(self.first_start_price, first_end).is_some() && checked_price_change(
            self.second_start_price,
            second_end,
        ).is_some()
    }

    /// Lists what the battle owes: in a tie every stake goes back to its
    /// participant as it was; otherwise each stake on the winning side gets
    /// its share of the pool after the fee. A battle that is not settled, or
    /// whose winner nobody backed, owes nothing.
    pub fn transfers(&self) -> (transfers: Vec<Credit>)
        requires
            self.wf(),
        ensures
            credit_views(transfers@) == self@.transfers(),
    {
        let mut transfers: Vec<Credit> = Vec::new();
        assert(credit_views(transfers@) =~= Seq::<CreditView>::empty());
        let outcome = match self.outcome {
            Some(outcome) => outcome,
            None => {
                proof {
                    lemma_nothing_due(self@, self@.stakes.len());
                }
                return transfers;
            },
        };
        let winning_pool = match outcome {
            BattleOutcome::First => self.first_pool,
            BattleOutcome::Second => self.second_pool,
            BattleOutcome::Tie => 0,
        };
        proof {
            battle_pools_add_up(self@);
        }
        let left = distributable(self.total_pool);
        let mut i: usize = 0;
        while i < self.stakes.len()
            invariant
                i <= self.stakes.len(),
                self.wf(),
                self.outcome == Some(outcome),
                winning_pool == self@.winning_pool(),
                left == distributable_of(self@.total_pool),
                0 <= left,
                credit_views(transfers@) == self@.transfers_upto(i as nat),
            decreases self.stakes.len() - i,
        {
            let stake = &self.stakes[i];
            let ghost before = credit_views(transfers@);
            assert(self@.stakes[i as int] == stake@);
            let due: Option<i128> = match outcome {
                BattleOutcome::Tie => Some(stake.amount),
                BattleOutcome::First => {
                    if winning_pool > 0 && stake.side == Side::First {
                        proof {
                            lemma_stake_within_side(self@, i as int);
                        }
                        Some(payout(stake.amount, left, winning_pool))
                    } else {
                        None
                    }
                },
                BattleOutcome::Second => {
                    if winning_pool > 0 && stake.side == Side::Second {
                        proof {
                            lemma_stake_within_side(self@, i as int);
                        }
                        Some(payout(stake.amount, left, winning_pool))
                    } else {
                        None
                    }
                },
            };
            match due {
                Some(amount) => {
                    transfers.push(Credit { user: stake.user.clone(), amount });
                    assert(credit_views(transfers@) =~= before.push(
                        CreditView { user: stake@.user, amount: amount as int },
                    ));
                },
                None => {},
            }
            i = i + 1;
        }
        transfers
    }

    /// Settles the battle at `now` with the oracle's answers for the prices
    /// of the two assets at the end of the window, and returns the transfers
    /// that are to be made at once out of an escrow that holds
    /// `pool_balance`.
    ///
    /// A settled battle is refused with `RoundAlreadySettled`, one whose
    /// window has not ended with `BettingClosed`, and a missing price with
    /// `NoPrice`; the battle is then left as it was and can be settled
    /// later. Otherwise the battle is settled for good. Where the escrow
    /// holds less than the battle has to pay, the error is
    /// `InsufficientPoolFunds`, and the battle stays settled all the same.
    pub fn settle(
        &mut self,
        now: u64,
        first: Option<PriceData>,
        second: Option<PriceData>,
        pool_balance: i128,
    ) -> (settled: Result<Vec<Credit>, Error>)
        requires
            old(self).wf(),
            settle_refusal(old(self)@, now as int, first, second) is None ==> old(self)@.can_settle_at(
                first->0.price as int,
                second->0.price as int,
            ),
        ensures
            final(self).wf(),
            settle_refusal(old(self)@, now as int, first, second) matches Some(error) ==> settled
                == Err::<Vec<Credit>, Error>(error) && final(self)@ == old(self)@,
            settle_refusal(old(self)@, now as int, first, second) is None ==> final(self)@ == old(
                self,
            )@.settled_at(first->0.price as int, second->0.price as int),
            settle_refusal(old(self)@, now as int, first, second) is None && final(self)@.paid_out()
                > pool_balance ==> settled == Err::<Vec<Credit>, Error>(
                Error::InsufficientPoolFunds,
            ),
            settle_refusal(old(self)@, now as int, first, second) is None && final(self)@.paid_out()
                <= pool_balance ==> (settled matches Ok(transfers) && credit_views(transfers@)
                == final(self)@.transfers()),
    {
        if self.is_settled {
            return Err(Error::RoundAlreadySettled);
        }
        if now < self.start_time + WINDOW {
            return Err(Error::BettingClosed);
        }
        let (first_end, second_end) = match (first, second) {
            (Some(a), Some(b)) => (a.price, b.price),
            _ => {
                return Err(Error::NoPrice);
            },
        };
        let first_change = checked_price_change(self.first_start_price, first_end).unwrap();
        let second_change = checked_price_change(self.second_start_price, second_end).unwrap();
        let outcome = compare_changes(first_change, second_change);
        self.end_prices = Some((first_end, second_end));
        self.outcome = Some(outcome);
        self.is_settled = true;
        let transfers = self.transfers();
        proof {
            lemma_transfers_carry_dues(self@, self@.stakes.len());
            battle_payouts_within_pool(self@);
            assert(self@.dues().take(self@.stakes.len() as int) =~= self@.dues());
            assert forall|i: int| 0 <= i < transfers@.len() implies (#[trigger] transfers@[i]).amount
                >= 0 by {
                assert(self@.transfers()[i] == transfers@[i]@);
            }
        }
        let owed = total_of(&transfers).unwrap();
        if owed > pool_balance {
            Err(Error::InsufficientPoolFunds)
        } else {
            Ok(transfers)
        }
    }
}

/// In a well-formed battle no stake is larger than the pool of its side.
proof fn lemma_stake_within_side(battle: BattleView, i: int)
    requires
        battle.wf(),
        0 <= i < battle.stakes.len(),
    ensures
        0 < battle.stakes[i].amount <= battle.pool_of(battle.stakes[i].side),
{
    let stake = battle.stakes[i];
    let stakes = backings(battle.stakes, stake.side);
    assert forall|k: int| 0 <= k < stakes.len() implies stakes[k] >= 0 by {
        assert(battle.stakes[k].amount > 0);
    }
    lemma_sum_bounds(stakes);
    assert(stakes[i] == stake.amount);
}

impl Clone for Battle {
    fn clone(&self) -> (copy: Battle)
        ensures
            copy@ == self@,
    {
        let mut stakes: Vec<BattleStake> = Vec::new();
        let mut i: usize = 0;
        while i < self.stakes.len()
            invariant
                i <= self.stakes.len(),
                stake_views(stakes@) =~= stake_views(self.stakes@).take(i as int),
            decreases self.stakes.len() - i,
        {
            let ghost copied = stakes@;
            let copy = self.stakes[i].clone();
            assert(copy@ == self.stakes@[i as int]@);
            stakes.push(copy);
            assert(stake_views(stakes@) =~= stake_views(copied).push(copy@));
            assert(stake_views(self.stakes@).take(i + 1) =~= stake_views(self.stakes@).take(
                i as int,
            ).push(self.stakes@[i as int]@));
            i = i + 1;
        }
        assert(stake_views(stakes@) =~= stake_views(self.stakes@));
        Battle {
            start_time: self.start_time,
            first_start_price: self.first_start_price,
            second_start_price: self.second_start_price,
            end_prices: self.end_prices,
            stakes,
            is_settled: self.is_settled,
            outcome: self.outcome,
            total_pool: self.total_pool,
            first_pool: self.first_pool,
            second_pool: self.second_pool,
        }
    }
}

impl Battle {
    /// Tells whether every stake of the battle is positive.
    fn stakes_are_positive(&self) -> (positive: bool)
        ensures
            positive == (forall|i: int|
                0 <= i < self@.stakes.len() ==> (#[trigger] self@.stakes[i]).amount > 0),
    {
        let mut i: usize = 0;
        while i < self.stakes.len()
            invariant
                i <= self.stakes.len(),
                forall|k: int| 0 <= k < i ==> (#[trigger] self@.stakes[k]).amount > 0,
            decreases self.stakes.len() - i,
        {
            assert(self@.stakes[i as int] == self.stakes@[i as int]@);
            if self.stakes[i].amount <= 0 {
                return false;
            }
            i = i + 1;
        }
        true
    }

    /// Tells whether the pools of the battle are the sums of its stakes,
    /// given that every stake is positive.
    fn pools_match_stakes(&self) -> (matching: bool)
        requires
            forall|i: int| 0 <= i < self@.stakes.len() ==> (#[trigger] self@.stakes[i]).amount > 0,
        ensures
            matching == {
                &&& self@.first_pool == sum(backings(self@.stakes, Side::First))
                &&& self@.second_pool == sum(backings(self@.stakes, Side::Second))
                &&& self@.total_pool == sum(backing_amounts(self@.stakes))
            },
    {
        let ghost stakes = self@.stakes;
        let ghost all = backing_amounts(stakes);
        let ghost firsts = backings(stakes, Side::First);
        let ghost seconds = backings(stakes, Side::Second);
        proof {
            assert forall|k: int| 0 <= k < all.len() implies all[k] >= 0 by {
                assert(stakes[k].amount > 0);
            }
            lemma_sum_bounds(all);
            assert(all.take(0) =~= Seq::<int>::empty());
            assert(firsts.take(0) =~= Seq::<int>::empty());
            assert(seconds.take(0) =~= Seq::<int>::empty());
        }
        let mut total: i128 = 0;
        let mut first: i128 = 0;
        let mut second: i128 = 0;
        let mut i: usize = 0;
        while i < self.stakes.len()
            invariant
                i <= self.stakes.len(),
                stakes == self@.stakes,
                all == backing_amounts(stakes),
                firsts == backings(stakes, Side::First),
                seconds == backings(stakes, Side::Second),
                forall|k: int| 0 <= k < stakes.len() ==> (#[trigger] stakes[k]).amount > 0,
                forall|n: int| 0 <= n <= all.len() ==> 0 <= #[trigger] sum(all.take(n)) <= sum(all),
                total == sum(all.take(i as int)),
                first == sum(firsts.take(i as int)),
                second == sum(seconds.take(i as int)),
                first + second == total,
                0 <= first,
                0 <= second,
            decreases self.stakes.len() - i,
        {
            proof {
                assert(stakes[i as int] == self.stakes@[i as int]@);
                assert(stakes[i as int].amount > 0);
                lemma_sum_take(all, i as int);
                lemma_sum_take(firsts, i as int);
                lemma_sum_take(seconds, i as int);
            }
            let amount = self.stakes[i].amount;
            total = match total.checked_add(amount) {
                Some(grown) => grown,
                None => {
                    assert(sum(all.take(i + 1)) > i128::MAX);
                    return false;
                },
            };
            match self.stakes[i].side {
                Side::First => {
                    first = first + amount;
                },
                Side::Second => {
                    second = second + amount;
                },
            }
            i = i + 1;
        }
        proof {
            assert(all.take(i as int) =~= all);
            assert(firsts.take(i as int) =~= firsts);
            assert(seconds.take(i as int) =~= seconds);
        }
        first == self.first_pool && second == self.second_pool && total == self.total_pool
    }

    /// Tells whether the battle is well formed, as a battle is that this
    /// library made. A battle that was put together in another way, or read
    /// from storage, is to be tested before it is used.
    pub fn is_well_formed(&self) -> (valid: bool)
        ensures
            valid == self.wf(),
    {
        if self.first_start_price <= 0 || self.second_start_price <= 0 || self.start_time
            > u64::MAX - WINDOW {
            return false;
        }
        if !self.stakes_are_positive() {
            return false;
        }
        if !self.pools_match_stakes() {
            return false;
        }
        match (self.end_prices, self.outcome) {
            (None, None) => !self.is_settled,
            (Some((first_end, second_end)), Some(outcome)) => {
                if !self.is_settled {
                    return false;
                }
                let first_change = match checked_price_change(self.first_start_price, first_end) {
                    Some(change) => change,
                    None => {
                        return false;
                    },
                };
                let second_change = match checked_price_change(
                    self.second_start_price,
                    second_end,
                ) {
                    Some(change) => change,
                    None => {
                        return false;
                    },
                };
                outcome == compare_changes(first_change, second_change)
            },
            _ => false,
        }
    }
}

} // verus!
