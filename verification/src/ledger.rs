//! The ledger of winnings: what each participant has won and not claimed.

use crate::sums::{lemma_sum_bounds, lemma_sum_push, lemma_sum_take, lemma_sum_update, sum};
use vstd::prelude::*;

verus! {

/// An amount owed to a participant.
#[derive(Debug, PartialEq, Eq)]
pub struct Credit {
    /// The participant's account, in its text form.
    pub user: String,
    pub amount: i128,
}

/// A credit as a mathematical value.
pub struct CreditView {
    pub user: Seq<char>,
    pub amount: int,
}

impl View for Credit {
    type V = CreditView;

    open spec fn view(&self) -> CreditView {
        CreditView { user: self.user@, amount: self.amount as int }
    }
}

impl Clone for Credit {
    fn clone(&self) -> (copy: Credit)
        ensures
            copy@ == self@,
    {
        Credit { user: self.user.clone(), amount: self.amount }
    }
}

/// The views of a sequence of credits.
pub open spec fn credit_views(credits: Seq<Credit>) -> Seq<CreditView> {
    Seq::new(credits.len(), |i: int| credits[i]@)
}

/// Whether some entry belongs to `user`.
pub open spec fn has_entry(entries: Seq<CreditView>, user: Seq<char>) -> bool {
    exists|i: int| 0 <= i < entries.len() && (#[trigger] entries[i]).user == user
}

/// The place of an entry of `user`, where there is one.
pub open spec fn entry_index(entries: Seq<CreditView>, user: Seq<char>) -> int
    recommends
        has_entry(entries, user),
{
    choose|i: int| 0 <= i < entries.len() && (#[trigger] entries[i]).user == user
}

/// What the entries hold for `user`: nothing where no entry is theirs.
pub open spec fn balance_in(entries: Seq<CreditView>, user: Seq<char>) -> int {
    if has_entry(entries, user) {
        entries[entry_index(entries, user)].amount
    } else {
        0
    }
}

/// The amounts of the entries, in order.
pub open spec fn entry_amounts(entries: Seq<CreditView>) -> Seq<int> {
    Seq::new(entries.len(), |i: int| entries[i].amount)
}

/// Everything that the entries hold together.
pub open spec fn total_in(entries: Seq<CreditView>) -> int {
    sum(entry_amounts(entries))
}

/// Entries as a ledger keeps them: one per participant at most, none
/// negative, and a total that fits.
pub open spec fn entries_wf(entries: Seq<CreditView>) -> bool {
    &&& forall|i: int, j: int|
        0 <= i < j < entries.len() ==> (#[trigger] entries[i]).user != (#[trigger] entries[j]).user
    &&& forall|i: int| 0 <= i < entries.len() ==> 0 <= (#[trigger] entries[i]).amount
    &&& total_in(entries) <= i128::MAX
}

/// The entries after `amount` was credited to `user`: their entry grows, or
/// a new one is added behind the others.
pub open spec fn credited(entries: Seq<CreditView>, user: Seq<char>, amount: int) -> Seq<
    CreditView,
> {
    if has_entry(entries, user) {
        let at = entry_index(entries, user);
        entries.update(at, CreditView { user, amount: entries[at].amount + amount })
    } else {
        entries.push(CreditView { user, amount })
    }
}

/// The entries after `user` claimed what they were owed: their entry, if
/// any, stays and holds nothing.
pub open spec fn claimed(entries: Seq<CreditView>, user: Seq<char>) -> Seq<CreditView> {
    if has_entry(entries, user) {
        entries.update(entry_index(entries, user), CreditView { user, amount: 0 })
    } else {
        entries
    }
}

/// In well-formed entries the entry of a participant is the only one.
pub proof fn lemma_entry_unique(entries: Seq<CreditView>, at: int)
    requires
        entries_wf(entries),
        0 <= at < entries.len(),
    ensures
        has_entry(entries, entries[at].user),
        entry_index(entries, entries[at].user) == at,
        balance_in(entries, entries[at].user) == entries[at].amount,
{
    let user = entries[at].user;
    assert(has_entry(entries, user));
    let found = entry_index(entries, user);
    if found < at {
        assert(entries[found].user != entries[at].user);
    } else if at < found {
        assert(entries[at].user != entries[found].user);
    }
}

/// A credit keeps the entries well formed where the total still fits, adds
/// to the participant's balance and to the total, and leaves every other
/// balance alone.
pub proof fn lemma_credited(entries: Seq<CreditView>, user: Seq<char>, amount: int)
    requires
        entries_wf(entries),
        amount >= 0,
        total_in(entries) + amount <= i128::MAX,
    ensures
        entries_wf(credited(entries, user, amount)),
        total_in(credited(entries, user, amount)) == total_in(entries) + amount,
        balance_in(credited(entries, user, amount), user) == balance_in(entries, user) + amount,
        forall|other: Seq<char>|
            other != user ==> balance_in(credited(entries, user, amount), other) == balance_in(
                entries,
                other,
            ),
{
    let after = credited(entries, user, amount);
    if has_entry(entries, user) {
        let at = entry_index(entries, user);
        lemma_entry_unique(entries, at);
        assert(entry_amounts(after) =~= entry_amounts(entries).update(
            at,
            entries[at].amount + amount,
        ));
        lemma_sum_update(entry_amounts(entries), at, entries[at].amount + amount);
        assert(entries_wf(after)) by {
            assert forall|i: int, j: int| 0 <= i < j < after.len() implies (#[trigger] after[i]).user
                != (#[trigger] after[j]).user by {
                assert(after[i].user == entries[i].user);
                assert(after[j].user == entries[j].user);
            }
        }
        assert(after[at].user == user);
        lemma_entry_unique(after, at);
        assert forall|other: Seq<char>| other != user implies balance_in(after, other)
            == balance_in(entries, other) by {
            lemma_same_users_same_balance(entries, after, other, at);
        }
    } else {
        let last = entries.len() as int;
        assert(entry_amounts(after) =~= entry_amounts(entries).push(amount));
        lemma_sum_push(entry_amounts(entries), amount);
        assert(entries_wf(after)) by {
            assert forall|i: int, j: int| 0 <= i < j < after.len() implies (#[trigger] after[i]).user
                != (#[trigger] after[j]).user by {
                assert(after[i] == entries[i]);
                if j < last {
                    assert(after[j] == entries[j]);
                }
            }
        }
        assert(after[last].user == user);
        lemma_entry_unique(after, last);
        assert forall|other: Seq<char>| other != user implies balance_in(after, other)
            == balance_in(entries, other) by {
            if has_entry(entries, other) {
                let k = entry_index(entries, other);
                assert(after[k] == entries[k]);
                lemma_entry_unique(after, k);
            } else if has_entry(after, other) {
                let k = entry_index(after, other);
                assert(k < last);
                assert(entries[k] == after[k]);
            }
        }
    }
}

/// Changing the amount of one entry leaves the balances of all other
/// participants alone.
proof fn lemma_same_users_same_balance(
    before: Seq<CreditView>,
    after: Seq<CreditView>,
    other: Seq<char>,
    at: int,
)
    requires
        entries_wf(before),
        entries_wf(after),
        0 <= at < before.len(),
        after.len() == before.len(),
        before[at].user != other,
        after[at].user == before[at].user,
        forall|i: int| 0 <= i < before.len() && i != at ==> after[i] == before[i],
    ensures
        balance_in(after, other) == balance_in(before, other),
{
    if has_entry(before, other) {
        let k = entry_index(before, other);
        assert(after[k] == before[k]);
        lemma_entry_unique(after, k);
    } else if has_entry(after, other) {
        let k = entry_index(after, other);
        assert(before[k] == after[k]);
    }
}

/// A claim keeps the entries well formed, empties the participant's balance,
/// takes it off the total and leaves every other balance alone.
pub proof fn lemma_claimed(entries: Seq<CreditView>, user: Seq<char>)
    requires
        entries_wf(entries),
    ensures
        entries_wf(claimed(entries, user)),
        0 <= balance_in(entries, user) <= total_in(entries),
        total_in(claimed(entries, user)) == total_in(entries) - balance_in(entries, user),
        balance_in(claimed(entries, user), user) == 0,
        forall|other: Seq<char>|
            other != user ==> balance_in(claimed(entries, user), other) == balance_in(
                entries,
                other,
            ),
{
    let after = claimed(entries, user);
    lemma_sum_bounds(entry_amounts(entries));
    if has_entry(entries, user) {
        let at = entry_index(entries, user);
        lemma_entry_unique(entries, at);
        assert(entry_amounts(entries)[at] == entries[at].amount);
        assert(entry_amounts(after) =~= entry_amounts(entries).update(at, 0));
        lemma_sum_update(entry_amounts(entries), at, 0);
        assert(entries_wf(after)) by {
            assert forall|i: int, j: int| 0 <= i < j < after.len() implies (#[trigger] after[i]).user
                != (#[trigger] after[j]).user by {
                assert(after[i].user == entries[i].user);
                assert(after[j].user == entries[j].user);
            }
        }
        assert(after[at].user == user);
        lemma_entry_unique(after, at);
        assert forall|other: Seq<char>| other != user implies balance_in(after, other)
            == balance_in(entries, other) by {
            lemma_same_users_same_balance(entries, after, other, at);
        }
    }
}

/// What each credit gives to `user`, in order: nothing where it is for
/// somebody else.
pub open spec fn amounts_for(credits: Seq<CreditView>, user: Seq<char>) -> Seq<int> {
    Seq::new(
        credits.len(),
        |i: int|
            if credits[i].user == user {
                credits[i].amount
            } else {
                0
            },
    )
}

/// Everything that the credits give to `user`.
pub open spec fn total_for(credits: Seq<CreditView>, user: Seq<char>) -> int {
    sum(amounts_for(credits, user))
}

/// The entries after each of `credits` was credited, one after the other.
pub open spec fn credited_all(entries: Seq<CreditView>, credits: Seq<CreditView>) -> Seq<
    CreditView,
>
    decreases credits.len(),
{
    if credits.len() == 0 {
        entries
    } else {
        credited(
            credited_all(entries, credits.drop_last()),
            credits.last().user,
            credits.last().amount,
        )
    }
}

/// A run of credits keeps the entries well formed where the total still
/// fits, gives each participant the sum of their credits and adds the sum
/// of all credits to the total.
pub proof fn lemma_credited_all(entries: Seq<CreditView>, credits: Seq<CreditView>)
    requires
        entries_wf(entries),
        forall|i: int| 0 <= i < credits.len() ==> (#[trigger] credits[i]).amount >= 0,
        total_in(entries) + total_in(credits) <= i128::MAX,
    ensures
        entries_wf(credited_all(entries, credits)),
        total_in(credited_all(entries, credits)) == total_in(entries) + total_in(credits),
        forall|user: Seq<char>|
            balance_in(credited_all(entries, credits), user) == balance_in(entries, user)
                + total_for(credits, user),
    decreases credits.len(),
{
    if credits.len() == 0 {
        assert forall|user: Seq<char>|
            balance_in(credited_all(entries, credits), user) == balance_in(entries, user)
                + total_for(credits, user) by {
            assert(amounts_for(credits, user) =~= Seq::<int>::empty());
        }
        assert(entry_amounts(credits) =~= Seq::<int>::empty());
    } else {
        let front = credits.drop_last();
        let last = credits.last();
        assert(entry_amounts(credits).drop_last() =~= entry_amounts(front));
        assert(entry_amounts(credits).last() == last.amount);
        assert forall|i: int| 0 <= i < front.len() implies (#[trigger] front[i]).amount >= 0 by {
            assert(front[i] == credits[i]);
        }
        assert forall|i: int| 0 <= i < front.len() implies entry_amounts(front)[i] >= 0 by {
            assert(front[i].amount >= 0);
        }
        lemma_sum_bounds(entry_amounts(front));
        lemma_credited_all(entries, front);
        let middle = credited_all(entries, front);
        lemma_credited(middle, last.user, last.amount);
        assert forall|user: Seq<char>|
            balance_in(credited_all(entries, credits), user) == balance_in(entries, user)
                + total_for(credits, user) by {
            assert(amounts_for(credits, user).drop_last() =~= amounts_for(front, user));
            assert(credited_all(entries, credits) == credited(middle, last.user, last.amount));
            if user != last.user {
                assert(balance_in(credited(middle, last.user, last.amount), user) == balance_in(
                    middle,
                    user,
                ));
            }
        }
    }
}

/// What each participant has won and not yet claimed.
#[derive(Debug, PartialEq, Eq)]
pub struct WinningsLedger {
    /// One entry per participant that was ever credited.
    pub entries: Vec<Credit>,
}

impl View for WinningsLedger {
    type V = Seq<CreditView>;

    open spec fn view(&self) -> Seq<CreditView> {
        credit_views(self.entries@)
    }
}

impl WinningsLedger {
    /// Holds one entry per participant at most, no negative amount, and a
    /// total that fits in `i128`.
    pub open spec fn wf(&self) -> bool {
        entries_wf(self@)
    }

    /// What `user` has won and not claimed; nothing where they were never
    /// credited.
    pub open spec fn balance(&self, user: Seq<char>) -> int {
        balance_in(self@, user)
    }

    /// What all participants together have won and not claimed.
    pub open spec fn total(&self) -> int {
        total_in(self@)
    }

    /// A ledger that owes nothing to anybody.
    pub fn new() -> (ledger: WinningsLedger)
        ensures
            ledger@ == Seq::<CreditView>::empty(),
            ledger.wf(),
            forall|user: Seq<char>| ledger.balance(user) == 0,
            ledger.total() == 0,
    {
        let ledger = WinningsLedger { entries: Vec::new() };
        assert(ledger@ =~= Seq::<CreditView>::empty());
        assert(entry_amounts(ledger@) =~= Seq::<int>::empty());
        ledger
    }

    /// Finds the entry of `user`.
    fn find(&self, user: &String) -> (found: Option<usize>)
        requires
            self.wf(),
        ensures
            found is Some <==> has_entry(self@, user@),
            found matches Some(at) ==> at < self.entries.len() && at == entry_index(
                self@,
                user@,
            ),
    {
        let mut i: usize = 0;
        while i < self.entries.len()
            invariant
                i <= self.entries.len(),
                self.wf(),
                forall|k: int| 0 <= k < i ==> (#[trigger] self@[k]).user != user@,
            decreases self.entries.len() - i,
        {
            if self.entries[i].user == *user {
                proof {
                    assert(self@[i as int].user == user@);
                    lemma_entry_unique(self@, i as int);
                }
                return Some(i);
            }
            assert(self@[i as int].user != user@);
            i = i + 1;
        }
        None
    }

    /// Returns what `user` has won and not claimed.
    pub fn get_balance(&self, user: &String) -> (amount: i128)
        requires
            self.wf(),
        ensures
            amount == self.balance(user@),
            amount >= 0,
    {
        match self.find(user) {
            Some(at) => {
                assert(self@[at as int].amount == self.entries@[at as int].amount);
                self.entries[at].amount
            },
            None => 0,
        }
    }

    /// Returns what all participants together have won and not claimed.
    pub fn get_total(&self) -> (amount: i128)
        requires
            self.wf(),
        ensures
            amount == self.total(),
            amount >= 0,
    {
        let mut amount: i128 = 0;
        let mut i: usize = 0;
        proof {
            lemma_sum_bounds(entry_amounts(self@));
            assert(entry_amounts(self@).take(0) =~= Seq::<int>::empty());
        }
        while i < self.entries.len()
            invariant
                i <= self.entries.len(),
                self.wf(),
                amount == sum(entry_amounts(self@).take(i as int)),
                forall|n: int|
                    0 <= n <= self@.len() ==> 0 <= #[trigger] sum(entry_amounts(self@).take(n))
                        <= total_in(self@),
            decreases self.entries.len() - i,
        {
            proof {
                lemma_sum_take(entry_amounts(self@), i as int);
                assert(entry_amounts(self@)[i as int] == self.entries@[i as int].amount);
            }
            amount = amount + self.entries[i].amount;
            i = i + 1;
        }
        assert(entry_amounts(self@).take(i as int) =~= entry_amounts(self@));
        amount
    }

    /// Adds `amount` to what `user` is owed.
    pub fn credit(&mut self, user: &String, amount: i128)
        requires
            old(self).wf(),
            amount >= 0,
            old(self).total() + amount <= i128::MAX,
        ensures
            final(self).wf(),
            final(self)@ == credited(old(self)@, user@, amount as int),
            final(self).balance(user@) == old(self).balance(user@) + amount,
            forall|other: Seq<char>|
                other != user@ ==> final(self).balance(other) == old(self).balance(other),
            final(self).total() == old(self).total() + amount,
    {
        proof {
            lemma_credited(self@, user@, amount as int);
            lemma_sum_bounds(entry_amounts(self@));
        }
        match self.find(user) {
            Some(at) => {
                let ghost before = self@;
                assert(entry_amounts(before)[at as int] == before[at as int].amount);
                let grown = Credit { user: user.clone(), amount: self.entries[at].amount + amount };
                self.entries.set(at, grown);
                assert(self@ =~= credited(before, user@, amount as int));
            },
            None => {
                let ghost before = self@;
                self.entries.push(Credit { user: user.clone(), amount });
                assert(self@ =~= credited(before, user@, amount as int));
            },
        }
    }

    /// Adds each of `credits` to what its participant is owed, in order.
    pub fn credit_all(&mut self, credits: &Vec<Credit>)
        requires
            old(self).wf(),
            forall|i: int| 0 <= i < credits@.len() ==> (#[trigger] credits@[i]).amount >= 0,
            old(self).total() + total_in(credit_views(credits@)) <= i128::MAX,
        ensures
            final(self).wf(),
            final(self)@ == credited_all(old(self)@, credit_views(credits@)),
            forall|user: Seq<char>|
                final(self).balance(user) == old(self).balance(user) + total_for(
                    credit_views(credits@),
                    user,
                ),
            final(self).total() == old(self).total() + total_in(credit_views(credits@)),
    {
        let ghost all = credit_views(credits@);
        let ghost start = self@;
        proof {
            assert forall|i: int| 0 <= i < all.len() implies (#[trigger] all[i]).amount >= 0 by {
                assert(credits@[i].amount >= 0);
            }
            assert forall|i: int| 0 <= i < all.len() implies entry_amounts(all)[i] >= 0 by {
                assert(all[i].amount >= 0);
            }
            lemma_sum_bounds(entry_amounts(all));
            lemma_credited_all(start, all);
            assert(all.take(0) =~= Seq::<CreditView>::empty());
        }
        let mut i: usize = 0;
        while i < credits.len()
            invariant
                i <= credits.len(),
                all == credit_views(credits@),
                entries_wf(start),
                total_in(start) + total_in(all) <= i128::MAX,
                forall|k: int| 0 <= k < all.len() ==> (#[trigger] all[k]).amount >= 0,
                forall|n: int|
                    0 <= n <= all.len() ==> 0 <= #[trigger] sum(entry_amounts(all).take(n))
                        <= total_in(all),
                self@ == credited_all(start, all.take(i as int)),
            decreases credits.len() - i,
        {
            proof {
                let done = all.take(i as int);
                assert forall|k: int| 0 <= k < done.len() implies (#[trigger] done[k]).amount
                    >= 0 by {
                    assert(done[k] == all[k]);
                }
                assert(entry_amounts(done) =~= entry_amounts(all).take(i as int));
                assert(entry_amounts(all.take(i + 1)) =~= entry_amounts(all).take(i + 1));
                lemma_sum_take(entry_amounts(all), i as int);
                lemma_credited_all(start, done);
                assert(all.take(i + 1).drop_last() =~= done);
                assert(all.take(i + 1).last() == all[i as int]);
                assert(all[i as int] == credits@[i as int]@);
            }
            self.credit(&credits[i].user, credits[i].amount);
            i = i + 1;
        }
        assert(all.take(i as int) =~= all);
    }

    /// Hands out what `user` is owed: returns the balance and resets it to
    /// zero, so that a second claim finds nothing.
    pub fn claim(&mut self, user: &String) -> (amount: i128)
        requires
            old(self).wf(),
        ensures
            final(self).wf(),
            amount == old(self).balance(user@),
            amount >= 0,
            final(self)@ == claimed(old(self)@, user@),
            final(self).balance(user@) == 0,
            forall|other: Seq<char>|
                other != user@ ==> final(self).balance(other) == old(self).balance(other),
            final(self).total() == old(self).total() - amount,
    {
        proof {
            lemma_claimed(self@, user@);
        }
        match self.find(user) {
            Some(at) => {
                let ghost before = self@;
                let amount = self.entries[at].amount;
                assert(before[at as int].amount == amount);
                self.entries.set(at, Credit { user: user.clone(), amount: 0 });
                assert(self@ =~= claimed(before, user@));
                amount
            },
            None => 0,
        }
    }
}

/// A claim leaves nothing behind: a second claim right after it returns zero.
pub proof fn second_claim_is_empty(entries: Seq<CreditView>, user: Seq<char>)
    requires
        entries_wf(entries),
    ensures
        balance_in(claimed(entries, user), user) == 0,
        claimed(claimed(entries, user), user) == claimed(entries, user),
{
    lemma_claimed(entries, user);
    let once = claimed(entries, user);
    if has_entry(entries, user) {
        let at = entry_index(entries, user);
        lemma_entry_unique(entries, at);
        assert(once[at].user == user);
        lemma_entry_unique(once, at);
        assert(claimed(once, user) =~= once);
    }
}

impl WinningsLedger {
    /// Tells whether no entry is negative.
    fn amounts_are_valid(&self) -> (valid: bool)
        ensures
            valid == (forall|i: int| 0 <= i < self@.len() ==> 0 <= (#[trigger] self@[i]).amount),
    {
        let mut i: usize = 0;
        while i < self.entries.len()
            invariant
                i <= self.entries.len(),
                forall|k: int| 0 <= k < i ==> 0 <= (#[trigger] self@[k]).amount,
            decreases self.entries.len() - i,
        {
            assert(self@[i as int] == self.entries@[i as int]@);
            if self.entries[i].amount < 0 {
                return false;
            }
            i = i + 1;
        }
        true
    }

    /// Tells whether no two entries belong to one participant.
    fn users_are_distinct(&self) -> (distinct: bool)
        ensures
            distinct == (forall|i: int, j: int|
                0 <= i < j < self@.len() ==> (#[trigger] self@[i]).user != (#[trigger] self@[j]).user),
    {
        let mut j: usize = 0;
        while j < self.entries.len()
            invariant
                j <= self.entries.len(),
                forall|a: int, b: int|
                    0 <= a < b < j ==> (#[trigger] self@[a]).user != (#[trigger] self@[b]).user,
            decreases self.entries.len() - j,
        {
            let mut i: usize = 0;
            while i < j
                invariant
                    i <= j < self.entries.len(),
                    forall|a: int| 0 <= a < i ==> (#[trigger] self@[a]).user != self@[j as int].user,
                decreases j - i,
            {
                assert(self@[i as int] == self.entries@[i as int]@);
                assert(self@[j as int] == self.entries@[j as int]@);
                if self.entries[i].user == self.entries[j].user {
                    return false;
                }
                i = i + 1;
            }
            j = j + 1;
        }
        true
    }

    /// Tells whether the ledger is well formed, as a ledger is that this
    /// library made. A ledger that was put together in another way, or read
    /// from storage, is to be tested before it is used.
    pub fn is_well_formed(&self) -> (valid: bool)
        ensures
            valid == self.wf(),
    {
        if !self.users_are_distinct() || !self.amounts_are_valid() {
            return false;
        }
        assert forall|i: int| 0 <= i < self.entries@.len() implies (
        #[trigger] self.entries@[i]).amount >= 0 by {
            assert(self@[i].amount >= 0);
        }
        total_of(&self.entries).is_some()
    }
}

/// Adds up the amounts of `credits`, none of which is negative: `None`
/// where the sum does not fit.
pub fn total_of(credits: &Vec<Credit>) -> (total: Option<i128>)
    requires
        forall|i: int| 0 <= i < credits@.len() ==> (#[trigger] credits@[i]).amount >= 0,
    ensures
        total is Some <==> total_in(credit_views(credits@)) <= i128::MAX,
        total matches Some(amount) ==> amount == total_in(credit_views(credits@)),
{
    let ghost amounts = entry_amounts(credit_views(credits@));
    proof {
        assert forall|k: int| 0 <= k < amounts.len() implies amounts[k] >= 0 by {
            assert(credits@[k].amount >= 0);
        }
        lemma_sum_bounds(amounts);
        assert(amounts.take(0) =~= Seq::<int>::empty());
    }
    let mut total: i128 = 0;
    let mut i: usize = 0;
    while i < credits.len()
        invariant
            i <= credits.len(),
            amounts == entry_amounts(credit_views(credits@)),
            forall|n: int| 0 <= n <= amounts.len() ==> 0 <= #[trigger] sum(amounts.take(n)) <= sum(amounts),
            total == sum(amounts.take(i as int)),
        decreases credits.len() - i,
    {
        proof {
            lemma_sum_take(amounts, i as int);
            assert(amounts[i as int] == credits@[i as int].amount);
        }
        total = match total.checked_add(credits[i].amount) {
            Some(grown) => grown,
            None => {
                assert(sum(amounts.take(i + 1)) > i128::MAX);
                return None;
            },
        };
        i = i + 1;
    }
    assert(amounts.take(i as int) =~= amounts);
    Some(total)
}

} // verus!
