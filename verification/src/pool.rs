//! The staking pool: accounts deposit, stake, unstake and withdraw, and share the rewards.

use crate::account_map::{lemma_pair_in_map, position, AccountMap};
use crate::archive::{archived_accounts, find_archived, store_archived, take_archived, Archive};
use crate::epochs::{
    checked_matured_total, drop_matured, epoch_states, epochs_wf, heights_fit, is_staked_in, matured_stake_of,
    share_of, split_accounts,
};
use crate::invariants::{
    lemma_pinged, lemma_refreshed_account, lemma_refreshed_wf, lemma_restake, lemma_slots_updated,
    lemma_smallest_unique, lemma_with_account_wf,
};
use crate::model::{
    after_deposit, after_stake, after_unstake, after_withdrawal, archived_one, archives_one, deposit_done,
    deposit_refusal, distributed, initial_state, is_smallest, matured_total, new_epoch, pinged, refresh_fits,
    refreshed, restake_done, restake_refusal, restaked, reward_fits, rewarded, slots_updated, stake_done,
    stake_promise, stake_refusal, staked_in, staked_pot, stored, transfer_promise, unstake_done, unstake_refusal,
    unstaked_pot, with_account, with_current, withdraw_done, withdraw_refusal, without, PoolState,
};
use crate::sums::{checked_stake_sum, lemma_stake_sum_remove, stake_sum};
use crate::types::{
    Account, AccountId, AccountStatus, Balance, Context, EpochHeight, EpochInfo, EpochState, Promise, PromiseAction,
    PublicKey, StakingError, WrappedAccount, EPOCHS_TOWARDS_WITHDRAWAL, PING_GAS, REFRESH_STAKE_GAS,
};
use vstd::prelude::*;

verus! {

/// A staking pool.
pub struct StakingContract {
    /// The account that set the pool up.
    pub owner_id: AccountId,
    /// How many accounts can stake in one epoch.
    pub max_number_of_slots: u32,
    /// The key that the pool validates with.
    pub stake_public_key: PublicKey,
    /// The locked balance of the pool's account that is accounted for.
    pub last_locked_account_balance: Balance,
    /// The unlocked balance of the pool's account that is accounted for.
    pub last_account_balance: Balance,
    /// The sum of the stakes of the current epoch.
    pub total_stake: Balance,
    /// The epochs that are not rewarded yet. The last one is the current one.
    pub epoch_infos: Vec<EpochInfo>,
    /// The accounts that are staked in one of these epochs, or were until the epoch began.
    pub active_accounts: AccountMap<Account>,
    /// The accounts that wait to be archived.
    pub inactive_accounts: AccountMap<Account>,
    /// The accounts that are archived.
    pub archived_accounts: Archive,
}

impl View for StakingContract {
    type V = PoolState;

    open spec fn view(&self) -> PoolState {
        PoolState {
            owner_id: self.owner_id@,
            max_number_of_slots: self.max_number_of_slots,
            stake_public_key: self.stake_public_key@,
            last_locked_account_balance: self.last_locked_account_balance,
            last_account_balance: self.last_account_balance,
            total_stake: self.total_stake,
            epochs: epoch_states(self.epoch_infos@),
            active: self.active_accounts@,
            inactive: self.inactive_accounts@,
            archived: archived_accounts(self.archived_accounts),
        }
    }
}

/// Which slot of the current epoch is given up, whether the account holds one afterwards, and the
/// sum of the stakes that follows.
struct SlotChange {
    vacated: Option<AccountId>,
    held: bool,
    total_stake: Balance,
}

impl SlotChange {
    /// The stakes of the current epoch after the change.
    spec fn applied(&self, stakes: Map<Seq<char>, Balance>, id: Seq<char>, staked: Balance) -> Map<Seq<char>, Balance> {
        let rest = match self.vacated {
            Some(other) => stakes.remove(other@),
            None => stakes,
        };
        if self.held {
            rest.insert(id, staked)
        } else {
            rest
        }
    }
}

/// What a new epoch begins with: the active accounts with their rewards, the stakes with the rewards
/// on them, and the sum of these stakes.
struct EpochStart {
    accounts: AccountMap<Account>,
    stakes: AccountMap<Balance>,
    total_stake: Balance,
}

impl EpochStart {
    /// It is what the epoch of the call begins with.
    spec fn follows(&self, s: PoolState, context: Context) -> bool {
        &&& self.accounts.wf()
        &&& self.accounts@ == Map::new(
            |id: Seq<char>| s.active.contains_key(id),
            |id: Seq<char>| rewarded(s, context, id),
        )
        &&& self.stakes.wf()
        &&& self.stakes@ == restaked(s, context)
        &&& self.total_stake == stake_sum(self.stakes@)
    }
}

/// It is what is to be done to bring the pool into the epoch of the call.
spec fn leads_to(start: Option<EpochStart>, s: PoolState, context: Context) -> bool {
    &&& refresh_fits(s, context)
    &&& match start {
        Some(start) => new_epoch(s, context) && start.follows(s, context),
        None => !new_epoch(s, context),
    }
}

impl StakingContract {
    /// The tables of the pool are proper maps.
    pub open spec fn tables_wf(&self) -> bool {
        &&& epochs_wf(self.epoch_infos@)
        &&& self.active_accounts.wf()
        &&& self.inactive_accounts.wf()
    }

    /// What holds of every pool.
    pub open spec fn wf(&self) -> bool {
        &&& self.tables_wf()
        &&& self@.wf()
    }

    /// What the pool owes to an account.
    fn get_account(&self, account_id: &AccountId) -> (account: Account)
        requires
            self.tables_wf(),
        ensures
            account == self@.account(account_id@),
    {
        if let Some(account) = self.active_accounts.get(account_id) {
            account
        } else if let Some(account) = self.inactive_accounts.get(account_id) {
            account
        } else if let Some(account) = find_archived(&self.archived_accounts, account_id) {
            account
        } else {
            Account::new()
        }
    }

    /// Takes an account out of the pool.
    fn pull_account(&mut self, account_id: AccountId) -> (wrapped_account: WrappedAccount)
        requires
            old(self).tables_wf(),
            old(self)@.disjoint(),
        ensures
            final(self).tables_wf(),
            final(self)@ == without(old(self)@, account_id@),
            wrapped_account.account_id@ == account_id@,
            wrapped_account.account == old(self)@.account(account_id@),
            wrapped_account.status == (if old(self)@.active.contains_key(account_id@) {
                AccountStatus::Active
            } else {
                AccountStatus::Inactive
            }),
    {
        let ghost id = account_id@;
        let wrapped_account = if let Some(account) = self.active_accounts.remove(&account_id) {
            WrappedAccount { account_id, account, status: AccountStatus::Active }
        } else if let Some(account) = self.inactive_accounts.remove(&account_id) {
            WrappedAccount { account_id, account, status: AccountStatus::Inactive }
        } else if let Some(account) = take_archived(&mut self.archived_accounts, &account_id) {
            WrappedAccount { account_id, account, status: AccountStatus::Inactive }
        } else {
            WrappedAccount { account_id, account: Account::new(), status: AccountStatus::Inactive }
        };
        assert(self@ =~= without(old(self)@, id));
        wrapped_account
    }

    /// Puts an account back into the pool. One that is not active is archived, unless it holds
    /// nothing.
    fn save_account(&mut self, wrapped_account: WrappedAccount)
        requires
            old(self).tables_wf(),
        ensures
            final(self).tables_wf(),
            final(self)@ == (match wrapped_account.status {
                AccountStatus::Active => PoolState {
                    active: old(self)@.active.insert(wrapped_account.account_id@, wrapped_account.account),
                    ..old(self)@
                },
                AccountStatus::Inactive => if wrapped_account.account.staked > 0 || wrapped_account.account.unstaked > 0 {
                    PoolState {
                        archived: old(self)@.archived.insert(wrapped_account.account_id@, wrapped_account.account),
                        ..old(self)@
                    }
                } else {
                    old(self)@
                },
            }),
    {
        let WrappedAccount { account_id, account, status } = wrapped_account;
        match status {
            AccountStatus::Active => {
                let _ = self.active_accounts.insert(account_id, account);
            },
            AccountStatus::Inactive => {
                if account.staked > 0 || account.unstaked > 0 {
                    store_archived(&mut self.archived_accounts, &account_id, account);
                }
            },
        }
    }

    /// Archives one of the waiting accounts, if there are any.
    fn archive(&mut self)
        requires
            old(self).tables_wf(),
        ensures
            final(self).tables_wf(),
            archives_one(old(self)@, final(self)@),
    {
        match self.inactive_accounts.pop() {
            Some((account_id, account)) => {
                store_archived(&mut self.archived_accounts, &account_id, account);
                assert(old(self)@.inactive.dom().contains(account_id@));
                assert(self@ =~= archived_one(old(self)@, account_id@));
            },
            None => {
                assert(old(self)@.inactive.dom() =~= Set::<Seq<char>>::empty());
                assert(self@ =~= old(self)@);
            },
        }
    }

    /// The active accounts with their rewards, or nothing where a balance does not fit.
    fn rewarded_accounts(&self, context: &Context, staked_total: Balance, unstaked_total: Balance, whole: Balance) -> (accounts:
        Option<AccountMap<Account>>)
        requires
            self.wf(),
            heights_fit(self@.epochs),
            staked_total == staked_pot(self@, *context),
            unstaked_total == unstaked_pot(self@, *context),
            whole == matured_total(self@.epochs, context.epoch_height),
        ensures
            match accounts {
                Some(accounts) => {
                    &&& accounts.wf()
                    &&& accounts@ == Map::new(
                        |id: Seq<char>| self@.active.contains_key(id),
                        |id: Seq<char>| rewarded(self@, *context, id),
                    )
                    &&& forall|id: Seq<char>| #[trigger] self@.active.contains_key(id) ==> reward_fits(self@, *context, id)
                },
                None => exists|id: Seq<char>| #[trigger] self@.active.contains_key(id) && !reward_fits(self@, *context, id),
            },
    {
        let mut accounts: AccountMap<Account> = AccountMap::new();
        let n: usize = self.active_accounts.len();
        let mut i: usize = 0;
        let ghost pairs = self.active_accounts.pairs();
        while i < n
            invariant
                self.wf(),
                heights_fit(self@.epochs),
                staked_total == staked_pot(self@, *context),
                unstaked_total == unstaked_pot(self@, *context),
                whole == matured_total(self@.epochs, context.epoch_height),
                pairs == self.active_accounts.pairs(),
                n == pairs.len(),
                i <= n,
                accounts.wf(),
                forall|id: Seq<char>| #[trigger]
                    accounts@.contains_key(id) ==> {
                        &&& self@.active.contains_key(id)
                        &&& accounts@[id] == rewarded(self@, *context, id)
                        &&& reward_fits(self@, *context, id)
                    },
                forall|j: int| 0 <= j < i ==> accounts@.contains_key((#[trigger] pairs[j]).0),
            decreases n - i,
        {
            let (account_id, account) = self.active_accounts.entry(i);
            let part = matured_stake_of(&self.epoch_infos, context.epoch_height, account_id);
            let staked_reward = share_of(staked_total, part, whole);
            let unstaked_reward = share_of(unstaked_total, part, whole);
            match (account.staked.checked_add(staked_reward), account.unstaked.checked_add(unstaked_reward)) {
                (Some(staked), Some(unstaked)) => {
                    let rewarded_account = Account {
                        unstaked,
                        staked,
                        unstaked_available_epoch_height: account.unstaked_available_epoch_height,
                    };
                    let _ = accounts.insert(account_id.clone(), rewarded_account);
                },
                _ => {
                    assert(self@.active.contains_key(account_id@));
                    assert(!reward_fits(self@, *context, account_id@));
                    return None;
                },
            }
            i += 1;
        }
        proof {
            assert forall|id: Seq<char>| #[trigger] self@.active.contains_key(id) implies accounts@.contains_key(id) by {
                let j = position(pairs, id);
                assert(pairs[j].0 == id);
            }
            assert(accounts@ =~= Map::new(
                |id: Seq<char>| self@.active.contains_key(id),
                |id: Seq<char>| rewarded(self@, *context, id),
            ));
        }
        Some(accounts)
    }

    /// The stakes of the current epoch and the rewards on them.
    fn restaked_stakes(&self, context: &Context, accounts: &AccountMap<Account>) -> (stakes: AccountMap<Balance>)
        requires
            self.wf(),
            accounts.wf(),
            accounts@ == Map::new(
                |id: Seq<char>| self@.active.contains_key(id),
                |id: Seq<char>| rewarded(self@, *context, id),
            ),
        ensures
            stakes.wf(),
            stakes@ == restaked(self@, *context),
    {
        let mut stakes: AccountMap<Balance> = AccountMap::new();
        let last: usize = self.epoch_infos.len() - 1;
        let current = &self.epoch_infos[last].stakes;
        let n: usize = current.len();
        let mut i: usize = 0;
        let ghost pairs = current.pairs();
        assert(self@.current() == current@);
        while i < n
            invariant
                self.wf(),
                accounts.wf(),
                accounts@ == Map::new(
                    |id: Seq<char>| self@.active.contains_key(id),
                    |id: Seq<char>| rewarded(self@, *context, id),
                ),
                current.wf(),
                self@.current() == current@,
                pairs == current.pairs(),
                n == pairs.len(),
                i <= n,
                stakes.wf(),
                forall|id: Seq<char>| #[trigger]
                    stakes@.contains_key(id) ==> self@.current().contains_key(id) && stakes@[id] == restaked(self@, *context)[id],
                forall|j: int| 0 <= j < i ==> stakes@.contains_key((#[trigger] pairs[j]).0),
            decreases n - i,
        {
            let (account_id, _) = current.entry(i);
            proof {
                assert(self@.current().contains_key(account_id@));
                assert(self@.epochs[self@.epochs.len() - 1].stakes.contains_key(account_id@));
                assert(self@.active.contains_key(account_id@));
                assert(accounts@.contains_key(account_id@));
            }
            match accounts.get(account_id) {
                Some(account) => {
                    let _ = stakes.insert(account_id.clone(), account.staked);
                },
                None => {},
            }
            i += 1;
        }
        proof {
            assert forall|id: Seq<char>| #[trigger] self@.current().contains_key(id) implies stakes@.contains_key(id) by {
                let j = position(pairs, id);
                assert(pairs[j].0 == id);
            }
            assert(stakes@ =~= restaked(self@, *context));
        }
        stakes
    }

    /// What the epoch of the call begins with, or nothing where an amount does not fit.
    fn epoch_start(&self, context: &Context) -> (start: Option<EpochStart>)
        requires
            self.wf(),
            new_epoch(self@, *context),
        ensures
            start is Some == refresh_fits(self@, *context),
            start matches Some(start) ==> start.follows(self@, *context),
    {
        let balance = context.account_locked_balance.checked_add(context.account_balance)?;
        let total_balance = balance.checked_sub(context.attached_deposit)?;
        let last_total_balance = self.last_account_balance.checked_add(self.last_locked_account_balance)?;

        let total_reward = total_balance.saturating_sub(last_total_balance);
        let staked_total = context.account_locked_balance.saturating_sub(self.last_locked_account_balance);
        let unstaked_total = total_reward.saturating_sub(staked_total);

        let whole = checked_matured_total(&self.epoch_infos, context.epoch_height)?;
        let accounts = self.rewarded_accounts(context, staked_total, unstaked_total, whole)?;
        let stakes = self.restaked_stakes(context, &accounts);
        let total_stake = checked_stake_sum(&stakes)?;
        Some(EpochStart { accounts, stakes, total_stake })
    }

    /// What is to be done to bring the pool into the epoch of the call.
    fn prepare(&self, context: &Context) -> (res: Result<Option<EpochStart>, StakingError>)
        requires
            self.wf(),
        ensures
            match res {
                Ok(start) => leads_to(start, self@, *context),
                Err(error) => error == StakingError::Overflow && !refresh_fits(self@, *context),
            },
    {
        let last: usize = self.epoch_infos.len() - 1;
        if self.epoch_infos[last].epoch_height == context.epoch_height {
            return Ok(None);
        }
        match self.epoch_start(context) {
            Some(start) => Ok(Some(start)),
            None => Err(StakingError::Overflow),
        }
    }

    /// What the pool owes to an account in the epoch of the call.
    fn prepared_account(&self, start: &Option<EpochStart>, account_id: &AccountId, context: &Context) -> (account: Account)
        requires
            self.wf(),
            leads_to(*start, self@, *context),
        ensures
            account == refreshed(self@, *context).account(account_id@),
    {
        proof {
            lemma_refreshed_account(self@, *context, account_id@);
        }
        if let Some(start) = start {
            if let Some(account) = start.accounts.get(account_id) {
                return account;
            }
        }
        self.get_account(account_id)
    }

    /// Begins the epoch of the call.
    fn begin_epoch(&mut self, start: EpochStart, context: &Context)
        requires
            old(self).tables_wf(),
            heights_fit(old(self)@.epochs),
            start.follows(old(self)@, *context),
        ensures
            final(self).tables_wf(),
            final(self)@ == distributed(old(self)@, *context),
    {
        let EpochStart { accounts, stakes, total_stake } = start;
        drop_matured(&mut self.epoch_infos, context.epoch_height);
        let ghost kept = self.epoch_infos@;
        self.epoch_infos.push(EpochInfo { epoch_height: context.epoch_height, stakes });
        assert(epoch_states(self.epoch_infos@) =~= epoch_states(kept).push(
            EpochState { epoch_height: context.epoch_height, stakes: stakes@ },
        ));
        // Moving inactive accounts towards archiving.
        self.active_accounts = split_accounts(accounts, &self.epoch_infos, &mut self.inactive_accounts);
        self.total_stake = total_stake;
        self.last_locked_account_balance = context.account_locked_balance;
        self.last_account_balance = context.account_balance;
        assert(self@ =~= distributed(old(self)@, *context));
    }

    /// Brings the pool into the epoch of the call.
    fn enter(&mut self, start: Option<EpochStart>, context: &Context)
        requires
            old(self).wf(),
            leads_to(start, old(self)@, *context),
        ensures
            final(self).wf(),
            pinged(old(self)@, *context, final(self)@),
    {
        self.archive();
        if let Some(start) = start {
            assert(start.follows(self@, *context)) by {
                assert(start.stakes@ =~= restaked(self@, *context));
                assert(start.accounts@ =~= Map::new(
                    |id: Seq<char>| self@.active.contains_key(id),
                    |id: Seq<char>| rewarded(self@, *context, id),
                ));
            }
            self.begin_epoch(start, context);
        }
        proof {
            lemma_pinged(old(self)@, *context, self@);
        }
    }

    /// Call to update the state after the epoch switched. One of the accounts that wait to be
    /// archived is archived at every call.
    pub fn ping(&mut self, context: &Context) -> (res: Result<(), StakingError>)
        requires
            old(self).wf(),
        ensures
            final(self).wf(),
            match res {
                Ok(()) => refresh_fits(old(self)@, *context) && pinged(old(self)@, *context, final(self)@),
                Err(error) => {
                    &&& error == StakingError::Overflow
                    &&& !refresh_fits(old(self)@, *context)
                    &&& final(self)@ == old(self)@
                },
            },
    {
        let start = match self.prepare(context) {
            Ok(start) => start,
            Err(error) => {
                return Err(error);
            },
        };
        self.enter(start, context);
        Ok(())
    }

    /// An account with the smallest of the stakes, and that stake.
    fn smallest(stakes: &AccountMap<Balance>) -> (res: Option<(AccountId, Balance)>)
        requires
            stakes.wf(),
        ensures
            match res {
                Some((account_id, stake)) => is_smallest(stakes@, account_id@) && stake == stakes@[account_id@],
                None => stakes@.len() == 0,
            },
    {
        let n: usize = stakes.len();
        if n == 0 {
            return None;
        }
        let ghost pairs = stakes.pairs();
        let mut best: usize = 0;
        let mut i: usize = 1;
        while i < n
            invariant
                stakes.wf(),
                pairs == stakes.pairs(),
                n == pairs.len(),
                best < i <= n,
                forall|j: int| 0 <= j < i ==> pairs[best as int].1 <= (#[trigger] pairs[j]).1,
            decreases n - i,
        {
            if stakes.entry(i).1 < stakes.entry(best).1 {
                best = i;
            }
            i += 1;
        }
        let (account_id, stake) = stakes.entry(best);
        proof {
            assert forall|other: Seq<char>| #[trigger] stakes@.contains_key(other) implies stakes@[account_id@] <= stakes@[other] by {
                let j = position(pairs, other);
                assert(pairs[j].0 == other);
                lemma_pair_in_map(pairs, j);
            }
        }
        Some((account_id.clone(), stake))
    }

    /// What becomes of the slots of the epoch of the call when the staked balance of an account is set.
    fn slot_change(&self, start: &Option<EpochStart>, account_id: &AccountId, staked: Balance, context: &Context) -> (res: Result<
        SlotChange,
        StakingError,
    >)
        requires
            self.wf(),
            leads_to(*start, self@, *context),
        ensures
            match res {
                Ok(change) => {
                    let before = refreshed(self@, *context).current();
                    let after = change.applied(before, account_id@, staked);
                    &&& restake_refusal(before, self@.max_number_of_slots, account_id@, staked) is None
                    &&& slots_updated(before, self@.max_number_of_slots, account_id@, staked, after)
                    &&& change.total_stake == stake_sum(after)
                },
                Err(error) => restake_refusal(
                    refreshed(self@, *context).current(),
                    self@.max_number_of_slots,
                    account_id@,
                    staked,
                ) == Some(error),
            },
    {
        let last: usize = self.epoch_infos.len() - 1;
        let (current, total_stake): (&AccountMap<Balance>, Balance) = match start {
            Some(start) => (&start.stakes, start.total_stake),
            None => (&self.epoch_infos[last].stakes, self.total_stake),
        };
        let ghost stakes = refreshed(self@, *context).current();
        assert(stakes == current@);
        proof {
            lemma_refreshed_wf(self@, *context);
        }
        let n: usize = current.len();
        let (vacated, held, freed): (Option<AccountId>, bool, Balance) = if let Some(stake) = current.get(account_id) {
            // Already staking something in the current epoch.
            proof {
                lemma_stake_sum_remove(stakes, account_id@);
            }
            if staked == 0 {
                // Trying to unstake everything.
                (Some(account_id.clone()), false, stake)
            } else {
                // Need to update the stake.
                (None, true, stake)
            }
        } else if staked == 0 {
            // The account was not staking in the current epoch.
            (None, false, 0)
        } else if n < self.max_number_of_slots as usize {
            // A slot is available.
            (None, true, 0)
        } else {
            // No slots available. Need to check if someone can be kicked out.
            match Self::smallest(current) {
                Some((other, smallest)) => {
                    proof {
                        lemma_smallest_unique(stakes, other@);
                        lemma_stake_sum_remove(stakes, other@);
                    }
                    if smallest < staked {
                        (Some(other), true, smallest)
                    } else {
                        // The stake is lower or equal to the smallest stake. There are also no slots
                        // available, so the account cannot take one.
                        (None, false, 0)
                    }
                },
                None => {
                    return Err(StakingError::NoSlots);
                },
            }
        };
        let kept: Balance = total_stake - freed;
        let added: Balance = if held {
            staked
        } else {
            0
        };
        match kept.checked_add(added) {
            Some(total) => {
                let change = SlotChange { vacated, held, total_stake: total };
                proof {
                    let next = change.applied(stakes, account_id@, staked);
                    assert(slots_updated(stakes, self@.max_number_of_slots, account_id@, staked, next));
                    lemma_slots_updated(stakes, self@.max_number_of_slots, account_id@, staked, next);
                }
                Ok(change)
            },
            None => Err(StakingError::Overflow),
        }
    }

    /// Puts an account back whose staked balance has changed, and asks for the stake action that
    /// follows from the new stakes.
    fn update_stake(&mut self, wrapped_account: WrappedAccount, change: SlotChange, context: &Context) -> (promise: Promise)
        requires
            old(self).tables_wf(),
            old(self)@.epochs.len() > 0,
            old(self)@ == without(old(self)@, wrapped_account.account_id@),
            change.total_stake == stake_sum(
                change.applied(old(self)@.current(), wrapped_account.account_id@, wrapped_account.account.staked),
            ),
        ensures
            final(self).tables_wf(),
            final(self)@ == ({
                let stakes = change.applied(
                    old(self)@.current(),
                    wrapped_account.account_id@,
                    wrapped_account.account.staked,
                );
                stored(
                    with_current(old(self)@, stakes),
                    wrapped_account.account_id@,
                    wrapped_account.account,
                    staked_in(with_current(old(self)@, stakes).epochs, wrapped_account.account_id@),
                )
            }),
            promise@ == stake_promise(
                context.current_account_id@,
                final(self)@.total_stake,
                old(self)@.stake_public_key,
            ),
    {
        let mut wrapped_account = wrapped_account;
        let ghost pre = self@;
        let ghost id = wrapped_account.account_id@;
        let ghost account = wrapped_account.account;
        let ghost stakes = change.applied(pre.current(), id, account.staked);
        let SlotChange { vacated, held, total_stake } = change;
        if let Some(mut epoch_info) = self.epoch_infos.pop() {
            if let Some(other) = vacated {
                let _ = epoch_info.stakes.remove(&other);
            }
            if held {
                let _ = epoch_info.stakes.insert(wrapped_account.account_id.clone(), wrapped_account.account.staked);
            }
            self.epoch_infos.push(epoch_info);
        }
        self.total_stake = total_stake;
        assert(epoch_states(self.epoch_infos@) =~= with_current(pre, stakes).epochs);
        assert(self@ =~= with_current(pre, stakes));

        wrapped_account.status = if is_staked_in(&self.epoch_infos, &wrapped_account.account_id) {
            AccountStatus::Active
        } else {
            AccountStatus::Inactive
        };
        self.save_account(wrapped_account);
        proof {
            let mid = with_current(pre, stakes);
            assert(without(mid, id) =~= mid) by {
                assert(without(pre, id) == pre);
            }
        }

        let actions = vec![
            PromiseAction::FunctionCall {
                method_name: "ping".to_owned(),
                arguments: "{}".to_owned(),
                amount: 0,
                gas: PING_GAS,
            },
            PromiseAction::Stake { amount: self.total_stake, public_key: self.stake_public_key.clone() },
            PromiseAction::FunctionCall {
                method_name: "internal_after_stake".to_owned(),
                arguments: "{}".to_owned(),
                amount: 0,
                gas: REFRESH_STAKE_GAS,
            },
        ];
        let promise = Promise { receiver_id: context.current_account_id.clone(), actions };
        assert(promise@.actions =~= stake_promise(
            context.current_account_id@,
            self@.total_stake,
            pre.stake_public_key,
        ).actions);
        promise
    }

    /// Call to initialize the pool. Specify the account that owns it, the initial staking key, and how
    /// many accounts can stake in one epoch. It is refused if the pool has a state already.
    ///
    /// `archive` is where the pool archives accounts. It is empty if the pool has no state yet.
    pub fn new(
        owner_id: AccountId,
        stake_public_key: PublicKey,
        max_number_of_slots: u32,
        state_exists: bool,
        archive: Archive,
        context: &Context,
    ) -> (res: Result<Self, StakingError>)
        requires
            !state_exists ==> archived_accounts(archive).dom() == Set::<Seq<char>>::empty(),
        ensures
            match res {
                Ok(contract) => {
                    &&& !state_exists
                    &&& contract.wf()
                    &&& contract@ == initial_state(owner_id@, stake_public_key@, max_number_of_slots, *context)
                },
                Err(error) => state_exists && error == StakingError::AlreadyInitialized,
            },
    {
        if state_exists {
            return Err(StakingError::AlreadyInitialized);
        }
        let mut epoch_infos: Vec<EpochInfo> = Vec::new();
        epoch_infos.push(EpochInfo::new(context.epoch_height));
        let contract = Self {
            owner_id,
            stake_public_key,
            max_number_of_slots,
            last_locked_account_balance: 0,
            last_account_balance: context.account_balance,
            total_stake: 0,
            epoch_infos,
            active_accounts: AccountMap::new(),
            inactive_accounts: AccountMap::new(),
            archived_accounts: archive,
        };
        proof {
            let state = initial_state(owner_id@, stake_public_key@, max_number_of_slots, *context);
            assert(contract@.epochs =~= state.epochs);
            assert(contract@.archived =~= state.archived);
            assert(contract@ =~= state);
            assert(stake_sum(state.current()) == 0);
        }
        Ok(contract)
    }

    /// Call to deposit the attached amount.
    pub fn deposit(&mut self, context: &Context) -> (res: Result<(), StakingError>)
        requires
            old(self).wf(),
        ensures
            final(self).wf(),
            match res {
                Ok(()) => {
                    &&& deposit_refusal(old(self)@, *context) is None
                    &&& deposit_done(old(self)@, *context, final(self)@)
                },
                Err(error) => {
                    &&& deposit_refusal(old(self)@, *context) == Some(error)
                    &&& final(self)@ == old(self)@
                },
            },
    {
        let start = match self.prepare(context) {
            Ok(start) => start,
            Err(error) => {
                return Err(error);
            },
        };
        let account = self.prepared_account(&start, &context.predecessor_account_id, context);
        let unstaked = match account.unstaked.checked_add(context.attached_deposit) {
            Some(unstaked) => unstaked,
            None => {
                return Err(StakingError::Overflow);
            },
        };
        self.enter(start, context);
        let ghost mid = self@;
        let ghost id = context.predecessor_account_id@;
        proof {
            lemma_pinged(old(self)@, *context, mid);
        }
        let mut wrapped_account = self.pull_account(context.predecessor_account_id.clone());
        wrapped_account.account.unstaked = unstaked;
        self.save_account(wrapped_account);
        proof {
            let changed = after_deposit(mid.account(id), context.attached_deposit);
            assert(self@ =~= with_account(mid, id, changed));
            lemma_with_account_wf(mid, id, changed);
        }
        Ok(())
    }

    /// Withdraws from the unstaked balance of the caller.
    pub fn withdraw(&mut self, amount: Balance, context: &Context) -> (res: Result<Promise, StakingError>)
        requires
            old(self).wf(),
        ensures
            final(self).wf(),
            match res {
                Ok(promise) => {
                    &&& withdraw_refusal(old(self)@, *context, amount) is None
                    &&& withdraw_done(old(self)@, *context, amount, final(self)@)
                    &&& promise@ == transfer_promise(context.predecessor_account_id@, amount)
                },
                Err(error) => {
                    &&& withdraw_refusal(old(self)@, *context, amount) == Some(error)
                    &&& final(self)@ == old(self)@
                },
            },
    {
        if amount == 0 {
            return Err(StakingError::WithdrawalNotPositive);
        }
        let start = match self.prepare(context) {
            Ok(start) => start,
            Err(error) => {
                return Err(error);
            },
        };
        let account = self.prepared_account(&start, &context.predecessor_account_id, context);
        if account.unstaked < amount {
            return Err(StakingError::NotEnoughUnstakedToWithdraw);
        }
        if account.unstaked_available_epoch_height > context.epoch_height {
            return Err(StakingError::UnstakedNotAvailable);
        }
        self.enter(start, context);
        let ghost mid = self@;
        let ghost id = context.predecessor_account_id@;
        proof {
            lemma_pinged(old(self)@, *context, mid);
        }
        let mut wrapped_account = self.pull_account(context.predecessor_account_id.clone());
        wrapped_account.account.unstaked = wrapped_account.account.unstaked - amount;
        self.save_account(wrapped_account);
        proof {
            let changed = after_withdrawal(mid.account(id), amount);
            assert(self@ =~= with_account(mid, id, changed));
            lemma_with_account_wf(mid, id, changed);
        }
        let promise = Promise {
            receiver_id: context.predecessor_account_id.clone(),
            actions: vec![PromiseAction::Transfer { amount }],
        };
        assert(promise@.actions =~= transfer_promise(id, amount).actions);
        Ok(promise)
    }

    /// Stakes from the unstaked balance of the caller.
    pub fn stake(&mut self, amount: Balance, context: &Context) -> (res: Result<Promise, StakingError>)
        requires
            old(self).wf(),
        ensures
            final(self).wf(),
            match res {
                Ok(promise) => {
                    &&& stake_refusal(old(self)@, *context, amount) is None
                    &&& stake_done(old(self)@, *context, amount, final(self)@)
                    &&& promise@ == stake_promise(
                        context.current_account_id@,
                        final(self)@.total_stake,
                        old(self)@.stake_public_key,
                    )
                },
                Err(error) => {
                    &&& stake_refusal(old(self)@, *context, amount) == Some(error)
                    &&& final(self)@ == old(self)@
                },
            },
    {
        if amount == 0 {
            return Err(StakingError::StakeNotPositive);
        }
        let start = match self.prepare(context) {
            Ok(start) => start,
            Err(error) => {
                return Err(error);
            },
        };
        let account = self.prepared_account(&start, &context.predecessor_account_id, context);
        if account.unstaked < amount {
            return Err(StakingError::NotEnoughUnstakedToStake);
        }
        let staked = match account.staked.checked_add(amount) {
            Some(staked) => staked,
            None => {
                return Err(StakingError::Overflow);
            },
        };
        let change = match self.slot_change(&start, &context.predecessor_account_id, staked, context) {
            Ok(change) => change,
            Err(error) => {
                return Err(error);
            },
        };
        self.enter(start, context);
        let ghost mid = self@;
        let ghost id = context.predecessor_account_id@;
        proof {
            lemma_pinged(old(self)@, *context, mid);
        }
        let mut wrapped_account = self.pull_account(context.predecessor_account_id.clone());
        wrapped_account.account.unstaked = wrapped_account.account.unstaked - amount;
        wrapped_account.account.staked = staked;
        let ghost pulled = self@;
        assert(without(pulled, id) =~= pulled);
        let promise = self.update_stake(wrapped_account, change, context);
        proof {
            let changed = after_stake(mid.account(id), amount);
            let stakes = change.applied(mid.current(), id, staked);
            lemma_restaked(mid, id, changed, stakes, self@);
        }
        Ok(promise)
    }

    /// Unstakes from the staked balance of the caller, and requests its withdrawal for the epoch of the
    /// call + 2: from then on the unstaked balance can be withdrawn. The promise stakes what is still
    /// staked in all.
    pub fn unstake(&mut self, amount: Balance, context: &Context) -> (res: Result<Promise, StakingError>)
        requires
            old(self).wf(),
        ensures
            final(self).wf(),
            match res {
                Ok(promise) => {
                    &&& unstake_refusal(old(self)@, *context, amount) is None
                    &&& unstake_done(old(self)@, *context, amount, final(self)@)
                    &&& promise@ == stake_promise(
                        context.current_account_id@,
                        final(self)@.total_stake,
                        old(self)@.stake_public_key,
                    )
                },
                Err(error) => {
                    &&& unstake_refusal(old(self)@, *context, amount) == Some(error)
                    &&& final(self)@ == old(self)@
                },
            },
    {
        if amount == 0 {
            return Err(StakingError::UnstakeNotPositive);
        }
        let start = match self.prepare(context) {
            Ok(start) => start,
            Err(error) => {
                return Err(error);
            },
        };
        let account = self.prepared_account(&start, &context.predecessor_account_id, context);
        if account.staked < amount {
            return Err(StakingError::NotEnoughStaked);
        }
        let staked: Balance = account.staked - amount;
        let (unstaked, available) = match (
            account.unstaked.checked_add(amount),
            context.epoch_height.checked_add(EPOCHS_TOWARDS_WITHDRAWAL),
        ) {
            (Some(unstaked), Some(available)) => (unstaked, available),
            _ => {
                return Err(StakingError::Overflow);
            },
        };
        let change = match self.slot_change(&start, &context.predecessor_account_id, staked, context) {
            Ok(change) => change,
            Err(error) => {
                return Err(error);
            },
        };
        self.enter(start, context);
        let ghost mid = self@;
        let ghost id = context.predecessor_account_id@;
        proof {
            lemma_pinged(old(self)@, *context, mid);
        }
        let mut wrapped_account = self.pull_account(context.predecessor_account_id.clone());
        wrapped_account.account.staked = staked;
        wrapped_account.account.unstaked = unstaked;
        wrapped_account.account.unstaked_available_epoch_height = available;
        let ghost pulled = self@;
        assert(without(pulled, id) =~= pulled);
        let promise = self.update_stake(wrapped_account, change, context);
        proof {
            let changed = after_unstake(mid.account(id), amount, context.epoch_height);
            let stakes = change.applied(mid.current(), id, staked);
            lemma_restaked(mid, id, changed, stakes, self@);
        }
        Ok(promise)
    }

    /// To be called by the pool itself after a stake action: the locked balance is accounted for.
    pub fn internal_after_stake(&mut self, context: &Context) -> (res: Result<(), StakingError>)
        requires
            old(self).wf(),
        ensures
            final(self).wf(),
            match res {
                Ok(()) => {
                    &&& context.current_account_id@ == context.predecessor_account_id@
                    &&& final(self)@ == (PoolState {
                        last_locked_account_balance: context.account_locked_balance,
                        ..old(self)@
                    })
                },
                Err(error) => {
                    &&& context.current_account_id@ != context.predecessor_account_id@
                    &&& error == StakingError::NotCalledByPool
                    &&& final(self)@ == old(self)@
                },
            },
    {
        if context.current_account_id != context.predecessor_account_id {
            return Err(StakingError::NotCalledByPool);
        }
        self.last_locked_account_balance = context.account_locked_balance;
        assert(self@.stakes_match()) by {
            assert(old(self)@.stakes_match());
        }
        Ok(())
    }

    /// Returns the unstaked balance of an account.
    pub fn get_account_unstaked_balance(&self, account_id: AccountId) -> (balance: Balance)
        requires
            self.wf(),
        ensures
            balance == self@.account(account_id@).unstaked,
    {
        self.get_account(&account_id).unstaked
    }

    /// Returns the staked balance of an account.
    pub fn get_account_staked_balance(&self, account_id: AccountId) -> (balance: Balance)
        requires
            self.wf(),
        ensures
            balance == self@.account(account_id@).staked,
    {
        self.get_account(&account_id).staked
    }

    /// Returns the staked and the unstaked balance of an account together.
    pub fn get_account_total_balance(&self, account_id: AccountId) -> (balance: Result<Balance, StakingError>)
        requires
            self.wf(),
        ensures
            balance == (if self@.account(account_id@).staked + self@.account(account_id@).unstaked <= u128::MAX {
                Ok((self@.account(account_id@).staked + self@.account(account_id@).unstaked) as u128)
            } else {
                Err(StakingError::Overflow)
            }),
    {
        let account = self.get_account(&account_id);
        match account.staked.checked_add(account.unstaked) {
            Some(balance) => Ok(balance),
            None => Err(StakingError::Overflow),
        }
    }

    /// Whether the account has a slot in the current epoch.
    pub fn is_account_actively_staking(&self, account_id: AccountId) -> (res: bool)
        requires
            self.wf(),
        ensures
            res == self@.current().contains_key(account_id@),
    {
        let last: usize = self.epoch_infos.len() - 1;
        self.epoch_infos[last].stakes.contains_key(&account_id)
    }

    /// Whether the unstaked balance of the account can be withdrawn in the given epoch.
    pub fn is_account_unstaked_balance_available(&self, account_id: AccountId, epoch_height: EpochHeight) -> (res: bool)
        requires
            self.wf(),
        ensures
            res == (self@.account(account_id@).unstaked_available_epoch_height <= epoch_height),
    {
        self.get_account(&account_id).unstaked_available_epoch_height <= epoch_height
    }
}

proof fn lemma_restaked(mid: PoolState, id: Seq<char>, account: Account, stakes: Map<Seq<char>, Balance>, post: PoolState)
    requires
        mid.wf(),
        restake_refusal(mid.current(), mid.max_number_of_slots, id, account.staked) is None,
        slots_updated(mid.current(), mid.max_number_of_slots, id, account.staked, stakes),
        post == stored(
            with_current(without(mid, id), stakes),
            id,
            account,
            staked_in(with_current(without(mid, id), stakes).epochs, id),
        ),
    ensures
        restake_done(mid, id, account, post),
        post.wf(),
{
    assert(without(with_current(without(mid, id), stakes), id) =~= without(with_current(mid, stakes), id));
    lemma_restake(mid, id, account, post);
}

} // verus!
