//! The pool as a mathematical state, and what each call makes of it.

use crate::sums::stake_sum;
use crate::types::{
    Account, ActionState, Balance, Context, EpochHeight, EpochState, PromiseState, StakingError,
    EPOCHS_TOWARDS_REWARD, EPOCHS_TOWARDS_WITHDRAWAL, PING_GAS, REFRESH_STAKE_GAS,
};
use vstd::prelude::*;

verus! {

/// The state of the pool.
#[verifier::ext_equal]
pub struct PoolState {
    /// The account that set the pool up.
    pub owner_id: Seq<char>,
    /// How many accounts can stake in one epoch.
    pub max_number_of_slots: u32,
    /// The key that the pool validates with.
    pub stake_public_key: Seq<u8>,
    /// The locked balance of the pool's account that is accounted for.
    pub last_locked_account_balance: Balance,
    /// The unlocked balance of the pool's account that is accounted for.
    pub last_account_balance: Balance,
    /// The sum of the stakes of the current epoch.
    pub total_stake: Balance,
    /// The epochs that are not rewarded yet. The last one is the current one.
    pub epochs: Seq<EpochState>,
    /// The accounts that are staked in one of these epochs, or were until the epoch began.
    pub active: Map<Seq<char>, Account>,
    /// The accounts that wait to be archived.
    pub inactive: Map<Seq<char>, Account>,
    /// The accounts that are archived.
    pub archived: Map<Seq<char>, Account>,
}

/// The account is staked in one of the epochs.
pub open spec fn staked_in(epochs: Seq<EpochState>, id: Seq<char>) -> bool {
    exists|i: int| 0 <= i < epochs.len() && (#[trigger] epochs[i]).stakes.contains_key(id)
}

impl PoolState {
    /// The stakes of the current epoch.
    pub open spec fn current(self) -> Map<Seq<char>, Balance> {
        self.epochs.last().stakes
    }

    /// What the pool owes to an account, wherever it keeps it.
    pub open spec fn account(self, id: Seq<char>) -> Account {
        if self.active.contains_key(id) {
            self.active[id]
        } else if self.inactive.contains_key(id) {
            self.inactive[id]
        } else if self.archived.contains_key(id) {
            self.archived[id]
        } else {
            Account::initial()
        }
    }

    /// No account is kept in two places.
    pub open spec fn disjoint(self) -> bool {
        &&& forall|id: Seq<char>| #[trigger] self.active.contains_key(id) ==> !self.inactive.contains_key(id)
        &&& forall|id: Seq<char>| #[trigger] self.active.contains_key(id) ==> !self.archived.contains_key(id)
        &&& forall|id: Seq<char>| #[trigger] self.inactive.contains_key(id) ==> !self.archived.contains_key(id)
    }

    /// Every account that is staked in some epoch is active.
    pub open spec fn stakers_active(self) -> bool {
        forall|i: int, id: Seq<char>|
            0 <= i < self.epochs.len() && #[trigger] self.epochs[i].stakes.contains_key(id) ==> self.active.contains_key(id)
    }

    /// The stake of an account in the current epoch is its staked balance, and is not zero.
    pub open spec fn stakes_match(self) -> bool {
        forall|id: Seq<char>| #[trigger]
            self.current().contains_key(id) ==> self.current()[id] == self.active[id].staked && self.current()[id] > 0
    }

    /// What holds of every pool.
    pub open spec fn wf(self) -> bool {
        &&& self.epochs.len() > 0
        &&& forall|i: int| 0 <= i < self.epochs.len() ==> (#[trigger] self.epochs[i]).stakes.dom().finite()
        &&& self.disjoint()
        &&& self.stakers_active()
        &&& self.stakes_match()
        &&& self.total_stake == stake_sum(self.current())
        &&& self.current().len() <= self.max_number_of_slots
    }
}

/// The pool right after it was set up.
pub open spec fn initial_state(
    owner_id: Seq<char>,
    stake_public_key: Seq<u8>,
    max_number_of_slots: u32,
    context: Context,
) -> PoolState {
    PoolState {
        owner_id,
        max_number_of_slots,
        stake_public_key,
        last_locked_account_balance: 0,
        last_account_balance: context.account_balance,
        total_stake: 0,
        epochs: seq![EpochState { epoch_height: context.epoch_height, stakes: Map::empty() }],
        active: Map::empty(),
        inactive: Map::empty(),
        archived: Map::empty(),
    }
}

/// The stakes of the epoch have been at work long enough to be rewarded.
pub open spec fn matured(epoch: EpochState, height: EpochHeight) -> bool {
    epoch.epoch_height + EPOCHS_TOWARDS_REWARD <= height
}

/// The stakes of an account over all matured epochs.
pub open spec fn matured_stake(epochs: Seq<EpochState>, height: EpochHeight, id: Seq<char>) -> nat
    decreases epochs.len(),
{
    if epochs.len() == 0 {
        0
    } else {
        let epoch = epochs.last();
        matured_stake(epochs.drop_last(), height, id) + if matured(epoch, height) && epoch.stakes.contains_key(id) {
            epoch.stakes[id] as nat
        } else {
            0
        }
    }
}

/// The stakes of all accounts over all matured epochs.
pub open spec fn matured_total(epochs: Seq<EpochState>, height: EpochHeight) -> nat
    decreases epochs.len(),
{
    if epochs.len() == 0 {
        0
    } else {
        let epoch = epochs.last();
        matured_total(epochs.drop_last(), height) + if matured(epoch, height) {
            stake_sum(epoch.stakes)
        } else {
            0
        }
    }
}

/// By how much an amount has grown. It is zero where the amount has shrunk.
pub open spec fn growth(now: int, before: int) -> nat {
    if now > before {
        (now - before) as nat
    } else {
        0
    }
}

/// The part of `pot` that is due to `part` of `whole`, rounded down.
pub open spec fn share(pot: nat, part: nat, whole: nat) -> nat {
    if whole == 0 {
        0
    } else {
        (pot * part) / whole
    }
}

/// The balance of the pool's account without the deposit that is attached to the call.
pub open spec fn balance_before_deposit(context: Context) -> int {
    context.account_locked_balance + context.account_balance - context.attached_deposit
}

/// The reward on the locked balance.
pub open spec fn staked_pot(s: PoolState, context: Context) -> nat {
    growth(context.account_locked_balance as int, s.last_locked_account_balance as int)
}

/// What the pool's account has gained besides the reward on the locked balance.
pub open spec fn unstaked_pot(s: PoolState, context: Context) -> nat {
    let gained = growth(balance_before_deposit(context), s.last_account_balance + s.last_locked_account_balance);
    growth(gained as int, staked_pot(s, context) as int)
}

/// What an account gets of the reward on the locked balance.
pub open spec fn staked_reward(s: PoolState, context: Context, id: Seq<char>) -> nat {
    share(
        staked_pot(s, context),
        matured_stake(s.epochs, context.epoch_height, id),
        matured_total(s.epochs, context.epoch_height),
    )
}

/// What an account gets of the other gains.
pub open spec fn unstaked_reward(s: PoolState, context: Context, id: Seq<char>) -> nat {
    share(
        unstaked_pot(s, context),
        matured_stake(s.epochs, context.epoch_height, id),
        matured_total(s.epochs, context.epoch_height),
    )
}

/// An active account with its rewards.
pub open spec fn rewarded(s: PoolState, context: Context, id: Seq<char>) -> Account {
    Account {
        unstaked: (s.active[id].unstaked + unstaked_reward(s, context, id)) as u128,
        staked: (s.active[id].staked + staked_reward(s, context, id)) as u128,
        unstaked_available_epoch_height: s.active[id].unstaked_available_epoch_height,
    }
}

/// The stakes that the new epoch begins with: those of the current one and the rewards on them.
pub open spec fn restaked(s: PoolState, context: Context) -> Map<Seq<char>, Balance> {
    Map::new(
        |id: Seq<char>| s.current().contains_key(id),
        |id: Seq<char>| (s.current()[id] + staked_reward(s, context, id)) as u128,
    )
}

/// The epochs after the new one has begun: the matured ones are gone.
pub open spec fn next_epochs(s: PoolState, context: Context) -> Seq<EpochState> {
    s.epochs.filter(|epoch: EpochState| !matured(epoch, context.epoch_height)).push(
        EpochState { epoch_height: context.epoch_height, stakes: restaked(s, context) },
    )
}

/// The pool after a new epoch has begun: the rewards are distributed, and the accounts that are no
/// longer staked in any epoch wait to be archived.
pub open spec fn distributed(s: PoolState, context: Context) -> PoolState {
    let epochs = next_epochs(s, context);
    PoolState {
        epochs,
        total_stake: stake_sum(restaked(s, context)) as u128,
        active: Map::new(
            |id: Seq<char>| s.active.contains_key(id) && staked_in(epochs, id),
            |id: Seq<char>| rewarded(s, context, id),
        ),
        inactive: s.inactive.union_prefer_right(
            Map::new(
                |id: Seq<char>| s.active.contains_key(id) && !staked_in(epochs, id),
                |id: Seq<char>| rewarded(s, context, id),
            ),
        ),
        last_locked_account_balance: context.account_locked_balance,
        last_account_balance: context.account_balance,
        ..s
    }
}

/// A new epoch has begun since the pool was called last.
pub open spec fn new_epoch(s: PoolState, context: Context) -> bool {
    s.epochs.last().epoch_height != context.epoch_height
}

/// The pool in the epoch of the call.
pub open spec fn refreshed(s: PoolState, context: Context) -> PoolState {
    if new_epoch(s, context) {
        distributed(s, context)
    } else {
        s
    }
}

/// The balances of an active account fit into their type together with its rewards.
pub open spec fn reward_fits(s: PoolState, context: Context, id: Seq<char>) -> bool {
    &&& s.active[id].staked + staked_reward(s, context, id) <= u128::MAX
    &&& s.active[id].unstaked + unstaked_reward(s, context, id) <= u128::MAX
}

/// Every amount that bringing the pool into the epoch of the call computes fits into its type.
pub open spec fn refresh_fits(s: PoolState, context: Context) -> bool {
    new_epoch(s, context) ==> {
        &&& context.account_locked_balance + context.account_balance <= u128::MAX
        &&& balance_before_deposit(context) >= 0
        &&& s.last_account_balance + s.last_locked_account_balance <= u128::MAX
        &&& forall|i: int|
            0 <= i < s.epochs.len() ==> (#[trigger] s.epochs[i]).epoch_height + EPOCHS_TOWARDS_REWARD <= u64::MAX
        &&& matured_total(s.epochs, context.epoch_height) <= u128::MAX
        &&& forall|id: Seq<char>| #[trigger]
            s.active.contains_key(id) ==> reward_fits(s, context, id)
        &&& stake_sum(restaked(s, context)) <= u128::MAX
    }
}

/// The waiting account `id` is archived.
pub open spec fn archived_one(s: PoolState, id: Seq<char>) -> PoolState {
    PoolState {
        inactive: s.inactive.remove(id),
        archived: s.archived.insert(id, s.inactive[id]),
        ..s
    }
}

/// One of the waiting accounts is archived, if there are any. Which one is left open.
pub open spec fn archives_one(pre: PoolState, post: PoolState) -> bool {
    if pre.inactive.dom() == Set::<Seq<char>>::empty() {
        post == pre
    } else {
        exists|id: Seq<char>| #[trigger] pre.inactive.contains_key(id) && post == archived_one(pre, id)
    }
}

/// What `ping` does: one waiting account is archived, and the pool is brought into the epoch of the
/// call.
pub open spec fn pinged(pre: PoolState, context: Context, post: PoolState) -> bool {
    exists|mid: PoolState| #[trigger] archives_one(pre, mid) && post == refreshed(mid, context)
}

/// The account `id` is taken out, wherever it is kept.
pub open spec fn without(s: PoolState, id: Seq<char>) -> PoolState {
    PoolState {
        active: s.active.remove(id),
        inactive: s.inactive.remove(id),
        archived: s.archived.remove(id),
        ..s
    }
}

/// The account `id` is `account`. It is kept with the active accounts if `active`. If not, it is
/// archived, unless it holds nothing.
pub open spec fn stored(s: PoolState, id: Seq<char>, account: Account, active: bool) -> PoolState {
    let rest = without(s, id);
    if active {
        PoolState { active: rest.active.insert(id, account), ..rest }
    } else if account.staked > 0 || account.unstaked > 0 {
        PoolState { archived: rest.archived.insert(id, account), ..rest }
    } else {
        rest
    }
}

/// The pool with the account of the caller changed to `account`, and its stakes as they were.
pub open spec fn with_account(s: PoolState, id: Seq<char>, account: Account) -> PoolState {
    stored(s, id, account, s.active.contains_key(id))
}

/// The account of the caller, in the epoch of the call.
pub open spec fn caller_account(s: PoolState, context: Context) -> Account {
    refreshed(s, context).account(context.predecessor_account_id@)
}

/// The account after `amount` was deposited.
pub open spec fn after_deposit(account: Account, amount: Balance) -> Account {
    Account { unstaked: (account.unstaked + amount) as u128, ..account }
}

/// The account after `amount` was withdrawn.
pub open spec fn after_withdrawal(account: Account, amount: Balance) -> Account {
    Account { unstaked: (account.unstaked - amount) as u128, ..account }
}

/// The account after `amount` was staked.
pub open spec fn after_stake(account: Account, amount: Balance) -> Account {
    Account { unstaked: (account.unstaked - amount) as u128, staked: (account.staked + amount) as u128, ..account }
}

/// The account after `amount` was unstaked in the epoch `height`.
pub open spec fn after_unstake(account: Account, amount: Balance, height: EpochHeight) -> Account {
    Account {
        unstaked: (account.unstaked + amount) as u128,
        staked: (account.staked - amount) as u128,
        unstaked_available_epoch_height: (height + EPOCHS_TOWARDS_WITHDRAWAL) as u64,
    }
}

/// The account has a stake, and no account has a smaller one.
pub open spec fn is_smallest(stakes: Map<Seq<char>, Balance>, id: Seq<char>) -> bool {
    &&& stakes.contains_key(id)
    &&& forall|other: Seq<char>| #[trigger] stakes.contains_key(other) ==> stakes[id] <= stakes[other]
}

/// The smallest stake.
pub open spec fn smallest_stake(stakes: Map<Seq<char>, Balance>) -> Balance {
    stakes[choose|id: Seq<char>| is_smallest(stakes, id)]
}

/// What becomes of the stakes of the current epoch when the staked balance of `id` is set to
/// `staked`. An account with a slot keeps it as long as it stakes anything. An account without one
/// takes a free slot, or else the slot of an account with the smallest stake, if that is smaller
/// than its own. Which of several accounts with the smallest stake loses its slot is left open.
pub open spec fn slots_updated(
    pre: Map<Seq<char>, Balance>,
    max_number_of_slots: u32,
    id: Seq<char>,
    staked: Balance,
    post: Map<Seq<char>, Balance>,
) -> bool {
    if pre.contains_key(id) {
        post == if staked == 0 {
            pre.remove(id)
        } else {
            pre.insert(id, staked)
        }
    } else if staked == 0 {
        post == pre
    } else if pre.len() < max_number_of_slots {
        post == pre.insert(id, staked)
    } else if smallest_stake(pre) < staked {
        exists|other: Seq<char>| #[trigger] is_smallest(pre, other) && post == pre.remove(other).insert(id, staked)
    } else {
        post == pre
    }
}

/// The sum of the stakes after [`slots_updated`].
pub open spec fn updated_total(pre: Map<Seq<char>, Balance>, max_number_of_slots: u32, id: Seq<char>, staked: Balance) -> int {
    if pre.contains_key(id) {
        stake_sum(pre) - pre[id] + staked
    } else if staked == 0 {
        stake_sum(pre) as int
    } else if pre.len() < max_number_of_slots {
        stake_sum(pre) + staked
    } else if smallest_stake(pre) < staked {
        stake_sum(pre) - smallest_stake(pre) + staked
    } else {
        stake_sum(pre) as int
    }
}

/// The pool with the stakes of the current epoch replaced.
pub open spec fn with_current(s: PoolState, stakes: Map<Seq<char>, Balance>) -> PoolState {
    PoolState {
        epochs: s.epochs.update(s.epochs.len() - 1, EpochState { stakes, ..s.epochs.last() }),
        total_stake: stake_sum(stakes) as u128,
        ..s
    }
}

/// The staked balance of `id` has changed, and its account with it: the slots of the current epoch
/// are given out anew, and the account is active if it is staked in any epoch.
pub open spec fn restake_done(pre: PoolState, id: Seq<char>, account: Account, post: PoolState) -> bool {
    exists|stakes: Map<Seq<char>, Balance>| #[trigger]
        slots_updated(pre.current(), pre.max_number_of_slots, id, account.staked, stakes) && post == stored(
            with_current(pre, stakes),
            id,
            account,
            staked_in(with_current(pre, stakes).epochs, id),
        )
}

/// Why the staked balance of `id` cannot be set to `staked`, if it cannot.
pub open spec fn restake_refusal(
    stakes: Map<Seq<char>, Balance>,
    max_number_of_slots: u32,
    id: Seq<char>,
    staked: Balance,
) -> Option<StakingError> {
    if !stakes.contains_key(id) && staked > 0 && max_number_of_slots == 0 {
        Some(StakingError::NoSlots)
    } else if updated_total(stakes, max_number_of_slots, id, staked) > u128::MAX {
        Some(StakingError::Overflow)
    } else {
        None
    }
}

/// Why `deposit` is refused, if it is.
pub open spec fn deposit_refusal(s: PoolState, context: Context) -> Option<StakingError> {
    if !refresh_fits(s, context) {
        Some(StakingError::Overflow)
    } else if caller_account(s, context).unstaked + context.attached_deposit > u128::MAX {
        Some(StakingError::Overflow)
    } else {
        None
    }
}

/// Why `withdraw` is refused, if it is.
pub open spec fn withdraw_refusal(s: PoolState, context: Context, amount: Balance) -> Option<StakingError> {
    let account = caller_account(s, context);
    if amount == 0 {
        Some(StakingError::WithdrawalNotPositive)
    } else if !refresh_fits(s, context) {
        Some(StakingError::Overflow)
    } else if account.unstaked < amount {
        Some(StakingError::NotEnoughUnstakedToWithdraw)
    } else if account.unstaked_available_epoch_height > context.epoch_height {
        Some(StakingError::UnstakedNotAvailable)
    } else {
        None
    }
}

/// Why `stake` is refused, if it is.
pub open spec fn stake_refusal(s: PoolState, context: Context, amount: Balance) -> Option<StakingError> {
    let account = caller_account(s, context);
    if amount == 0 {
        Some(StakingError::StakeNotPositive)
    } else if !refresh_fits(s, context) {
        Some(StakingError::Overflow)
    } else if account.unstaked < amount {
        Some(StakingError::NotEnoughUnstakedToStake)
    } else if account.staked + amount > u128::MAX {
        Some(StakingError::Overflow)
    } else {
        restake_refusal(
            refreshed(s, context).current(),
            s.max_number_of_slots,
            context.predecessor_account_id@,
            after_stake(account, amount).staked,
        )
    }
}

/// Why `unstake` is refused, if it is.
pub open spec fn unstake_refusal(s: PoolState, context: Context, amount: Balance) -> Option<StakingError> {
    let account = caller_account(s, context);
    if amount == 0 {
        Some(StakingError::UnstakeNotPositive)
    } else if !refresh_fits(s, context) {
        Some(StakingError::Overflow)
    } else if account.staked < amount {
        Some(StakingError::NotEnoughStaked)
    } else if account.unstaked + amount > u128::MAX || context.epoch_height + EPOCHS_TOWARDS_WITHDRAWAL > u64::MAX {
        Some(StakingError::Overflow)
    } else {
        restake_refusal(
            refreshed(s, context).current(),
            s.max_number_of_slots,
            context.predecessor_account_id@,
            after_unstake(account, amount, context.epoch_height).staked,
        )
    }
}

/// What `deposit` does.
pub open spec fn deposit_done(pre: PoolState, context: Context, post: PoolState) -> bool {
    exists|mid: PoolState| #[trigger]
        pinged(pre, context, mid) && post == with_account(
            mid,
            context.predecessor_account_id@,
            after_deposit(mid.account(context.predecessor_account_id@), context.attached_deposit),
        )
}

/// What `withdraw` does.
pub open spec fn withdraw_done(pre: PoolState, context: Context, amount: Balance, post: PoolState) -> bool {
    exists|mid: PoolState| #[trigger]
        pinged(pre, context, mid) && post == with_account(
            mid,
            context.predecessor_account_id@,
            after_withdrawal(mid.account(context.predecessor_account_id@), amount),
        )
}

/// What `stake` does.
pub open spec fn stake_done(pre: PoolState, context: Context, amount: Balance, post: PoolState) -> bool {
    exists|mid: PoolState| #[trigger]
        pinged(pre, context, mid) && restake_done(
            mid,
            context.predecessor_account_id@,
            after_stake(mid.account(context.predecessor_account_id@), amount),
            post,
        )
}

/// What `unstake` does.
pub open spec fn unstake_done(pre: PoolState, context: Context, amount: Balance, post: PoolState) -> bool {
    exists|mid: PoolState| #[trigger]
        pinged(pre, context, mid) && restake_done(
            mid,
            context.predecessor_account_id@,
            after_unstake(mid.account(context.predecessor_account_id@), amount, context.epoch_height),
            post,
        )
}

/// The promise that pays `amount` out to `receiver_id`.
pub open spec fn transfer_promise(receiver_id: Seq<char>, amount: Balance) -> PromiseState {
    PromiseState { receiver_id, actions: seq![ActionState::Transfer { amount }] }
}

/// The promise that stakes `total_stake` on the pool's own account, with a `ping` ahead of it and an
/// `internal_after_stake` behind it.
pub open spec fn stake_promise(pool_id: Seq<char>, total_stake: Balance, stake_public_key: Seq<u8>) -> PromiseState {
    PromiseState {
        receiver_id: pool_id,
        actions: seq![
            ActionState::FunctionCall { method_name: "ping"@, arguments: "{}"@, amount: 0, gas: PING_GAS },
            ActionState::Stake { amount: total_stake, public_key: stake_public_key },
            ActionState::FunctionCall {
                method_name: "internal_after_stake"@,
                arguments: "{}"@,
                amount: 0,
                gas: REFRESH_STAKE_GAS,
            },
        ],
    }
}

} // verus!
