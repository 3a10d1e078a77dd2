//! When each call is granted, and what it makes of the pool, in terms of a ping and of the tables of the
//! pool.

use super::holdings;
use crate::archive::archive_entries;
use crate::invariants::{lemma_pinged, lemma_restake, lemma_slots_updated, lemma_smallest_unique, lemma_with_account_wf};
use crate::model::{
    after_deposit, after_stake, after_unstake, after_withdrawal, deposit_done, deposit_refusal, initial_state, is_smallest,
    pinged, refresh_fits, restake_done, restake_refusal, slots_updated, smallest_stake, stake_done, stake_promise,
    stake_refusal, transfer_promise, unstake_done, unstake_refusal, updated_total, with_account, withdraw_done,
    withdraw_refusal, PoolState,
};
use crate::pool::StakingContract;
use crate::sums::{lemma_stake_sum_remove, stake_sum};
use crate::types::{Account, ActionState, Balance, Context, Promise, PromiseAction, StakingError};
use vstd::prelude::*;

verus! {

/// What the pool owes to an account is what it keeps of it, in whichever table. It owes nothing to an
/// account that it does not keep.
pub proof fn law_account_is_found_wherever_it_is_kept(s: PoolState, id: Seq<char>)
    requires
        s.wf(),
    ensures
        s.active.contains_key(id) ==> s.account(id) == s.active[id],
        s.inactive.contains_key(id) ==> s.account(id) == s.inactive[id],
        s.archived.contains_key(id) ==> s.account(id) == s.archived[id],
        !s.active.contains_key(id) && !s.inactive.contains_key(id) && !s.archived.contains_key(id) ==> {
            &&& s.account(id).staked == 0
            &&& s.account(id).unstaked == 0
            &&& s.account(id).unstaked_available_epoch_height == 0
        },
{
}

/// What holds of every pool: no account is kept twice, whoever is staked in some epoch is active, the
/// stakes of the current epoch are the staked balances of their accounts, none of them is zero, there
/// are no more of them than slots, and the total stake is their sum.
pub proof fn law_of_every_pool(s: PoolState, id: Seq<char>, i: int)
    requires
        s.wf(),
    ensures
        s.epochs.len() > 0,
        !(s.active.contains_key(id) && s.inactive.contains_key(id)),
        !(s.active.contains_key(id) && s.archived.contains_key(id)),
        !(s.inactive.contains_key(id) && s.archived.contains_key(id)),
        0 <= i < s.epochs.len() && s.epochs[i].stakes.contains_key(id) ==> s.active.contains_key(id),
        s.epochs.last().stakes.contains_key(id) ==> s.epochs.last().stakes[id] == s.account(id).staked && s.account(
            id,
        ).staked > 0,
        s.epochs.last().stakes.dom().finite(),
        s.epochs.last().stakes.len() <= s.max_number_of_slots,
        s.total_stake == stake_sum(s.epochs.last().stakes),
{
    let last = s.epochs.len() - 1;
    assert(s.epochs[last].stakes.dom().finite());
    if s.current().contains_key(id) {
        assert(s.epochs[last].stakes.contains_key(id));
    }
}

/// A new pool has what it was set up with, one epoch without stakes, and no accounts. The balance that
/// it was set up with is no gain.
pub proof fn law_new_pool(
    owner_id: Seq<char>,
    stake_public_key: Seq<u8>,
    max_number_of_slots: u32,
    context: Context,
    id: Seq<char>,
)
    ensures
        ({
            let s = initial_state(owner_id, stake_public_key, max_number_of_slots, context);
            &&& s.owner_id == owner_id
            &&& s.stake_public_key == stake_public_key
            &&& s.max_number_of_slots == max_number_of_slots
            &&& s.last_locked_account_balance == 0
            &&& s.last_account_balance == context.account_balance
            &&& s.total_stake == 0
            &&& s.epochs.len() == 1
            &&& s.epochs[0].epoch_height == context.epoch_height
            &&& !s.epochs[0].stakes.contains_key(id)
            &&& !s.active.contains_key(id)
            &&& !s.inactive.contains_key(id)
            &&& !s.archived.contains_key(id)
        }),
{
}

/// The promise of a withdrawal pays the amount out to the caller, and does nothing else.
pub proof fn law_withdrawal_is_paid_out(receiver_id: Seq<char>, amount: Balance)
    ensures
        transfer_promise(receiver_id, amount).receiver_id == receiver_id,
        transfer_promise(receiver_id, amount).actions.len() == 1,
        transfer_promise(receiver_id, amount).actions[0] == (ActionState::Transfer { amount }),
{
}

/// The promise of a stake or an unstake is for the pool itself. It stakes exactly the given total with
/// the given key, between a `ping` and an `internal_after_stake` that nothing is attached to but gas.
pub proof fn law_total_is_staked(pool_id: Seq<char>, total_stake: Balance, stake_public_key: Seq<u8>)
    ensures
        ({
            let promise = stake_promise(pool_id, total_stake, stake_public_key);
            &&& promise.receiver_id == pool_id
            &&& promise.actions.len() == 3
            &&& promise.actions[0] == (ActionState::FunctionCall {
                method_name: "ping"@,
                arguments: "{}"@,
                amount: 0,
                gas: 80_000_000_000_000,
            })
            &&& promise.actions[1] == (ActionState::Stake { amount: total_stake, public_key: stake_public_key })
            &&& promise.actions[2] == (ActionState::FunctionCall {
                method_name: "internal_after_stake"@,
                arguments: "{}"@,
                amount: 0,
                gas: 80_000_000_000_000,
            })
        }),
{
}

/// The pools were set up alike, and have accounted for the same balances.
pub open spec fn same_settings(a: PoolState, b: PoolState) -> bool {
    &&& a.owner_id == b.owner_id
    &&& a.max_number_of_slots == b.max_number_of_slots
    &&& a.stake_public_key == b.stake_public_key
    &&& a.last_locked_account_balance == b.last_locked_account_balance
    &&& a.last_account_balance == b.last_account_balance
}

/// Every account but `id` is kept in the same table with the same content.
pub open spec fn others_same(a: PoolState, b: PoolState, id: Seq<char>) -> bool {
    &&& a.active.remove(id) == b.active.remove(id)
    &&& a.inactive.remove(id) == b.inactive.remove(id)
    &&& a.archived.remove(id) == b.archived.remove(id)
}

/// The account is kept with the active accounts if it is `active`. If not, it is archived if it holds
/// anything.
pub open spec fn kept(s: PoolState, id: Seq<char>, active: bool) -> bool {
    &&& s.active.contains_key(id) == active
    &&& !s.inactive.contains_key(id)
    &&& s.archived.contains_key(id) == (!active && (s.account(id).staked > 0 || s.account(id).unstaked > 0))
}

/// A deposit is granted exactly if a ping is, and if what the caller has unstaked after it can take the
/// deposit. Nothing else matters, such as whether the unstaked balance can be withdrawn yet.
pub proof fn law_deposit_is_granted_if_it_fits(pre: PoolState, context: Context, mid: PoolState)
    requires
        pre.wf(),
        pinged(pre, context, mid),
    ensures
        deposit_refusal(pre, context) is None <==> refresh_fits(pre, context) && mid.account(
            context.predecessor_account_id@,
        ).unstaked + context.attached_deposit <= u128::MAX,
        deposit_refusal(pre, context) is Some ==> deposit_refusal(pre, context) == Some(StakingError::Overflow),
{
    if refresh_fits(pre, context) {
        lemma_pinged(pre, context, mid);
    }
}

/// A deposit pings, and then adds the attached amount to what the caller has unstaked. Everything else
/// stays as the ping leaves it.
pub proof fn law_deposit_follows_a_ping(pre: PoolState, context: Context, post: PoolState) -> (mid: PoolState)
    requires
        pre.wf(),
        deposit_refusal(pre, context) is None,
        deposit_done(pre, context, post),
    ensures
        refresh_fits(pre, context),
        pinged(pre, context, mid),
        same_settings(mid, post),
        post.epochs == mid.epochs,
        post.total_stake == mid.total_stake,
        others_same(mid, post, context.predecessor_account_id@),
        ({
            let caller = context.predecessor_account_id@;
            &&& post.account(caller).unstaked == mid.account(caller).unstaked + context.attached_deposit
            &&& post.account(caller).staked == mid.account(caller).staked
            &&& holdings(post.account(caller)) > 0 || mid.active.contains_key(caller) ==> post.account(
                caller,
            ).unstaked_available_epoch_height == mid.account(caller).unstaked_available_epoch_height
            &&& kept(post, caller, mid.active.contains_key(caller))
        }),
{
    let id = context.predecessor_account_id@;
    let mid = choose|mid: PoolState| #[trigger]
        pinged(pre, context, mid) && post == with_account(mid, id, after_deposit(mid.account(id), context.attached_deposit));
    lemma_pinged(pre, context, mid);
    lemma_with_account_wf(mid, id, after_deposit(mid.account(id), context.attached_deposit));
    assert(others_same(mid, post, id)) by {
        assert(mid.active.remove(id) =~= post.active.remove(id));
        assert(mid.inactive.remove(id) =~= post.inactive.remove(id));
        assert(mid.archived.remove(id) =~= post.archived.remove(id));
    }
    mid
}

/// A withdrawal is granted exactly if the amount is not zero, a ping is granted, the caller has that much
/// unstaked after it, and the first epoch in which the unstaked balance can be withdrawn is not later
/// than that of the call. Each refusal says what is wrong.
pub proof fn law_withdrawal_is_granted_if_available(pre: PoolState, context: Context, amount: Balance, mid: PoolState)
    requires
        pre.wf(),
        pinged(pre, context, mid),
    ensures
        ({
            let account = mid.account(context.predecessor_account_id@);
            let refusal = withdraw_refusal(pre, context, amount);
            &&& refusal is None <==> 0 < amount <= account.unstaked && refresh_fits(pre, context)
                && account.unstaked_available_epoch_height <= context.epoch_height
            &&& refusal == Some(StakingError::WithdrawalNotPositive) <==> amount == 0
            &&& refusal == Some(StakingError::Overflow) <==> amount > 0 && !refresh_fits(pre, context)
            &&& refusal == Some(StakingError::NotEnoughUnstakedToWithdraw) <==> amount > account.unstaked && refresh_fits(
                pre,
                context,
            )
            &&& refusal == Some(StakingError::UnstakedNotAvailable) <==> 0 < amount <= account.unstaked && refresh_fits(
                pre,
                context,
            ) && account.unstaked_available_epoch_height > context.epoch_height
        }),
{
    if refresh_fits(pre, context) {
        lemma_pinged(pre, context, mid);
    }
}

/// A withdrawal pings, and then takes the amount from what the caller has unstaked. Everything else stays
/// as the ping leaves it.
pub proof fn law_withdrawal_follows_a_ping(
    pre: PoolState,
    context: Context,
    amount: Balance,
    post: PoolState,
) -> (mid: PoolState)
    requires
        pre.wf(),
        withdraw_refusal(pre, context, amount) is None,
        withdraw_done(pre, context, amount, post),
    ensures
        refresh_fits(pre, context),
        pinged(pre, context, mid),
        same_settings(mid, post),
        post.epochs == mid.epochs,
        post.total_stake == mid.total_stake,
        others_same(mid, post, context.predecessor_account_id@),
        ({
            let caller = context.predecessor_account_id@;
            &&& post.account(caller).unstaked == mid.account(caller).unstaked - amount
            &&& post.account(caller).staked == mid.account(caller).staked
            &&& holdings(post.account(caller)) > 0 || mid.active.contains_key(caller) ==> post.account(
                caller,
            ).unstaked_available_epoch_height == mid.account(caller).unstaked_available_epoch_height
            &&& kept(post, caller, mid.active.contains_key(caller))
        }),
{
    let id = context.predecessor_account_id@;
    let mid = choose|mid: PoolState| #[trigger]
        pinged(pre, context, mid) && post == with_account(mid, id, after_withdrawal(mid.account(id), amount));
    lemma_pinged(pre, context, mid);
    lemma_with_account_wf(mid, id, after_withdrawal(mid.account(id), amount));
    assert(others_same(mid, post, id)) by {
        assert(mid.active.remove(id) =~= post.active.remove(id));
        assert(mid.inactive.remove(id) =~= post.inactive.remove(id));
        assert(mid.archived.remove(id) =~= post.archived.remove(id));
    }
    mid
}

/// How the slots are given out when the staked balance of `id` has become `staked`. The account has a slot
/// if it stakes anything and had a slot, or one was free, or somebody stakes less. The others keep their
/// stakes and their slots, but for one with the smallest stake, who makes room where there is no other.
pub open spec fn slots_given(
    before: Map<Seq<char>, Balance>,
    slots: u32,
    id: Seq<char>,
    staked: Balance,
    after: Map<Seq<char>, Balance>,
) -> bool {
    let outbids = exists|other: Seq<char>| #[trigger] before.contains_key(other) && before[other] < staked;
    &&& after.contains_key(id) <==> staked > 0 && (before.contains_key(id) || before.len() < slots || outbids)
    &&& after.contains_key(id) ==> after[id] == staked
    &&& forall|other: Seq<char>| #[trigger]
        after.contains_key(other) && other != id ==> before.contains_key(other) && after[other] == before[other]
    &&& forall|lost: Seq<char>, other: Seq<char>|
        #![trigger after.contains_key(lost), before.contains_key(other)]
        lost != id && before.contains_key(lost) && !after.contains_key(lost) && before.contains_key(other) ==> {
            &&& after.contains_key(id)
            &&& !before.contains_key(id)
            &&& before.len() >= slots
            &&& before[lost] <= before[other]
            &&& other != lost && other != id ==> after.contains_key(other)
        }
    &&& after.len() <= slots
}

/// Giving out the slots is what [`slots_given`] says, and nothing more.
proof fn lemma_slots_given(
    before: Map<Seq<char>, Balance>,
    slots: u32,
    id: Seq<char>,
    staked: Balance,
    after: Map<Seq<char>, Balance>,
)
    requires
        before.dom().finite(),
        before.len() <= slots,
        slots > 0 || staked == 0,
    ensures
        slots_updated(before, slots, id, staked, after) <==> slots_given(before, slots, id, staked, after),
{
    if slots_updated(before, slots, id, staked, after) {
        lemma_slots_are_given(before, slots, id, staked, after);
    }
    if slots_given(before, slots, id, staked, after) {
        lemma_given_slots(before, slots, id, staked, after);
    }
}

proof fn lemma_smallest_exists(stakes: Map<Seq<char>, Balance>) -> (id: Seq<char>)
    requires
        stakes.dom().finite(),
        stakes.len() > 0,
    ensures
        is_smallest(stakes, id),
        stakes[id] == smallest_stake(stakes),
    decreases stakes.len(),
{
    let one = stakes.dom().choose();
    assert(stakes.contains_key(one));
    let rest = stakes.remove(one);
    if rest.len() == 0 {
        assert forall|other: Seq<char>| #[trigger] stakes.contains_key(other) implies stakes[one] <= stakes[other] by {
            if other != one {
                assert(rest.dom().contains(other));
                assert(rest.dom().len() > 0);
            }
        }
        lemma_smallest_unique(stakes, one);
        one
    } else {
        let least = lemma_smallest_exists(rest);
        let id = if stakes[one] <= stakes[least] {
            one
        } else {
            least
        };
        assert(rest.contains_key(least));
        assert forall|other: Seq<char>| #[trigger] stakes.contains_key(other) implies stakes[id] <= stakes[other] by {
            if other != one {
                assert(rest.contains_key(other));
            }
        }
        lemma_smallest_unique(stakes, id);
        id
    }
}

proof fn lemma_slots_are_given(
    before: Map<Seq<char>, Balance>,
    slots: u32,
    id: Seq<char>,
    staked: Balance,
    after: Map<Seq<char>, Balance>,
)
    requires
        before.dom().finite(),
        before.len() <= slots,
        slots > 0 || staked == 0,
        slots_updated(before, slots, id, staked, after),
    ensures
        slots_given(before, slots, id, staked, after),
{
    lemma_slots_updated(before, slots, id, staked, after);
    if !before.contains_key(id) && staked > 0 && before.len() >= slots {
        let least = lemma_smallest_exists(before);
        assert(before.contains_key(least));
        if smallest_stake(before) < staked {
            let lost = choose|lost: Seq<char>| #[trigger] is_smallest(before, lost) && after == before.remove(lost).insert(id, staked);
            assert(before.contains_key(lost));
            lemma_smallest_unique(before, lost);
        }
    }
}

proof fn lemma_given_slots(
    before: Map<Seq<char>, Balance>,
    slots: u32,
    id: Seq<char>,
    staked: Balance,
    after: Map<Seq<char>, Balance>,
)
    requires
        before.dom().finite(),
        before.len() <= slots,
        slots > 0 || staked == 0,
        slots_given(before, slots, id, staked, after),
    ensures
        slots_updated(before, slots, id, staked, after),
{
    if before.contains_key(id) {
        if staked == 0 {
            assert(after =~= before.remove(id));
        } else {
            assert(after =~= before.insert(id, staked));
        }
    } else if staked == 0 {
        assert(after =~= before);
    } else if before.len() < slots {
        assert(after =~= before.insert(id, staked));
    } else {
        let least = lemma_smallest_exists(before);
        assert(before.contains_key(least));
        if smallest_stake(before) < staked {
            assert(after.contains_key(id));
            if forall|other: Seq<char>| #[trigger] before.contains_key(other) ==> after.contains_key(other) {
                assert(after.dom() =~= before.dom().insert(id));
                assert(after.len() == before.len() + 1);
            }
            let lost = choose|lost: Seq<char>| #[trigger] before.contains_key(lost) && !after.contains_key(lost);
            assert(is_smallest(before, lost));
            assert(after =~= before.remove(lost).insert(id, staked));
        } else {
            assert(!after.contains_key(id));
            assert(after =~= before);
        }
    }
}

proof fn lemma_slot_counts(stakes: Map<Seq<char>, Balance>, id: Seq<char>)
    requires
        stakes.dom().finite(),
        stakes.contains_key(id),
    ensures
        stakes.len() > 0,
{
    assert(stakes.dom().remove(id).len() + 1 == stakes.dom().len());
}

/// A stake is granted exactly if the amount is not zero, a ping is granted, the caller has that much
/// unstaked after it, the pool has a slot at all, and the staked balance and the total stake that follow
/// fit into their type. The stakes of the others decide who has a slot, and not whether one can stake.
pub proof fn law_stake_is_granted_if_it_fits(
    pre: PoolState,
    context: Context,
    amount: Balance,
    mid: PoolState,
    stakes: Map<Seq<char>, Balance>,
)
    requires
        pre.wf(),
        pinged(pre, context, mid),
        slots_given(
            mid.epochs.last().stakes,
            pre.max_number_of_slots,
            context.predecessor_account_id@,
            (mid.account(context.predecessor_account_id@).staked + amount) as u128,
            stakes,
        ),
    ensures
        ({
            let account = mid.account(context.predecessor_account_id@);
            let refusal = stake_refusal(pre, context, amount);
            let affordable = 0 < amount <= account.unstaked && refresh_fits(pre, context);
            &&& refusal is None <==> affordable && pre.max_number_of_slots > 0 && account.staked + amount <= u128::MAX
                && stake_sum(stakes) <= u128::MAX
            &&& refusal == Some(StakingError::StakeNotPositive) <==> amount == 0
            &&& refusal == Some(StakingError::NotEnoughUnstakedToStake) <==> amount > account.unstaked && refresh_fits(
                pre,
                context,
            )
            &&& refusal == Some(StakingError::NoSlots) <==> affordable && account.staked + amount <= u128::MAX
                && pre.max_number_of_slots == 0
            &&& refusal is None || refusal == Some(StakingError::StakeNotPositive) || refusal == Some(
                StakingError::NotEnoughUnstakedToStake,
            ) || refusal == Some(StakingError::NoSlots) || refusal == Some(StakingError::Overflow)
        }),
{
    let id = context.predecessor_account_id@;
    if refresh_fits(pre, context) {
        lemma_pinged(pre, context, mid);
        let now = mid.epochs.last().stakes;
        let staked = (mid.account(id).staked + amount) as u128;
        assert(mid.epochs[mid.epochs.len() - 1].stakes.dom().finite());
        if now.contains_key(id) {
            lemma_slot_counts(now, id);
        }
        if amount > 0 && mid.account(id).staked + amount <= u128::MAX && pre.max_number_of_slots > 0 {
            lemma_slots_given(now, pre.max_number_of_slots, id, staked, stakes);
            lemma_slots_updated(now, pre.max_number_of_slots, id, staked, stakes);
        }
    }
}

/// In a pool with at least one slot, whoever has the amount unstaked after a ping can stake it, as long
/// as the staked balance together with the total stake fits into its type, whatever the others stake.
pub proof fn law_whoever_has_the_amount_can_stake_it(pre: PoolState, context: Context, amount: Balance, mid: PoolState)
    requires
        pre.wf(),
        refresh_fits(pre, context),
        pinged(pre, context, mid),
        pre.max_number_of_slots > 0,
        0 < amount <= mid.account(context.predecessor_account_id@).unstaked,
        mid.total_stake + mid.account(context.predecessor_account_id@).staked + amount <= u128::MAX,
    ensures
        stake_refusal(pre, context, amount) is None,
{
    let id = context.predecessor_account_id@;
    lemma_pinged(pre, context, mid);
    let now = mid.current();
    assert(mid.epochs[mid.epochs.len() - 1].stakes.dom().finite());
    if now.contains_key(id) {
        lemma_stake_sum_remove(now, id);
    }
    assert(updated_total(now, pre.max_number_of_slots, id, (mid.account(id).staked + amount) as u128) <= mid.total_stake
        + mid.account(id).staked + amount);
}

/// A stake pings, and then moves the amount from what the caller has unstaked to what it has staked, and
/// gives the slots of the current epoch out accordingly. The total stake is the sum of the stakes that
/// follow. Everything else stays as the ping leaves it.
pub proof fn law_stake_follows_a_ping(
    pre: PoolState,
    context: Context,
    amount: Balance,
    post: PoolState,
) -> (mid: PoolState)
    requires
        pre.wf(),
        stake_refusal(pre, context, amount) is None,
        stake_done(pre, context, amount, post),
    ensures
        refresh_fits(pre, context),
        pinged(pre, context, mid),
        same_settings(mid, post),
        others_same(mid, post, context.predecessor_account_id@),
        post.epochs.len() == mid.epochs.len(),
        post.epochs.drop_last() == mid.epochs.drop_last(),
        post.epochs.last().epoch_height == mid.epochs.last().epoch_height,
        post.total_stake == stake_sum(post.epochs.last().stakes),
        ({
            let caller = context.predecessor_account_id@;
            &&& slots_given(
                mid.epochs.last().stakes,
                mid.max_number_of_slots,
                caller,
                post.account(caller).staked,
                post.epochs.last().stakes,
            )
            &&& post.account(caller).unstaked == mid.account(caller).unstaked - amount
            &&& post.account(caller).staked == mid.account(caller).staked + amount
            &&& post.account(caller).unstaked_available_epoch_height == mid.account(caller).unstaked_available_epoch_height
            &&& kept(
                post,
                caller,
                exists|i: int| 0 <= i < post.epochs.len() && (#[trigger] post.epochs[i]).stakes.contains_key(caller),
            )
        }),
{
    let id = context.predecessor_account_id@;
    let mid = choose|mid: PoolState| #[trigger]
        pinged(pre, context, mid) && restake_done(mid, id, after_stake(mid.account(id), amount), post);
    lemma_pinged(pre, context, mid);
    lemma_restaked(mid, id, after_stake(mid.account(id), amount), post);
    mid
}

proof fn lemma_restaked(mid: PoolState, id: Seq<char>, account: Account, post: PoolState)
    requires
        mid.wf(),
        restake_refusal(mid.current(), mid.max_number_of_slots, id, account.staked) is None,
        restake_done(mid, id, account, post),
        account.staked > 0 || account.unstaked > 0,
    ensures
        post.wf(),
        same_settings(mid, post),
        others_same(mid, post, id),
        post.epochs.len() == mid.epochs.len(),
        post.epochs.drop_last() == mid.epochs.drop_last(),
        post.epochs.last().epoch_height == mid.epochs.last().epoch_height,
        post.account(id) == account,
        slots_given(mid.epochs.last().stakes, mid.max_number_of_slots, id, account.staked, post.epochs.last().stakes),
        kept(post, id, exists|i: int| 0 <= i < post.epochs.len() && (#[trigger] post.epochs[i]).stakes.contains_key(id)),
{
    lemma_restake(mid, id, account, post);
    let now = mid.epochs.last().stakes;
    assert(mid.epochs[mid.epochs.len() - 1].stakes.dom().finite());
    if now.contains_key(id) {
        lemma_slot_counts(now, id);
    }
    lemma_slots_given(now, mid.max_number_of_slots, id, account.staked, post.epochs.last().stakes);
    assert(mid.active.remove(id) =~= post.active.remove(id));
    assert(mid.inactive.remove(id) =~= post.inactive.remove(id));
    assert(mid.archived.remove(id) =~= post.archived.remove(id));
}

/// An unstake is granted exactly if the amount is not zero, a ping is granted, the caller has that much
/// staked after it, the rewards that it credits included, and the balances, the epoch of the withdrawal
/// and the total stake that follow fit into their types.
pub proof fn law_unstake_is_granted_if_it_fits(
    pre: PoolState,
    context: Context,
    amount: Balance,
    mid: PoolState,
    stakes: Map<Seq<char>, Balance>,
)
    requires
        pre.wf(),
        pinged(pre, context, mid),
        slots_given(
            mid.epochs.last().stakes,
            pre.max_number_of_slots,
            context.predecessor_account_id@,
            (mid.account(context.predecessor_account_id@).staked - amount) as u128,
            stakes,
        ),
    ensures
        ({
            let account = mid.account(context.predecessor_account_id@);
            let refusal = unstake_refusal(pre, context, amount);
            let affordable = 0 < amount <= account.staked && refresh_fits(pre, context);
            let fits = account.unstaked + amount <= u128::MAX && context.epoch_height + 2 <= u64::MAX;
            &&& refusal is None <==> affordable && fits && (pre.max_number_of_slots > 0 || account.staked == amount)
                && stake_sum(stakes) <= u128::MAX
            &&& refusal == Some(StakingError::UnstakeNotPositive) <==> amount == 0
            &&& refusal == Some(StakingError::NotEnoughStaked) <==> amount > account.staked && refresh_fits(pre, context)
            &&& refusal == Some(StakingError::NoSlots) <==> affordable && fits && pre.max_number_of_slots == 0
                && account.staked > amount
            &&& refusal is None || refusal == Some(StakingError::UnstakeNotPositive) || refusal == Some(
                StakingError::NotEnoughStaked,
            ) || refusal == Some(StakingError::NoSlots) || refusal == Some(StakingError::Overflow)
        }),
{
    let id = context.predecessor_account_id@;
    if refresh_fits(pre, context) {
        lemma_pinged(pre, context, mid);
        let now = mid.epochs.last().stakes;
        let staked = (mid.account(id).staked - amount) as u128;
        assert(mid.epochs[mid.epochs.len() - 1].stakes.dom().finite());
        if now.contains_key(id) {
            lemma_slot_counts(now, id);
        }
        if amount > 0 && mid.account(id).staked >= amount && (pre.max_number_of_slots > 0 || staked == 0) {
            lemma_slots_given(now, pre.max_number_of_slots, id, staked, stakes);
            lemma_slots_updated(now, pre.max_number_of_slots, id, staked, stakes);
        }
    }
}

/// In a pool with at least one slot, whoever has the amount staked after a ping can unstake it, also if
/// the call begins the epoch and the amount includes the rewards of that epoch, as long as the amounts
/// fit into their types. For an account with a slot the total stake always fits.
pub proof fn law_whoever_has_the_amount_staked_can_unstake_it(
    pre: PoolState,
    context: Context,
    amount: Balance,
    mid: PoolState,
)
    requires
        pre.wf(),
        refresh_fits(pre, context),
        pinged(pre, context, mid),
        pre.max_number_of_slots > 0,
        0 < amount <= mid.account(context.predecessor_account_id@).staked,
        mid.account(context.predecessor_account_id@).unstaked + amount <= u128::MAX,
        context.epoch_height <= u64::MAX - 2,
        mid.epochs.last().stakes.contains_key(context.predecessor_account_id@) || mid.total_stake + mid.account(
            context.predecessor_account_id@,
        ).staked - amount <= u128::MAX,
    ensures
        unstake_refusal(pre, context, amount) is None,
{
    let id = context.predecessor_account_id@;
    lemma_pinged(pre, context, mid);
    let now = mid.current();
    assert(mid.epochs[mid.epochs.len() - 1].stakes.dom().finite());
    if now.contains_key(id) {
        lemma_stake_sum_remove(now, id);
        assert(mid.epochs[mid.epochs.len() - 1].stakes.contains_key(id));
    }
}

/// An unstake pings, and then moves the amount from what the caller has staked to what it has unstaked,
/// which can be withdrawn from the second epoch after that of the call on. It gives the slots of the
/// current epoch out accordingly. Everything else stays as the ping leaves it.
pub proof fn law_unstake_follows_a_ping(
    pre: PoolState,
    context: Context,
    amount: Balance,
    post: PoolState,
) -> (mid: PoolState)
    requires
        pre.wf(),
        unstake_refusal(pre, context, amount) is None,
        unstake_done(pre, context, amount, post),
    ensures
        refresh_fits(pre, context),
        pinged(pre, context, mid),
        same_settings(mid, post),
        others_same(mid, post, context.predecessor_account_id@),
        post.epochs.len() == mid.epochs.len(),
        post.epochs.drop_last() == mid.epochs.drop_last(),
        post.epochs.last().epoch_height == mid.epochs.last().epoch_height,
        post.total_stake == stake_sum(post.epochs.last().stakes),
        ({
            let caller = context.predecessor_account_id@;
            &&& slots_given(
                mid.epochs.last().stakes,
                mid.max_number_of_slots,
                caller,
                post.account(caller).staked,
                post.epochs.last().stakes,
            )
            &&& post.account(caller).unstaked == mid.account(caller).unstaked + amount
            &&& post.account(caller).staked == mid.account(caller).staked - amount
            &&& post.account(caller).unstaked_available_epoch_height == context.epoch_height + 2
            &&& kept(
                post,
                caller,
                exists|i: int| 0 <= i < post.epochs.len() && (#[trigger] post.epochs[i]).stakes.contains_key(caller),
            )
        }),
{
    let id = context.predecessor_account_id@;
    let mid = choose|mid: PoolState| #[trigger]
        pinged(pre, context, mid) && restake_done(mid, id, after_unstake(mid.account(id), amount, context.epoch_height), post);
    lemma_pinged(pre, context, mid);
    lemma_restaked(mid, id, after_unstake(mid.account(id), amount, context.epoch_height), post);
    mid
}

/// The state of a pool is what its fields and tables hold.
pub proof fn law_state_is_what_the_pool_holds(contract: StakingContract, id: Seq<char>, i: int)
    requires
        0 <= i < contract.epoch_infos@.len(),
    ensures
        contract@.owner_id == contract.owner_id@,
        contract@.max_number_of_slots == contract.max_number_of_slots,
        contract@.stake_public_key == contract.stake_public_key@,
        contract@.last_locked_account_balance == contract.last_locked_account_balance,
        contract@.last_account_balance == contract.last_account_balance,
        contract@.total_stake == contract.total_stake,
        contract@.epochs.len() == contract.epoch_infos@.len(),
        contract@.epochs[i].epoch_height == contract.epoch_infos@[i].epoch_height,
        contract@.epochs[i].stakes == contract.epoch_infos@[i].stakes@,
        contract@.active == contract.active_accounts@,
        contract@.inactive == contract.inactive_accounts@,
        contract@.archived.contains_key(id) <==> archive_entries(contract.archived_accounts).contains_key(id),
        contract@.archived.contains_key(id) ==> {
            &&& contract@.archived[id].unstaked == archive_entries(contract.archived_accounts)[id].0
            &&& contract@.archived[id].staked == archive_entries(contract.archived_accounts)[id].1
            &&& contract@.archived[id].unstaked_available_epoch_height == archive_entries(contract.archived_accounts)[id].2
        },
{
}

/// What contracts say of a promise is what its fields hold.
pub proof fn law_promise_is_what_it_holds(promise: Promise, i: int)
    requires
        0 <= i < promise.actions@.len(),
    ensures
        promise@.receiver_id == promise.receiver_id@,
        promise@.actions.len() == promise.actions@.len(),
        match promise.actions@[i] {
            PromiseAction::FunctionCall { method_name, arguments, amount, gas } => promise@.actions[i] == (
            ActionState::FunctionCall { method_name: method_name@, arguments: arguments@, amount, gas }),
            PromiseAction::Transfer { amount } => promise@.actions[i] == (ActionState::Transfer { amount }),
            PromiseAction::Stake { amount, public_key } => promise@.actions[i] == (ActionState::Stake {
                amount,
                public_key: public_key@,
            }),
        },
{
}

} // verus!
