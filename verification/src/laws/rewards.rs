//! What a new epoch credits, in terms of the balances and the stakes alone.

use super::{law_idle_accounts_leave, law_rewards_within_pots, lemma_no_matured_stake};
use crate::invariants::{lemma_matured_stake_le, lemma_pinged, lemma_refreshed_account, lemma_share_le};
use crate::model::{
    archived_one, archives_one, matured, matured_stake, matured_total, new_epoch, pinged, refresh_fits, refreshed,
    restaked, reward_fits, share, staked_pot, staked_reward, unstaked_pot, unstaked_reward, PoolState,
};
use crate::sums::{lemma_stake_sum_insert, lemma_sum_plus, stake_sum};
use crate::types::{Balance, Context, EpochHeight, EpochState};
use vstd::prelude::*;

verus! {

/// The sum of no stakes is zero, and one more stake adds to the sum what it is.
pub proof fn law_stakes_are_summed(stakes: Map<Seq<char>, Balance>, id: Seq<char>, stake: Balance)
    requires
        stakes.dom().finite(),
        !stakes.contains_key(id),
    ensures
        stake_sum(Map::empty()) == 0,
        stake_sum(stakes.insert(id, stake)) == stake_sum(stakes) + stake,
{
    lemma_stake_sum_insert(stakes, id, stake);
}

/// One more epoch adds the stakes of that epoch to what counts for the rewards if it began at least
/// three epochs before, and adds nothing otherwise. Without an epoch nothing counts.
pub proof fn law_every_matured_epoch_counts(
    epochs: Seq<EpochState>,
    epoch: EpochState,
    height: EpochHeight,
    id: Seq<char>,
)
    ensures
        matured_stake(Seq::empty(), height, id) == 0,
        matured_total(Seq::empty(), height) == 0,
        epoch.epoch_height + 3 <= height && epoch.stakes.contains_key(id) ==> matured_stake(epochs.push(epoch), height, id)
            == matured_stake(epochs, height, id) + epoch.stakes[id],
        epoch.epoch_height + 3 > height || !epoch.stakes.contains_key(id) ==> matured_stake(epochs.push(epoch), height, id)
            == matured_stake(epochs, height, id),
        epoch.epoch_height + 3 <= height ==> matured_total(epochs.push(epoch), height) == matured_total(epochs, height)
            + stake_sum(epoch.stakes),
        epoch.epoch_height + 3 > height ==> matured_total(epochs.push(epoch), height) == matured_total(epochs, height),
{
    assert(epochs.push(epoch).drop_last() =~= epochs);
}

proof fn lemma_share_is_rounded_down(pot: nat, part: nat, whole: nat)
    requires
        whole > 0,
    ensures
        share(pot, part, whole) * whole <= pot * part < (share(pot, part, whole) + 1) * whole,
{
    let q = share(pot, part, whole);
    let r = (pot * part) % whole;
    vstd::arithmetic::div_mod::lemma_fundamental_div_mod((pot * part) as int, whole as int);
    assert(q * whole <= pot * part < (q + 1) * whole) by (nonlinear_arith)
        requires
            pot * part == whole * q + r,
            0 <= r < whole,
    ;
}

/// The reward is the part of `gain` that the account's matured stake is of all matured stakes, rounded
/// down. Where nothing was gained, or no stake has matured, there is no reward.
pub open spec fn is_due(gain: int, s: PoolState, height: EpochHeight, id: Seq<char>, reward: int) -> bool {
    let part = matured_stake(s.epochs, height, id);
    let whole = matured_total(s.epochs, height);
    if gain <= 0 || whole == 0 {
        reward == 0
    } else {
        reward * whole <= gain * part < (reward + 1) * whole
    }
}

/// By how much the locked balance is above the one that was accounted for last, or below it.
pub open spec fn locked_change(s: PoolState, context: Context) -> int {
    context.account_locked_balance - s.last_locked_account_balance
}

/// By how much both balances of the pool's account together, without the attached deposit, are above
/// those that were accounted for last, or below them.
pub open spec fn total_change(s: PoolState, context: Context) -> int {
    context.account_locked_balance + context.account_balance - context.attached_deposit - s.last_locked_account_balance
        - s.last_account_balance
}

/// The staked rewards are shares of exactly what the locked balance has grown by, and the unstaked
/// rewards of exactly what all of the pool's balance has grown by beyond that. A locked balance that has
/// shrunk is no reward.
pub proof fn law_rewards_are_shares_of_the_gains(s: PoolState, context: Context, id: Seq<char>)
    ensures
        is_due(locked_change(s, context), s, context.epoch_height, id, staked_reward(s, context, id) as int),
        locked_change(s, context) >= 0 ==> is_due(
            total_change(s, context) - locked_change(s, context),
            s,
            context.epoch_height,
            id,
            unstaked_reward(s, context, id) as int,
        ),
        locked_change(s, context) < 0 ==> is_due(
            total_change(s, context),
            s,
            context.epoch_height,
            id,
            unstaked_reward(s, context, id) as int,
        ),
{
    let part = matured_stake(s.epochs, context.epoch_height, id);
    let whole = matured_total(s.epochs, context.epoch_height);
    if whole > 0 {
        lemma_share_is_rounded_down(staked_pot(s, context), part, whole);
        lemma_share_is_rounded_down(unstaked_pot(s, context), part, whole);
        lemma_share_of_no_pot(part, whole);
    }
}

proof fn lemma_share_of_no_pot(part: nat, whole: nat)
    requires
        whole > 0,
    ensures
        share(0, part, whole) == 0,
{
    assert(0 * part == 0);
    vstd::arithmetic::div_mod::lemma_div_basics_1(whole as int);
}

/// A ping in a new epoch credits to every account that is staked in some epoch exactly its share of what
/// was gained, and to no other account anything. A ping in the same epoch credits nothing.
pub proof fn law_ping_credits_what_is_due(pre: PoolState, context: Context, post: PoolState, id: Seq<char>)
    requires
        pre.wf(),
        refresh_fits(pre, context),
        pinged(pre, context, post),
    ensures
        ({
            let staked = post.account(id).staked - pre.account(id).staked;
            let unstaked = post.account(id).unstaked - pre.account(id).unstaked;
            let more = if locked_change(pre, context) > 0 {
                total_change(pre, context) - locked_change(pre, context)
            } else {
                total_change(pre, context)
            };
            &&& pre.epochs.last().epoch_height != context.epoch_height ==> {
                &&& is_due(locked_change(pre, context), pre, context.epoch_height, id, staked)
                &&& is_due(more, pre, context.epoch_height, id, unstaked)
            }
            &&& pre.epochs.last().epoch_height == context.epoch_height || !pre.active.contains_key(id) ==> post.account(id)
                == pre.account(id)
        }),
        post.account(id).unstaked_available_epoch_height == pre.account(id).unstaked_available_epoch_height,
{
    lemma_pinged(pre, context, post);
    lemma_refreshed_account(pre, context, id);
    law_rewards_are_shares_of_the_gains(pre, context, id);
    if !pre.active.contains_key(id) {
        assert forall|i: int| 0 <= i < pre.epochs.len() implies !(#[trigger] pre.epochs[i]).stakes.contains_key(id) by {
            if pre.epochs[i].stakes.contains_key(id) {
                assert(pre.active.contains_key(id));
            }
        }
        lemma_no_matured_stake(pre.epochs, context.epoch_height, id);
        let a = locked_change(pre, context);
        let b = total_change(pre, context);
        assert(a * 0 == 0 && b * 0 == 0 && (b - a) * 0 == 0) by (nonlinear_arith);
    }
}

/// If neither the locked balance nor all of the pool's balance has grown, a ping credits nothing to
/// anybody. If the locked balance has not grown, it adds nothing to any staked balance.
pub proof fn law_no_gain_no_reward(pre: PoolState, context: Context, post: PoolState, id: Seq<char>)
    requires
        pre.wf(),
        refresh_fits(pre, context),
        pinged(pre, context, post),
        context.account_locked_balance <= pre.last_locked_account_balance,
    ensures
        post.account(id).staked == pre.account(id).staked,
        post.total_stake == pre.total_stake,
        context.account_locked_balance + context.account_balance - context.attached_deposit
            <= pre.last_locked_account_balance + pre.last_account_balance ==> post.account(id) == pre.account(id),
{
    law_ping_credits_what_is_due(pre, context, post, id);
    lemma_pinged(pre, context, post);
    if new_epoch(pre, context) {
        assert forall|staker: Seq<char>| #[trigger] pre.current().contains_key(staker) implies restaked(pre, context)[staker]
            == pre.current()[staker] by {
            law_rewards_are_shares_of_the_gains(pre, context, staker);
        }
        assert(restaked(pre, context) =~= pre.current());
    }
}

/// The accounts that wait to be archived after a ping are those that waited before, but one, and those
/// that have left the active accounts. The one, if there was any, is archived as it was, and nothing
/// else in the archive changes.
pub open spec fn one_moves(pre: PoolState, post: PoolState) -> bool {
    ||| {
        &&& forall|id: Seq<char>| !pre.inactive.contains_key(id)
        &&& post.archived == pre.archived
        &&& forall|id: Seq<char>| #[trigger]
            post.inactive.contains_key(id) <==> pre.active.contains_key(id) && !post.active.contains_key(id)
    }
    ||| exists|moved: Seq<char>|
        {
            &&& #[trigger] pre.inactive.contains_key(moved)
            &&& post.archived == pre.archived.insert(moved, pre.inactive[moved])
            &&& forall|id: Seq<char>| #[trigger]
                post.inactive.contains_key(id) <==> (pre.inactive.contains_key(id) && id != moved) || (
                pre.active.contains_key(id) && !post.active.contains_key(id))
        }
}

proof fn lemma_one_moves(pre: PoolState, context: Context, post: PoolState)
    requires
        pre.wf(),
        refresh_fits(pre, context),
        pinged(pre, context, post),
    ensures
        one_moves(pre, post),
{
    let mid = choose|mid: PoolState| #[trigger] archives_one(pre, mid) && post == refreshed(mid, context);
    if pre.inactive.dom() == Set::<Seq<char>>::empty() {
        assert forall|id: Seq<char>| !pre.inactive.contains_key(id) by {
            assert(!pre.inactive.dom().contains(id));
        }
    } else {
        let moved = choose|id: Seq<char>| #[trigger] pre.inactive.contains_key(id) && mid == archived_one(pre, id);
        assert(pre.inactive.contains_key(moved));
    }
}

/// A ping in the epoch of the last call is always granted, and changes nothing but where one of the
/// accounts is kept that wait to be archived.
pub proof fn law_ping_within_an_epoch(pre: PoolState, context: Context, post: PoolState)
    requires
        pre.wf(),
        pre.epochs.last().epoch_height == context.epoch_height,
        pinged(pre, context, post),
    ensures
        refresh_fits(pre, context),
        post.owner_id == pre.owner_id,
        post.max_number_of_slots == pre.max_number_of_slots,
        post.stake_public_key == pre.stake_public_key,
        post.last_locked_account_balance == pre.last_locked_account_balance,
        post.last_account_balance == pre.last_account_balance,
        post.total_stake == pre.total_stake,
        post.epochs == pre.epochs,
        post.active == pre.active,
        one_moves(pre, post),
{
    lemma_pinged(pre, context, post);
    lemma_one_moves(pre, context, post);
}

/// A ping in a new epoch accounts for the balances of the pool's account. It drops the epochs that began
/// at least three epochs before, and begins one in which everybody has the slot and the stake of the
/// epoch before, with the staked reward added. The accounts that are then staked in no epoch leave the
/// active accounts.
pub proof fn law_ping_begins_an_epoch(pre: PoolState, context: Context, post: PoolState, id: Seq<char>)
    requires
        pre.wf(),
        refresh_fits(pre, context),
        pre.epochs.last().epoch_height != context.epoch_height,
        pinged(pre, context, post),
    ensures
        post.owner_id == pre.owner_id,
        post.max_number_of_slots == pre.max_number_of_slots,
        post.stake_public_key == pre.stake_public_key,
        post.last_locked_account_balance == context.account_locked_balance,
        post.last_account_balance == context.account_balance,
        post.total_stake == stake_sum(post.epochs.last().stakes),
        post.epochs.drop_last() == pre.epochs.filter(|epoch: EpochState| epoch.epoch_height + 3 > context.epoch_height),
        post.epochs.last().epoch_height == context.epoch_height,
        post.epochs.last().stakes.contains_key(id) <==> pre.epochs.last().stakes.contains_key(id),
        post.epochs.last().stakes.contains_key(id) ==> post.epochs.last().stakes[id] == pre.epochs.last().stakes[id] + (
        post.account(id).staked - pre.account(id).staked),
        post.active.contains_key(id) <==> exists|i: int|
            0 <= i < post.epochs.len() && (#[trigger] post.epochs[i]).stakes.contains_key(id),
        one_moves(pre, post),
{
    lemma_pinged(pre, context, post);
    lemma_one_moves(pre, context, post);
    lemma_refreshed_account(pre, context, id);
    let height = context.epoch_height;
    let young = |epoch: EpochState| epoch.epoch_height + 3 > height;
    let keep = |epoch: EpochState| !matured(epoch, height);
    assert(young =~= keep);
    assert(post.epochs.drop_last() =~= pre.epochs.filter(keep));
    assert(post.epochs.last().stakes =~= restaked(pre, context));
    if pre.epochs.last().stakes.contains_key(id) {
        assert(pre.epochs[pre.epochs.len() - 1].stakes.contains_key(id));
    }
    law_idle_accounts_leave(pre, context, post, id);
}

/// A ping is granted in the epoch of the last call, and in a new one exactly if every amount that it has
/// to compute fits into its type: both balances together, those that were accounted for last, the epoch
/// in which each epoch matures, the matured stakes, what every active account holds with its rewards,
/// and the total stake with the rewards.
pub proof fn law_ping_is_granted_if_amounts_fit(pre: PoolState, context: Context)
    requires
        pre.wf(),
    ensures
        pre.epochs.last().epoch_height == context.epoch_height ==> refresh_fits(pre, context),
        pre.epochs.last().epoch_height != context.epoch_height ==> (refresh_fits(pre, context) <==> {
            &&& context.account_locked_balance + context.account_balance <= u128::MAX
            &&& context.attached_deposit <= context.account_locked_balance + context.account_balance
            &&& pre.last_locked_account_balance + pre.last_account_balance <= u128::MAX
            &&& forall|i: int| 0 <= i < pre.epochs.len() ==> (#[trigger] pre.epochs[i]).epoch_height <= u64::MAX - 3
            &&& matured_total(pre.epochs, context.epoch_height) <= u128::MAX
            &&& forall|id: Seq<char>| #[trigger]
                pre.active.contains_key(id) ==> pre.active[id].staked + staked_reward(pre, context, id) <= u128::MAX
                    && pre.active[id].unstaked + unstaked_reward(pre, context, id) <= u128::MAX
            &&& forall|stakes: Map<Seq<char>, Balance>|
                #![trigger stake_sum(stakes)]
                stakes.dom() == pre.epochs.last().stakes.dom() && (forall|id: Seq<char>| #[trigger]
                    stakes.contains_key(id) ==> stakes[id] == pre.epochs.last().stakes[id] + staked_reward(pre, context, id))
                    ==> stake_sum(stakes) <= u128::MAX
        }),
{
    let next = restaked(pre, context);
    if new_epoch(pre, context) {
        assert(next.dom() =~= pre.epochs.last().stakes.dom());
        assert forall|stakes: Map<Seq<char>, Balance>|
            #![trigger stake_sum(stakes)]
            stakes.dom() == pre.epochs.last().stakes.dom() && (forall|id: Seq<char>| #[trigger]
                stakes.contains_key(id) ==> stakes[id] == pre.epochs.last().stakes[id] + staked_reward(pre, context, id)) implies stakes
            == next by {
            assert forall|id: Seq<char>| #[trigger] stakes.contains_key(id) implies stakes[id] == next[id] by {
                assert(stakes.dom().contains(id));
            }
            assert(stakes =~= next);
        }
        if forall|id: Seq<char>| #[trigger]
            pre.active.contains_key(id) ==> pre.active[id].staked + staked_reward(pre, context, id) <= u128::MAX
                && pre.active[id].unstaked + unstaked_reward(pre, context, id) <= u128::MAX {
            assert forall|id: Seq<char>| #[trigger] next.contains_key(id) implies next[id] == pre.epochs.last().stakes[id]
                + staked_reward(pre, context, id) by {
                assert(pre.current().contains_key(id));
                assert(pre.epochs[pre.epochs.len() - 1].stakes.contains_key(id));
                assert(pre.active.contains_key(id));
            }
            assert(stake_sum(next) == stake_sum(next));
        }
    }
}

/// If no balance can leave its type, a ping is granted: in a pool whose epochs are not at the end of
/// their type, it is enough that the balances of the pool's account, those accounted for last and the
/// matured stakes fit, and that every active account and the total stake would fit with all of the gains
/// added.
pub proof fn law_ping_is_granted_with_room(pre: PoolState, context: Context)
    requires
        pre.wf(),
        context.account_locked_balance + context.account_balance <= u128::MAX,
        context.attached_deposit <= context.account_balance,
        pre.last_locked_account_balance + pre.last_account_balance <= u128::MAX,
        forall|i: int| 0 <= i < pre.epochs.len() ==> (#[trigger] pre.epochs[i]).epoch_height <= u64::MAX - 3,
        matured_total(pre.epochs, context.epoch_height) <= u128::MAX,
        forall|id: Seq<char>| #[trigger]
            pre.active.contains_key(id) ==> pre.active[id].staked + context.account_locked_balance <= u128::MAX
                && pre.active[id].unstaked + context.account_locked_balance + context.account_balance <= u128::MAX,
        pre.total_stake + context.account_locked_balance <= u128::MAX,
    ensures
        refresh_fits(pre, context),
{
    if new_epoch(pre, context) {
        let height = context.epoch_height;
        let now = pre.epochs.last().stakes;
        let next = restaked(pre, context);
        assert(pre.epochs[pre.epochs.len() - 1].stakes.dom().finite());
        law_rewards_within_pots(pre, context, now.dom());
        assert forall|id: Seq<char>| #[trigger] pre.active.contains_key(id) implies reward_fits(pre, context, id) by {
            let part = matured_stake(pre.epochs, height, id);
            lemma_matured_stake_le(pre.epochs, height, id);
            lemma_share_le(staked_pot(pre, context), part, matured_total(pre.epochs, height));
            lemma_share_le(unstaked_pot(pre, context), part, matured_total(pre.epochs, height));
        }
        let before = |id: Seq<char>| now[id] as nat;
        let due = |id: Seq<char>| staked_reward(pre, context, id);
        let after = |id: Seq<char>| next[id] as nat;
        assert(next.dom() =~= now.dom());
        assert forall|id: Seq<char>| now.dom().contains(id) implies after(id) == before(id) + due(id) by {
            assert(pre.current().contains_key(id));
            assert(pre.epochs[pre.epochs.len() - 1].stakes.contains_key(id));
            assert(pre.active.contains_key(id));
        }
        lemma_sum_plus(now.dom(), before, due, after);
    }
}

} // verus!
