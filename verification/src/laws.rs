//! What holds of the pool over all accounts and over several calls.

use crate::invariants::{
    lemma_archived_one, lemma_filter_member, lemma_matured_stake_le, lemma_pinged, lemma_refreshed_account,
    lemma_refreshed_wf, lemma_restake, lemma_slots_updated, lemma_smallest_unique, lemma_with_account_wf,
};
use crate::model::{
    after_deposit, after_stake, after_unstake, after_withdrawal, archived_one, archives_one, balance_before_deposit,
    caller_account, deposit_done, deposit_refusal, growth, initial_state, is_smallest, matured, matured_stake,
    matured_total, new_epoch, next_epochs, pinged, refresh_fits, refreshed, restake_done, restake_refusal, restaked,
    share, slots_updated, smallest_stake, stake_done, stake_refusal, staked_in, staked_pot, staked_reward, stored,
    unstake_done, unstake_refusal, unstaked_pot, unstaked_reward, with_account, with_current, withdraw_done,
    withdraw_refusal, without, PoolState,
};
use crate::sums::{lemma_sum_le, lemma_sum_le_on_common, lemma_sum_plus, lemma_sum_same, stake_sum, sum_over};
use crate::types::{
    Account, Balance, Context, EpochHeight, EpochState, EPOCHS_TOWARDS_REWARD, EPOCHS_TOWARDS_WITHDRAWAL,
};
use vstd::prelude::*;

pub mod calls;
pub mod histories;
pub mod rewards;

verus! {

/// The two balances of an account together.
pub open spec fn holdings(account: Account) -> nat {
    (account.staked + account.unstaked) as nat
}

/// The accounts hold the same balances.
pub open spec fn same_balances(a: Account, b: Account) -> bool {
    a.staked == b.staked && a.unstaked == b.unstaked
}

/// A new pool is well-formed, and owes nothing to anybody.
pub proof fn law_new_pool_owes_nothing(
    owner_id: Seq<char>,
    stake_public_key: Seq<u8>,
    max_number_of_slots: u32,
    context: Context,
    id: Seq<char>,
)
    ensures
        initial_state(owner_id, stake_public_key, max_number_of_slots, context).wf(),
        initial_state(owner_id, stake_public_key, max_number_of_slots, context).account(id) == Account::initial(),
{
    let s = initial_state(owner_id, stake_public_key, max_number_of_slots, context);
    assert(stake_sum(s.current()) == 0);
}

/// Archiving an account changes nothing that the pool owes to anybody.
pub proof fn law_archiving_changes_no_account(pre: PoolState, post: PoolState, id: Seq<char>)
    requires
        pre.wf(),
        archives_one(pre, post),
    ensures
        post.account(id) == pre.account(id),
{
    if pre.inactive.dom() != Set::<Seq<char>>::empty() {
        let other = choose|other: Seq<char>| #[trigger] pre.inactive.contains_key(other) && post == archived_one(pre, other);
        lemma_archived_one(pre, other);
    }
}

/// An account that is put back right after it was taken out is what it was: its balances are the same,
/// and all of it is if it is active or holds anything. It is active if it was active. If it was not,
/// it is archived, or kept nowhere if it holds nothing. Nothing else changes, and no account is kept in
/// two places.
pub proof fn law_putting_back_restores(s: PoolState, id: Seq<char>, other: Seq<char>)
    requires
        s.disjoint(),
    ensures
        ({
            let post = stored(without(s, id), id, s.account(id), s.active.contains_key(id));
            &&& same_balances(post.account(id), s.account(id))
            &&& s.active.contains_key(id) || holdings(s.account(id)) > 0 ==> post.account(id) == s.account(id)
            &&& post.active.contains_key(id) == s.active.contains_key(id)
            &&& post.archived.contains_key(id) == (!s.active.contains_key(id) && holdings(s.account(id)) > 0)
            &&& !post.inactive.contains_key(id)
            &&& other != id ==> post.account(other) == s.account(other)
            &&& without(post, id) == without(s, id)
            &&& post.disjoint()
        }),
{
    let post = stored(without(s, id), id, s.account(id), s.active.contains_key(id));
    assert(without(post, id) =~= without(s, id));
}

/// A ping adds to an active account its rewards if a new epoch has begun, and changes no other
/// account. It lowers no balance, and moves no date on which a balance becomes available.
pub proof fn law_ping_adds_rewards(pre: PoolState, context: Context, post: PoolState, id: Seq<char>)
    requires
        pre.wf(),
        refresh_fits(pre, context),
        pinged(pre, context, post),
    ensures
        !new_epoch(pre, context) || !pre.active.contains_key(id) ==> post.account(id) == pre.account(id),
        new_epoch(pre, context) && pre.active.contains_key(id) ==> {
            &&& post.account(id).staked == pre.account(id).staked + staked_reward(pre, context, id)
            &&& post.account(id).unstaked == pre.account(id).unstaked + unstaked_reward(pre, context, id)
        },
        post.account(id).staked >= pre.account(id).staked,
        post.account(id).unstaked >= pre.account(id).unstaked,
        post.account(id).unstaked_available_epoch_height == pre.account(id).unstaked_available_epoch_height,
{
    lemma_pinged(pre, context, post);
    lemma_refreshed_account(pre, context, id);
}

/// A second ping in the same epoch changes nothing but where a waiting account is kept.
pub proof fn law_second_ping_changes_nothing(
    pre: PoolState,
    first: Context,
    mid: PoolState,
    second: Context,
    post: PoolState,
    id: Seq<char>,
)
    requires
        pre.wf(),
        refresh_fits(pre, first),
        pinged(pre, first, mid),
        second.epoch_height == first.epoch_height,
        pinged(mid, second, post),
    ensures
        refresh_fits(mid, second),
        post.account(id) == mid.account(id),
        post.active == mid.active,
        post.epochs == mid.epochs,
        post.total_stake == mid.total_stake,
        post.last_account_balance == mid.last_account_balance,
        post.last_locked_account_balance == mid.last_locked_account_balance,
{
    lemma_pinged(pre, first, mid);
    assert(!new_epoch(mid, second));
    lemma_pinged(mid, second, post);
}

/// A ping in a new epoch drops the epochs that it rewards, so that none is rewarded twice, and keeps
/// the others as they are, ahead of the new one.
pub proof fn law_matured_epochs_are_dropped(pre: PoolState, context: Context, post: PoolState, i: int)
    requires
        pre.wf(),
        refresh_fits(pre, context),
        new_epoch(pre, context),
        pinged(pre, context, post),
        0 <= i < post.epochs.len(),
    ensures
        !matured(post.epochs[i], context.epoch_height),
        post.epochs.drop_last() == pre.epochs.filter(|epoch: EpochState| !matured(epoch, context.epoch_height)),
        post.epochs.last().epoch_height == context.epoch_height,
{
    lemma_pinged(pre, context, post);
    let keep = |epoch: EpochState| !matured(epoch, context.epoch_height);
    let kept = pre.epochs.filter(keep);
    assert(post.epochs == kept.push(EpochState { epoch_height: context.epoch_height, stakes: restaked(pre, context) }));
    assert(post.epochs.drop_last() =~= kept);
    if i < kept.len() {
        pre.epochs.lemma_filter_pred(keep, i);
        assert(post.epochs[i] == kept[i]);
    }
}

/// The epochs are in the order in which they came.
pub open spec fn in_order(epochs: Seq<EpochState>) -> bool {
    forall|i: int, j: int| 0 <= i < j < epochs.len() ==> (#[trigger] epochs[i]).epoch_height < (#[trigger] epochs[j]).epoch_height
}

proof fn lemma_filter_in_order(epochs: Seq<EpochState>, keep: spec_fn(EpochState) -> bool)
    requires
        in_order(epochs),
    ensures
        in_order(epochs.filter(keep)),
    decreases epochs.len(),
{
    reveal(Seq::filter);
    if epochs.len() > 0 {
        let fewer = epochs.drop_last();
        assert(in_order(fewer)) by {
            assert forall|i: int, j: int| 0 <= i < j < fewer.len() implies (#[trigger] fewer[i]).epoch_height
                < (#[trigger] fewer[j]).epoch_height by {
                assert(epochs[i].epoch_height < epochs[j].epoch_height);
            }
        }
        lemma_filter_in_order(fewer, keep);
        let kept = fewer.filter(keep);
        let all = epochs.filter(keep);
        assert forall|i: int, j: int| 0 <= i < j < all.len() implies (#[trigger] all[i]).epoch_height
            < (#[trigger] all[j]).epoch_height by {
            assert(all[i] == kept[i]);
            if j < kept.len() {
                assert(all[j] == kept[j]);
            } else {
                lemma_filter_member(fewer, keep, i);
                let k = choose|k: int| 0 <= k < fewer.len() && fewer.filter(keep)[i] == fewer[k];
                assert(epochs[k] == fewer[k]);
                assert(epochs[k].epoch_height < epochs[epochs.len() - 1].epoch_height);
            }
        }
    }
}

/// As long as the epochs of the calls do not go back, the pool counts the epochs in their order, and
/// a new one leaves at most [`EPOCHS_TOWARDS_REWARD`] of them to be counted.
pub proof fn law_few_epochs_are_counted(pre: PoolState, context: Context, post: PoolState)
    requires
        pre.wf(),
        refresh_fits(pre, context),
        pinged(pre, context, post),
        in_order(pre.epochs),
        pre.epochs.last().epoch_height <= context.epoch_height,
    ensures
        in_order(post.epochs),
        new_epoch(pre, context) ==> post.epochs.len() <= EPOCHS_TOWARDS_REWARD,
{
    lemma_pinged(pre, context, post);
    if new_epoch(pre, context) {
        let height = context.epoch_height;
        let keep = |epoch: EpochState| !matured(epoch, height);
        let kept = pre.epochs.filter(keep);
        assert(post.epochs == kept.push(EpochState { epoch_height: height, stakes: restaked(pre, context) }));
        lemma_filter_in_order(pre.epochs, keep);
        assert forall|i: int| 0 <= i < kept.len() implies height - EPOCHS_TOWARDS_REWARD < (#[trigger] kept[i]).epoch_height
            < height by {
            pre.epochs.lemma_filter_pred(keep, i);
            lemma_filter_member(pre.epochs, keep, i);
            let k = choose|k: int| 0 <= k < pre.epochs.len() && kept[i] == pre.epochs[k];
            if k < pre.epochs.len() - 1 {
                assert(pre.epochs[k].epoch_height < pre.epochs[pre.epochs.len() - 1].epoch_height);
            }
        }
        assert forall|i: int, j: int| 0 <= i < j < post.epochs.len() implies (#[trigger] post.epochs[i]).epoch_height
            < (#[trigger] post.epochs[j]).epoch_height by {
            assert(post.epochs[i] == kept[i]);
            if j < kept.len() {
                assert(post.epochs[j] == kept[j]);
            }
        }
        if kept.len() >= EPOCHS_TOWARDS_REWARD {
            assert(kept[0].epoch_height < kept[1].epoch_height);
            assert(kept[1].epoch_height < kept[2].epoch_height);
        }
    }
}

/// A ping in a new epoch leaves with the active accounts only those that are staked in some epoch.
pub proof fn law_idle_accounts_leave(pre: PoolState, context: Context, post: PoolState, id: Seq<char>)
    requires
        pre.wf(),
        refresh_fits(pre, context),
        new_epoch(pre, context),
        pinged(pre, context, post),
    ensures
        post.active.contains_key(id) <==> staked_in(post.epochs, id),
{
    lemma_pinged(pre, context, post);
    if staked_in(post.epochs, id) {
        let i = choose|i: int| 0 <= i < post.epochs.len() && (#[trigger] post.epochs[i]).stakes.contains_key(id);
        assert(post.epochs[i].stakes.contains_key(id));
    }
}

proof fn lemma_no_matured_stake(epochs: Seq<EpochState>, height: EpochHeight, id: Seq<char>)
    requires
        forall|i: int|
            0 <= i < epochs.len() && matured(#[trigger] epochs[i], height) ==> !epochs[i].stakes.contains_key(id),
    ensures
        matured_stake(epochs, height, id) == 0,
    decreases epochs.len(),
{
    if epochs.len() > 0 {
        let fewer = epochs.drop_last();
        assert forall|i: int|
            0 <= i < fewer.len() && matured(#[trigger] fewer[i], height) implies !fewer[i].stakes.contains_key(id) by {
            assert(fewer[i] == epochs[i]);
        }
        lemma_no_matured_stake(fewer, height, id);
        assert(epochs.last() == epochs[epochs.len() - 1]);
    }
}

/// A stake is not rewarded before it was at work for [`EPOCHS_TOWARDS_REWARD`] epochs: an account
/// without a stake in a matured epoch gets nothing.
pub proof fn law_no_reward_before_maturity(s: PoolState, context: Context, id: Seq<char>)
    requires
        forall|i: int|
            0 <= i < s.epochs.len() && matured(#[trigger] s.epochs[i], context.epoch_height)
                ==> !s.epochs[i].stakes.contains_key(id),
    ensures
        staked_reward(s, context, id) == 0,
        unstaked_reward(s, context, id) == 0,
{
    lemma_no_matured_stake(s.epochs, context.epoch_height, id);
    lemma_share_of_nothing(staked_pot(s, context), matured_total(s.epochs, context.epoch_height));
    lemma_share_of_nothing(unstaked_pot(s, context), matured_total(s.epochs, context.epoch_height));
}

proof fn lemma_share_of_nothing(pot: nat, whole: nat)
    ensures
        share(pot, 0, whole) == 0,
{
    if whole > 0 {
        assert(pot * 0 == 0);
        vstd::arithmetic::div_mod::lemma_div_basics_1(whole as int);
    }
}

/// Who has more matured stake gets no smaller a reward, and who has all of it gets all of the reward.
pub proof fn law_rewards_follow_stakes(s: PoolState, context: Context, id: Seq<char>, other: Seq<char>)
    ensures
        matured_stake(s.epochs, context.epoch_height, id) <= matured_stake(s.epochs, context.epoch_height, other) ==> {
            &&& staked_reward(s, context, id) <= staked_reward(s, context, other)
            &&& unstaked_reward(s, context, id) <= unstaked_reward(s, context, other)
        },
        matured_stake(s.epochs, context.epoch_height, id) == matured_total(s.epochs, context.epoch_height) && matured_total(
            s.epochs,
            context.epoch_height,
        ) > 0 ==> {
            &&& staked_reward(s, context, id) == staked_pot(s, context)
            &&& unstaked_reward(s, context, id) == unstaked_pot(s, context)
        },
{
    let whole = matured_total(s.epochs, context.epoch_height);
    let a = matured_stake(s.epochs, context.epoch_height, id);
    let b = matured_stake(s.epochs, context.epoch_height, other);
    if whole > 0 {
        if a <= b {
            lemma_share_ordered(staked_pot(s, context), a, b, whole);
            lemma_share_ordered(unstaked_pot(s, context), a, b, whole);
        }
        if a == whole {
            vstd::arithmetic::div_mod::lemma_div_by_multiple(staked_pot(s, context) as int, whole as int);
            vstd::arithmetic::div_mod::lemma_div_by_multiple(unstaked_pot(s, context) as int, whole as int);
        }
    }
}

proof fn lemma_share_ordered(pot: nat, a: nat, b: nat, whole: nat)
    requires
        a <= b,
        whole > 0,
    ensures
        share(pot, a, whole) <= share(pot, b, whole),
{
    assert(pot * a <= pot * b) by (nonlinear_arith)
        requires
            a <= b,
    ;
    vstd::arithmetic::div_mod::lemma_div_is_ordered((pot * a) as int, (pot * b) as int, whole as int);
}

proof fn lemma_matured_sum(epochs: Seq<EpochState>, height: EpochHeight, ids: Set<Seq<char>>)
    requires
        ids.finite(),
        forall|i: int| 0 <= i < epochs.len() ==> (#[trigger] epochs[i]).stakes.dom().finite(),
    ensures
        sum_over(ids, |id: Seq<char>| matured_stake(epochs, height, id)) <= matured_total(epochs, height),
    decreases epochs.len(),
{
    let all = |id: Seq<char>| matured_stake(epochs, height, id);
    if epochs.len() == 0 {
        lemma_sum_le_on_common(ids, all, Set::empty(), all);
    } else {
        let fewer = epochs.drop_last();
        let epoch = epochs.last();
        assert forall|i: int| 0 <= i < fewer.len() implies (#[trigger] fewer[i]).stakes.dom().finite() by {
            assert(fewer[i] == epochs[i]);
        }
        lemma_matured_sum(fewer, height, ids);
        assert(epochs[epochs.len() - 1].stakes.dom().finite());
        let before = |id: Seq<char>| matured_stake(fewer, height, id);
        let here = |id: Seq<char>|
            if matured(epoch, height) && epoch.stakes.contains_key(id) {
                epoch.stakes[id] as nat
            } else {
                0
            };
        lemma_sum_plus(ids, before, here, all);
        if matured(epoch, height) {
            lemma_sum_le_on_common(ids, here, epoch.stakes.dom(), |id: Seq<char>| epoch.stakes[id] as nat);
        } else {
            lemma_sum_le_on_common(ids, here, Set::empty(), here);
        }
    }
}

proof fn lemma_shares_within_pot(ids: Set<Seq<char>>, pot: nat, part: spec_fn(Seq<char>) -> nat, whole: nat)
    requires
        ids.finite(),
        whole > 0,
    ensures
        sum_over(ids, |id: Seq<char>| share(pot, part(id), whole)) * whole <= pot * sum_over(ids, part),
    decreases ids.len(),
{
    let due = |id: Seq<char>| share(pot, part(id), whole);
    if ids.len() > 0 {
        let id = ids.choose();
        let rest = ids.remove(id);
        lemma_shares_within_pot(rest, pot, part, whole);
        let q = due(id);
        vstd::arithmetic::div_mod::lemma_fundamental_div_mod((pot * part(id)) as int, whole as int);
        let p = part(id);
        let rest_due = sum_over(rest, due);
        let rest_part = sum_over(rest, part);
        assert((q + rest_due) * whole <= pot * (p + rest_part)) by (nonlinear_arith)
            requires
                whole * q <= pot * p,
                rest_due * whole <= pot * rest_part,
        ;
    } else {
        let none = sum_over(ids, due);
        let nothing = sum_over(ids, part);
        assert(none * whole <= pot * nothing) by (nonlinear_arith)
            requires
                none == 0,
                nothing == 0,
        ;
    }
}

/// The shares of any accounts in a reward are together no more than the reward.
pub proof fn law_rewards_within_pots(s: PoolState, context: Context, ids: Set<Seq<char>>)
    requires
        s.wf(),
        ids.finite(),
    ensures
        sum_over(ids, |id: Seq<char>| staked_reward(s, context, id)) <= staked_pot(s, context),
        sum_over(ids, |id: Seq<char>| unstaked_reward(s, context, id)) <= unstaked_pot(s, context),
{
    lemma_pot_shared(s, context, ids, staked_pot(s, context));
    lemma_pot_shared(s, context, ids, unstaked_pot(s, context));
    let part = |id: Seq<char>| matured_stake(s.epochs, context.epoch_height, id);
    let whole = matured_total(s.epochs, context.epoch_height);
    lemma_sum_le(
        ids,
        |id: Seq<char>| staked_reward(s, context, id),
        ids,
        |id: Seq<char>| share(staked_pot(s, context), part(id), whole),
    );
    lemma_sum_le(
        ids,
        |id: Seq<char>| unstaked_reward(s, context, id),
        ids,
        |id: Seq<char>| share(unstaked_pot(s, context), part(id), whole),
    );
}

proof fn lemma_pot_shared(s: PoolState, context: Context, ids: Set<Seq<char>>, pot: nat)
    requires
        s.wf(),
        ids.finite(),
    ensures
        sum_over(
            ids,
            |id: Seq<char>|
                share(
                    pot,
                    (|id: Seq<char>| matured_stake(s.epochs, context.epoch_height, id))(id),
                    matured_total(s.epochs, context.epoch_height),
                ),
        ) <= pot,
{
    let part = |id: Seq<char>| matured_stake(s.epochs, context.epoch_height, id);
    let whole = matured_total(s.epochs, context.epoch_height);
    let due = |id: Seq<char>| share(pot, part(id), whole);
    if whole == 0 {
        lemma_sum_le_on_common(ids, due, Set::empty(), due);
    } else {
        lemma_matured_sum(s.epochs, context.epoch_height, ids);
        lemma_shares_within_pot(ids, pot, part, whole);
        let sum = sum_over(ids, due);
        let parts = sum_over(ids, part);
        assert(sum <= pot) by (nonlinear_arith)
            requires
                sum * whole <= pot * parts,
                parts <= whole,
                whole > 0,
        ;
    }
}

/// The accounts that are staked in a matured epoch.
pub open spec fn matured_stakers(epochs: Seq<EpochState>, height: EpochHeight) -> Set<Seq<char>> {
    Set::new(|id: Seq<char>| matured_stake(epochs, height, id) > 0)
}

proof fn lemma_matured_stakers_finite(epochs: Seq<EpochState>, height: EpochHeight)
    requires
        forall|i: int| 0 <= i < epochs.len() ==> (#[trigger] epochs[i]).stakes.dom().finite(),
    ensures
        matured_stakers(epochs, height).finite(),
    decreases epochs.len(),
{
    let stakers = matured_stakers(epochs, height);
    if epochs.len() == 0 {
        assert(stakers =~= Set::empty());
    } else {
        let fewer = epochs.drop_last();
        assert forall|i: int| 0 <= i < fewer.len() implies (#[trigger] fewer[i]).stakes.dom().finite() by {
            assert(fewer[i] == epochs[i]);
        }
        lemma_matured_stakers_finite(fewer, height);
        assert(epochs[epochs.len() - 1].stakes.dom().finite());
        let all = matured_stakers(fewer, height).union(epochs.last().stakes.dom());
        assert(stakers.subset_of(all));
        vstd::set_lib::lemma_len_subset(stakers, all);
    }
}

proof fn lemma_matured_sum_reaches_total(epochs: Seq<EpochState>, height: EpochHeight, ids: Set<Seq<char>>)
    requires
        ids.finite(),
        forall|i: int| 0 <= i < epochs.len() ==> (#[trigger] epochs[i]).stakes.dom().finite(),
        forall|id: Seq<char>| #[trigger] matured_stake(epochs, height, id) > 0 ==> ids.contains(id),
    ensures
        matured_total(epochs, height) <= sum_over(ids, |id: Seq<char>| matured_stake(epochs, height, id)),
    decreases epochs.len(),
{
    if epochs.len() > 0 {
        let all = |id: Seq<char>| matured_stake(epochs, height, id);
        let fewer = epochs.drop_last();
        let epoch = epochs.last();
        assert forall|i: int| 0 <= i < fewer.len() implies (#[trigger] fewer[i]).stakes.dom().finite() by {
            assert(fewer[i] == epochs[i]);
        }
        assert forall|id: Seq<char>| #[trigger] matured_stake(fewer, height, id) > 0 implies ids.contains(id) by {
            assert(matured_stake(epochs, height, id) > 0);
        }
        lemma_matured_sum_reaches_total(fewer, height, ids);
        assert(epochs[epochs.len() - 1].stakes.dom().finite());
        let before = |id: Seq<char>| matured_stake(fewer, height, id);
        let here = |id: Seq<char>|
            if matured(epoch, height) && epoch.stakes.contains_key(id) {
                epoch.stakes[id] as nat
            } else {
                0
            };
        lemma_sum_plus(ids, before, here, all);
        if matured(epoch, height) {
            let stakes = |id: Seq<char>| epoch.stakes[id] as nat;
            assert forall|id: Seq<char>| #[trigger] epoch.stakes.dom().contains(id) implies if ids.contains(id) {
                stakes(id) <= here(id)
            } else {
                stakes(id) == 0
            } by {
                assert(matured_stake(epochs, height, id) >= stakes(id));
            }
            lemma_sum_le_on_common(epoch.stakes.dom(), stakes, ids, here);
        }
    }
}

proof fn lemma_shares_reach_pot(ids: Set<Seq<char>>, pot: nat, part: spec_fn(Seq<char>) -> nat, whole: nat)
    requires
        ids.finite(),
        whole > 0,
    ensures
        pot * sum_over(ids, part) <= sum_over(ids, |id: Seq<char>| share(pot, part(id), whole)) * whole + ids.len() * (whole - 1),
    decreases ids.len(),
{
    let due = |id: Seq<char>| share(pot, part(id), whole);
    let n = ids.len();
    if n > 0 {
        let id = ids.choose();
        let rest = ids.remove(id);
        lemma_shares_reach_pot(rest, pot, part, whole);
        let q = due(id);
        let p = part(id);
        vstd::arithmetic::div_mod::lemma_fundamental_div_mod((pot * p) as int, whole as int);
        let rest_due = sum_over(rest, due);
        let rest_part = sum_over(rest, part);
        assert(pot * (p + rest_part) <= (q + rest_due) * whole + n * (whole - 1)) by (nonlinear_arith)
            requires
                pot * p <= whole * q + whole - 1,
                pot * rest_part <= rest_due * whole + (n - 1) * (whole - 1),
        ;
    } else {
        let none = sum_over(ids, due);
        let nothing = sum_over(ids, part);
        assert(pot * nothing <= none * whole + n * (whole - 1)) by (nonlinear_arith)
            requires
                n == 0,
                none == 0,
                nothing == 0,
        ;
    }
}

proof fn lemma_pot_used_up(s: PoolState, context: Context, pot: nat)
    requires
        s.wf(),
        matured_stakers(s.epochs, context.epoch_height).finite(),
        matured_stakers(s.epochs, context.epoch_height).len() > 0,
    ensures
        pot < sum_over(
            matured_stakers(s.epochs, context.epoch_height),
            |id: Seq<char>|
                share(
                    pot,
                    (|id: Seq<char>| matured_stake(s.epochs, context.epoch_height, id))(id),
                    matured_total(s.epochs, context.epoch_height),
                ),
        ) + matured_stakers(s.epochs, context.epoch_height).len(),
{
    let ids = matured_stakers(s.epochs, context.epoch_height);
    let part = |id: Seq<char>| matured_stake(s.epochs, context.epoch_height, id);
    let whole = matured_total(s.epochs, context.epoch_height);
    let due = |id: Seq<char>| share(pot, part(id), whole);
    let staker = ids.choose();
    assert(ids.contains(staker));
    lemma_matured_stake_le(s.epochs, context.epoch_height, staker);
    lemma_matured_sum_reaches_total(s.epochs, context.epoch_height, ids);
    lemma_shares_reach_pot(ids, pot, part, whole);
    let sum = sum_over(ids, due);
    let parts = sum_over(ids, part);
    let n = ids.len();
    assert(pot < sum + n) by (nonlinear_arith)
        requires
            pot * parts <= sum * whole + n * (whole - 1),
            parts >= whole,
            whole > 0,
            n > 0,
    ;
}

/// Of a reward the pool keeps no more than what rounding leaves: if any account is staked in a matured
/// epoch, what is left of the reward is less than the number of such accounts.
pub proof fn law_only_rounding_is_kept(s: PoolState, context: Context)
    requires
        s.wf(),
    ensures
        matured_stakers(s.epochs, context.epoch_height).finite(),
        matured_stakers(s.epochs, context.epoch_height).len() > 0 ==> {
            let ids = matured_stakers(s.epochs, context.epoch_height);
            &&& staked_pot(s, context) - sum_over(ids, |id: Seq<char>| staked_reward(s, context, id)) < ids.len()
            &&& unstaked_pot(s, context) - sum_over(ids, |id: Seq<char>| unstaked_reward(s, context, id)) < ids.len()
        },
{
    let ids = matured_stakers(s.epochs, context.epoch_height);
    let part = |id: Seq<char>| matured_stake(s.epochs, context.epoch_height, id);
    let whole = matured_total(s.epochs, context.epoch_height);
    lemma_matured_stakers_finite(s.epochs, context.epoch_height);
    if ids.len() > 0 {
        lemma_pot_used_up(s, context, staked_pot(s, context));
        lemma_pot_used_up(s, context, unstaked_pot(s, context));
        lemma_sum_same(
            ids,
            |id: Seq<char>| staked_reward(s, context, id),
            |id: Seq<char>| share(staked_pot(s, context), part(id), whole),
        );
        lemma_sum_same(
            ids,
            |id: Seq<char>| unstaked_reward(s, context, id),
            |id: Seq<char>| share(unstaked_pot(s, context), part(id), whole),
        );
    }
}

/// The deposit that is attached to a call is no part of the rewards that the call distributes: they
/// are the same whatever is attached. If the call begins an epoch, the deposit is no part of the
/// rewards of a later epoch either, as long as it stays with the pool.
pub proof fn law_deposit_is_no_reward(
    s: PoolState,
    first: Context,
    first_paid: Context,
    second: Context,
    second_paid: Context,
    id: Seq<char>,
)
    requires
        first_paid.epoch_height == first.epoch_height,
        first_paid.account_locked_balance == first.account_locked_balance,
        first_paid.account_balance - first.account_balance == first_paid.attached_deposit - first.attached_deposit,
        second_paid.epoch_height == second.epoch_height,
        second_paid.account_locked_balance == second.account_locked_balance,
        second_paid.attached_deposit == second.attached_deposit,
        second_paid.account_balance - second.account_balance == first_paid.attached_deposit - first.attached_deposit,
    ensures
        staked_reward(s, first_paid, id) == staked_reward(s, first, id),
        unstaked_reward(s, first_paid, id) == unstaked_reward(s, first, id),
        refreshed(s, first_paid).account(id) == refreshed(s, first).account(id),
        refreshed(s, first_paid).epochs == refreshed(s, first).epochs,
        new_epoch(s, first) ==> {
            &&& staked_reward(refreshed(s, first_paid), second_paid, id) == staked_reward(refreshed(s, first), second, id)
            &&& unstaked_reward(refreshed(s, first_paid), second_paid, id) == unstaked_reward(refreshed(s, first), second, id)
        },
{
    assert(unstaked_pot(s, first_paid) == unstaked_pot(s, first));
    assert(restaked(s, first_paid) =~= restaked(s, first));
    assert(next_epochs(s, first_paid) == next_epochs(s, first));
}

/// What a ping credits to any accounts together is no more than what the pool's account has gained.
pub proof fn law_ping_credits_no_more_than_gained(pre: PoolState, context: Context, post: PoolState, ids: Set<Seq<char>>)
    requires
        pre.wf(),
        refresh_fits(pre, context),
        pinged(pre, context, post),
        ids.finite(),
    ensures
        sum_over(ids, |id: Seq<char>| holdings(post.account(id))) <= sum_over(ids, |id: Seq<char>| holdings(pre.account(id)))
            + staked_pot(pre, context) + unstaked_pot(pre, context),
        staked_pot(pre, context) <= growth(
            balance_before_deposit(context),
            pre.last_account_balance + pre.last_locked_account_balance,
        ) ==> staked_pot(pre, context) + unstaked_pot(pre, context) == growth(
            balance_before_deposit(context),
            pre.last_account_balance + pre.last_locked_account_balance,
        ),
{
    let before = |id: Seq<char>| holdings(pre.account(id));
    let after = |id: Seq<char>| holdings(post.account(id));
    let staked_due = |id: Seq<char>| staked_reward(pre, context, id);
    let unstaked_due = |id: Seq<char>| unstaked_reward(pre, context, id);
    let due = |id: Seq<char>| staked_due(id) + unstaked_due(id);
    let bound = |id: Seq<char>| before(id) + due(id);
    assert forall|id: Seq<char>| ids.contains(id) implies after(id) <= bound(id) by {
        law_ping_adds_rewards(pre, context, post, id);
    }
    lemma_sum_le(ids, after, ids, bound);
    lemma_sum_plus(ids, before, due, bound);
    lemma_sum_plus(ids, staked_due, unstaked_due, due);
    law_rewards_within_pots(pre, context, ids);
}

proof fn lemma_deposit_done(pre: PoolState, context: Context, post: PoolState)
    requires
        pre.wf(),
        deposit_refusal(pre, context) is None,
        deposit_done(pre, context, post),
    ensures
        post.wf(),
        post.epochs == refreshed(pre, context).epochs,
        post.epochs.last().epoch_height == context.epoch_height,
        forall|id: Seq<char>| id != context.predecessor_account_id@ ==> post.account(id) == refreshed(pre, context).account(id),
        same_balances(
            post.account(context.predecessor_account_id@),
            after_deposit(caller_account(pre, context), context.attached_deposit),
        ),
        context.attached_deposit > 0 ==> post.account(context.predecessor_account_id@) == after_deposit(
            caller_account(pre, context),
            context.attached_deposit,
        ),
{
    let id = context.predecessor_account_id@;
    let mid = choose|mid: PoolState| #[trigger]
        pinged(pre, context, mid) && post == with_account(mid, id, after_deposit(mid.account(id), context.attached_deposit));
    lemma_pinged(pre, context, mid);
    lemma_with_account_wf(mid, id, after_deposit(mid.account(id), context.attached_deposit));
}

proof fn lemma_withdraw_done(pre: PoolState, context: Context, amount: Balance, post: PoolState)
    requires
        pre.wf(),
        withdraw_refusal(pre, context, amount) is None,
        withdraw_done(pre, context, amount, post),
    ensures
        post.wf(),
        post.epochs == refreshed(pre, context).epochs,
        forall|id: Seq<char>| id != context.predecessor_account_id@ ==> post.account(id) == refreshed(pre, context).account(id),
        same_balances(
            post.account(context.predecessor_account_id@),
            after_withdrawal(caller_account(pre, context), amount),
        ),
{
    let id = context.predecessor_account_id@;
    let mid = choose|mid: PoolState| #[trigger]
        pinged(pre, context, mid) && post == with_account(mid, id, after_withdrawal(mid.account(id), amount));
    lemma_pinged(pre, context, mid);
    lemma_with_account_wf(mid, id, after_withdrawal(mid.account(id), amount));
}

proof fn lemma_stake_done(pre: PoolState, context: Context, amount: Balance, post: PoolState)
    requires
        pre.wf(),
        stake_refusal(pre, context, amount) is None,
        stake_done(pre, context, amount, post),
    ensures
        post.wf(),
        post.max_number_of_slots == pre.max_number_of_slots,
        post.epochs.last().epoch_height == context.epoch_height,
        post.epochs.drop_last() == refreshed(pre, context).epochs.drop_last(),
        slots_updated(
            refreshed(pre, context).current(),
            pre.max_number_of_slots,
            context.predecessor_account_id@,
            after_stake(caller_account(pre, context), amount).staked,
            post.current(),
        ),
        forall|id: Seq<char>| id != context.predecessor_account_id@ ==> post.account(id) == refreshed(pre, context).account(id),
        post.account(context.predecessor_account_id@) == after_stake(caller_account(pre, context), amount),
{
    let id = context.predecessor_account_id@;
    let mid = choose|mid: PoolState| #[trigger]
        pinged(pre, context, mid) && restake_done(mid, id, after_stake(mid.account(id), amount), post);
    lemma_pinged(pre, context, mid);
    lemma_restake(mid, id, after_stake(mid.account(id), amount), post);
}

proof fn lemma_unstake_done(pre: PoolState, context: Context, amount: Balance, post: PoolState)
    requires
        pre.wf(),
        unstake_refusal(pre, context, amount) is None,
        unstake_done(pre, context, amount, post),
    ensures
        post.wf(),
        post.max_number_of_slots == pre.max_number_of_slots,
        post.epochs.last().epoch_height == context.epoch_height,
        post.epochs.drop_last() == refreshed(pre, context).epochs.drop_last(),
        slots_updated(
            refreshed(pre, context).current(),
            pre.max_number_of_slots,
            context.predecessor_account_id@,
            after_unstake(caller_account(pre, context), amount, context.epoch_height).staked,
            post.current(),
        ),
        forall|id: Seq<char>| id != context.predecessor_account_id@ ==> post.account(id) == refreshed(pre, context).account(id),
        post.account(context.predecessor_account_id@) == after_unstake(
            caller_account(pre, context),
            amount,
            context.epoch_height,
        ),
{
    let id = context.predecessor_account_id@;
    let mid = choose|mid: PoolState| #[trigger]
        pinged(pre, context, mid) && restake_done(
            mid,
            id,
            after_unstake(mid.account(id), amount, context.epoch_height),
            post,
        );
    lemma_pinged(pre, context, mid);
    lemma_restake(mid, id, after_unstake(mid.account(id), amount, context.epoch_height), post);
}

/// A deposit adds the attached amount to the unstaked balance of the caller, and changes no stake and
/// no other account, beyond what bringing the pool into the epoch of the call does.
pub proof fn law_deposit_credits_the_caller(pre: PoolState, context: Context, post: PoolState, id: Seq<char>)
    requires
        pre.wf(),
        deposit_refusal(pre, context) is None,
        deposit_done(pre, context, post),
    ensures
        id == context.predecessor_account_id@ ==> {
            &&& post.account(id).unstaked == refreshed(pre, context).account(id).unstaked + context.attached_deposit
            &&& post.account(id).staked == refreshed(pre, context).account(id).staked
        },
        id != context.predecessor_account_id@ ==> post.account(id) == refreshed(pre, context).account(id),
        post.epochs == refreshed(pre, context).epochs,
{
    lemma_deposit_done(pre, context, post);
}

/// A withdrawal takes the amount from the unstaked balance of the caller, and changes no stake and no
/// other account, beyond what bringing the pool into the epoch of the call does.
pub proof fn law_withdrawal_debits_the_caller(pre: PoolState, context: Context, amount: Balance, post: PoolState, id: Seq<char>)
    requires
        pre.wf(),
        withdraw_refusal(pre, context, amount) is None,
        withdraw_done(pre, context, amount, post),
    ensures
        id == context.predecessor_account_id@ ==> {
            &&& post.account(id).unstaked == refreshed(pre, context).account(id).unstaked - amount
            &&& post.account(id).staked == refreshed(pre, context).account(id).staked
        },
        id != context.predecessor_account_id@ ==> post.account(id) == refreshed(pre, context).account(id),
        post.epochs == refreshed(pre, context).epochs,
{
    lemma_withdraw_done(pre, context, amount, post);
}

/// What was deposited can be withdrawn again in the same epoch, unless the unstaked balance has to
/// wait, and all balances are then what they were before the deposit.
pub proof fn law_withdrawal_undoes_deposit(
    pre: PoolState,
    first: Context,
    mid: PoolState,
    second: Context,
    post: PoolState,
    id: Seq<char>,
)
    requires
        pre.wf(),
        deposit_refusal(pre, first) is None,
        deposit_done(pre, first, mid),
        first.attached_deposit > 0,
        caller_account(pre, first).unstaked_available_epoch_height <= first.epoch_height,
        second.epoch_height == first.epoch_height,
        second.predecessor_account_id@ == first.predecessor_account_id@,
    ensures
        withdraw_refusal(mid, second, first.attached_deposit) is None,
        withdraw_done(mid, second, first.attached_deposit, post) ==> same_balances(
            post.account(id),
            refreshed(pre, first).account(id),
        ),
{
    lemma_deposit_done(pre, first, mid);
    if withdraw_done(mid, second, first.attached_deposit, post) {
        lemma_withdraw_done(mid, second, first.attached_deposit, post);
    }
}

/// An account that is not staked in any epoch and withdraws all that it holds is kept nowhere.
pub proof fn law_empty_account_is_forgotten(pre: PoolState, context: Context, amount: Balance, post: PoolState)
    requires
        pre.wf(),
        withdraw_refusal(pre, context, amount) is None,
        withdraw_done(pre, context, amount, post),
        !refreshed(pre, context).active.contains_key(context.predecessor_account_id@),
        caller_account(pre, context).staked == 0,
        caller_account(pre, context).unstaked == amount,
    ensures
        !post.active.contains_key(context.predecessor_account_id@),
        !post.inactive.contains_key(context.predecessor_account_id@),
        !post.archived.contains_key(context.predecessor_account_id@),
{
    let id = context.predecessor_account_id@;
    let mid = choose|mid: PoolState| #[trigger]
        pinged(pre, context, mid) && post == with_account(mid, id, after_withdrawal(mid.account(id), amount));
    lemma_pinged(pre, context, mid);
}

/// Staking moves the amount from the unstaked to the staked balance of the caller. What the caller
/// holds in all, and every other account, stays as bringing the pool into the epoch of the call
/// leaves it.
pub proof fn law_stake_moves_the_amount(pre: PoolState, context: Context, amount: Balance, post: PoolState, id: Seq<char>)
    requires
        pre.wf(),
        stake_refusal(pre, context, amount) is None,
        stake_done(pre, context, amount, post),
    ensures
        id == context.predecessor_account_id@ ==> {
            &&& post.account(id).unstaked == refreshed(pre, context).account(id).unstaked - amount
            &&& post.account(id).staked == refreshed(pre, context).account(id).staked + amount
            &&& holdings(post.account(id)) == holdings(refreshed(pre, context).account(id))
        },
        id != context.predecessor_account_id@ ==> post.account(id) == refreshed(pre, context).account(id),
{
    lemma_stake_done(pre, context, amount, post);
}

/// Unstaking moves the amount from the staked to the unstaked balance of the caller. What the caller
/// holds in all, and every other account, stays as bringing the pool into the epoch of the call
/// leaves it.
pub proof fn law_unstake_moves_the_amount(pre: PoolState, context: Context, amount: Balance, post: PoolState, id: Seq<char>)
    requires
        pre.wf(),
        unstake_refusal(pre, context, amount) is None,
        unstake_done(pre, context, amount, post),
    ensures
        id == context.predecessor_account_id@ ==> {
            &&& post.account(id).unstaked == refreshed(pre, context).account(id).unstaked + amount
            &&& post.account(id).staked == refreshed(pre, context).account(id).staked - amount
            &&& holdings(post.account(id)) == holdings(refreshed(pre, context).account(id))
        },
        id != context.predecessor_account_id@ ==> post.account(id) == refreshed(pre, context).account(id),
{
    lemma_unstake_done(pre, context, amount, post);
}

/// What was staked can be unstaked again in the same epoch, and all balances are then what they were
/// before.
pub proof fn law_unstake_undoes_stake(
    pre: PoolState,
    first: Context,
    amount: Balance,
    mid: PoolState,
    second: Context,
    post: PoolState,
    id: Seq<char>,
)
    requires
        pre.wf(),
        stake_refusal(pre, first, amount) is None,
        stake_done(pre, first, amount, mid),
        second.epoch_height == first.epoch_height,
        second.epoch_height + EPOCHS_TOWARDS_WITHDRAWAL <= u64::MAX,
        second.predecessor_account_id@ == first.predecessor_account_id@,
    ensures
        unstake_refusal(mid, second, amount) is None,
        unstake_done(mid, second, amount, post) ==> same_balances(post.account(id), refreshed(pre, first).account(id)),
{
    let caller = first.predecessor_account_id@;
    lemma_stake_done(pre, first, amount, mid);
    assert(!new_epoch(mid, second));
    assert(mid.epochs[mid.epochs.len() - 1].stakes.dom().finite());
    if mid.current().contains_key(caller) {
        assert(mid.epochs[mid.epochs.len() - 1].stakes.contains_key(caller));
        assert(mid.active.contains_key(caller));
    }
    if unstake_done(mid, second, amount, post) {
        lemma_unstake_done(mid, second, amount, post);
    }
}

/// The stakes of all epochs, and their sum, are back too once what was staked is unstaked again in the
/// same epoch, if the caller had a slot before, or had nothing staked while a slot was free, or got no
/// slot.
pub proof fn law_unstake_restores_the_stakes(
    pre: PoolState,
    first: Context,
    amount: Balance,
    mid: PoolState,
    second: Context,
    post: PoolState,
)
    requires
        pre.wf(),
        stake_refusal(pre, first, amount) is None,
        stake_done(pre, first, amount, mid),
        second.epoch_height == first.epoch_height,
        second.predecessor_account_id@ == first.predecessor_account_id@,
        unstake_refusal(mid, second, amount) is None,
        unstake_done(mid, second, amount, post),
        refreshed(pre, first).current().contains_key(first.predecessor_account_id@) || (caller_account(pre, first).staked == 0
            && refreshed(pre, first).current().len() < pre.max_number_of_slots) || !mid.current().contains_key(
            first.predecessor_account_id@,
        ),
    ensures
        post.epochs == refreshed(pre, first).epochs,
        post.total_stake == refreshed(pre, first).total_stake,
{
    let caller = first.predecessor_account_id@;
    let now = refreshed(pre, first);
    lemma_refreshed_wf(pre, first);
    lemma_stake_done(pre, first, amount, mid);
    assert(!new_epoch(mid, second));
    lemma_unstake_done(mid, second, amount, post);
    lemma_slot_holds_stake(now, caller);
    assert(post.current() =~= now.current());
    lemma_same_epochs(post.epochs, now.epochs);
}

/// An account that has a slot has its staked balance in it.
proof fn lemma_slot_holds_stake(s: PoolState, id: Seq<char>)
    requires
        s.wf(),
    ensures
        s.current().contains_key(id) ==> s.current()[id] == s.account(id).staked && s.account(id).staked > 0,
{
    if s.current().contains_key(id) {
        assert(s.epochs[s.epochs.len() - 1].stakes.contains_key(id));
    }
}

proof fn lemma_same_epochs(a: Seq<EpochState>, b: Seq<EpochState>)
    requires
        a.len() > 0,
        b.len() > 0,
        a.drop_last() == b.drop_last(),
        a.last().epoch_height == b.last().epoch_height,
        a.last().stakes == b.last().stakes,
    ensures
        a == b,
{
    assert(a.last() == b.last());
    assert(a =~= a.drop_last().push(a.last()));
    assert(b =~= b.drop_last().push(b.last()));
}

/// Only one account has the smallest stake.
pub open spec fn one_smallest(stakes: Map<Seq<char>, Balance>) -> bool {
    forall|a: Seq<char>, b: Seq<char>| #[trigger] is_smallest(stakes, a) && #[trigger] is_smallest(stakes, b) ==> a == b
}

/// Staking in two steps within an epoch is staking the sum at once: staking the sum is granted too,
/// and leaves the same accounts and the same total stake. It leaves the same stakes as well, unless
/// the caller takes the slot of one of several accounts with the smallest stake: it is open which of
/// them loses it.
pub proof fn law_stakes_add_up(
    pre: PoolState,
    first: Context,
    amount: Balance,
    mid: PoolState,
    second: Context,
    more: Balance,
    post: PoolState,
    once: PoolState,
    id: Seq<char>,
)
    requires
        pre.wf(),
        stake_refusal(pre, first, amount) is None,
        stake_done(pre, first, amount, mid),
        second.epoch_height == first.epoch_height,
        second.predecessor_account_id@ == first.predecessor_account_id@,
        stake_refusal(mid, second, more) is None,
        stake_done(mid, second, more, post),
    ensures
        amount + more <= u128::MAX,
        stake_refusal(pre, first, (amount + more) as u128) is None,
        stake_done(pre, first, (amount + more) as u128, once) ==> {
            &&& post.account(id) == once.account(id)
            &&& post.total_stake == once.total_stake
            &&& refreshed(pre, first).current().contains_key(first.predecessor_account_id@) || refreshed(
                pre,
                first,
            ).current().len() < pre.max_number_of_slots || !once.current().contains_key(first.predecessor_account_id@)
                || one_smallest(refreshed(pre, first).current()) ==> post.epochs == once.epochs
        },
{
    let caller = first.predecessor_account_id@;
    let now = refreshed(pre, first);
    let account = caller_account(pre, first);
    let all = (amount + more) as u128;
    lemma_refreshed_wf(pre, first);
    lemma_stake_done(pre, first, amount, mid);
    assert(!new_epoch(mid, second));
    lemma_stake_done(mid, second, more, post);
    let staked = after_stake(account, all).staked;
    let before = now.current();
    assert(now.epochs[now.epochs.len() - 1].stakes.dom().finite());
    lemma_slots_in_two_steps(
        before,
        pre.max_number_of_slots,
        caller,
        mid.account(caller).staked,
        mid.current(),
        staked,
        post.current(),
    );
    lemma_slots_updated(before, pre.max_number_of_slots, caller, staked, post.current());
    if stake_done(pre, first, all, once) {
        lemma_stake_done(pre, first, all, once);
        lemma_slots_updated(before, pre.max_number_of_slots, caller, staked, once.current());
        if before.contains_key(caller) || before.len() < pre.max_number_of_slots || !once.current().contains_key(caller)
            || one_smallest(before) {
            assert(post.current() == once.current());
            lemma_same_epochs(post.epochs, once.epochs);
        }
    }
}

/// Setting a staked balance to `some` and then to `more` gives the slots out as setting it to `more`
/// at once can.
proof fn lemma_slots_in_two_steps(
    before: Map<Seq<char>, Balance>,
    max_number_of_slots: u32,
    id: Seq<char>,
    some: Balance,
    between: Map<Seq<char>, Balance>,
    more: Balance,
    after: Map<Seq<char>, Balance>,
)
    requires
        before.dom().finite(),
        0 < some < more,
        slots_updated(before, max_number_of_slots, id, some, between),
        slots_updated(between, max_number_of_slots, id, more, after),
    ensures
        slots_updated(before, max_number_of_slots, id, more, after),
{
    if before.contains_key(id) || before.len() < max_number_of_slots {
        assert(before.insert(id, some).insert(id, more) =~= before.insert(id, more));
    } else if smallest_stake(before) < some {
        let lost = choose|lost: Seq<char>| #[trigger] is_smallest(before, lost) && between == before.remove(lost).insert(id, some);
        assert(between.insert(id, more) =~= before.remove(lost).insert(id, more));
    }
}

/// Giving the slots out anew for the account `id` leaves the sum of the current stakes as the total
/// stake, no more stakes than there are slots, and each of these stakes is not zero and is the staked
/// balance of an active account, provided that this held of all accounts but `id`.
pub proof fn law_restake_keeps_the_stakes(pre: PoolState, id: Seq<char>, account: Account, post: PoolState, other: Seq<char>)
    requires
        pre.epochs.len() > 0,
        pre.current().dom().finite(),
        pre.current().len() <= pre.max_number_of_slots,
        forall|staker: Seq<char>| #[trigger]
            pre.current().contains_key(staker) && staker != id ==> pre.active.contains_key(staker) && pre.current()[staker]
                == pre.active[staker].staked && pre.current()[staker] > 0,
        restake_refusal(pre.current(), pre.max_number_of_slots, id, account.staked) is None,
        restake_done(pre, id, account, post),
    ensures
        post.total_stake == stake_sum(post.current()),
        post.current().len() <= post.max_number_of_slots,
        post.current().contains_key(other) ==> {
            &&& post.active.contains_key(other)
            &&& post.current()[other] == post.active[other].staked
            &&& post.current()[other] > 0
        },
{
    let stakes = choose|stakes: Map<Seq<char>, Balance>| #[trigger]
        slots_updated(pre.current(), pre.max_number_of_slots, id, account.staked, stakes) && post == stored(
            with_current(pre, stakes),
            id,
            account,
            staked_in(with_current(pre, stakes).epochs, id),
        );
    lemma_slots_updated(pre.current(), pre.max_number_of_slots, id, account.staked, stakes);
    assert(post.current() == stakes);
    if stakes.contains_key(id) {
        assert(post.epochs[post.epochs.len() - 1].stakes.contains_key(id));
    }
}

/// Until [`EPOCHS_TOWARDS_WITHDRAWAL`] epochs have passed since an account unstaked, every withdrawal
/// from it is refused. From then on a withdrawal is granted of any amount that the account has.
pub proof fn law_unstaked_balance_waits(
    pre: PoolState,
    first: Context,
    amount: Balance,
    mid: PoolState,
    second: Context,
    withdrawal: Balance,
)
    requires
        pre.wf(),
        unstake_refusal(pre, first, amount) is None,
        unstake_done(pre, first, amount, mid),
        second.predecessor_account_id@ == first.predecessor_account_id@,
    ensures
        second.epoch_height < first.epoch_height + EPOCHS_TOWARDS_WITHDRAWAL ==> withdraw_refusal(mid, second, withdrawal) is Some,
        second.epoch_height >= first.epoch_height + EPOCHS_TOWARDS_WITHDRAWAL && refresh_fits(mid, second) && 0 < withdrawal
            <= caller_account(mid, second).unstaked ==> withdraw_refusal(mid, second, withdrawal) is None,
{
    lemma_unstake_done(pre, first, amount, mid);
    lemma_refreshed_account(mid, second, second.predecessor_account_id@);
}

/// How the slots change when the staked balance of `id` becomes `stake`, which is not zero. An account
/// that has a slot keeps it, and a free slot is taken. If there is none, the account takes the slot of
/// an account whose stake is the smallest, if that is smaller than its own. Nobody else loses a slot,
/// and the stakes of the others stay the same.
pub open spec fn slots_follow_stakes(
    before: Map<Seq<char>, Balance>,
    max_number_of_slots: u32,
    id: Seq<char>,
    stake: Balance,
    after: Map<Seq<char>, Balance>,
    other: Seq<char>,
) -> bool {
    let full = before.len() >= max_number_of_slots;
    &&& after.contains_key(id) <==> before.contains_key(id) || !full || smallest_stake(before) < stake
    &&& after.contains_key(id) ==> after[id] == stake
    &&& !after.contains_key(id) ==> after == before
    &&& other != id && after.contains_key(other) ==> before.contains_key(other) && after[other] == before[other]
    &&& other != id && before.contains_key(other) && !after.contains_key(other) ==> {
        &&& full
        &&& !before.contains_key(id)
        &&& after.contains_key(id)
        &&& is_smallest(before, other)
        &&& before[other] < stake
        &&& after == before.remove(other).insert(id, stake)
        &&& stake_sum(after) > stake_sum(before)
    }
}

proof fn lemma_slots_follow_stakes(
    before: Map<Seq<char>, Balance>,
    max_number_of_slots: u32,
    id: Seq<char>,
    stake: Balance,
    after: Map<Seq<char>, Balance>,
    other: Seq<char>,
)
    requires
        before.dom().finite(),
        before.len() <= max_number_of_slots,
        stake > 0,
        slots_updated(before, max_number_of_slots, id, stake, after),
    ensures
        slots_follow_stakes(before, max_number_of_slots, id, stake, after, other),
{
    lemma_slots_updated(before, max_number_of_slots, id, stake, after);
    if other != id && before.contains_key(other) && !after.contains_key(other) {
        let lost = choose|lost: Seq<char>| #[trigger] is_smallest(before, lost) && after == before.remove(lost).insert(id, stake);
        assert(lost == other);
        lemma_smallest_unique(before, lost);
    }
}

/// Staking gives the slots to the larger stakes, as [`slots_follow_stakes`] says.
pub proof fn law_slots_after_stake(pre: PoolState, context: Context, amount: Balance, post: PoolState, other: Seq<char>)
    requires
        pre.wf(),
        stake_refusal(pre, context, amount) is None,
        stake_done(pre, context, amount, post),
    ensures
        slots_follow_stakes(
            refreshed(pre, context).current(),
            pre.max_number_of_slots,
            context.predecessor_account_id@,
            post.account(context.predecessor_account_id@).staked,
            post.current(),
            other,
        ),
{
    lemma_stake_done(pre, context, amount, post);
    lemma_refreshed_wf(pre, context);
    let now = refreshed(pre, context);
    assert(now.epochs[now.epochs.len() - 1].stakes.dom().finite());
    lemma_slots_follow_stakes(
        now.current(),
        pre.max_number_of_slots,
        context.predecessor_account_id@,
        after_stake(caller_account(pre, context), amount).staked,
        post.current(),
        other,
    );
}

/// Unstaking a part of the staked balance gives the slots to the larger stakes, as
/// [`slots_follow_stakes`] says.
pub proof fn law_slots_after_unstake(pre: PoolState, context: Context, amount: Balance, post: PoolState, other: Seq<char>)
    requires
        pre.wf(),
        unstake_refusal(pre, context, amount) is None,
        unstake_done(pre, context, amount, post),
        amount < caller_account(pre, context).staked,
    ensures
        slots_follow_stakes(
            refreshed(pre, context).current(),
            pre.max_number_of_slots,
            context.predecessor_account_id@,
            post.account(context.predecessor_account_id@).staked,
            post.current(),
            other,
        ),
{
    lemma_unstake_done(pre, context, amount, post);
    lemma_refreshed_wf(pre, context);
    let now = refreshed(pre, context);
    assert(now.epochs[now.epochs.len() - 1].stakes.dom().finite());
    lemma_slots_follow_stakes(
        now.current(),
        pre.max_number_of_slots,
        context.predecessor_account_id@,
        after_unstake(caller_account(pre, context), amount, context.epoch_height).staked,
        post.current(),
        other,
    );
}

/// Staking and unstaking change the stakes of the current epoch alone: what was staked in the epochs
/// before is settled.
pub proof fn law_past_stakes_are_settled(pre: PoolState, context: Context, amount: Balance, post: PoolState)
    requires
        pre.wf(),
        (stake_refusal(pre, context, amount) is None && stake_done(pre, context, amount, post)) || (unstake_refusal(
            pre,
            context,
            amount,
        ) is None && unstake_done(pre, context, amount, post)),
    ensures
        post.epochs.drop_last() == refreshed(pre, context).epochs.drop_last(),
        post.epochs.last().epoch_height == context.epoch_height,
{
    if stake_refusal(pre, context, amount) is None && stake_done(pre, context, amount, post) {
        lemma_stake_done(pre, context, amount, post);
    } else {
        lemma_unstake_done(pre, context, amount, post);
    }
}

/// An account that unstakes everything has no slot, and everyone else's stake stays the same.
pub proof fn law_unstaking_all_frees_the_slot(pre: PoolState, context: Context, amount: Balance, post: PoolState)
    requires
        pre.wf(),
        unstake_refusal(pre, context, amount) is None,
        unstake_done(pre, context, amount, post),
        caller_account(pre, context).staked == amount,
    ensures
        post.current() == refreshed(pre, context).current().remove(context.predecessor_account_id@),
{
    lemma_unstake_done(pre, context, amount, post);
    let before = refreshed(pre, context).current();
    assert(!before.contains_key(context.predecessor_account_id@) ==> before.remove(context.predecessor_account_id@) =~= before);
}

} // verus!
