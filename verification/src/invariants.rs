//! Every change of the model keeps what holds of every pool.

use crate::model::{
    archived_one, archives_one, distributed, is_smallest, matured, matured_stake, matured_total, new_epoch,
    next_epochs, pinged, PoolState, refresh_fits, refreshed, restake_done, restake_refusal, restaked, rewarded,
    share, slots_updated, smallest_stake, staked_in, stored, updated_total, with_account, with_current,
};
use crate::sums::{lemma_stake_sum_insert, lemma_stake_sum_remove, stake_sum};
use crate::types::{Account, Balance, Context, EpochHeight, EpochState};
use vstd::prelude::*;

verus! {

/// Archiving a waiting account changes no account, and keeps the pool well-formed.
pub proof fn lemma_archived_one(s: PoolState, id: Seq<char>)
    requires
        s.wf(),
        s.inactive.contains_key(id),
    ensures
        archived_one(s, id).wf(),
        forall|other: Seq<char>| archived_one(s, id).account(other) == s.account(other),
{
    let post = archived_one(s, id);
    assert(post.stakers_active()) by {
        assert(s.stakers_active());
    }
    assert(post.stakes_match()) by {
        assert(s.stakes_match());
    }
}

/// The matured stake of one account is part of the matured stake of all.
pub proof fn lemma_matured_stake_le(epochs: Seq<EpochState>, height: EpochHeight, id: Seq<char>)
    requires
        forall|i: int| 0 <= i < epochs.len() ==> (#[trigger] epochs[i]).stakes.dom().finite(),
    ensures
        matured_stake(epochs, height, id) <= matured_total(epochs, height),
    decreases epochs.len(),
{
    if epochs.len() > 0 {
        let fewer = epochs.drop_last();
        assert forall|i: int| 0 <= i < fewer.len() implies (#[trigger] fewer[i]).stakes.dom().finite() by {
            assert(fewer[i] == epochs[i]);
        }
        lemma_matured_stake_le(fewer, height, id);
        let stakes = epochs.last().stakes;
        assert(epochs[epochs.len() - 1].stakes.dom().finite());
        if stakes.contains_key(id) {
            lemma_stake_sum_remove(stakes, id);
        }
    }
}

/// A part of a pot is no larger than the pot.
pub proof fn lemma_share_le(pot: nat, part: nat, whole: nat)
    requires
        part <= whole,
    ensures
        share(pot, part, whole) <= pot,
{
    if whole > 0 {
        assert(pot * part <= pot * whole) by (nonlinear_arith)
            requires
                part <= whole,
        ;
        vstd::arithmetic::div_mod::lemma_div_is_ordered((pot * part) as int, (pot * whole) as int, whole as int);
        vstd::arithmetic::div_mod::lemma_div_by_multiple(pot as int, whole as int);
    }
}

/// A new epoch keeps the pool well-formed.
pub proof fn lemma_distributed_wf(s: PoolState, context: Context)
    requires
        s.wf(),
        new_epoch(s, context),
        refresh_fits(s, context),
    ensures
        distributed(s, context).wf(),
{
    let post = distributed(s, context);
    let keep = |epoch: EpochState| !matured(epoch, context.epoch_height);
    let kept = s.epochs.filter(keep);
    let stakes = restaked(s, context);
    assert(stakes.dom() =~= s.current().dom());
    assert(s.epochs[s.epochs.len() - 1].stakes.dom().finite());
    assert forall|i: int| 0 <= i < kept.len() implies exists|j: int|
        0 <= j < s.epochs.len() && #[trigger] kept[i] == s.epochs[j] by {
        lemma_filter_member(s.epochs, keep, i);
    }
    assert forall|i: int| 0 <= i < post.epochs.len() implies (#[trigger] post.epochs[i]).stakes.dom().finite() by {
        if i < kept.len() {
            assert(post.epochs[i] == kept[i]);
        }
    }
    assert forall|i: int, id: Seq<char>|
        0 <= i < post.epochs.len() && #[trigger] post.epochs[i].stakes.contains_key(id) implies post.active.contains_key(id) by {
        assert(staked_in(post.epochs, id));
        if i < kept.len() {
            let j = choose|j: int| 0 <= j < s.epochs.len() && kept[i] == s.epochs[j];
            assert(s.epochs[j].stakes.contains_key(id));
        } else {
            assert(s.epochs[s.epochs.len() - 1].stakes.contains_key(id));
        }
    }
    assert(post.current() == stakes);
    assert forall|id: Seq<char>| #[trigger] post.current().contains_key(id) implies post.current()[id] == post.active[id].staked
        && post.current()[id] > 0 by {
        assert(s.current().contains_key(id));
        assert(s.epochs[s.epochs.len() - 1].stakes.contains_key(id));
        assert(s.active.contains_key(id));
        assert(post.epochs[post.epochs.len() - 1].stakes.contains_key(id));
        assert(post.active.contains_key(id));
    }
}

/// Every element of a filtered list is an element of the list.
pub proof fn lemma_filter_member<A>(s: Seq<A>, keep: spec_fn(A) -> bool, i: int)
    requires
        0 <= i < s.filter(keep).len(),
    ensures
        exists|j: int| 0 <= j < s.len() && s.filter(keep)[i] == s[j],
    decreases s.len(),
{
    reveal(Seq::filter);
    if s.len() > 0 {
        let fewer = s.drop_last();
        if i < fewer.filter(keep).len() {
            lemma_filter_member(fewer, keep, i);
            let j = choose|j: int| 0 <= j < fewer.len() && fewer.filter(keep)[i] == fewer[j];
            assert(s[j] == fewer[j]);
        } else {
            assert(s.filter(keep)[i] == s[s.len() - 1]);
        }
    }
}

/// Bringing a pool into the epoch of a call keeps it well-formed.
pub proof fn lemma_refreshed_wf(s: PoolState, context: Context)
    requires
        s.wf(),
        refresh_fits(s, context),
    ensures
        refreshed(s, context).wf(),
{
    if new_epoch(s, context) {
        lemma_distributed_wf(s, context);
    }
}

/// What bringing a pool into the epoch of a call does to an account.
pub proof fn lemma_refreshed_account(s: PoolState, context: Context, id: Seq<char>)
    requires
        s.wf(),
    ensures
        refreshed(s, context).account(id) == if new_epoch(s, context) && s.active.contains_key(id) {
            rewarded(s, context, id)
        } else {
            s.account(id)
        },
{
}

/// Which of the waiting accounts `ping` archives makes no difference to anything but where that
/// account is kept.
pub proof fn lemma_pinged(pre: PoolState, context: Context, post: PoolState)
    requires
        pre.wf(),
        refresh_fits(pre, context),
        pinged(pre, context, post),
    ensures
        post.wf(),
        forall|id: Seq<char>| post.account(id) == refreshed(pre, context).account(id),
        post.active == refreshed(pre, context).active,
        post.epochs == refreshed(pre, context).epochs,
        post.total_stake == refreshed(pre, context).total_stake,
        post.max_number_of_slots == pre.max_number_of_slots,
        post.stake_public_key == pre.stake_public_key,
        post.owner_id == pre.owner_id,
        post.epochs.last().epoch_height == context.epoch_height,
{
    let mid = choose|mid: PoolState| #[trigger] archives_one(pre, mid) && post == refreshed(mid, context);
    if pre.inactive.dom() != Set::<Seq<char>>::empty() {
        let id = choose|id: Seq<char>| #[trigger] pre.inactive.contains_key(id) && mid == archived_one(pre, id);
        lemma_archived_one(pre, id);
    }
    assert(restaked(mid, context) =~= restaked(pre, context));
    assert(next_epochs(mid, context) == next_epochs(pre, context));
    assert(refreshed(mid, context).active =~= refreshed(pre, context).active);
    lemma_refreshed_wf(mid, context);
    assert forall|id: Seq<char>| post.account(id) == refreshed(pre, context).account(id) by {
        lemma_refreshed_account(mid, context, id);
        lemma_refreshed_account(pre, context, id);
    }
}

/// Changing the account of the caller keeps the pool well-formed, as long as the staked balance
/// stays the same.
pub proof fn lemma_with_account_wf(s: PoolState, id: Seq<char>, account: Account)
    requires
        s.wf(),
        account.staked == s.account(id).staked,
    ensures
        with_account(s, id, account).wf(),
{
    let post = with_account(s, id, account);
    assert(post.stakers_active()) by {
        assert(s.stakers_active());
    }
    assert(post.stakes_match()) by {
        assert forall|other: Seq<char>| #[trigger] post.current().contains_key(other) implies post.current()[other]
            == post.active[other].staked && post.current()[other] > 0 by {
            assert(s.current().contains_key(other));
            assert(s.epochs[s.epochs.len() - 1].stakes.contains_key(other));
        }
    }
}

/// All smallest stakes are equal.
pub proof fn lemma_smallest_unique(stakes: Map<Seq<char>, Balance>, id: Seq<char>)
    requires
        is_smallest(stakes, id),
    ensures
        stakes[id] == smallest_stake(stakes),
{
    let other = choose|other: Seq<char>| is_smallest(stakes, other);
    assert(is_smallest(stakes, other));
    assert(stakes.contains_key(other));
}

/// The sum and the number of the stakes after the slots were given out anew.
pub proof fn lemma_slots_updated(
    pre: Map<Seq<char>, Balance>,
    max_number_of_slots: u32,
    id: Seq<char>,
    staked: Balance,
    post: Map<Seq<char>, Balance>,
)
    requires
        pre.dom().finite(),
        pre.len() <= max_number_of_slots,
        slots_updated(pre, max_number_of_slots, id, staked, post),
    ensures
        post.dom().finite(),
        post.len() <= max_number_of_slots,
        stake_sum(post) == updated_total(pre, max_number_of_slots, id, staked),
        post.contains_key(id) ==> post[id] == staked && staked > 0,
        forall|other: Seq<char>| #[trigger]
            post.contains_key(other) && other != id ==> pre.contains_key(other) && post[other] == pre[other],
{
    if pre.contains_key(id) {
        lemma_stake_sum_remove(pre, id);
        lemma_stake_sum_insert(pre, id, staked);
        assert(pre.insert(id, staked).dom() =~= pre.dom());
    } else if staked == 0 {
    } else if pre.len() < max_number_of_slots {
        lemma_stake_sum_insert(pre, id, staked);
    } else if smallest_stake(pre) < staked {
        let other = choose|other: Seq<char>| #[trigger] is_smallest(pre, other) && post == pre.remove(other).insert(id, staked);
        lemma_smallest_unique(pre, other);
        lemma_stake_sum_remove(pre, other);
        lemma_stake_sum_insert(pre.remove(other), id, staked);
    }
}

/// Giving the slots out anew keeps the pool well-formed.
pub proof fn lemma_restake(pre: PoolState, id: Seq<char>, account: Account, post: PoolState)
    requires
        pre.wf(),
        restake_refusal(pre.current(), pre.max_number_of_slots, id, account.staked) is None,
        restake_done(pre, id, account, post),
    ensures
        post.wf(),
        post.total_stake == updated_total(pre.current(), pre.max_number_of_slots, id, account.staked),
        slots_updated(pre.current(), pre.max_number_of_slots, id, account.staked, post.current()),
        post.max_number_of_slots == pre.max_number_of_slots,
        post.stake_public_key == pre.stake_public_key,
        post.epochs.drop_last() == pre.epochs.drop_last(),
        post.epochs.last().epoch_height == pre.epochs.last().epoch_height,
        post.account(id) == if post.active.contains_key(id) || account.staked > 0 || account.unstaked > 0 {
            account
        } else {
            Account::initial()
        },
        post.active.contains_key(id) == staked_in(post.epochs, id),
        forall|other: Seq<char>| other != id ==> post.account(other) == pre.account(other),
{
    let stakes = choose|stakes: Map<Seq<char>, Balance>| #[trigger]
        slots_updated(pre.current(), pre.max_number_of_slots, id, account.staked, stakes) && post == stored(
            with_current(pre, stakes),
            id,
            account,
            staked_in(with_current(pre, stakes).epochs, id),
        );
    let last = pre.epochs.len() - 1;
    assert(pre.epochs[last].stakes.dom().finite());
    lemma_slots_updated(pre.current(), pre.max_number_of_slots, id, account.staked, stakes);
    assert(post.current() == stakes);
    assert forall|i: int| 0 <= i < post.epochs.len() implies (#[trigger] post.epochs[i]).stakes.dom().finite() by {
        if i < last {
            assert(post.epochs[i] == pre.epochs[i]);
        }
    }
    assert forall|i: int, other: Seq<char>|
        0 <= i < post.epochs.len() && #[trigger] post.epochs[i].stakes.contains_key(other) implies post.active.contains_key(other) by {
        assert(staked_in(post.epochs, other));
        if other != id {
            assert(pre.epochs[i].stakes.contains_key(other));
        }
    }
    assert forall|other: Seq<char>| #[trigger] post.current().contains_key(other) implies post.current()[other]
        == post.active[other].staked && post.current()[other] > 0 by {
        assert(post.epochs[last].stakes.contains_key(other));
        assert(post.active.contains_key(other));
        if other != id {
            assert(pre.current().contains_key(other));
            assert(pre.epochs[last].stakes.contains_key(other));
        }
    }
    assert(post.epochs.drop_last() =~= pre.epochs.drop_last());
}

} // verus!
