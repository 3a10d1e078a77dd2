//! What holds over any number of calls, whoever makes them.

use super::calls::{
    law_deposit_follows_a_ping, law_stake_follows_a_ping, law_unstake_follows_a_ping, law_withdrawal_follows_a_ping,
    law_withdrawal_is_granted_if_available, others_same,
};
use super::{holdings, law_ping_adds_rewards, lemma_deposit_done, lemma_stake_done, lemma_unstake_done, lemma_withdraw_done};
use crate::invariants::lemma_pinged;
use crate::model::{
    archived_one, archives_one, deposit_done, deposit_refusal, pinged, refresh_fits, refreshed, stake_done, stake_refusal,
    unstake_done, unstake_refusal, withdraw_done, withdraw_refusal, PoolState,
};
use crate::types::{Balance, Context, EpochHeight};
use vstd::prelude::*;

verus! {

/// A call that changes the pool.
pub enum Call {
    Ping,
    Deposit,
    Withdraw { amount: Balance },
    Stake { amount: Balance },
    Unstake { amount: Balance },
    AfterStake,
}

/// The call is granted, and makes `post` of `pre`.
pub open spec fn leads(pre: PoolState, context: Context, call: Call, post: PoolState) -> bool {
    match call {
        Call::Ping => refresh_fits(pre, context) && pinged(pre, context, post),
        Call::Deposit => deposit_refusal(pre, context) is None && deposit_done(pre, context, post),
        Call::Withdraw { amount } => withdraw_refusal(pre, context, amount) is None && withdraw_done(
            pre,
            context,
            amount,
            post,
        ),
        Call::Stake { amount } => stake_refusal(pre, context, amount) is None && stake_done(pre, context, amount, post),
        Call::Unstake { amount } => unstake_refusal(pre, context, amount) is None && unstake_done(pre, context, amount, post),
        Call::AfterStake => context.current_account_id@ == context.predecessor_account_id@ && post == (PoolState {
            last_locked_account_balance: context.account_locked_balance,
            ..pre
        }),
    }
}

/// The calls lead from each state to the next.
pub open spec fn is_history(states: Seq<PoolState>, contexts: Seq<Context>, calls: Seq<Call>) -> bool {
    &&& states.len() == calls.len() + 1
    &&& contexts.len() == calls.len()
    &&& forall|i: int|
        0 <= i < calls.len() ==> leads(#[trigger] states[i], contexts[i], calls[i], states[i + 1])
}

/// No call takes anything from an account but a withdrawal by its owner. No call changes the date from
/// which the unstaked balance of an account can be withdrawn but an unstake by its owner, unless the
/// account holds nothing any more.
pub proof fn law_others_take_nothing(pre: PoolState, context: Context, call: Call, post: PoolState, id: Seq<char>)
    requires
        pre.wf(),
        leads(pre, context, call, post),
    ensures
        post.wf(),
        call is Withdraw && context.predecessor_account_id@ == id || holdings(post.account(id)) >= holdings(pre.account(id)),
        call is Unstake && context.predecessor_account_id@ == id ==> post.account(id).unstaked_available_epoch_height
            == context.epoch_height + 2,
        !(call is Unstake && context.predecessor_account_id@ == id) ==> post.account(id).unstaked_available_epoch_height
            == pre.account(id).unstaked_available_epoch_height || (holdings(post.account(id)) == 0 && post.account(
            id,
        ).unstaked_available_epoch_height == 0),
        context.predecessor_account_id@ != id ==> {
            &&& post.account(id).staked >= pre.account(id).staked
            &&& post.account(id).unstaked >= pre.account(id).unstaked
        },
{
    let caller = context.predecessor_account_id@;
    match call {
        Call::Ping => {
            lemma_pinged(pre, context, post);
            lemma_ping_step(pre, context, post, id);
        },
        Call::Deposit => {
            lemma_deposit_done(pre, context, post);
            let mid = law_deposit_follows_a_ping(pre, context, post);
            lemma_ping_step(pre, context, mid, id);
            lemma_other_same(mid, post, caller, id);
        },
        Call::Withdraw { amount } => {
            lemma_withdraw_done(pre, context, amount, post);
            let mid = law_withdrawal_follows_a_ping(pre, context, amount, post);
            lemma_ping_step(pre, context, mid, id);
            lemma_other_same(mid, post, caller, id);
        },
        Call::Stake { amount } => {
            lemma_stake_done(pre, context, amount, post);
            let mid = law_stake_follows_a_ping(pre, context, amount, post);
            lemma_ping_step(pre, context, mid, id);
            lemma_other_same(mid, post, caller, id);
        },
        Call::Unstake { amount } => {
            lemma_unstake_done(pre, context, amount, post);
            let mid = law_unstake_follows_a_ping(pre, context, amount, post);
            lemma_ping_step(pre, context, mid, id);
            lemma_other_same(mid, post, caller, id);
        },
        Call::AfterStake => {
            assert(post.stakers_active()) by {
                assert(pre.stakers_active());
            }
            assert(post.stakes_match()) by {
                assert(pre.stakes_match());
            }
        },
    }
}

proof fn lemma_ping_step(pre: PoolState, context: Context, post: PoolState, id: Seq<char>)
    requires
        pre.wf(),
        refresh_fits(pre, context),
        pinged(pre, context, post),
    ensures
        post.account(id).staked >= pre.account(id).staked,
        post.account(id).unstaked >= pre.account(id).unstaked,
        post.account(id).unstaked_available_epoch_height == pre.account(id).unstaked_available_epoch_height,
{
    law_ping_adds_rewards(pre, context, post, id);
}

proof fn lemma_other_same(mid: PoolState, post: PoolState, caller: Seq<char>, id: Seq<char>)
    requires
        others_same(mid, post, caller),
    ensures
        id != caller ==> post.account(id) == mid.account(id),
{
    if id != caller {
        assert(mid.active.remove(caller).contains_key(id) == post.active.remove(caller).contains_key(id));
        assert(mid.inactive.remove(caller).contains_key(id) == post.inactive.remove(caller).contains_key(id));
        assert(mid.archived.remove(caller).contains_key(id) == post.archived.remove(caller).contains_key(id));
        assert(mid.active.contains_key(id) ==> mid.active.remove(caller)[id] == mid.active[id]);
        assert(post.active.contains_key(id) ==> post.active.remove(caller)[id] == post.active[id]);
        assert(mid.inactive.contains_key(id) ==> mid.inactive.remove(caller)[id] == mid.inactive[id]);
        assert(post.inactive.contains_key(id) ==> post.inactive.remove(caller)[id] == post.inactive[id]);
        assert(mid.archived.contains_key(id) ==> mid.archived.remove(caller)[id] == mid.archived[id]);
        assert(post.archived.contains_key(id) ==> post.archived.remove(caller)[id] == post.archived[id]);
    }
}

/// Every state of a history that begins with a well-formed pool is well-formed, and nobody loses
/// anything in it who does not withdraw.
pub proof fn law_nothing_is_lost(states: Seq<PoolState>, contexts: Seq<Context>, calls: Seq<Call>, id: Seq<char>)
    requires
        is_history(states, contexts, calls),
        states[0].wf(),
        forall|i: int|
            0 <= i < calls.len() ==> !((#[trigger] calls[i]) is Withdraw && contexts[i].predecessor_account_id@ == id),
    ensures
        states.last().wf(),
        holdings(states.last().account(id)) >= holdings(states[0].account(id)),
    decreases calls.len(),
{
    if calls.len() > 0 {
        let n = calls.len() - 1;
        lemma_shorter(states, contexts, calls);
        assert forall|i: int| 0 <= i < n implies !((#[trigger] calls.drop_last()[i]) is Withdraw
            && contexts.drop_last()[i].predecessor_account_id@ == id) by {
            assert(calls.drop_last()[i] == calls[i]);
        }
        law_nothing_is_lost(states.drop_last(), contexts.drop_last(), calls.drop_last(), id);
        assert(!(calls[n] is Withdraw && contexts[n].predecessor_account_id@ == id));
        assert(leads(states[n], contexts[n], calls[n], states[n + 1]));
        law_others_take_nothing(states[n], contexts[n], calls[n], states[n + 1], id);
    }
}

proof fn lemma_shorter(states: Seq<PoolState>, contexts: Seq<Context>, calls: Seq<Call>)
    requires
        is_history(states, contexts, calls),
        calls.len() > 0,
    ensures
        is_history(states.drop_last(), contexts.drop_last(), calls.drop_last()),
        states.drop_last()[0] == states[0],
        states.drop_last().last() == states[calls.len() - 1],
{
    let fewer = states.drop_last();
    assert forall|i: int| 0 <= i < calls.drop_last().len() implies leads(
        #[trigger] fewer[i],
        contexts.drop_last()[i],
        calls.drop_last()[i],
        fewer[i + 1],
    ) by {
        assert(leads(states[i], contexts[i], calls[i], states[i + 1]));
    }
}

/// The account holds something, and its unstaked balance cannot be withdrawn before the epoch `date`.
spec fn waits(s: PoolState, id: Seq<char>, date: int) -> bool {
    &&& s.wf()
    &&& holdings(s.account(id)) > 0
    &&& s.account(id).unstaked_available_epoch_height >= date
}

proof fn lemma_waits(states: Seq<PoolState>, contexts: Seq<Context>, calls: Seq<Call>, id: Seq<char>, date: int)
    requires
        is_history(states, contexts, calls),
        waits(states[0], id, date),
        forall|i: int| 0 <= i < calls.len() ==> date - 2 <= (#[trigger] contexts[i]).epoch_height < date,
    ensures
        waits(states.last(), id, date),
    decreases calls.len(),
{
    if calls.len() > 0 {
        let n = calls.len() - 1;
        lemma_shorter(states, contexts, calls);
        assert forall|i: int| 0 <= i < n implies date - 2 <= (#[trigger] contexts.drop_last()[i]).epoch_height < date by {
            assert(contexts.drop_last()[i] == contexts[i]);
        }
        lemma_waits(states.drop_last(), contexts.drop_last(), calls.drop_last(), id, date);
        assert(date - 2 <= contexts[n].epoch_height < date);
        assert(leads(states[n], contexts[n], calls[n], states[n + 1]));
        law_others_take_nothing(states[n], contexts[n], calls[n], states[n + 1], id);
        if calls[n] is Withdraw && contexts[n].predecessor_account_id@ == id {
            let amount = calls[n]->Withdraw_amount;
            let mid = law_withdrawal_follows_a_ping(states[n], contexts[n], amount, states[n + 1]);
            lemma_ping_step(states[n], contexts[n], mid, id);
            law_withdrawal_is_granted_if_available(states[n], contexts[n], amount, mid);
        }
    }
}

/// Some pool follows from a ping.
proof fn lemma_ping_exists(pre: PoolState, context: Context) -> (mid: PoolState)
    ensures
        pinged(pre, context, mid),
{
    if pre.inactive.dom() == Set::<Seq<char>>::empty() {
        assert(archives_one(pre, pre));
        refreshed(pre, context)
    } else {
        let id = choose|id: Seq<char>| pre.inactive.dom().contains(id);
        if forall|id: Seq<char>| !pre.inactive.dom().contains(id) {
            assert(pre.inactive.dom() =~= Set::<Seq<char>>::empty());
        }
        assert(pre.inactive.contains_key(id));
        assert(archives_one(pre, archived_one(pre, id)));
        refreshed(archived_one(pre, id), context)
    }
}

/// After an unstake, whatever calls anybody makes in the epoch of the call and in the next, pings
/// included, every withdrawal by that account is refused until the epoch after these.
pub proof fn law_no_call_shortens_the_delay(
    pre: PoolState,
    first: Context,
    amount: Balance,
    states: Seq<PoolState>,
    contexts: Seq<Context>,
    calls: Seq<Call>,
    last: Context,
    withdrawal: Balance,
)
    requires
        pre.wf(),
        is_history(states, contexts, calls),
        unstake_refusal(pre, first, amount) is None,
        unstake_done(pre, first, amount, states[0]),
        forall|i: int|
            0 <= i < calls.len() ==> first.epoch_height <= (#[trigger] contexts[i]).epoch_height <= last.epoch_height,
        last.predecessor_account_id@ == first.predecessor_account_id@,
        last.epoch_height < first.epoch_height + 2,
    ensures
        withdraw_refusal(states.last(), last, withdrawal) is Some,
{
    let id = first.predecessor_account_id@;
    let date = first.epoch_height + 2;
    lemma_unstake_done(pre, first, amount, states[0]);
    let mid = law_unstake_follows_a_ping(pre, first, amount, states[0]);
    lemma_ping_step(pre, first, mid, id);
    lemma_waits(states, contexts, calls, id, date);
    let s = states.last();
    let now = lemma_ping_exists(s, last);
    law_withdrawal_is_granted_if_available(s, last, withdrawal, now);
    if refresh_fits(s, last) {
        lemma_ping_step(s, last, now, id);
    }
}

/// The account has nothing unstaked that has to wait beyond the epoch `date`.
spec fn ready(s: PoolState, id: Seq<char>, date: EpochHeight) -> bool {
    &&& s.wf()
    &&& s.account(id).unstaked_available_epoch_height <= date
}

proof fn lemma_ready(states: Seq<PoolState>, contexts: Seq<Context>, calls: Seq<Call>, id: Seq<char>, date: EpochHeight)
    requires
        is_history(states, contexts, calls),
        ready(states[0], id, date),
        forall|i: int|
            0 <= i < calls.len() ==> !((#[trigger] calls[i]) is Unstake && contexts[i].predecessor_account_id@ == id),
    ensures
        ready(states.last(), id, date),
    decreases calls.len(),
{
    if calls.len() > 0 {
        let n = calls.len() - 1;
        lemma_shorter(states, contexts, calls);
        assert forall|i: int| 0 <= i < n implies !((#[trigger] calls.drop_last()[i]) is Unstake
            && contexts.drop_last()[i].predecessor_account_id@ == id) by {
            assert(calls.drop_last()[i] == calls[i]);
        }
        lemma_ready(states.drop_last(), contexts.drop_last(), calls.drop_last(), id, date);
        assert(!(calls[n] is Unstake && contexts[n].predecessor_account_id@ == id));
        assert(leads(states[n], contexts[n], calls[n], states[n + 1]));
        law_others_take_nothing(states[n], contexts[n], calls[n], states[n + 1], id);
    }
}

/// Once the second epoch after an unstake has come, and whatever calls anybody has made since, a
/// withdrawal of anything that the account has unstaked after a ping is granted if the ping is, unless the
/// account has unstaked again.
pub proof fn law_the_delay_ends(
    pre: PoolState,
    first: Context,
    amount: Balance,
    states: Seq<PoolState>,
    contexts: Seq<Context>,
    calls: Seq<Call>,
    last: Context,
    mid: PoolState,
    withdrawal: Balance,
)
    requires
        pre.wf(),
        is_history(states, contexts, calls),
        unstake_refusal(pre, first, amount) is None,
        unstake_done(pre, first, amount, states[0]),
        forall|i: int|
            0 <= i < calls.len() ==> !((#[trigger] calls[i]) is Unstake && contexts[i].predecessor_account_id@
                == first.predecessor_account_id@),
        last.predecessor_account_id@ == first.predecessor_account_id@,
        last.epoch_height >= first.epoch_height + 2,
        refresh_fits(states.last(), last),
        pinged(states.last(), last, mid),
        0 < withdrawal <= mid.account(last.predecessor_account_id@).unstaked,
    ensures
        withdraw_refusal(states.last(), last, withdrawal) is None,
{
    let id = first.predecessor_account_id@;
    lemma_unstake_done(pre, first, amount, states[0]);
    let after = law_unstake_follows_a_ping(pre, first, amount, states[0]);
    lemma_ready(states, contexts, calls, id, last.epoch_height);
    lemma_ping_step(states.last(), last, mid, id);
    law_withdrawal_is_granted_if_available(states.last(), last, withdrawal, mid);
}

} // verus!
