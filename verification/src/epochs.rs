//! The epochs that a pool counts, and the rewards on them.

use crate::account_map::AccountMap;
use crate::invariants::lemma_matured_stake_le;
use crate::model::{matured, matured_stake, matured_total, share, staked_in};
use crate::muldiv::mul_div;
use crate::sums::checked_stake_sum;
use crate::types::{Account, AccountId, Balance, EpochHeight, EpochInfo, EpochState, EPOCHS_TOWARDS_REWARD};
use vstd::prelude::*;

verus! {

/// The epochs as mathematical values.
pub open spec fn epoch_states(epochs: Seq<EpochInfo>) -> Seq<EpochState> {
    epochs.map_values(|epoch: EpochInfo| epoch@)
}

/// The stakes of every epoch are a proper map.
pub open spec fn epochs_wf(epochs: Seq<EpochInfo>) -> bool {
    forall|i: int| 0 <= i < epochs.len() ==> (#[trigger] epochs[i]).stakes.wf()
}

/// The first epoch after which the stakes of an epoch are rewarded can be computed.
pub open spec fn heights_fit(epochs: Seq<EpochState>) -> bool {
    forall|i: int| 0 <= i < epochs.len() ==> (#[trigger] epochs[i]).epoch_height + EPOCHS_TOWARDS_REWARD <= u64::MAX
}

proof fn lemma_prefix(epochs: Seq<EpochState>, height: EpochHeight, id: Seq<char>, i: int)
    requires
        0 <= i < epochs.len(),
    ensures
        matured_stake(epochs.take(i + 1), height, id) == matured_stake(epochs.take(i), height, id) + if matured(
            epochs[i],
            height,
        ) && epochs[i].stakes.contains_key(id) {
            epochs[i].stakes[id] as nat
        } else {
            0
        },
        matured_total(epochs.take(i + 1), height) == matured_total(epochs.take(i), height) + if matured(epochs[i], height) {
            crate::sums::stake_sum(epochs[i].stakes)
        } else {
            0
        },
{
    assert(epochs.take(i + 1).drop_last() =~= epochs.take(i));
    assert(epochs.take(i + 1).last() == epochs[i]);
}

proof fn lemma_prefix_le(epochs: Seq<EpochState>, height: EpochHeight, id: Seq<char>, i: int)
    requires
        0 <= i <= epochs.len(),
    ensures
        matured_stake(epochs.take(i), height, id) <= matured_stake(epochs, height, id),
        matured_total(epochs.take(i), height) <= matured_total(epochs, height),
    decreases epochs.len() - i,
{
    if i == epochs.len() {
        assert(epochs.take(i) =~= epochs);
    } else {
        lemma_prefix(epochs, height, id, i);
        lemma_prefix_le(epochs, height, id, i + 1);
    }
}

/// Whether the account is staked in one of the epochs.
pub(crate) fn is_staked_in(epochs: &Vec<EpochInfo>, account_id: &AccountId) -> (res: bool)
    requires
        epochs_wf(epochs@),
    ensures
        res == staked_in(epoch_states(epochs@), account_id@),
{
    let mut i: usize = 0;
    while i < epochs.len()
        invariant
            epochs_wf(epochs@),
            i <= epochs@.len(),
            forall|j: int| 0 <= j < i ==> !(#[trigger] epoch_states(epochs@)[j]).stakes.contains_key(account_id@),
        decreases epochs@.len() - i,
    {
        if epochs[i].stakes.contains_key(account_id) {
            assert(epoch_states(epochs@)[i as int].stakes.contains_key(account_id@));
            return true;
        }
        i += 1;
    }
    false
}

/// The stakes of all accounts over all matured epochs, or nothing where that, or an epoch height on
/// the way to it, does not fit.
pub(crate) fn checked_matured_total(epochs: &Vec<EpochInfo>, height: EpochHeight) -> (total: Option<Balance>)
    requires
        epochs_wf(epochs@),
    ensures
        total == (if heights_fit(epoch_states(epochs@)) && matured_total(epoch_states(epochs@), height) <= u128::MAX {
            Some(matured_total(epoch_states(epochs@), height) as u128)
        } else {
            None
        }),
{
    let ghost states = epoch_states(epochs@);
    let mut total: Balance = 0;
    let mut i: usize = 0;
    while i < epochs.len()
        invariant
            epochs_wf(epochs@),
            states == epoch_states(epochs@),
            i <= epochs@.len(),
            total == matured_total(states.take(i as int), height),
            forall|j: int| 0 <= j < i ==> (#[trigger] states[j]).epoch_height + EPOCHS_TOWARDS_REWARD <= u64::MAX,
        decreases epochs@.len() - i,
    {
        proof {
            lemma_prefix(states, height, Seq::empty(), i as int);
            lemma_prefix_le(states, height, Seq::empty(), i + 1);
        }
        assert(states[i as int] == epochs@[i as int]@);
        match epochs[i].epoch_height.checked_add(EPOCHS_TOWARDS_REWARD) {
            Some(matures_at) => {
                if matures_at <= height {
                    match checked_stake_sum(&epochs[i].stakes) {
                        Some(sum) => match total.checked_add(sum) {
                            Some(more) => {
                                total = more;
                            },
                            None => {
                                return None;
                            },
                        },
                        None => {
                            return None;
                        },
                    }
                }
            },
            None => {
                return None;
            },
        }
        i += 1;
    }
    assert(states.take(i as int) =~= states);
    Some(total)
}

/// The stakes of an account over all matured epochs.
pub(crate) fn matured_stake_of(epochs: &Vec<EpochInfo>, height: EpochHeight, account_id: &AccountId) -> (stake: Balance)
    requires
        epochs_wf(epochs@),
        heights_fit(epoch_states(epochs@)),
        matured_total(epoch_states(epochs@), height) <= u128::MAX,
    ensures
        stake == matured_stake(epoch_states(epochs@), height, account_id@),
        stake <= matured_total(epoch_states(epochs@), height),
{
    let ghost states = epoch_states(epochs@);
    proof {
        lemma_epochs_finite(epochs@);
        lemma_matured_stake_le(states, height, account_id@);
    }
    let mut stake: Balance = 0;
    let mut i: usize = 0;
    while i < epochs.len()
        invariant
            epochs_wf(epochs@),
            states == epoch_states(epochs@),
            heights_fit(states),
            matured_stake(states, height, account_id@) <= u128::MAX,
            i <= epochs@.len(),
            stake == matured_stake(states.take(i as int), height, account_id@),
        decreases epochs@.len() - i,
    {
        proof {
            lemma_prefix(states, height, account_id@, i as int);
            lemma_prefix_le(states, height, account_id@, i + 1);
        }
        assert(states[i as int] == epochs@[i as int]@);
        if epochs[i].epoch_height + EPOCHS_TOWARDS_REWARD <= height {
            match epochs[i].stakes.get(account_id) {
                Some(more) => {
                    stake = stake + more;
                },
                None => {},
            }
        }
        i += 1;
    }
    assert(states.take(i as int) =~= states);
    stake
}

/// The stakes of an epoch are finitely many.
pub proof fn lemma_epochs_finite(epochs: Seq<EpochInfo>)
    requires
        epochs_wf(epochs),
    ensures
        forall|i: int| 0 <= i < epoch_states(epochs).len() ==> (#[trigger] epoch_states(epochs)[i]).stakes.dom().finite(),
{
    assert forall|i: int| 0 <= i < epoch_states(epochs).len() implies (#[trigger] epoch_states(
        epochs,
    )[i]).stakes.dom().finite() by {
        assert(epochs[i].stakes.wf());
        crate::account_map::lemma_pairs_len(epochs[i].stakes.pairs());
    }
}

/// The part of `pot` that is due to `part` of `whole`, rounded down.
pub(crate) fn share_of(pot: Balance, part: Balance, whole: Balance) -> (due: Balance)
    requires
        part <= whole,
    ensures
        due == share(pot as nat, part as nat, whole as nat),
        due <= pot,
{
    proof {
        crate::invariants::lemma_share_le(pot as nat, part as nat, whole as nat);
    }
    if whole == 0 {
        0
    } else {
        mul_div(pot, part, whole)
    }
}

/// Drops the matured epochs.
pub(crate) fn drop_matured(epochs: &mut Vec<EpochInfo>, height: EpochHeight)
    requires
        epochs_wf(old(epochs)@),
        heights_fit(epoch_states(old(epochs)@)),
    ensures
        epochs_wf(final(epochs)@),
        epoch_states(final(epochs)@) == epoch_states(old(epochs)@).filter(|epoch: EpochState| !matured(epoch, height)),
{
    let ghost states = epoch_states(epochs@);
    let ghost keep = |epoch: EpochState| !matured(epoch, height);
    let ghost mut n: int = 0;
    let mut i: usize = 0;
    proof {
        reveal(Seq::filter);
        assert(states.take(0).filter(keep) =~= Seq::empty());
        assert(epoch_states(epochs@) =~= states.take(0).filter(keep) + states.skip(0));
    }
    while i < epochs.len()
        invariant
            keep == (|epoch: EpochState| !matured(epoch, height)),
            0 <= n <= states.len(),
            epochs_wf(epochs@),
            heights_fit(states),
            epoch_states(epochs@) == states.take(n).filter(keep) + states.skip(n),
            i == states.take(n).filter(keep).len(),
        decreases states.len() - n,
    {
        let ghost front = states.take(n).filter(keep);
        let ghost before = epochs@;
        assert(epoch_states(epochs@)[i as int] == states[n]);
        assert(epochs@[i as int]@ == states[n]);
        proof {
            lemma_filter_step(states, keep, n);
        }
        if epochs[i].epoch_height + EPOCHS_TOWARDS_REWARD <= height {
            let _ = epochs.remove(i);
            assert(epoch_states(epochs@) =~= epoch_states(before).remove(i as int));
            assert(epoch_states(epochs@) =~= front + states.skip(n + 1));
        } else {
            assert(epoch_states(epochs@) =~= front.push(states[n]) + states.skip(n + 1));
            i += 1;
        }
        proof {
            n = n + 1;
        }
    }
    proof {
        assert(states.skip(n) =~= Seq::empty());
        assert(states.take(n) =~= states);
        assert(epoch_states(epochs@) =~= states.filter(keep));
    }
}

proof fn lemma_filter_step<A>(s: Seq<A>, keep: spec_fn(A) -> bool, n: int)
    requires
        0 <= n < s.len(),
    ensures
        s.take(n + 1).filter(keep) == if keep(s[n]) {
            s.take(n).filter(keep).push(s[n])
        } else {
            s.take(n).filter(keep)
        },
{
    reveal(Seq::filter);
    assert(s.take(n + 1).drop_last() =~= s.take(n));
    assert(s.take(n + 1).last() == s[n]);
}

/// Parts the accounts: those that are staked in one of the epochs are given back, the others are
/// added to `inactive`.
pub(crate) fn split_accounts(accounts: AccountMap<Account>, epochs: &Vec<EpochInfo>, inactive: &mut AccountMap<Account>) -> (active:
    AccountMap<Account>)
    requires
        accounts.wf(),
        epochs_wf(epochs@),
        old(inactive).wf(),
    ensures
        active.wf(),
        active@ == Map::new(
            |id: Seq<char>| accounts@.contains_key(id) && staked_in(epoch_states(epochs@), id),
            |id: Seq<char>| accounts@[id],
        ),
        final(inactive).wf(),
        final(inactive)@ == old(inactive)@.union_prefer_right(
            Map::new(
                |id: Seq<char>| accounts@.contains_key(id) && !staked_in(epoch_states(epochs@), id),
                |id: Seq<char>| accounts@[id],
            ),
        ),
{
    let ghost all = accounts@;
    let ghost waiting = inactive@;
    let ghost states = epoch_states(epochs@);
    let mut rest = accounts;
    let mut active: AccountMap<Account> = AccountMap::new();
    loop
        invariant
            epochs_wf(epochs@),
            states == epoch_states(epochs@),
            rest.wf(),
            active.wf(),
            inactive.wf(),
            forall|id: Seq<char>| #[trigger] rest@.contains_key(id) ==> all.contains_key(id) && rest@[id] == all[id],
            forall|id: Seq<char>| #[trigger]
                active@.contains_key(id) <==> all.contains_key(id) && !rest@.contains_key(id) && staked_in(states, id),
            forall|id: Seq<char>| #[trigger] active@.contains_key(id) ==> active@[id] == all[id],
            forall|id: Seq<char>| #[trigger]
                inactive@.contains_key(id) <==> waiting.contains_key(id) || (all.contains_key(id) && !rest@.contains_key(id)
                    && !staked_in(states, id)),
            forall|id: Seq<char>| #[trigger]
                inactive@.contains_key(id) ==> inactive@[id] == if all.contains_key(id) && !rest@.contains_key(id)
                    && !staked_in(states, id) {
                    all[id]
                } else {
                    waiting[id]
                },
        ensures
            rest@ == Map::<Seq<char>, Account>::empty(),
        decreases rest.pairs().len(),
    {
        match rest.pop() {
            Some((account_id, account)) => {
                if is_staked_in(epochs, &account_id) {
                    active.insert(account_id, account);
                } else {
                    inactive.insert(account_id, account);
                }
            },
            None => {
                break;
            },
        }
    }
    proof {
        assert(active@ =~= Map::new(
            |id: Seq<char>| all.contains_key(id) && staked_in(states, id),
            |id: Seq<char>| all[id],
        ));
        assert(inactive@ =~= waiting.union_prefer_right(
            Map::new(
                |id: Seq<char>| all.contains_key(id) && !staked_in(states, id),
                |id: Seq<char>| all[id],
            ),
        ));
    }
    active
}

} // verus!
