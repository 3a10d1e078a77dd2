//! Sums of amounts over finite sets of account ids.

use crate::account_map::{
    distinct_keys, has_key, lemma_pair_in_map, lemma_pairs_len, lemma_pairs_push, pairs_map, AccountMap,
};
use crate::types::Balance;
use vstd::prelude::*;

verus! {

/// The sum of the amounts of the keys in a finite set.
pub open spec fn sum_over(keys: Set<Seq<char>>, amount: spec_fn(Seq<char>) -> nat) -> nat
    decreases keys.len(),
{
    if keys.finite() && keys.len() > 0 {
        let key = keys.choose();
        amount(key) + sum_over(keys.remove(key), amount)
    } else {
        0
    }
}

/// The sum of all stakes of a map.
pub open spec fn stake_sum(stakes: Map<Seq<char>, Balance>) -> nat {
    sum_over(stakes.dom(), |id: Seq<char>| stakes[id] as nat)
}

/// Any key of the set may be taken out first.
pub proof fn lemma_sum_remove(keys: Set<Seq<char>>, amount: spec_fn(Seq<char>) -> nat, key: Seq<char>)
    requires
        keys.finite(),
        keys.contains(key),
    ensures
        sum_over(keys, amount) == amount(key) + sum_over(keys.remove(key), amount),
    decreases keys.len(),
{
    let first = keys.choose();
    if first != key {
        lemma_sum_remove(keys.remove(first), amount, key);
        lemma_sum_remove(keys.remove(key), amount, first);
        assert(keys.remove(first).remove(key) =~= keys.remove(key).remove(first));
    }
}

/// More keys with amounts that are no smaller have a sum that is no smaller.
pub proof fn lemma_sum_le(
    keys: Set<Seq<char>>,
    amount: spec_fn(Seq<char>) -> nat,
    more: Set<Seq<char>>,
    larger: spec_fn(Seq<char>) -> nat,
)
    requires
        more.finite(),
        keys.subset_of(more),
        forall|key: Seq<char>| keys.contains(key) ==> amount(key) <= larger(key),
    ensures
        sum_over(keys, amount) <= sum_over(more, larger),
    decreases more.len(),
{
    vstd::set_lib::lemma_len_subset(keys, more);
    if keys.len() > 0 {
        let key = keys.choose();
        lemma_sum_remove(more, larger, key);
        lemma_sum_le(keys.remove(key), amount, more.remove(key), larger);
    }
}

/// Keys outside of the set do not count if their amount is zero.
pub proof fn lemma_sum_le_on_common(
    keys: Set<Seq<char>>,
    amount: spec_fn(Seq<char>) -> nat,
    others: Set<Seq<char>>,
    larger: spec_fn(Seq<char>) -> nat,
)
    requires
        keys.finite(),
        others.finite(),
        forall|key: Seq<char>| #[trigger]
            keys.contains(key) ==> if others.contains(key) {
                amount(key) <= larger(key)
            } else {
                amount(key) == 0
            },
    ensures
        sum_over(keys, amount) <= sum_over(others, larger),
    decreases keys.len(),
{
    if keys.len() > 0 {
        let key = keys.choose();
        assert(keys.contains(key));
        if others.contains(key) {
            lemma_sum_remove(others, larger, key);
            lemma_sum_le_on_common(keys.remove(key), amount, others.remove(key), larger);
        } else {
            lemma_sum_le_on_common(keys.remove(key), amount, others, larger);
        }
    }
}

/// Equal amounts have equal sums.
pub proof fn lemma_sum_same(keys: Set<Seq<char>>, amount: spec_fn(Seq<char>) -> nat, other: spec_fn(Seq<char>) -> nat)
    requires
        keys.finite(),
        forall|key: Seq<char>| keys.contains(key) ==> amount(key) == other(key),
    ensures
        sum_over(keys, amount) == sum_over(keys, other),
{
    lemma_sum_le(keys, amount, keys, other);
    lemma_sum_le(keys, other, keys, amount);
}

/// The sum of sums is the sum of both sums.
pub proof fn lemma_sum_plus(
    keys: Set<Seq<char>>,
    a: spec_fn(Seq<char>) -> nat,
    b: spec_fn(Seq<char>) -> nat,
    both: spec_fn(Seq<char>) -> nat,
)
    requires
        keys.finite(),
        forall|key: Seq<char>| keys.contains(key) ==> both(key) == a(key) + b(key),
    ensures
        sum_over(keys, both) == sum_over(keys, a) + sum_over(keys, b),
    decreases keys.len(),
{
    if keys.len() > 0 {
        let key = keys.choose();
        lemma_sum_plus(keys.remove(key), a, b, both);
    }
}

/// The stakes without the stake of one account.
pub proof fn lemma_stake_sum_remove(stakes: Map<Seq<char>, Balance>, id: Seq<char>)
    requires
        stakes.dom().finite(),
        stakes.contains_key(id),
    ensures
        stake_sum(stakes) == stakes[id] + stake_sum(stakes.remove(id)),
        stakes[id] <= stake_sum(stakes),
{
    let amount = |k: Seq<char>| stakes[k] as nat;
    let rest = stakes.remove(id);
    lemma_sum_remove(stakes.dom(), amount, id);
    assert(rest.dom() =~= stakes.dom().remove(id));
    lemma_sum_same(rest.dom(), amount, |k: Seq<char>| rest[k] as nat);
}

/// The stakes with the stake of one account set.
pub proof fn lemma_stake_sum_insert(stakes: Map<Seq<char>, Balance>, id: Seq<char>, stake: Balance)
    requires
        stakes.dom().finite(),
    ensures
        stake_sum(stakes.insert(id, stake)) == stake + stake_sum(stakes.remove(id)),
        !stakes.contains_key(id) ==> stake_sum(stakes.insert(id, stake)) == stake + stake_sum(stakes),
{
    let more = stakes.insert(id, stake);
    lemma_stake_sum_remove(more, id);
    assert(more.remove(id) =~= stakes.remove(id));
    if !stakes.contains_key(id) {
        assert(stakes.remove(id) =~= stakes);
    }
}

/// The sum of the stakes, or nothing where it does not fit.
pub fn checked_stake_sum(stakes: &AccountMap<Balance>) -> (sum: Option<Balance>)
    requires
        stakes.wf(),
    ensures
        sum == (if stake_sum(stakes@) <= u128::MAX {
            Some(stake_sum(stakes@) as u128)
        } else {
            None
        }),
{
    let mut sum: Balance = 0;
    let mut i: usize = 0;
    let n: usize = stakes.len();
    let ghost pairs = stakes.pairs();
    proof {
        assert(pairs_map(pairs.take(0)).dom() =~= Set::empty());
    }
    while i < n
        invariant
            stakes.wf(),
            pairs == stakes.pairs(),
            n == pairs.len(),
            i <= n,
            sum == stake_sum(pairs_map(pairs.take(i as int))),
        decreases n - i,
    {
        let (_, stake) = stakes.entry(i);
        proof {
            lemma_prefix_sum(pairs, i as int);
        }
        match sum.checked_add(stake) {
            Some(more) => {
                sum = more;
            },
            None => {
                return None;
            },
        }
        i += 1;
    }
    assert(pairs.take(n as int) =~= pairs);
    Some(sum)
}

proof fn lemma_prefix_sum(pairs: Seq<(Seq<char>, Balance)>, i: int)
    requires
        distinct_keys(pairs),
        0 <= i < pairs.len(),
    ensures
        stake_sum(pairs_map(pairs.take(i + 1))) == stake_sum(pairs_map(pairs.take(i))) + pairs[i].1,
        stake_sum(pairs_map(pairs.take(i + 1))) <= stake_sum(pairs_map(pairs)),
{
    let before = pairs.take(i);
    let after = pairs.take(i + 1);
    assert(after =~= before.push(pairs[i]));
    assert(!has_key(before, pairs[i].0));
    lemma_pairs_len(before);
    lemma_pairs_push(before, pairs[i].0, pairs[i].1);
    lemma_stake_sum_insert(pairs_map(before), pairs[i].0, pairs[i].1);
    lemma_pairs_len(pairs);
    assert forall|k: Seq<char>| #[trigger] pairs_map(after).contains_key(k) implies pairs_map(pairs).contains_key(k)
        && pairs_map(after)[k] == pairs_map(pairs)[k] by {
        let p = crate::account_map::position(after, k);
        assert(after[p].0 == k);
        lemma_pair_in_map(after, p);
        lemma_pair_in_map(pairs, p);
    }
    lemma_sum_le(
        pairs_map(after).dom(),
        |k: Seq<char>| pairs_map(after)[k] as nat,
        pairs_map(pairs).dom(),
        |k: Seq<char>| pairs_map(pairs)[k] as nat,
    );
}

} // verus!
