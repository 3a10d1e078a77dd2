//! A map from account ids to values, kept as a list of entries in which no account id occurs twice.

use crate::types::AccountId;
use vstd::prelude::*;

verus! {

/// No key occurs twice in the list.
pub open spec fn distinct_keys<V>(pairs: Seq<(Seq<char>, V)>) -> bool {
    forall|i: int, j: int| 0 <= i < j < pairs.len() ==> pairs[i].0 != pairs[j].0
}

/// Some entry of the list has the key.
pub open spec fn has_key<V>(pairs: Seq<(Seq<char>, V)>, key: Seq<char>) -> bool {
    exists|i: int| 0 <= i < pairs.len() && pairs[i].0 == key
}

/// The position of an entry that has the key.
pub open spec fn position<V>(pairs: Seq<(Seq<char>, V)>, key: Seq<char>) -> int {
    choose|i: int| 0 <= i < pairs.len() && pairs[i].0 == key
}

/// The map that a list of entries stands for.
pub open spec fn pairs_map<V>(pairs: Seq<(Seq<char>, V)>) -> Map<Seq<char>, V> {
    Map::new(|key: Seq<char>| has_key(pairs, key), |key: Seq<char>| pairs[position(pairs, key)].1)
}

/// An entry of the list is an entry of the map.
pub proof fn lemma_pair_in_map<V>(pairs: Seq<(Seq<char>, V)>, i: int)
    requires
        distinct_keys(pairs),
        0 <= i < pairs.len(),
    ensures
        pairs_map(pairs).contains_key(pairs[i].0),
        pairs_map(pairs)[pairs[i].0] == pairs[i].1,
{
    let key = pairs[i].0;
    assert(has_key(pairs, key));
    let p = position(pairs, key);
    assert(0 <= p < pairs.len() && pairs[p].0 == key);
    assert(p == i);
}

/// Appending an entry with a new key inserts it into the map.
pub proof fn lemma_pairs_push<V>(pairs: Seq<(Seq<char>, V)>, key: Seq<char>, value: V)
    requires
        distinct_keys(pairs),
        !has_key(pairs, key),
    ensures
        distinct_keys(pairs.push((key, value))),
        pairs_map(pairs.push((key, value))) == pairs_map(pairs).insert(key, value),
        !pairs_map(pairs).contains_key(key),
{
    let more = pairs.push((key, value));
    assert forall|i: int, j: int| 0 <= i < j < more.len() implies more[i].0 != more[j].0 by {
        if j == pairs.len() {
            assert(pairs[i].0 != key);
        }
    }
    assert forall|k: Seq<char>| pairs_map(more).contains_key(k) == pairs_map(pairs).insert(key, value).contains_key(k) by {
        if has_key(more, k) {
            let i = position(more, k);
            if i < pairs.len() {
                assert(pairs[i].0 == k);
            }
        }
        if has_key(pairs, k) {
            assert(more[position(pairs, k)].0 == k);
        }
        if k == key {
            assert(more[pairs.len() as int].0 == k);
        }
    }
    assert forall|k: Seq<char>| pairs_map(more).contains_key(k) implies pairs_map(more)[k] == pairs_map(pairs).insert(key, value)[k] by {
        let i = position(more, k);
        assert(0 <= i < more.len() && more[i].0 == k);
        lemma_pair_in_map(more, i);
        if i < pairs.len() {
            assert(pairs[i] == more[i]);
            lemma_pair_in_map(pairs, i);
        }
    }
    assert(pairs_map(more) =~= pairs_map(pairs).insert(key, value));
}

/// The map has one key for each entry of the list.
pub proof fn lemma_pairs_len<V>(pairs: Seq<(Seq<char>, V)>)
    requires
        distinct_keys(pairs),
    ensures
        pairs_map(pairs).dom().finite(),
        pairs_map(pairs).len() == pairs.len(),
    decreases pairs.len(),
{
    if pairs.len() == 0 {
        assert(pairs_map(pairs) =~= Map::<Seq<char>, V>::empty());
    } else {
        let fewer = pairs.drop_last();
        let last = pairs.last();
        assert(!has_key(fewer, last.0));
        lemma_pairs_len(fewer);
        lemma_pairs_push(fewer, last.0, last.1);
        assert(fewer.push((last.0, last.1)) =~= pairs);
        assert(pairs_map(pairs).dom() =~= pairs_map(fewer).dom().insert(last.0));
    }
}

/// A map from account ids to values.
pub struct AccountMap<V> {
    entries: Vec<(AccountId, V)>,
}

impl<V> AccountMap<V> {
    /// The entries in the order in which they are kept.
    pub closed spec fn pairs(&self) -> Seq<(Seq<char>, V)> {
        self.entries@.map_values(|entry: (AccountId, V)| (entry.0@, entry.1))
    }

    /// No account id occurs twice.
    pub open spec fn wf(&self) -> bool {
        distinct_keys(self.pairs())
    }
}

impl<V> View for AccountMap<V> {
    type V = Map<Seq<char>, V>;

    open spec fn view(&self) -> Map<Seq<char>, V> {
        pairs_map(self.pairs())
    }
}

impl<V: Copy> AccountMap<V> {
    /// A map without entries.
    pub fn new() -> (map: Self)
        ensures
            map.wf(),
            map@ == Map::<Seq<char>, V>::empty(),
    {
        let map = AccountMap { entries: Vec::new() };
        assert(map@ =~= Map::<Seq<char>, V>::empty());
        map
    }

    /// The number of entries.
    pub fn len(&self) -> (len: usize)
        requires
            self.wf(),
        ensures
            len == self@.len(),
            len == self.pairs().len(),
            self@.dom().finite(),
    {
        proof {
            lemma_pairs_len(self.pairs());
        }
        self.entries.len()
    }

    /// The entry at a position.
    pub fn entry(&self, i: usize) -> (entry: (&AccountId, V))
        requires
            self.wf(),
            i < self.pairs().len(),
        ensures
            entry.0@ == self.pairs()[i as int].0,
            entry.1 == self.pairs()[i as int].1,
            self@.contains_key(entry.0@),
            self@[entry.0@] == entry.1,
    {
        proof {
            lemma_pair_in_map(self.pairs(), i as int);
        }
        (&self.entries[i].0, self.entries[i].1)
    }

    fn find(&self, account_id: &AccountId) -> (found: Option<usize>)
        requires
            self.wf(),
        ensures
            match found {
                Some(i) => i < self.entries@.len() && self.entries@[i as int].0@ == account_id@,
                None => !has_key(self.pairs(), account_id@),
            },
    {
        let mut i: usize = 0;
        while i < self.entries.len()
            invariant
                i <= self.entries@.len(),
                forall|j: int| 0 <= j < i ==> (#[trigger] self.pairs()[j]).0 != account_id@,
            decreases self.entries@.len() - i,
        {
            if self.entries[i].0 == *account_id {
                return Some(i);
            }
            i += 1;
        }
        None
    }

    /// Whether the account id has an entry.
    pub fn contains_key(&self, account_id: &AccountId) -> (res: bool)
        requires
            self.wf(),
        ensures
            res == self@.contains_key(account_id@),
    {
        match self.find(account_id) {
            Some(i) => {
                assert(self.pairs()[i as int].0 == account_id@);
                true
            },
            None => false,
        }
    }

    /// The value of an account id.
    pub fn get(&self, account_id: &AccountId) -> (value: Option<V>)
        requires
            self.wf(),
        ensures
            value == (if self@.contains_key(account_id@) {
                Some(self@[account_id@])
            } else {
                None
            }),
    {
        match self.find(account_id) {
            Some(i) => {
                proof {
                    lemma_pair_in_map(self.pairs(), i as int);
                }
                Some(self.entries[i].1)
            },
            None => None,
        }
    }

    /// Sets the value of an account id, and gives back the one that it replaces.
    pub fn insert(&mut self, account_id: AccountId, value: V) -> (replaced: Option<V>)
        requires
            old(self).wf(),
        ensures
            final(self).wf(),
            final(self)@ == old(self)@.insert(account_id@, value),
            replaced == (if old(self)@.contains_key(account_id@) {
                Some(old(self)@[account_id@])
            } else {
                None
            }),
    {
        let ghost before = self.pairs();
        match self.find(&account_id) {
            Some(i) => {
                let replaced = self.entries[i].1;
                let ghost key = account_id@;
                self.entries.set(i, (account_id, value));
                proof {
                    let after = self.pairs();
                    assert(after =~= before.update(i as int, (key, value)));
                    lemma_pair_in_map(before, i as int);
                    assert forall|k: Seq<char>| pairs_map(after).contains_key(k) == pairs_map(before).insert(key, value).contains_key(k) by {
                        if has_key(after, k) {
                            assert(before[position(after, k)].0 == k);
                        }
                        if has_key(before, k) {
                            assert(after[position(before, k)].0 == k);
                        }
                    }
                    assert forall|k: Seq<char>| pairs_map(after).contains_key(k) implies pairs_map(after)[k] == pairs_map(before).insert(key, value)[k] by {
                        let p = position(after, k);
                        lemma_pair_in_map(after, p);
                        lemma_pair_in_map(before, p);
                    }
                    assert(self@ =~= pairs_map(before).insert(key, value));
                }
                Some(replaced)
            },
            None => {
                let ghost key = account_id@;
                self.entries.push((account_id, value));
                proof {
                    assert(self.pairs() =~= before.push((key, value)));
                    lemma_pairs_push(before, key, value);
                }
                None
            },
        }
    }

    /// Takes the entry of an account id out.
    pub fn remove(&mut self, account_id: &AccountId) -> (removed: Option<V>)
        requires
            old(self).wf(),
        ensures
            final(self).wf(),
            final(self)@ == old(self)@.remove(account_id@),
            removed == (if old(self)@.contains_key(account_id@) {
                Some(old(self)@[account_id@])
            } else {
                None
            }),
    {
        let ghost before = self.pairs();
        match self.find(account_id) {
            Some(i) => {
                let (_, value) = self.entries.swap_remove(i);
                proof {
                    let after = self.pairs();
                    let last = before.len() - 1;
                    assert(after =~= before.update(i as int, before.last()).drop_last());
                    lemma_pair_in_map(before, i as int);
                    assert forall|k: Seq<char>| pairs_map(after).contains_key(k) == pairs_map(before).remove(account_id@).contains_key(k) by {
                        if has_key(after, k) {
                            let p = position(after, k);
                            assert(after[p].0 == k);
                            assert(before[if p == i { last } else { p }].0 == k);
                        }
                        if has_key(before, k) && k != account_id@ {
                            let p = position(before, k);
                            assert(after[if p == last { i as int } else { p }].0 == k);
                        }
                    }
                    assert forall|k: Seq<char>| pairs_map(after).contains_key(k) implies pairs_map(after)[k] == pairs_map(before).remove(account_id@)[k] by {
                        let p = position(after, k);
                        lemma_pair_in_map(after, p);
                        lemma_pair_in_map(before, if p == i { last } else { p });
                    }
                    assert(self@ =~= pairs_map(before).remove(account_id@));
                }
                Some(value)
            },
            None => {
                assert(self@ =~= self@.remove(account_id@));
                None
            },
        }
    }

    /// Takes some entry out, if there is one. Which one it is, is left open.
    pub fn pop(&mut self) -> (popped: Option<(AccountId, V)>)
        requires
            old(self).wf(),
        ensures
            final(self).wf(),
            match popped {
                Some((account_id, value)) => {
                    &&& old(self)@.contains_key(account_id@)
                    &&& old(self)@[account_id@] == value
                    &&& final(self)@ == old(self)@.remove(account_id@)
                },
                None => old(self)@ == Map::<Seq<char>, V>::empty() && final(self)@ == old(self)@,
            },
            final(self).pairs().len() == old(self).pairs().len() - (if popped is Some { 1int } else { 0int }),
    {
        let ghost before = self.pairs();
        match self.entries.pop() {
            Some((account_id, value)) => {
                proof {
                    let after = self.pairs();
                    assert(before.last() == (account_id@, value));
                    assert(after =~= before.drop_last());
                    assert(!has_key(after, account_id@));
                    lemma_pairs_push(after, account_id@, value);
                    assert(after.push((account_id@, value)) =~= before);
                    assert(self@ =~= pairs_map(before).remove(account_id@));
                    lemma_pair_in_map(before, before.len() - 1);
                }
                Some((account_id, value))
            },
            None => {
                assert(self@ =~= Map::<Seq<char>, V>::empty());
                None
            },
        }
    }
}

} // verus!
