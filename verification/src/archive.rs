//! The accounts that are kept on the chain's trie, one by one, outside the pool's own state.
//!
//! The trie is reached through the host. Where a limit of the host is exceeded (the gas of the call,
//! the length of a key), the host ends the whole call and discards what it did.

use crate::types::{Account, AccountId, Balance, EpochHeight};
use near_sdk::collections::UnorderedMap;
use vstd::prelude::*;

verus! {

/// The fields of an archived account, in the order in which [`Account`] declares them.
pub type ArchivedAccount = (Balance, Balance, EpochHeight);

/// A map from account ids to archived accounts that lives on the trie.
pub type Archive = UnorderedMap<AccountId, ArchivedAccount>;

/// `near_sdk::collections::UnorderedMap`, of which nothing is known but what the functions below
/// state.
#[verifier::external_type_specification]
#[verifier::external_body]
#[verifier::reject_recursive_types(K)]
#[verifier::reject_recursive_types(V)]
pub struct ExUnorderedMap<K, V>(UnorderedMap<K, V>);

/// The entries of an archive. They are kept on the trie under the prefix that the archive was made
/// with, and nothing else writes there: the archive is opened once, by whoever sets the pool up, and
/// nothing here opens or copies one.
pub uninterp spec fn archive_entries(archive: UnorderedMap<String, (u128, u128, u64)>) -> Map<Seq<char>, (u128, u128, u64)>;

/// `UnorderedMap::get`. The claim: it gives the value of the key, or nothing where the map does
/// not have the key.
#[verifier::external_body]
pub(crate) fn archive_get(archive: &Archive, account_id: &AccountId) -> (entry: Option<ArchivedAccount>)
    ensures
        entry == (if archive_entries(*archive).contains_key(account_id@) {
            Some(archive_entries(*archive)[account_id@])
        } else {
            None
        }),
{
    archive.get(account_id)
}

/// `UnorderedMap::insert`. The claim: the key has the new value, every other key is as it was, and
/// the value that the key had before is given back.
#[verifier::external_body]
pub(crate) fn archive_insert(archive: &mut Archive, account_id: &AccountId, entry: ArchivedAccount) -> (replaced: Option<ArchivedAccount>)
    ensures
        archive_entries(*final(archive)) == archive_entries(*old(archive)).insert(account_id@, entry),
        replaced == (if archive_entries(*old(archive)).contains_key(account_id@) {
            Some(archive_entries(*old(archive))[account_id@])
        } else {
            None
        }),
{
    archive.insert(account_id, &entry)
}

/// `UnorderedMap::remove`. The claim: the key is gone, every other key is as it was, and the value
/// that the key had is given back.
#[verifier::external_body]
pub(crate) fn archive_remove(archive: &mut Archive, account_id: &AccountId) -> (removed: Option<ArchivedAccount>)
    ensures
        archive_entries(*final(archive)) == archive_entries(*old(archive)).remove(account_id@),
        removed == (if archive_entries(*old(archive)).contains_key(account_id@) {
            Some(archive_entries(*old(archive))[account_id@])
        } else {
            None
        }),
{
    archive.remove(account_id)
}

/// The account that an entry of the archive stands for.
pub open spec fn unpacked(entry: ArchivedAccount) -> Account {
    Account { unstaked: entry.0, staked: entry.1, unstaked_available_epoch_height: entry.2 }
}

/// The archived accounts.
pub open spec fn archived_accounts(archive: Archive) -> Map<Seq<char>, Account> {
    archive_entries(archive).map_values(|entry: ArchivedAccount| unpacked(entry))
}

/// The account with the id in the archive.
pub(crate) fn find_archived(archive: &Archive, account_id: &AccountId) -> (account: Option<Account>)
    ensures
        account == (if archived_accounts(*archive).contains_key(account_id@) {
            Some(archived_accounts(*archive)[account_id@])
        } else {
            None
        }),
{
    match archive_get(archive, account_id) {
        Some((unstaked, staked, unstaked_available_epoch_height)) => Some(
            Account { unstaked, staked, unstaked_available_epoch_height },
        ),
        None => None,
    }
}

/// Puts an account into the archive.
pub(crate) fn store_archived(archive: &mut Archive, account_id: &AccountId, account: Account)
    ensures
        archived_accounts(*final(archive)) == archived_accounts(*old(archive)).insert(account_id@, account),
{
    let entry = (account.unstaked, account.staked, account.unstaked_available_epoch_height);
    let _ = archive_insert(archive, account_id, entry);
    assert(unpacked(entry) == account);
    assert(archived_accounts(*archive) =~= archived_accounts(*old(archive)).insert(account_id@, account));
}

/// Takes the account with the id out of the archive.
pub(crate) fn take_archived(archive: &mut Archive, account_id: &AccountId) -> (account: Option<Account>)
    ensures
        archived_accounts(*final(archive)) == archived_accounts(*old(archive)).remove(account_id@),
        account == (if archived_accounts(*old(archive)).contains_key(account_id@) {
            Some(archived_accounts(*old(archive))[account_id@])
        } else {
            None
        }),
{
    let removed = archive_remove(archive, account_id);
    assert(archived_accounts(*archive) =~= archived_accounts(*old(archive)).remove(account_id@));
    match removed {
        Some((unstaked, staked, unstaked_available_epoch_height)) => Some(
            Account { unstaked, staked, unstaked_available_epoch_height },
        ),
        None => None,
    }
}

} // verus!
