use staking_pool::muldiv::mul_div;
use staking_pool::sums::checked_stake_sum;
use staking_pool::{Account, AccountMap, EpochInfo};

#[test]
fn mul_div_is_exact_for_large_products() {
    let max = u128::max_value();
    assert_eq!(mul_div(7, 3, 2), 10);
    assert_eq!(mul_div(0, 3, 2), 0);
    assert_eq!(mul_div(max, max, max), max);
    assert_eq!(mul_div(max, max - 1, max), max - 1);
    assert_eq!(mul_div(max, 1, 3), max / 3);
    assert_eq!(mul_div((1 << 127) - 1, 6, 3), u128::max_value() - 1);
    assert_eq!(mul_div(1_000_000_000_000_000_000_000_000_000, 999_999_999_999_999_999, 1_000_000_000_000_000_000), 999_999_999_999_999_999_000_000_000);
}

#[test]
fn an_account_map_keeps_one_value_for_each_account() {
    let mut map: AccountMap<u128> = AccountMap::new();
    assert_eq!(map.insert("a".to_string(), 1), None);
    assert_eq!(map.insert("b".to_string(), 2), None);
    assert_eq!(map.insert("c".to_string(), 3), None);
    assert_eq!(map.insert("a".to_string(), 4), Some(1));
    assert_eq!(map.len(), 3);
    assert_eq!(map.get(&"a".to_string()), Some(4));
    assert_eq!(map.get(&"d".to_string()), None);
    assert_eq!(map.remove(&"a".to_string()), Some(4));
    assert_eq!(map.remove(&"a".to_string()), None);
    assert!(!map.contains_key(&"a".to_string()));
    assert!(map.contains_key(&"b".to_string()));
    assert_eq!(map.get(&"c".to_string()), Some(3));
    let mut left = vec![];
    while let Some(entry) = map.pop() {
        left.push(entry);
    }
    left.sort();
    assert_eq!(left, vec![("b".to_string(), 2), ("c".to_string(), 3)]);
    assert_eq!(map.len(), 0);
}

#[test]
fn the_sum_of_stakes() {
    let mut map: AccountMap<u128> = AccountMap::new();
    assert_eq!(checked_stake_sum(&map), Some(0));
    map.insert("a".to_string(), 1);
    map.insert("b".to_string(), u128::max_value() - 1);
    assert_eq!(checked_stake_sum(&map), Some(u128::max_value()));
    map.insert("c".to_string(), 1);
    assert_eq!(checked_stake_sum(&map), None);
}

#[test]
fn new_values_are_empty() {
    let account = Account::new();
    assert_eq!(account.staked, 0);
    assert_eq!(account.unstaked, 0);
    assert_eq!(account.unstaked_available_epoch_height, 0);
    let epoch_info = EpochInfo::new(7);
    assert_eq!(epoch_info.epoch_height, 7);
    assert_eq!(epoch_info.stakes.len(), 0);
}
