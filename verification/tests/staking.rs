use near_sdk::collections::UnorderedMap;
use near_sdk::json_types::Base58PublicKey;
use near_sdk::{MockedBlockchain, VMContext};
use staking_pool::{Archive, Balance, Context, EpochHeight, PromiseAction, StakingContract, StakingError};
use std::convert::TryFrom;

const PUBLIC_KEY: &str = "KuTCtARNzxZQ3YvXDeLjx83FDqxv2SdQTSbiq876zR7";

fn staking() -> String {
    "staking".to_string()
}

fn alice() -> String {
    "alice".to_string()
}

fn bob() -> String {
    "bob".to_string()
}

fn carol() -> String {
    "carol".to_string()
}

fn vm_context() -> VMContext {
    VMContext {
        current_account_id: "".to_string(),
        signer_account_id: "".to_string(),
        signer_account_pk: vec![0, 1, 2],
        predecessor_account_id: "".to_string(),
        input: vec![],
        block_index: 0,
        block_timestamp: 0,
        epoch_height: 0,
        account_balance: 0,
        account_locked_balance: 0,
        storage_usage: 10u64.pow(6),
        attached_deposit: 0,
        prepaid_gas: 10u64.pow(18),
        random_seed: vec![0, 1, 2],
        is_view: false,
        output_data_receivers: vec![],
    }
}

/// Sets the chain up for a call. What was stored before stays.
fn testing_env(context: VMContext) {
    let storage = match near_sdk::env::take_blockchain_interface() {
        Some(mut bi) => bi.as_mut_mocked_blockchain().unwrap().take_storage(),
        None => Default::default(),
    };
    near_sdk::env::set_blockchain_interface(Box::new(MockedBlockchain::new(
        context,
        Default::default(),
        Default::default(),
        vec![],
        storage,
        Default::default(),
    )));
}

/// The archive of a new pool, on a chain where nothing is stored yet.
fn empty_archive() -> Archive {
    UnorderedMap::new(b"u".to_vec())
}

/// What the chain tells about the call.
fn context() -> Context {
    Context {
        current_account_id: near_sdk::env::current_account_id(),
        predecessor_account_id: near_sdk::env::predecessor_account_id(),
        account_balance: near_sdk::env::account_balance(),
        account_locked_balance: near_sdk::env::account_locked_balance(),
        attached_deposit: near_sdk::env::attached_deposit(),
        epoch_height: near_sdk::env::epoch_height(),
    }
}

struct Emulator {
    pub contract: StakingContract,
    pub epoch_height: EpochHeight,
    pub amount: Balance,
    pub locked_amount: Balance,
}

impl Emulator {
    pub fn new(owner: String, stake_public_key: String, max_number_of_slots: u32) -> Self {
        let mut vm = vm_context();
        vm.current_account_id = owner.clone();
        testing_env(vm);
        Emulator {
            contract: StakingContract::new(
                owner,
                Base58PublicKey::try_from(stake_public_key).unwrap().into(),
                max_number_of_slots,
                near_sdk::env::state_exists(),
                empty_archive(),
                &context(),
            )
            .unwrap(),
            epoch_height: 0,
            amount: 0,
            locked_amount: 0,
        }
    }

    pub fn update_context(&mut self, predecessor_account_id: String, deposit: Balance) {
        let mut vm = vm_context();
        vm.current_account_id = staking();
        vm.predecessor_account_id = predecessor_account_id.clone();
        vm.signer_account_id = predecessor_account_id;
        vm.attached_deposit = deposit;
        vm.account_balance = self.amount;
        vm.account_locked_balance = self.locked_amount;
        vm.epoch_height = self.epoch_height;
        testing_env(vm);
        println!(
            "Deposit: {}, amount: {}, locked_amount: {}",
            deposit, self.amount, self.locked_amount
        );
    }

    pub fn simulate_stake_call(&mut self) {
        self.update_context(staking(), 0);
        let total_stake = self.contract.total_stake;
        // First function call action
        self.contract.ping(&context()).unwrap();
        // Stake action
        if total_stake > self.locked_amount {
            let diff = total_stake - self.locked_amount;
            self.amount -= diff;
            self.locked_amount += diff;
        }
        // Second function call action
        self.update_context(staking(), 0);
        self.contract.internal_after_stake(&context()).unwrap();
    }

    pub fn skip_epochs(&mut self, num: EpochHeight) {
        self.epoch_height += num;
        self.locked_amount = (self.locked_amount * 101 * u128::from(num)) / 100;
    }

    fn deposit(&mut self, account_id: String, amount: Balance) {
        self.update_context(account_id, amount);
        self.contract.deposit(&context()).unwrap();
        self.amount += amount;
    }

    fn stake(&mut self, account_id: String, amount: Balance) -> Result<staking_pool::Promise, StakingError> {
        self.update_context(account_id, 0);
        self.contract.stake(amount, &context())
    }

    fn unstake(&mut self, account_id: String, amount: Balance) -> Result<staking_pool::Promise, StakingError> {
        self.update_context(account_id, 0);
        self.contract.unstake(amount, &context())
    }

    fn withdraw(&mut self, account_id: String, amount: Balance) -> Result<staking_pool::Promise, StakingError> {
        self.update_context(account_id, 0);
        self.contract.withdraw(amount, &context())
    }

    fn staked(&self, account_id: String) -> Balance {
        self.contract.get_account_staked_balance(account_id)
    }

    fn unstaked(&self, account_id: String) -> Balance {
        self.contract.get_account_unstaked_balance(account_id)
    }
}

fn emulator(max_number_of_slots: u32) -> Emulator {
    Emulator::new("owner".to_string(), PUBLIC_KEY.to_string(), max_number_of_slots)
}

fn public_key_bytes() -> Vec<u8> {
    Base58PublicKey::try_from(PUBLIC_KEY).unwrap().into()
}

#[test]
fn test_deposit_withdraw() {
    let mut emulator = Emulator::new(
        "owner".to_string(),
        "KuTCtARNzxZQ3YvXDeLjx83FDqxv2SdQTSbiq876zR7".to_string(),
        10,
    );
    let deposit_amount = 1_000_000;
    emulator.update_context(bob(), deposit_amount);
    emulator.contract.deposit(&context()).unwrap();
    emulator.amount += deposit_amount;
    emulator.update_context(bob(), 0);
    assert_eq!(emulator.contract.get_account_unstaked_balance(bob()), deposit_amount);
    emulator.contract.withdraw(deposit_amount, &context()).unwrap();
    assert_eq!(emulator.contract.get_account_unstaked_balance(bob()), 0u128);
}

#[test]
fn test_stake_unstake() {
    let mut emulator = Emulator::new(
        "owner".to_string(),
        "KuTCtARNzxZQ3YvXDeLjx83FDqxv2SdQTSbiq876zR7".to_string(),
        10,
    );
    let deposit_amount = 1_000_000;
    emulator.update_context(bob(), deposit_amount);
    emulator.contract.deposit(&context()).unwrap();
    emulator.amount += deposit_amount;
    emulator.update_context(bob(), 0);
    emulator.contract.stake(deposit_amount, &context()).unwrap();
    emulator.simulate_stake_call();
    assert_eq!(emulator.contract.get_account_staked_balance(bob()), deposit_amount);
    // 10 epochs later, unstake half of the money.
    emulator.skip_epochs(10);
    // Overriding rewards
    emulator.locked_amount = deposit_amount + 10;
    emulator.update_context(bob(), 0);
    assert_eq!(emulator.contract.get_account_staked_balance(bob()), deposit_amount);
    emulator.contract.unstake(deposit_amount / 2, &context()).unwrap();
    emulator.simulate_stake_call();
    assert_eq!(emulator.contract.get_account_staked_balance(bob()), deposit_amount / 2 + 10);
    assert_eq!(emulator.contract.get_account_unstaked_balance(bob()), deposit_amount / 2);
}

/// Test that two can delegate and then undelegate their funds and rewards at different time.
#[test]
fn test_two_delegates() {
    let mut emulator = Emulator::new(
        "owner".to_string(),
        "KuTCtARNzxZQ3YvXDeLjx83FDqxv2SdQTSbiq876zR7".to_string(),
        10,
    );
    emulator.update_context(alice(), 1_000_000);
    emulator.contract.deposit(&context()).unwrap();
    emulator.amount += 1_000_000;
    emulator.update_context(alice(), 0);
    emulator.contract.stake(1_000_000, &context()).unwrap();
    emulator.simulate_stake_call();
    emulator.skip_epochs(2);
    emulator.update_context(bob(), 1_000_000);
    emulator.contract.deposit(&context()).unwrap();
    emulator.amount += 1_000_000;
    emulator.update_context(bob(), 0);
    emulator.contract.stake(1_000_000, &context()).unwrap();
    emulator.simulate_stake_call();
    emulator.skip_epochs(2);
}

#[test]
fn a_new_pool_owes_nothing() {
    let emulator = emulator(10);
    assert_eq!(emulator.contract.owner_id, "owner");
    assert_eq!(emulator.contract.max_number_of_slots, 10);
    assert_eq!(emulator.contract.stake_public_key, public_key_bytes());
    assert_eq!(emulator.contract.total_stake, 0);
    assert_eq!(emulator.contract.epoch_infos.len(), 1);
    assert_eq!(emulator.contract.get_account_total_balance(alice()), Ok(0));
    assert!(!emulator.contract.is_account_actively_staking(alice()));
    assert!(emulator.contract.is_account_unstaked_balance_available(alice(), 0));
}

#[test]
fn a_pool_is_set_up_once() {
    let res = StakingContract::new(
        "owner".to_string(),
        public_key_bytes(),
        10,
        true,
        empty_archive(),
        &{
            testing_env(vm_context());
            context()
        },
    );
    assert_eq!(res.err(), Some(StakingError::AlreadyInitialized));
    assert_eq!(StakingError::AlreadyInitialized.message(), "Already initialized");
}

#[test]
fn a_deposit_is_archived_and_found_again() {
    let mut emulator = emulator(10);
    emulator.deposit(alice(), 70);
    emulator.deposit(bob(), 30);
    // Neither is staked, so both are on the trie.
    assert_eq!(emulator.contract.active_accounts.len(), 0);
    assert_eq!(emulator.contract.inactive_accounts.len(), 0);
    assert_eq!(emulator.contract.archived_accounts.len(), 2);
    assert_eq!(emulator.unstaked(alice()), 70);
    assert_eq!(emulator.unstaked(bob()), 30);
    emulator.deposit(alice(), 5);
    assert_eq!(emulator.contract.archived_accounts.len(), 2);
    assert_eq!(emulator.unstaked(alice()), 75);
    assert_eq!(emulator.unstaked(bob()), 30);
    assert_eq!(emulator.contract.archived_accounts.get(&alice()), Some((75, 0, 0)));
}

#[test]
fn withdrawing_all_forgets_the_account() {
    let mut emulator = emulator(10);
    emulator.deposit(alice(), 70);
    let promise = emulator.withdraw(alice(), 70).unwrap();
    assert_eq!(promise.receiver_id, alice());
    assert_eq!(promise.actions.len(), 1);
    assert!(matches!(promise.actions[0], PromiseAction::Transfer { amount: 70 }));
    assert_eq!(emulator.contract.archived_accounts.len(), 0);
    assert_eq!(emulator.contract.archived_accounts.get(&alice()), None);
}

#[test]
fn refused_withdrawals() {
    let mut emulator = emulator(10);
    emulator.deposit(alice(), 70);
    assert_eq!(emulator.withdraw(alice(), 0).err(), Some(StakingError::WithdrawalNotPositive));
    assert_eq!(emulator.withdraw(alice(), 71).err(), Some(StakingError::NotEnoughUnstakedToWithdraw));
    assert_eq!(emulator.withdraw(bob(), 1).err(), Some(StakingError::NotEnoughUnstakedToWithdraw));
    assert_eq!(emulator.unstaked(alice()), 70);
    assert_eq!(StakingError::WithdrawalNotPositive.message(), "Withdrawal amount should be positive");
    assert_eq!(
        StakingError::NotEnoughUnstakedToWithdraw.message(),
        "Not enough unstaked balance to withdraw"
    );
}

#[test]
fn refused_stakes() {
    let mut emulator = emulator(10);
    emulator.deposit(alice(), 70);
    assert_eq!(emulator.stake(alice(), 0).err(), Some(StakingError::StakeNotPositive));
    assert_eq!(emulator.stake(alice(), 71).err(), Some(StakingError::NotEnoughUnstakedToStake));
    assert_eq!(emulator.unstaked(alice()), 70);
    assert_eq!(emulator.staked(alice()), 0);
    assert_eq!(StakingError::StakeNotPositive.message(), "Staking amount should be positive");
    assert_eq!(
        StakingError::NotEnoughUnstakedToStake.message(),
        "Not enough unstaked balance to stake"
    );
}

#[test]
fn refused_unstakes() {
    let mut emulator = emulator(10);
    emulator.deposit(alice(), 70);
    emulator.stake(alice(), 50).unwrap();
    assert_eq!(emulator.unstake(alice(), 0).err(), Some(StakingError::UnstakeNotPositive));
    assert_eq!(emulator.unstake(alice(), 51).err(), Some(StakingError::NotEnoughStaked));
    assert_eq!(emulator.unstaked(alice()), 20);
    assert_eq!(emulator.staked(alice()), 50);
    assert_eq!(StakingError::UnstakeNotPositive.message(), "Unstaking amount should be positive");
    assert_eq!(StakingError::NotEnoughStaked.message(), "Not enough staked balance to unstake");
}

#[test]
fn a_pool_without_slots_takes_no_stake() {
    let mut emulator = emulator(0);
    emulator.deposit(alice(), 70);
    assert_eq!(emulator.stake(alice(), 70).err(), Some(StakingError::NoSlots));
    assert_eq!(emulator.unstaked(alice()), 70);
    assert_eq!(StakingError::NoSlots.message(), "There are no slots to stake in");
}

#[test]
fn balances_do_not_overflow() {
    let mut emulator = emulator(10);
    emulator.deposit(alice(), u128::max_value() / 2);
    emulator.stake(alice(), u128::max_value() / 2).unwrap();
    emulator.amount = 0;
    emulator.deposit(alice(), u128::max_value());
    emulator.amount = 0;
    emulator.update_context(alice(), 1);
    assert_eq!(emulator.contract.deposit(&context()), Err(StakingError::Overflow));
    assert_eq!(emulator.unstaked(alice()), u128::max_value());
    assert_eq!(
        emulator.contract.get_account_total_balance(alice()),
        Err(StakingError::Overflow)
    );
    assert_eq!(emulator.stake(alice(), u128::max_value()).err(), Some(StakingError::Overflow));
    assert_eq!(emulator.unstake(alice(), 1).err(), Some(StakingError::Overflow));
    assert_eq!(emulator.staked(alice()), u128::max_value() / 2);
    assert_eq!(StakingError::Overflow.message(), "Arithmetic overflow");
}

#[test]
fn a_new_epoch_with_more_deposited_than_there_is_overflows() {
    let mut emulator = emulator(10);
    emulator.deposit(alice(), 10);
    let mut ctx = context();
    ctx.epoch_height = 1;
    ctx.account_balance = 4;
    ctx.attached_deposit = 5;
    assert_eq!(emulator.contract.ping(&ctx), Err(StakingError::Overflow));
    assert_eq!(emulator.contract.epoch_infos.len(), 1);
    ctx.account_balance = 5;
    assert_eq!(emulator.contract.ping(&ctx), Ok(()));
    assert_eq!(emulator.contract.epoch_infos.len(), 2);
}

#[test]
fn the_stake_promise() {
    let mut emulator = emulator(10);
    emulator.deposit(alice(), 70);
    emulator.deposit(bob(), 30);
    emulator.stake(alice(), 60).unwrap();
    let promise = emulator.stake(bob(), 30).unwrap();
    assert_eq!(promise.receiver_id, staking());
    assert_eq!(promise.actions.len(), 3);
    match &promise.actions[0] {
        PromiseAction::FunctionCall { method_name, arguments, amount, gas } => {
            assert_eq!(method_name, "ping");
            assert_eq!(arguments, "{}");
            assert_eq!(*amount, 0);
            assert_eq!(*gas, 80_000_000_000_000);
        }
        _ => panic!("not a function call"),
    }
    match &promise.actions[1] {
        PromiseAction::Stake { amount, public_key } => {
            assert_eq!(*amount, 90);
            assert_eq!(*public_key, public_key_bytes());
        }
        _ => panic!("not a stake"),
    }
    match &promise.actions[2] {
        PromiseAction::FunctionCall { method_name, arguments, amount, gas } => {
            assert_eq!(method_name, "internal_after_stake");
            assert_eq!(arguments, "{}");
            assert_eq!(*amount, 0);
            assert_eq!(*gas, 80_000_000_000_000);
        }
        _ => panic!("not a function call"),
    }
}

#[test]
fn staking_moves_the_amount_and_unstaking_moves_it_back() {
    let mut emulator = emulator(10);
    emulator.deposit(alice(), 70);
    emulator.stake(alice(), 60).unwrap();
    assert_eq!(emulator.unstaked(alice()), 10);
    assert_eq!(emulator.staked(alice()), 60);
    assert_eq!(emulator.contract.get_account_total_balance(alice()), Ok(70));
    assert!(emulator.contract.is_account_actively_staking(alice()));
    assert_eq!(emulator.contract.total_stake, 60);
    emulator.unstake(alice(), 60).unwrap();
    assert_eq!(emulator.unstaked(alice()), 70);
    assert_eq!(emulator.staked(alice()), 0);
    assert!(!emulator.contract.is_account_actively_staking(alice()));
    assert_eq!(emulator.contract.total_stake, 0);
}

#[test]
fn the_unstaked_balance_waits_two_epochs() {
    let mut emulator = emulator(10);
    emulator.deposit(alice(), 70);
    emulator.stake(alice(), 70).unwrap();
    emulator.simulate_stake_call();
    emulator.epoch_height = 10;
    emulator.unstake(alice(), 40).unwrap();
    for epoch_height in 10..12 {
        emulator.epoch_height = epoch_height;
        assert!(!emulator
            .contract
            .is_account_unstaked_balance_available(alice(), epoch_height));
        assert_eq!(emulator.withdraw(alice(), 1).err(), Some(StakingError::UnstakedNotAvailable));
    }
    assert_eq!(
        StakingError::UnstakedNotAvailable.message(),
        "The unstaked balance is not yet available due to unstaking delay"
    );
    emulator.epoch_height = 12;
    assert!(emulator.contract.is_account_unstaked_balance_available(alice(), 12));
    emulator.withdraw(alice(), 40).unwrap();
    assert_eq!(emulator.unstaked(alice()), 0);
    assert_eq!(emulator.staked(alice()), 30);
}

#[test]
fn rewards_are_shared_by_matured_stake_and_rounded_down() {
    let mut emulator = emulator(10);
    emulator.deposit(alice(), 1_000);
    emulator.deposit(bob(), 2_000);
    emulator.stake(alice(), 1_000).unwrap();
    emulator.stake(bob(), 2_000).unwrap();
    emulator.simulate_stake_call();
    emulator.contract.last_account_balance = 0;
    assert_eq!(emulator.locked_amount, 3_000);
    // Nothing matures in the next two epochs.
    emulator.epoch_height = 2;
    emulator.locked_amount = 3_000;
    emulator.update_context(carol(), 0);
    emulator.contract.ping(&context()).unwrap();
    assert_eq!(emulator.contract.epoch_infos.len(), 2);
    assert_eq!(emulator.staked(alice()), 1_000);
    // The third epoch rewards the first: 100 on the locked balance, 10 besides.
    emulator.epoch_height = 3;
    emulator.locked_amount = 3_100;
    emulator.amount = 10;
    emulator.update_context(carol(), 0);
    emulator.contract.ping(&context()).unwrap();
    assert_eq!(emulator.staked(alice()), 1_033);
    assert_eq!(emulator.staked(bob()), 2_066);
    assert_eq!(emulator.unstaked(alice()), 3);
    assert_eq!(emulator.unstaked(bob()), 6);
    assert_eq!(emulator.contract.total_stake, 3_099);
    assert_eq!(emulator.contract.last_locked_account_balance, 3_100);
    assert_eq!(emulator.contract.last_account_balance, 10);
    assert_eq!(emulator.contract.epoch_infos.len(), 2);
    assert_eq!(emulator.contract.epoch_infos[0].epoch_height, 2);
    assert_eq!(emulator.contract.epoch_infos[1].epoch_height, 3);
    assert_eq!(emulator.contract.epoch_infos[1].stakes.get(&alice()), Some(1_033));
    // A second ping in the same epoch adds nothing.
    emulator.locked_amount = 9_999;
    emulator.update_context(carol(), 0);
    emulator.contract.ping(&context()).unwrap();
    assert_eq!(emulator.staked(alice()), 1_033);
    assert_eq!(emulator.contract.last_locked_account_balance, 3_100);
}

#[test]
fn the_smallest_stake_loses_its_slot() {
    let mut emulator = emulator(2);
    emulator.deposit(alice(), 100);
    emulator.deposit(bob(), 100);
    emulator.deposit(carol(), 100);
    emulator.stake(alice(), 50).unwrap();
    emulator.stake(bob(), 40).unwrap();
    // No larger than the smallest stake: no slot.
    emulator.stake(carol(), 40).unwrap();
    assert!(!emulator.contract.is_account_actively_staking(carol()));
    assert!(emulator.contract.is_account_actively_staking(bob()));
    assert_eq!(emulator.staked(carol()), 40);
    assert_eq!(emulator.contract.total_stake, 90);
    // Larger: the slot changes hands.
    emulator.stake(carol(), 1).unwrap();
    assert!(emulator.contract.is_account_actively_staking(carol()));
    assert!(!emulator.contract.is_account_actively_staking(bob()));
    assert!(emulator.contract.is_account_actively_staking(alice()));
    assert_eq!(emulator.staked(bob()), 40);
    assert_eq!(emulator.contract.total_stake, 91);
    // A slot that is given up can be taken with any stake.
    emulator.unstake(alice(), 50).unwrap();
    emulator.unstake(bob(), 1).unwrap();
    assert!(emulator.contract.is_account_actively_staking(bob()));
    assert_eq!(emulator.contract.total_stake, 80);
}

#[test]
fn idle_accounts_are_archived_one_by_one() {
    let mut emulator = emulator(10);
    emulator.deposit(alice(), 100);
    emulator.deposit(bob(), 100);
    emulator.stake(alice(), 60).unwrap();
    emulator.stake(bob(), 60).unwrap();
    emulator.epoch_height = 1;
    emulator.unstake(alice(), 60).unwrap();
    emulator.unstake(bob(), 60).unwrap();
    // Both are still staked in the first epoch.
    assert_eq!(emulator.contract.active_accounts.len(), 2);
    assert_eq!(emulator.contract.archived_accounts.len(), 0);
    emulator.epoch_height = 4;
    emulator.update_context(carol(), 0);
    emulator.contract.ping(&context()).unwrap();
    assert_eq!(emulator.contract.active_accounts.len(), 0);
    assert_eq!(emulator.contract.inactive_accounts.len(), 2);
    emulator.contract.ping(&context()).unwrap();
    assert_eq!(emulator.contract.inactive_accounts.len(), 1);
    assert_eq!(emulator.contract.archived_accounts.len(), 1);
    emulator.contract.ping(&context()).unwrap();
    assert_eq!(emulator.contract.inactive_accounts.len(), 0);
    assert_eq!(emulator.contract.archived_accounts.len(), 2);
    assert_eq!(emulator.unstaked(alice()), 100);
    assert_eq!(emulator.unstaked(bob()), 100);
}

#[test]
fn only_the_pool_reports_the_locked_balance() {
    let mut emulator = emulator(10);
    emulator.locked_amount = 17;
    emulator.update_context(alice(), 0);
    assert_eq!(
        emulator.contract.internal_after_stake(&context()),
        Err(StakingError::NotCalledByPool)
    );
    assert_eq!(emulator.contract.last_locked_account_balance, 0);
    emulator.update_context(staking(), 0);
    assert_eq!(emulator.contract.internal_after_stake(&context()), Ok(()));
    assert_eq!(emulator.contract.last_locked_account_balance, 17);
    assert_eq!(
        StakingError::NotCalledByPool.message(),
        "Only the pool itself may make this call"
    );
}

#[test]
fn what_is_deposited_within_an_epoch_counts_as_gained() {
    let mut emulator = emulator(10);
    emulator.deposit(alice(), 100);
    emulator.stake(alice(), 100).unwrap();
    emulator.simulate_stake_call();
    // The balance was accounted for when the epoch began, before this deposit.
    emulator.deposit(bob(), 40);
    emulator.epoch_height = 3;
    emulator.update_context(carol(), 0);
    emulator.contract.ping(&context()).unwrap();
    assert_eq!(emulator.staked(alice()), 100);
    assert_eq!(emulator.unstaked(alice()), 40);
    assert_eq!(emulator.unstaked(bob()), 40);
    assert_eq!(emulator.contract.last_account_balance, 40);
    assert_eq!(emulator.contract.last_locked_account_balance, 100);
}

#[test]
fn a_sole_staker_gets_the_whole_reward() {
    let mut emulator = emulator(10);
    emulator.deposit(alice(), 100);
    emulator.stake(alice(), 100).unwrap();
    emulator.simulate_stake_call();
    emulator.epoch_height = 3;
    emulator.locked_amount = 117;
    emulator.amount = 5;
    emulator.update_context(carol(), 0);
    emulator.contract.ping(&context()).unwrap();
    assert_eq!(emulator.staked(alice()), 117);
    assert_eq!(emulator.unstaked(alice()), 5);
    assert_eq!(emulator.contract.total_stake, 117);
}

#[test]
fn a_withdrawal_undoes_a_deposit() {
    let mut emulator = emulator(10);
    emulator.deposit(alice(), 100);
    emulator.stake(alice(), 60).unwrap();
    emulator.deposit(alice(), 25);
    assert_eq!(emulator.unstaked(alice()), 65);
    emulator.withdraw(alice(), 25).unwrap();
    assert_eq!(emulator.unstaked(alice()), 40);
    assert_eq!(emulator.staked(alice()), 60);
    assert_eq!(emulator.contract.total_stake, 60);
}

#[test]
fn a_refused_call_does_not_begin_the_epoch() {
    let mut emulator = emulator(10);
    emulator.deposit(alice(), 100);
    emulator.epoch_height = 5;
    assert_eq!(emulator.stake(alice(), 101).err(), Some(StakingError::NotEnoughUnstakedToStake));
    assert_eq!(emulator.contract.epoch_infos.len(), 1);
    assert_eq!(emulator.contract.epoch_infos[0].epoch_height, 0);
    emulator.stake(alice(), 100).unwrap();
    assert_eq!(emulator.contract.epoch_infos.len(), 1);
    assert_eq!(emulator.contract.epoch_infos[0].epoch_height, 5);
}

#[test]
fn no_more_than_three_epochs_are_counted() {
    let mut emulator = emulator(10);
    emulator.deposit(alice(), 100);
    emulator.stake(alice(), 100).unwrap();
    emulator.simulate_stake_call();
    for epoch_height in 1..8 {
        emulator.epoch_height = epoch_height;
        emulator.update_context(carol(), 0);
        emulator.contract.ping(&context()).unwrap();
        let counted = emulator.contract.epoch_infos.len();
        assert_eq!(counted, if epoch_height < 2 { 2 } else { 3 });
        assert_eq!(emulator.contract.epoch_infos[counted - 1].epoch_height, epoch_height);
        assert_eq!(
            emulator.contract.epoch_infos[0].epoch_height,
            if epoch_height < 2 { 0 } else { epoch_height - 2 }
        );
    }
    assert_eq!(emulator.staked(alice()), 100);
}

#[test]
fn past_stakes_are_settled() {
    let mut emulator = emulator(10);
    emulator.deposit(alice(), 100);
    emulator.stake(alice(), 80).unwrap();
    emulator.epoch_height = 1;
    emulator.unstake(alice(), 30).unwrap();
    assert_eq!(emulator.contract.epoch_infos.len(), 2);
    assert_eq!(emulator.contract.epoch_infos[0].stakes.get(&alice()), Some(80));
    assert_eq!(emulator.contract.epoch_infos[1].stakes.get(&alice()), Some(50));
}

#[test]
fn unstaking_a_part_can_take_a_slot() {
    let mut emulator = emulator(1);
    emulator.deposit(alice(), 100);
    emulator.deposit(bob(), 100);
    emulator.stake(alice(), 60).unwrap();
    emulator.stake(bob(), 70).unwrap();
    assert!(!emulator.contract.is_account_actively_staking(alice()));
    emulator.unstake(bob(), 65).unwrap();
    assert!(emulator.contract.is_account_actively_staking(bob()));
    // 59 is still more than the 5 that hold the slot.
    emulator.unstake(alice(), 1).unwrap();
    assert!(emulator.contract.is_account_actively_staking(alice()));
    assert!(!emulator.contract.is_account_actively_staking(bob()));
    assert_eq!(emulator.contract.total_stake, 59);
    assert_eq!(emulator.staked(bob()), 5);
}

#[test]
fn an_account_is_put_back_as_it_was() {
    let mut emulator = emulator(10);
    emulator.deposit(alice(), 100);
    emulator.stake(alice(), 60).unwrap();
    emulator.deposit(bob(), 30);
    // A deposit of nothing takes the account out and puts it back.
    emulator.deposit(alice(), 0);
    emulator.deposit(bob(), 0);
    emulator.deposit(carol(), 0);
    assert_eq!(emulator.contract.active_accounts.len(), 1);
    assert_eq!(emulator.contract.inactive_accounts.len(), 0);
    assert_eq!(emulator.contract.archived_accounts.len(), 1);
    assert_eq!(emulator.staked(alice()), 60);
    assert_eq!(emulator.unstaked(alice()), 40);
    assert_eq!(emulator.contract.archived_accounts.get(&bob()), Some((30, 0, 0)));
    assert_eq!(emulator.contract.archived_accounts.get(&carol()), None);
    // An account that waits to be archived is archived when it is put back.
    emulator.epoch_height = 1;
    emulator.unstake(alice(), 60).unwrap();
    emulator.epoch_height = 4;
    emulator.update_context(carol(), 0);
    emulator.contract.ping(&context()).unwrap();
    assert_eq!(emulator.contract.inactive_accounts.len(), 1);
    emulator.deposit(alice(), 0);
    assert_eq!(emulator.contract.inactive_accounts.len(), 0);
    assert_eq!(emulator.contract.archived_accounts.get(&alice()), Some((100, 0, 3)));
}

#[test]
fn only_rounding_is_kept_of_a_reward() {
    let mut emulator = emulator(10);
    for account_id in vec![alice(), bob(), carol()] {
        emulator.deposit(account_id.clone(), 10);
        emulator.stake(account_id, 10).unwrap();
    }
    emulator.simulate_stake_call();
    emulator.epoch_height = 3;
    emulator.locked_amount = 41;
    emulator.amount = 5;
    emulator.update_context(staking(), 0);
    emulator.contract.ping(&context()).unwrap();
    // Of 11 and of 5, each of the three gets a third, and 2 of either are left.
    for account_id in vec![alice(), bob(), carol()] {
        assert_eq!(emulator.staked(account_id.clone()), 13);
        assert_eq!(emulator.unstaked(account_id), 1);
    }
    assert_eq!(emulator.contract.total_stake, 39);
}

#[test]
fn the_stakes_are_back_after_unstaking_what_was_staked() {
    let mut emulator = emulator(2);
    emulator.deposit(alice(), 100);
    emulator.deposit(bob(), 100);
    emulator.deposit(carol(), 100);
    emulator.stake(alice(), 50).unwrap();
    // Alice has a slot.
    emulator.stake(alice(), 20).unwrap();
    emulator.unstake(alice(), 20).unwrap();
    assert_eq!(emulator.contract.epoch_infos[0].stakes.len(), 1);
    assert_eq!(emulator.contract.epoch_infos[0].stakes.get(&alice()), Some(50));
    assert_eq!(emulator.contract.total_stake, 50);
    // Bob has nothing staked, and a slot is free.
    emulator.stake(bob(), 20).unwrap();
    emulator.unstake(bob(), 20).unwrap();
    assert_eq!(emulator.contract.epoch_infos[0].stakes.len(), 1);
    assert_eq!(emulator.contract.epoch_infos[0].stakes.get(&alice()), Some(50));
    assert_eq!(emulator.contract.total_stake, 50);
    // No slot is free: Carol takes the one of Bob, who does not get it back.
    emulator.stake(bob(), 20).unwrap();
    emulator.stake(carol(), 30).unwrap();
    emulator.unstake(carol(), 30).unwrap();
    assert_eq!(emulator.contract.epoch_infos[0].stakes.get(&bob()), None);
    assert_eq!(emulator.contract.total_stake, 50);
    assert_eq!(emulator.staked(bob()), 20);
}

#[test]
fn a_deposit_that_begins_an_epoch_is_no_reward() {
    let mut emulator = emulator(10);
    emulator.deposit(alice(), 100);
    emulator.stake(alice(), 100).unwrap();
    emulator.simulate_stake_call();
    emulator.contract.last_account_balance = 0;
    emulator.epoch_height = 3;
    emulator.amount = 7;
    emulator.deposit(bob(), 40);
    assert_eq!(emulator.staked(alice()), 100);
    assert_eq!(emulator.unstaked(alice()), 7);
    assert_eq!(emulator.unstaked(bob()), 40);
    assert_eq!(emulator.contract.last_account_balance, 47);
    // Nor is it later on.
    emulator.epoch_height = 6;
    emulator.update_context(carol(), 0);
    emulator.contract.ping(&context()).unwrap();
    assert_eq!(emulator.staked(alice()), 100);
    assert_eq!(emulator.unstaked(alice()), 7);
}

#[test]
fn stakes_add_up() {
    let mut emulator = emulator(2);
    emulator.deposit(alice(), 100);
    emulator.deposit(bob(), 100);
    emulator.stake(alice(), 30).unwrap();
    emulator.stake(alice(), 40).unwrap();
    emulator.stake(bob(), 70).unwrap();
    assert_eq!(emulator.staked(alice()), emulator.staked(bob()));
    assert_eq!(emulator.unstaked(alice()), emulator.unstaked(bob()));
    assert_eq!(emulator.contract.epoch_infos[0].stakes.get(&alice()), Some(70));
    assert_eq!(emulator.contract.epoch_infos[0].stakes.get(&bob()), Some(70));
    assert_eq!(emulator.contract.total_stake, 140);
}

#[test]
fn stakes_add_up_in_a_full_pool() {
    let mut emulator = emulator(1);
    emulator.deposit(alice(), 100);
    emulator.deposit(bob(), 100);
    emulator.deposit(carol(), 100);
    emulator.stake(alice(), 40).unwrap();
    // Too little at first, enough with the second step.
    emulator.stake(bob(), 40).unwrap();
    assert!(!emulator.contract.is_account_actively_staking(bob()));
    emulator.stake(bob(), 1).unwrap();
    assert!(!emulator.contract.is_account_actively_staking(alice()));
    assert_eq!(emulator.contract.epoch_infos[0].stakes.get(&bob()), Some(41));
    assert_eq!(emulator.contract.total_stake, 41);
    // At once.
    emulator.stake(carol(), 42).unwrap();
    assert!(!emulator.contract.is_account_actively_staking(bob()));
    assert_eq!(emulator.contract.epoch_infos[0].stakes.get(&carol()), Some(42));
    assert_eq!(emulator.contract.total_stake, 42);
    // A stake that gets no slot leaves the stakes as they were, and so does unstaking it again.
    emulator.stake(alice(), 2).unwrap();
    emulator.unstake(alice(), 2).unwrap();
    assert_eq!(emulator.contract.epoch_infos[0].stakes.len(), 1);
    assert_eq!(emulator.contract.epoch_infos[0].stakes.get(&carol()), Some(42));
    assert_eq!(emulator.contract.total_stake, 42);
    assert_eq!(emulator.staked(alice()), 40);
}

/// The total stake is the sum of the current stakes, and each of these is a staked balance.
fn assert_stakes_match(emulator: &Emulator, max_number_of_slots: usize) {
    let stakes = &emulator.contract.epoch_infos[emulator.contract.epoch_infos.len() - 1].stakes;
    let mut sum = 0;
    let mut slots = 0;
    for account_id in vec![alice(), bob(), carol()] {
        if let Some(stake) = stakes.get(&account_id) {
            assert!(stake > 0);
            assert_eq!(stake, emulator.staked(account_id));
            sum += stake;
            slots += 1;
        }
    }
    assert_eq!(stakes.len(), slots);
    assert!(slots <= max_number_of_slots);
    assert_eq!(emulator.contract.total_stake, sum);
}

#[test]
fn every_change_keeps_the_stakes_and_their_sum() {
    let mut emulator = emulator(2);
    for account_id in vec![alice(), bob(), carol()] {
        emulator.deposit(account_id, 100);
        assert_stakes_match(&emulator, 2);
    }
    for (account_id, amount) in vec![(alice(), 30), (bob(), 20), (carol(), 25), (alice(), 5), (bob(), 60)] {
        emulator.stake(account_id, amount).unwrap();
        assert_stakes_match(&emulator, 2);
    }
    for (account_id, amount) in vec![(alice(), 35), (carol(), 1), (bob(), 80), (carol(), 24)] {
        emulator.unstake(account_id, amount).unwrap();
        assert_stakes_match(&emulator, 2);
    }
    assert_eq!(emulator.contract.total_stake, 0);
}

#[test]
fn the_epoch_of_the_withdrawal_does_not_overflow() {
    let mut emulator = emulator(10);
    emulator.deposit(alice(), 70);
    emulator.stake(alice(), 70).unwrap();
    emulator.epoch_height = u64::max_value() - 1;
    assert_eq!(emulator.unstake(alice(), 40).err(), Some(StakingError::Overflow));
    assert_eq!(emulator.staked(alice()), 70);
    emulator.epoch_height = u64::max_value() - 2;
    emulator.unstake(alice(), 40).unwrap();
    assert!(!emulator
        .contract
        .is_account_unstaked_balance_available(alice(), u64::max_value() - 1));
    assert!(emulator
        .contract
        .is_account_unstaked_balance_available(alice(), u64::max_value()));
}
