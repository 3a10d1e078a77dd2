//! The values that the pool works on: accounts, epochs, the context of a call, and what a call
//! answers.

use crate::account_map::AccountMap;
use vstd::prelude::*;

verus! {

/// The name of an account on the chain.
pub type AccountId = String;

/// An amount of tokens.
pub type Balance = u128;

/// The number of an epoch.
pub type EpochHeight = u64;

/// An amount of gas.
pub type Gas = u64;

/// A public key in binary form.
pub type PublicKey = Vec<u8>;

/// How many epochs a stake has to be at work before it is rewarded.
pub const EPOCHS_TOWARDS_REWARD: EpochHeight = 3;

/// How many epochs an unstaked balance has to wait before it can be withdrawn.
pub const EPOCHS_TOWARDS_WITHDRAWAL: EpochHeight = 2;

/// The gas that is attached to the `ping` that goes ahead of a stake action.
pub const PING_GAS: Gas = 80_000_000_000_000;

/// The gas that is attached to the `internal_after_stake` that follows a stake action.
pub const REFRESH_STAKE_GAS: Gas = 80_000_000_000_000;

/// Whether an account is staked in an epoch that the pool still counts.
#[derive(Debug, Clone, Copy, PartialEq, Eq, Structural)]
pub enum AccountStatus {
    Active,
    Inactive,
}

/// What the pool owes to one account.
#[derive(Debug, Clone, Copy, PartialEq, Eq, Structural)]
pub struct Account {
    /// The balance that is not staked.
    pub unstaked: Balance,
    /// The balance that is staked.
    pub staked: Balance,
    /// The first epoch in which the unstaked balance can be withdrawn.
    pub unstaked_available_epoch_height: EpochHeight,
}

impl Account {
    /// The account of someone whom the pool does not know.
    pub open spec fn initial() -> Account {
        Account { unstaked: 0, staked: 0, unstaked_available_epoch_height: 0 }
    }

    /// An account that holds nothing.
    pub fn new() -> (account: Self)
        ensures
            account == Account::initial(),
    {
        Self { unstaked: 0, staked: 0, unstaked_available_epoch_height: 0 }
    }
}

/// An account that was taken out of the pool to be changed.
#[derive(Debug)]
pub struct WrappedAccount {
    pub account_id: AccountId,
    pub account: Account,
    pub status: AccountStatus,
}

/// The stakes of one epoch.
pub struct EpochInfo {
    pub epoch_height: EpochHeight,
    pub stakes: AccountMap<Balance>,
}

/// The stakes of one epoch, as a mathematical map.
#[verifier::ext_equal]
pub struct EpochState {
    pub epoch_height: EpochHeight,
    pub stakes: Map<Seq<char>, Balance>,
}

impl View for EpochInfo {
    type V = EpochState;

    open spec fn view(&self) -> EpochState {
        EpochState { epoch_height: self.epoch_height, stakes: self.stakes@ }
    }
}

impl EpochInfo {
    /// An epoch in which nobody stakes.
    pub fn new(epoch_height: EpochHeight) -> (epoch_info: Self)
        ensures
            epoch_info.stakes.wf(),
            epoch_info@ == (EpochState { epoch_height, stakes: Map::empty() }),
    {
        Self { epoch_height, stakes: AccountMap::new() }
    }
}

/// What the chain tells about a call while it is executed.
#[derive(Debug)]
pub struct Context {
    /// The account that the pool runs on.
    pub current_account_id: AccountId,
    /// The account that made the call.
    pub predecessor_account_id: AccountId,
    /// The balance of the pool's account that is not locked, the attached deposit included.
    pub account_balance: Balance,
    /// The balance of the pool's account that is locked for staking.
    pub account_locked_balance: Balance,
    /// The deposit that is attached to the call.
    pub attached_deposit: Balance,
    /// The current epoch.
    pub epoch_height: EpochHeight,
}

/// One action of a promise.
#[derive(Debug)]
pub enum PromiseAction {
    FunctionCall { method_name: String, arguments: String, amount: Balance, gas: Gas },
    Transfer { amount: Balance },
    Stake { amount: Balance, public_key: PublicKey },
}

/// One action of a promise, as a mathematical value.
pub enum ActionState {
    FunctionCall { method_name: Seq<char>, arguments: Seq<char>, amount: Balance, gas: Gas },
    Transfer { amount: Balance },
    Stake { amount: Balance, public_key: Seq<u8> },
}

impl View for PromiseAction {
    type V = ActionState;

    open spec fn view(&self) -> ActionState {
        match self {
            PromiseAction::FunctionCall { method_name, arguments, amount, gas } => ActionState::FunctionCall {
                method_name: method_name@,
                arguments: arguments@,
                amount: *amount,
                gas: *gas,
            },
            PromiseAction::Transfer { amount } => ActionState::Transfer { amount: *amount },
            PromiseAction::Stake { amount, public_key } => ActionState::Stake {
                amount: *amount,
                public_key: public_key@,
            },
        }
    }
}

/// Actions that the chain is asked to perform, in order, on one account.
#[derive(Debug)]
pub struct Promise {
    pub receiver_id: AccountId,
    pub actions: Vec<PromiseAction>,
}

/// A promise, as a mathematical value.
#[verifier::ext_equal]
pub struct PromiseState {
    pub receiver_id: Seq<char>,
    pub actions: Seq<ActionState>,
}

impl View for Promise {
    type V = PromiseState;

    open spec fn view(&self) -> PromiseState {
        PromiseState {
            receiver_id: self.receiver_id@,
            actions: self.actions@.map_values(|action: PromiseAction| action@),
        }
    }
}

/// Why a call is refused.
#[derive(Debug, Clone, Copy, PartialEq, Eq, Structural)]
pub enum StakingError {
    /// The pool was set up before.
    AlreadyInitialized,
    /// The amount to withdraw is zero.
    WithdrawalNotPositive,
    /// The unstaked balance is smaller than the amount to withdraw.
    NotEnoughUnstakedToWithdraw,
    /// The unstaked balance has to wait longer.
    UnstakedNotAvailable,
    /// The amount to stake is zero.
    StakeNotPositive,
    /// The unstaked balance is smaller than the amount to stake.
    NotEnoughUnstakedToStake,
    /// The amount to unstake is zero.
    UnstakeNotPositive,
    /// The staked balance is smaller than the amount to unstake.
    NotEnoughStaked,
    /// The pool was set up without any slot, so that nobody can stake.
    NoSlots,
    /// Only the pool itself may make the call.
    NotCalledByPool,
    /// A balance or an epoch height would not fit into its type.
    Overflow,
}

impl StakingError {
    /// The words in which the refusal is reported.
    pub open spec fn text(self) -> Seq<char> {
        match self {
            StakingError::AlreadyInitialized => "Already initialized"@,
            StakingError::WithdrawalNotPositive => "Withdrawal amount should be positive"@,
            StakingError::NotEnoughUnstakedToWithdraw => "Not enough unstaked balance to withdraw"@,
            StakingError::UnstakedNotAvailable =>
                "The unstaked balance is not yet available due to unstaking delay"@,
            StakingError::StakeNotPositive => "Staking amount should be positive"@,
            StakingError::NotEnoughUnstakedToStake => "Not enough unstaked balance to stake"@,
            StakingError::UnstakeNotPositive => "Unstaking amount should be positive"@,
            StakingError::NotEnoughStaked => "Not enough staked balance to unstake"@,
            StakingError::NoSlots => "There are no slots to stake in"@,
            StakingError::NotCalledByPool => "Only the pool itself may make this call"@,
            StakingError::Overflow => "Arithmetic overflow"@,
        }
    }

    /// The words in which the refusal is reported.
    pub fn message(&self) -> (text: &'static str)
        ensures
            text@ == self.text(),
    {
        match self {
            StakingError::AlreadyInitialized => "Already initialized",
            StakingError::WithdrawalNotPositive => "Withdrawal amount should be positive",
            StakingError::NotEnoughUnstakedToWithdraw => "Not enough unstaked balance to withdraw",
            StakingError::UnstakedNotAvailable =>
                "The unstaked balance is not yet available due to unstaking delay",
            StakingError::StakeNotPositive => "Staking amount should be positive",
            StakingError::NotEnoughUnstakedToStake => "Not enough unstaked balance to stake",
            StakingError::UnstakeNotPositive => "Unstaking amount should be positive",
            StakingError::NotEnoughStaked => "Not enough staked balance to unstake",
            StakingError::NoSlots => "There are no slots to stake in",
            StakingError::NotCalledByPool => "Only the pool itself may make this call",
            StakingError::Overflow => "Arithmetic overflow",
        }
    }
}

} // verus!
