//! A staking pool: accounts delegate their tokens to one validator, which stakes them together and
//! shares the rewards among them.

pub mod account_map;
pub mod archive;
pub mod epochs;
pub mod invariants;
pub mod laws;
pub mod model;
pub mod muldiv;
pub mod pool;
pub mod sums;
pub mod types;

pub use account_map::AccountMap;
pub use archive::Archive;
pub use pool::StakingContract;
pub use types::{
    Account, AccountId, AccountStatus, Balance, Context, EpochHeight, EpochInfo, Gas, Promise, PromiseAction, PublicKey,
    StakingError, WrappedAccount,
};
