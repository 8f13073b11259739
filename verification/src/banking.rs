pub mod account;
pub mod time;
pub mod transfer;
pub mod types;

pub use account::BranchAccount;
pub use time::PhysicalClock;
pub use transfer::{transfer_outcome, transfer_request, BankingError};
pub use types::{
    AccountId, AllHistory, Balance, BalanceHistory, BalanceState, MAX_PROCESS_ID, MAX_T, Timestamp,
    TransferOrder,
};
