pub mod checks;
pub mod contract;
pub mod denom;
pub mod error;
pub mod ledger;
pub mod msg;
pub mod order;
pub mod relation;
pub mod state;

pub use crate::error::ContractError;
