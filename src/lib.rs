//! A ledger of client accounts that replays deposits, withdrawals, disputes,
//! resolutions and chargebacks, with exact decimal amounts.
use vstd::prelude::*;

pub mod amount;
pub mod engine;

pub use amount::Amount;
pub use engine::{Account, ClientId, Deposit, DepositState, Engine, Error, TransactionId};

verus! {

} // verus!
