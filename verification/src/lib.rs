//! An append-only ledger of cash movements for agents: accounts with their
//! own currency and precision, signed entries, transfers, reversals,
//! reconciliation against observed balances, and the reports over them.

use vstd::prelude::*;

pub mod cli;
pub mod error;
pub mod json;
pub mod ledger;
pub mod model;
pub mod money;
pub mod render;
pub mod sort;
pub mod text;
pub mod time;

pub use error::LedgerError;
pub use ledger::Ledger;

verus! {
} // verus!
