//! A token ledger that records a balance per holder, as a token contract
//! keeps it in its persistent storage: minting credits a holder, a transfer
//! debits one holder and credits another, and a holder with no record reads
//! as a balance of zero.

pub mod laws;
pub mod ledger;

pub use ledger::MockToken;
