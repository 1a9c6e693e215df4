//! A small payments ledger: an exact fixed-point `Amount` with a lossless
//! text codec, typed ledger events, and a transaction processor that applies
//! deposits, withdrawals and the dispute lifecycle to per-client accounts.

pub mod amount;
pub mod process;
pub mod tx;
