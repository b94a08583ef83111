//! A small ledger that computes per-account balances from an ordered stream
//! of transactions (deposits, withdrawals and the dispute family), using an
//! exact fixed-point currency representation.

pub mod codec;
pub mod currency;
pub mod ledger;
pub mod model;
