//! Coin selection for UTXO-based wallets.
//!
//! Given a set of candidate spendable outputs and a payment target, the
//! library chooses a subset whose value covers the target while optimising a
//! waste metric that weighs the fees paid now against the long-term cost of
//! the selected inputs and of creating a change output.
//!
//! [`selectcoin::select_coin`] runs every algorithm and keeps the best
//! result; the individual algorithms live under [`algorithms`].

pub mod algorithms;
pub mod laws;
pub mod selectcoin;
pub mod sorting;
pub mod types;
pub mod utils;
