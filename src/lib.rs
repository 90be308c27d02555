//! A single-user ledger: a named wallet whose balance moves only through
//! validated credits and debits, each recorded in an append-only log, and a
//! text format that saves and restores the whole wallet.
//!
//! Amounts are fixed-point integers in minor units (cents), so balance
//! arithmetic is exact. Timestamps are milliseconds since the Unix epoch, UTC.

pub mod amount;
pub mod codec;
pub mod wallet;

pub use wallet::{Transaction, TransactionType, TransactionView, Wallet, WalletError, WalletView};
