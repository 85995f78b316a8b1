//! Autoincrement index subsystem for ledger-resident records.
//!
//! A single well-known ledger account stores, per logical table, a
//! monotonically increasing counter used to assign sequential identifiers
//! to newly created records.  This crate provides the counter map itself,
//! the binary codec for the account's byte buffer, and the handle that
//! loads, mutates, funds and resizes that account.

pub mod account;
pub mod codec;
pub mod error;
pub mod index;
pub mod index_data;
pub mod platform;

pub use account::IndexAccount;
pub use account::Wallet;
pub use error::NautilusError;
pub use index::NautilusIndex;
pub use index_data::NautilusIndexData;
