//! Error taxonomy of the index subsystem.
//!
//! Every failure is surfaced to the caller as one of these typed errors and
//! aborts the enclosing unit of work; no local recovery happens anywhere in
//! this subsystem.

use vstd::prelude::*;

verus! {

/// A failure of the index subsystem.
///
/// The two data errors carry the logical table name of the index and the
/// rendered address of the account concerned.  The remaining variants stand
/// for the failures the platform's account-management facility reports:
/// a funding transfer or account creation that the payer cannot cover, an
/// address that is already occupied, and an address that does not match the
/// expected derivation.
#[derive(Debug, PartialEq, Eq)]
pub enum NautilusError {
    /// The account's byte buffer could not be read at all
    /// (wrong owner, uninitialized account).
    LoadDataFailed(String, String),
    /// The account's bytes are present but are not a valid encoding.
    DeserializeDataFailed(String, String),
    /// A balance transfer or account funding could not be covered:
    /// the required amount, then the available balance.
    InsufficientFunds(u64, u64),
    /// The target address of an account creation is already occupied.
    AccountAlreadyInUse(String),
    /// The account's address does not match the expected derivation.
    InvalidSeeds(String),
}

} // verus!
