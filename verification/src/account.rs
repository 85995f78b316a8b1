//! Plain-value models of the ledger state the index subsystem reads and
//! writes.
//!
//! The host runtime hands a program opaque account handles; the logic here
//! works on the plain values behind them — address bytes, owner bytes,
//! balance and byte buffer — so that every rule about them can be verified.
//! Unverified glue converts between the runtime's handles and these models
//! at the edge.

use vstd::prelude::*;

verus! {

/// The on-ledger index account, as the plain values the logic reads:
/// its 32-byte address, its 32-byte owner, its balance in lamports, its
/// byte buffer, and its per-instruction flags.
#[derive(Clone)]
pub struct IndexAccount {
    /// The account's 32-byte address.
    pub key: Vec<u8>,
    /// The 32-byte address of the owning program.
    pub owner: Vec<u8>,
    /// The account's balance.
    pub lamports: u64,
    /// The account's byte buffer; it holds the encoded counter map.
    pub data: Vec<u8>,
    /// Whether the account signed the current instruction.
    pub is_signer: bool,
    /// Whether the account is writable in the current instruction.
    pub is_writable: bool,
}

impl IndexAccount {
    /// Platform shape: addresses are exactly 32 bytes.
    pub open spec fn wf(&self) -> bool {
        self.key@.len() == 32 && self.owner@.len() == 32
    }
}

/// The fee-paying signer of a record-creation call: the authorized party
/// whose balance funds top-ups and account creation.
#[derive(Clone)]
pub struct Wallet {
    /// The wallet's 32-byte address.
    pub key: Vec<u8>,
    /// The wallet's balance.
    pub lamports: u64,
}

} // verus!
