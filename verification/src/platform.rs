//! The two platform computations the index subsystem relies on: derived
//! account addresses and the base58 rendering of an address.
//!
//! Both are pure functions of their arguments; the platform library
//! computes them, and their results are given names that the library's
//! contracts speak of.

use vstd::prelude::*;

verus! {

/// The address and bump seed the platform derives from the two seeds and
/// the program address, or `None` where no bump seed yields a valid
/// derived address.
pub uninterp spec fn derived_address(seed_a: Seq<u8>, seed_b: Seq<u8>, program_id: Seq<u8>) -> Option<
    (Seq<u8>, u8),
>;

/// The base58 text of a 32-byte address.
pub uninterp spec fn base58_of(key: Seq<u8>) -> Seq<char>;

/// Relies on solana_program's `Pubkey::try_find_program_address`: the
/// derived address and its bump seed are computed from the seeds and the
/// program address alone (a hash-based search over bump seeds, the same
/// off-ledger and on-ledger), and `None` comes only in the statistically
/// improbable case that no bump seed yields a valid address.  The derived
/// address is always 32 bytes.
#[verifier::external_body]
pub(crate) fn find_derived_address(seed_a: &[u8], seed_b: &[u8], program_id: &[u8]) -> (r: Option<
    (Vec<u8>, u8),
>)
    requires
        program_id@.len() == 32,
    ensures
        r is Some <==> derived_address(seed_a@, seed_b@, program_id@) is Some,
        r matches Some(p) ==> derived_address(seed_a@, seed_b@, program_id@) == Some(
            (p.0@, p.1),
        ) && p.0@.len() == 32,
{
    let pid = solana_program::pubkey::Pubkey::new_from_array(program_id.try_into().unwrap());
    solana_program::pubkey::Pubkey::try_find_program_address(&[seed_a, seed_b], &pid).map(
        |(key, bump)| (key.to_bytes().to_vec(), bump),
    )
}

/// Relies on solana_program's `Display` implementation for `Pubkey`: the
/// base58 rendering of the 32 address bytes, a function of those bytes
/// alone.
#[verifier::external_body]
pub(crate) fn address_to_string(key: &[u8]) -> (r: String)
    requires
        key@.len() == 32,
    ensures
        r@ == base58_of(key@),
{
    solana_program::pubkey::Pubkey::new_from_array(key.try_into().unwrap()).to_string()
}

} // verus!
