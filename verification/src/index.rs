//! The index account handle: binds the counter map to the on-ledger
//! account that stores it, loads it, mutates it, and persists it back,
//! growing the account's storage and topping up its balance as needed.

use crate::account::{IndexAccount, Wallet};
use crate::codec::{encodable, spec_decode, spec_encode};
use crate::error::NautilusError;
use crate::index_data::{spec_add_record, spec_get, spec_next_count, NautilusIndexData};
use crate::platform::{address_to_string, base58_of, derived_address, find_derived_address};
use vstd::prelude::*;
use vstd::string::StrSliceExecFns;
use vstd::string::StringSliceAdditionalSpecFns;

verus! {

/// The logical table name under which the index account itself is filed.
pub open spec fn index_table_name() -> Seq<char> {
    "nautilus_index"@
}

/// The UTF-8 bytes of the index's own table name: the first derivation
/// seed of the index account.
pub open spec fn index_table_name_bytes() -> Seq<u8> {
    vstd::utf8::encode_utf8(index_table_name())
}

/// The balance a funding top-up must raise the account to `required`
/// from `current`: the unsigned difference, clamped at zero so a balance
/// already above the requirement never wraps around.
pub open spec fn spec_shortfall(required: u64, current: u64) -> u64 {
    if required > current {
        (required - current) as u64
    } else {
        0
    }
}

/// The handle on the index account: the owning program's address, the
/// account itself, and the counter map decoded from its buffer.
pub struct NautilusIndex {
    /// The 32-byte address of the owning program.
    pub program_id: Vec<u8>,
    /// The ledger account that stores the counter map.
    pub account: IndexAccount,
    /// The in-memory counter map.
    pub data: NautilusIndexData,
}

impl NautilusIndex {
    /// Well-formed handle: plausible addresses, a well-formed counter map
    /// whose entry count and key lengths fit the codec's length prefixes.
    pub open spec fn wf(&self) -> bool {
        &&& self.program_id@.len() == 32
        &&& self.account.wf()
        &&& self.data.wf()
        &&& encodable(self.data.entries())
    }

    /// Instantiate a handle with an empty counter map, without reading the
    /// account.  Used only when the account is known not to exist yet.
    pub fn new(program_id: Vec<u8>, account: IndexAccount) -> (h: Self)
        requires
            program_id@.len() == 32,
            account.wf(),
        ensures
            h.program_id == program_id,
            h.account == account,
            h.data@ == Map::<Seq<u8>, u32>::empty(),
            h.data.entries() == Seq::<(Seq<u8>, u32)>::empty(),
            h.wf(),
    {
        NautilusIndex { program_id, account, data: NautilusIndexData::default() }
    }

    /// Instantiate a handle by decoding the account's byte buffer.
    ///
    /// Fails with `LoadDataFailed` where the buffer cannot be read at all —
    /// the account is not owned by this program — and with
    /// `DeserializeDataFailed` where the bytes are not a valid encoding.
    /// Both are fatal to the caller; no partial state is recoverable here.
    pub fn load(program_id: Vec<u8>, account: IndexAccount) -> (r: Result<
        NautilusIndex,
        NautilusError,
    >)
        requires
            program_id@.len() == 32,
            account.wf(),
        ensures
            r is Ok <==> (account.owner@ == program_id@ && spec_decode(account.data@) is Some),
            match r {
                Ok(h) => {
                    &&& spec_decode(account.data@) == Some(h.data.entries())
                    &&& spec_encode(h.data.entries()) == account.data@
                    &&& h.account == account
                    &&& h.program_id == program_id
                    &&& h.wf()
                },
                Err(e) => if account.owner@ != program_id@ {
                    e matches NautilusError::LoadDataFailed(t, a) && t@ == index_table_name() && a@
                        == base58_of(account.key@)
                } else {
                    &&& spec_decode(account.data@) is None
                    &&& e matches NautilusError::DeserializeDataFailed(t, a) && t@
                        == index_table_name() && a@ == base58_of(account.key@)
                },
            },
    {
        if !crate::index_data::bytes_eq(account.owner.as_slice(), program_id.as_slice()) {
            return Err(
                NautilusError::LoadDataFailed(
                    "nautilus_index".to_owned(),
                    address_to_string(account.key.as_slice()),
                ),
            );
        }
        match crate::codec::decode(account.data.as_slice()) {
            Some(data) => {
                proof {
                    crate::codec::lemma_encode_of_decode(account.data@);
                }
                Ok(NautilusIndex { program_id, account, data })
            },
            None => Err(
                NautilusError::DeserializeDataFailed(
                    "nautilus_index".to_owned(),
                    address_to_string(account.key.as_slice()),
                ),
            ),
        }
    }

    /// Get the current record count for a table, or `None` if the table
    /// was never seen.  No side effect.
    pub fn get_count(&self, table_name: &str) -> (r: Option<u32>)
        requires
            self.wf(),
        ensures
            r == spec_get(self.data@, table_name.spec_bytes()),
    {
        self.data.get_count(table_name)
    }

    /// Get the next record count for a table: one past the current count,
    /// or 1 for an unseen table.  Pure preview; no mutation.
    pub fn get_next_count(&self, table_name: &str) -> (r: u32)
        requires
            self.wf(),
            self.data@.contains_key(table_name.spec_bytes()) ==> self.data@[table_name.spec_bytes()]
                < u32::MAX,
        ensures
            r == spec_next_count(self.data@, table_name.spec_bytes()),
    {
        self.data.get_next_count(table_name)
    }

    /// The exact byte length the counter map occupies when encoded: the
    /// account's buffer is always resized to exactly this length.
    pub fn span(&self) -> (r: usize)
        requires
            self.wf(),
        ensures
            r == spec_encode(self.data.entries()).len(),
    {
        crate::codec::span(&self.data)
    }

    /// The byte length the account's buffer will have after a record is
    /// added for `table_name`: unchanged where the table is already
    /// registered — counts are fixed-width — and grown by one entry where
    /// it is not.  Sizing decisions are made from this preview before any
    /// storage is touched.
    pub fn span_after_add(&self, table_name: &str) -> (r: usize)
        requires
            self.wf(),
            spec_encode(self.data.entries()).len() + 8 + table_name.spec_bytes().len() as int
                <= usize::MAX,
        ensures
            r == (if self.data@.contains_key(table_name.spec_bytes()) {
                spec_encode(self.data.entries()).len() as int
            } else {
                spec_encode(self.data.entries()).len() + 8 + table_name.spec_bytes().len() as int
            }),
    {
        let cur = crate::codec::span(&self.data);
        match self.data.get_count(table_name) {
            Some(_) => cur,
            None => cur + 8 + table_name.len(),
        }
    }

    /// Add a new record to the index: raise the table's count, fund the
    /// account up to `required_balance` from the fee payer, resize the
    /// buffer to the new encoded length and write the map back.
    ///
    /// `required_balance` is the platform's minimum balance for storage-fee
    /// exemption at the new encoded length, computed by the caller from the
    /// platform's rent parameters.
    ///
    /// The funding transfer either fully succeeds or — when the fee payer
    /// cannot cover the shortfall — nothing at all is mutated.
    pub fn add_record(&mut self, table_name: &str, fee_payer: &mut Wallet, required_balance: u64) -> (r:
        Result<u32, NautilusError>)
        requires
            old(self).wf(),
            old(self).data@.contains_key(table_name.spec_bytes()) ==> old(
                self,
            ).data@[table_name.spec_bytes()] < u32::MAX,
            table_name.spec_bytes().len() <= u32::MAX,
            old(self).data.entries().len() < u32::MAX,
        ensures
            final(self).program_id == old(self).program_id,
            final(self).account.key == old(self).account.key,
            final(self).account.owner == old(self).account.owner,
            final(self).account.is_signer == old(self).account.is_signer,
            final(self).account.is_writable == old(self).account.is_writable,
            final(fee_payer).key == old(fee_payer).key,
            r is Err <==> (spec_shortfall(required_balance, old(self).account.lamports) > 0 && old(
                fee_payer,
            ).lamports < spec_shortfall(required_balance, old(self).account.lamports)),
            match r {
                Ok(c) => {
                    &&& final(self).wf()
                    &&& c == spec_next_count(old(self).data@, table_name.spec_bytes())
                    &&& final(self).data@ == spec_add_record(
                        old(self).data@,
                        table_name.spec_bytes(),
                    )
                    &&& final(self).account.data@ == spec_encode(final(self).data.entries())
                    &&& final(self).account.data@.len() == (if old(self).data@.contains_key(
                        table_name.spec_bytes(),
                    ) {
                        spec_encode(old(self).data.entries()).len() as int
                    } else {
                        spec_encode(old(self).data.entries()).len() + 8
                            + table_name.spec_bytes().len() as int
                    })
                    &&& final(self).account.lamports >= required_balance
                    &&& final(self).account.lamports == old(self).account.lamports
                        + spec_shortfall(required_balance, old(self).account.lamports)
                    &&& final(fee_payer).lamports == old(fee_payer).lamports - spec_shortfall(
                        required_balance,
                        old(self).account.lamports,
                    )
                },
                Err(e) => {
                    &&& *final(self) == *old(self)
                    &&& *final(fee_payer) == *old(fee_payer)
                    &&& e matches NautilusError::InsufficientFunds(needed, available) && needed
                        == spec_shortfall(required_balance, old(self).account.lamports) && available
                        == old(fee_payer).lamports
                },
            },
    {
        let shortfall: u64 = if required_balance > self.account.lamports {
            required_balance - self.account.lamports
        } else {
            0
        };
        if shortfall > 0 {
            if fee_payer.lamports < shortfall {
                return Err(NautilusError::InsufficientFunds(shortfall, fee_payer.lamports));
            }
            fee_payer.lamports = fee_payer.lamports - shortfall;
            self.account.lamports = self.account.lamports + shortfall;
        }
        let count = self.data.add_record(table_name);
        proof {
            let kb = table_name.spec_bytes();
            let before = old(self).data.entries();
            let after = self.data.entries();
            if old(self).data@.contains_key(kb) {
                let i = choose|i: int|
                    0 <= i < before.len() && (#[trigger] before[i]).0 == kb && after
                        == before.update(i, (kb, count));
                assert(forall|j: int|
                    0 <= j < after.len() ==> (#[trigger] after[j]).0.len() <= u32::MAX);
                assert(before[i] == (kb, before[i].1));
                crate::codec::lemma_encode_update_len(before, i, count);
            } else {
                assert(forall|j: int|
                    0 <= j < after.len() ==> (#[trigger] after[j]).0.len() <= u32::MAX);
                crate::codec::lemma_encode_entries_snoc(before, (kb, count));
                vstd::bytes::lemma_auto_spec_u32_to_from_le_bytes();
            }
            assert(encodable(after));
            assert(spec_encode(after).len() == (if old(self).data@.contains_key(kb) {
                spec_encode(before).len() as int
            } else {
                spec_encode(before).len() + 8 + kb.len() as int
            }));
        }
        let encoded = crate::codec::encode(&self.data);
        self.account.data = encoded;
        Ok(count)
    }

    /// Move `amount` lamports from the index account to `to`.  Fails,
    /// changing nothing, where the index account's balance cannot cover
    /// the amount.
    pub fn transfer_lamports(&mut self, to: &mut Wallet, amount: u64) -> (r: Result<
        (),
        NautilusError,
    >)
        requires
            old(to).lamports + amount <= u64::MAX,
        ensures
            final(self).program_id == old(self).program_id,
            final(self).data == old(self).data,
            final(self).account.key == old(self).account.key,
            final(self).account.owner == old(self).account.owner,
            final(self).account.data == old(self).account.data,
            final(self).account.is_signer == old(self).account.is_signer,
            final(self).account.is_writable == old(self).account.is_writable,
            final(to).key == old(to).key,
            r is Ok <==> old(self).account.lamports >= amount,
            match r {
                Ok(_) => final(self).account.lamports == old(self).account.lamports - amount
                    && final(to).lamports == old(to).lamports + amount,
                Err(e) => {
                    &&& *final(self) == *old(self)
                    &&& *final(to) == *old(to)
                    &&& e matches NautilusError::InsufficientFunds(needed, available) && needed
                        == amount && available == old(self).account.lamports
                },
            },
    {
        if self.account.lamports < amount {
            return Err(NautilusError::InsufficientFunds(amount, self.account.lamports));
        }
        self.account.lamports = self.account.lamports - amount;
        to.lamports = to.lamports + amount;
        Ok(())
    }

    /// Create the index account itself: verify the target address against
    /// the derivation, require it unoccupied, fund it with the minimum
    /// balance for an empty map's span from the payer, take ownership and
    /// write the empty map's encoding.
    ///
    /// `required_balance` is the platform's minimum balance for storage-fee
    /// exemption at the empty map's encoded length.
    pub fn create_with_payer(&mut self, payer: &mut Wallet, required_balance: u64) -> (r: Result<
        (),
        NautilusError,
    >)
        requires
            old(self).wf(),
        ensures
            final(self).program_id == old(self).program_id,
            final(self).account.key == old(self).account.key,
            final(self).account.is_signer == old(self).account.is_signer,
            final(self).account.is_writable == old(self).account.is_writable,
            final(payer).key == old(payer).key,
            ({
                let derived = derived_address(
                    index_table_name_bytes(),
                    seq![0u8],
                    old(self).program_id@,
                );
                let addr_ok = derived matches Some(p) && p.0 == old(self).account.key@;
                let occupied = old(self).account.lamports > 0 || old(self).account.data@.len() > 0;
                match r {
                    Ok(_) => {
                        &&& addr_ok
                        &&& !occupied
                        &&& old(payer).lamports >= required_balance
                        &&& final(self).data@ == Map::<Seq<u8>, u32>::empty()
                        &&& final(self).account.owner@ == old(self).program_id@
                        &&& final(self).account.lamports == required_balance
                        &&& final(self).account.data@ == spec_encode(
                            Seq::<(Seq<u8>, u32)>::empty(),
                        )
                        &&& final(payer).lamports == old(payer).lamports - required_balance
                        &&& final(self).wf()
                    },
                    Err(e) => {
                        &&& *final(self) == *old(self)
                        &&& *final(payer) == *old(payer)
                        &&& if !addr_ok {
                            e matches NautilusError::InvalidSeeds(a) && a@ == base58_of(
                                old(self).account.key@,
                            )
                        } else if occupied {
                            e matches NautilusError::AccountAlreadyInUse(a) && a@ == base58_of(
                                old(self).account.key@,
                            )
                        } else {
                            &&& old(payer).lamports < required_balance
                            &&& e matches NautilusError::InsufficientFunds(needed, available)
                                && needed == required_balance && available == old(payer).lamports
                        }
                    },
                }
            }),
    {
        let derived = {
            let name_seed = "nautilus_index".as_bytes_vec();
            let key_seed = self.data.primary_key();
            find_derived_address(
                name_seed.as_slice(),
                key_seed.as_slice(),
                self.program_id.as_slice(),
            )
        };
        let addr_ok = match derived {
            Some((k, _bump)) => crate::index_data::bytes_eq(
                k.as_slice(),
                self.account.key.as_slice(),
            ),
            None => false,
        };
        if !addr_ok {
            return Err(
                NautilusError::InvalidSeeds(address_to_string(self.account.key.as_slice())),
            );
        }
        if self.account.lamports > 0 || self.account.data.len() > 0 {
            return Err(
                NautilusError::AccountAlreadyInUse(address_to_string(self.account.key.as_slice())),
            );
        }
        if payer.lamports < required_balance {
            return Err(NautilusError::InsufficientFunds(required_balance, payer.lamports));
        }
        payer.lamports = payer.lamports - required_balance;
        self.account.lamports = required_balance;
        self.account.owner = vstd::slice::slice_to_vec(self.program_id.as_slice());
        let empty_map = NautilusIndexData::default();
        let encoded = crate::codec::encode(&empty_map);
        self.data = empty_map;
        self.account.data = encoded;
        Ok(())
    }

    /// The two derivation seeds of the index account: its table name's
    /// UTF-8 bytes and its fixed primary key.
    pub fn seeds(&self) -> (r: (Vec<u8>, Vec<u8>))
        ensures
            r.0@ == index_table_name_bytes(),
            r.1@ == seq![0u8],
    {
        let name_seed = "nautilus_index".as_bytes_vec();
        let key_seed = self.data.primary_key();
        (name_seed, key_seed)
    }

    /// The derived address of the index account and its bump seed, or
    /// `None` where no bump seed yields a valid address.
    pub fn pda(&self) -> (r: Option<(Vec<u8>, u8)>)
        requires
            self.wf(),
        ensures
            r is Some <==> derived_address(index_table_name_bytes(), seq![0u8], self.program_id@)
                is Some,
            r matches Some(p) ==> derived_address(
                index_table_name_bytes(),
                seq![0u8],
                self.program_id@,
            ) == Some((p.0@, p.1)),
    {
        let (name_seed, key_seed) = self.seeds();
        find_derived_address(name_seed.as_slice(), key_seed.as_slice(), self.program_id.as_slice())
    }

    /// The fixed primary key of the index account.
    pub fn primary_key(&self) -> (r: Vec<u8>)
        ensures
            r@ == seq![0u8],
    {
        self.data.primary_key()
    }

    /// The account's 32-byte address.
    pub fn key(&self) -> (r: &Vec<u8>)
        ensures
            r@ == self.account.key@,
    {
        &self.account.key
    }

    /// The account's balance.
    pub fn lamports(&self) -> (r: u64)
        ensures
            r == self.account.lamports,
    {
        self.account.lamports
    }

    /// The 32-byte address of the account's owner.
    pub fn owner(&self) -> (r: &Vec<u8>)
        ensures
            r@ == self.account.owner@,
    {
        &self.account.owner
    }

    /// Whether the account signed the current instruction.
    pub fn is_signer(&self) -> (r: bool)
        ensures
            r == self.account.is_signer,
    {
        self.account.is_signer
    }

    /// Whether the account is writable in the current instruction.
    pub fn is_writable(&self) -> (r: bool)
        ensures
            r == self.account.is_writable,
    {
        self.account.is_writable
    }
}

} // verus!
