//! Value types: identities, amounts, hashes and the transaction records.

use std::sync::Arc;
use vstd::prelude::*;
use vstd::std_specs::convert::FromSpecImpl;

verus! {

/// The identity that owns a nonce sequence of transactions.
#[derive(Debug, Clone, Copy, Hash, PartialEq, Eq, PartialOrd, Ord, Structural)]
pub struct Address(pub u64);

/// An amount: a nonce, a price or a cost.
#[derive(Debug, Clone, Copy, Hash, PartialEq, Eq, PartialOrd, Ord, Structural)]
pub struct U256(pub u64);

/// A content hash.
#[derive(Debug, Clone, Copy, Hash, PartialEq, Eq, PartialOrd, Ord, Structural)]
pub struct H256(pub u64);

impl Default for Address {
    fn default() -> (r: Self)
        ensures
            r == Address(0),
    {
        Address(0)
    }
}

impl Default for U256 {
    fn default() -> (r: Self)
        ensures
            r == U256(0),
    {
        U256(0)
    }
}

impl Default for H256 {
    fn default() -> (r: Self)
        ensures
            r == H256(0),
    {
        H256(0)
    }
}

impl From<u64> for Address {
    fn from(x: u64) -> (r: Self) {
        Address(x)
    }
}

impl FromSpecImpl<u64> for Address {
    open spec fn obeys_from_spec() -> bool {
        true
    }

    open spec fn from_spec(x: u64) -> Self {
        Address(x)
    }
}

impl From<u64> for U256 {
    fn from(x: u64) -> (r: Self) {
        U256(x)
    }
}

impl FromSpecImpl<u64> for U256 {
    open spec fn obeys_from_spec() -> bool {
        true
    }

    open spec fn from_spec(x: u64) -> Self {
        U256(x)
    }
}

impl From<u64> for H256 {
    fn from(x: u64) -> (r: Self) {
        H256(x)
    }
}

impl FromSpecImpl<u64> for H256 {
    open spec fn obeys_from_spec() -> bool {
        true
    }

    open spec fn from_spec(x: u64) -> Self {
        H256(x)
    }
}

/// A transaction as it arrives, before anything is known of it.
#[derive(Debug)]
pub struct UnverifiedTransaction;

/// A transaction that carries a signature.
#[derive(Debug)]
pub struct SignedTransaction;

/// A transaction that passed verification: the unit the pool manages.
#[derive(Debug, PartialEq, Eq, Structural)]
pub struct VerifiedTransaction {
    pub hash: H256,
    pub nonce: U256,
    pub gas_price: U256,
    pub gas: U256,
    pub sender: Address,
    pub insertion_id: u64,
}

impl VerifiedTransaction {
    /// The content hash that identifies this transaction.
    pub fn hash(&self) -> (r: H256)
        ensures
            r == self.hash,
    {
        self.hash
    }

    /// The memory this transaction is accounted with: its nonce, as a size.
    pub fn mem_usage(&self) -> (r: usize)
        ensures
            r == self.nonce.0 as usize,
    {
        self.nonce.0 as usize
    }

    /// The identity this transaction was sent by.
    pub fn sender(&self) -> (r: Address)
        ensures
            r == self.sender,
    {
        self.sender
    }
}

/// A read-only handle to a record, shared by the pool's indices and by callers;
/// the record lives as long as its longest holder.
pub type SharedTransaction = Arc<VerifiedTransaction>;

/// `Arc::clone`: hands out one more handle to the same record. The contract
/// claims that the new handle reads as the old one does.
#[verifier::external_body]
pub(crate) fn share(handle: &SharedTransaction) -> (copy: SharedTransaction)
    ensures
        copy == *handle,
{
    Arc::clone(handle)
}

} // verus!
