//! The entities of the ledger: addresses, accounts, transactions, headers
//! and blocks.

use vstd::prelude::*;
use crate::bytes::array_eq;

pub mod address;
pub mod blocks;
pub mod hash;
pub mod header;
pub mod transaction;

verus! {

/// A type that can be used at runtime.
pub trait MemberBound: Send + Sync + Sized + std::fmt::Debug + Clone + Eq + PartialEq + 'static {

}

impl<T: Send + Sync + Sized + std::fmt::Debug + Clone + Eq + PartialEq + 'static> MemberBound for T {

}

pub type Money = u64;

/// A 32-byte SHA3-256 digest.
pub type Digest = [u8; 32];

#[derive(Clone, Copy, Debug, PartialEq, Eq)]
pub enum Signature {
    Unsigned,
    Signed([u8; 64]),
}

/// Who holds money. All of the supply starts in the treasury. Addresses
/// are ordered as their encodings are: the treasury first, then the keys
/// byte by byte.
#[derive(Clone, Copy, Debug, PartialEq, Eq, PartialOrd, Ord, Hash)]
pub enum Address {
    Treasury,
    PublicKey([u8; 32]),
}

#[derive(Clone, Copy, Debug, PartialEq, Eq)]
pub enum ParseAddressError {
    /// The text is not that of an address.
    Invalid,
}

impl ParseAddressError {
    /// What the error says.
    pub fn message(&self) -> (text: &'static str)
        ensures
            text@ == "address invalid"@,
    {
        "address invalid"
    }
}

#[derive(Clone, Copy, Debug, PartialEq, Eq)]
pub struct Account {
    pub balance: Money,
    pub nonce: u32,
}

impl Address {
    /// Whether two addresses are the same.
    pub fn same(&self, other: &Address) -> (same: bool)
        ensures
            same == (*self == *other),
    {
        match (self, other) {
            (Address::Treasury, Address::Treasury) => true,
            (Address::PublicKey(a), Address::PublicKey(b)) => array_eq(a, b),
            _ => false,
        }
    }
}

/// What a transaction does. Only `RegularSend` moves money on this ledger;
/// the payloads of the contract variants are carried as digests.
#[derive(Clone, Copy, Debug, PartialEq, Eq)]
pub enum TransactionData {
    RegularSend { dst: Address, amount: Money },
    RegisterValidator { vrf_stuff: u8, amount: Money },
    CreateContract { deposit_withdraw_circuit: Digest, update_circuits: Digest, initial_state: Digest },
    DepositWithdraw { contract_id: Digest, deposit_withdraws: Digest, next_state: Digest, proof: Digest },
    Update { contract_id: Digest, circuit_index: u32, next_state: Digest, proof: Digest },
}

#[derive(Clone, Copy, Debug, PartialEq, Eq)]
pub struct Transaction {
    pub src: Address,
    pub nonce: u32,
    pub data: TransactionData,
    pub fee: Money,
    pub sig: Signature,
}

#[derive(Clone, Copy, Debug, PartialEq, Eq)]
pub struct ProofOfWork {
    /// When the miner started on this block.
    pub timestamp: u32,
    /// The difficulty target.
    pub target: u32,
    /// What the miner varies.
    pub nonce: u64,
}

#[derive(Clone, Copy, Debug, PartialEq, Eq)]
pub struct Header {
    pub parent_hash: Digest,
    pub number: u64,
    pub block_root: Digest,
    pub proof_of_work: ProofOfWork,
}

#[derive(Debug, PartialEq, Eq)]
pub struct Block {
    pub header: Header,
    pub body: Vec<Transaction>,
}

/// The mathematical value of a `Block`.
pub struct BlockView {
    pub header: Header,
    pub body: Seq<Transaction>,
}

impl View for Block {
    type V = BlockView;

    open spec fn view(&self) -> BlockView {
        BlockView { header: self.header, body: self.body@ }
    }
}

impl Clone for Block {
    fn clone(&self) -> (copy: Block)
        ensures
            copy@ == self@,
    {
        let mut body: Vec<Transaction> = Vec::new();
        let mut i: usize = 0;
        while i < self.body.len()
            invariant
                i <= self.body.len(),
                body@ == self.body@.take(i as int),
            decreases self.body.len() - i,
        {
            body.push(self.body[i]);
            assert(body@ =~= self.body@.take(i as int + 1));
            i = i + 1;
        }
        assert(self.body@.take(self.body@.len() as int) =~= self.body@);
        Block { header: self.header, body }
    }
}

impl Transaction {
    /// This transaction without its signature: what is hashed and signed.
    pub open spec fn unsigned(self) -> Transaction {
        Transaction { sig: Signature::Unsigned, ..self }
    }

    pub fn without_signature(&self) -> (tx: Transaction)
        ensures
            tx == self.unsigned(),
    {
        Transaction {
            src: self.src,
            nonce: self.nonce,
            data: self.data,
            fee: self.fee,
            sig: Signature::Unsigned,
        }
    }
}

} // verus!
