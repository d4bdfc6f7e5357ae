//! A wallet: a seed from which an Ed25519 key pair is derived, and the
//! transactions signed with it.

use vstd::prelude::*;
use crate::bytes::{array_of, bytes_to_vec, lemma_array_of_view};
use crate::codec::{enc_tx, encode_tx};
use crate::crypto::{
    ed25519_public,
    ed25519_public_key,
    ed25519_sign,
    ed25519_signature,
};
use crate::types::hash::{digest, digest_of};
use crate::types::{Address, Money, Signature, Transaction, TransactionData};

verus! {

#[derive(Debug)]
pub struct Wallet {
    seed: Vec<u8>,
    nonce: u32,
}

/// The secret key of a seed: its SHA3-256 digest.
pub open spec fn secret_of(seed: Seq<u8>) -> [u8; 32] {
    digest_of(seed)
}

/// The address of a seed: the public key that belongs to its secret key.
pub open spec fn address_of(seed: Seq<u8>) -> Address {
    Address::PublicKey(array_of::<32>(ed25519_public(secret_of(seed)@)))
}

/// The transaction that sends `amount` from `src` to `dst`, not yet signed.
pub open spec fn unsigned_send(src: Address, nonce: u32, dst: Address, amount: Money, fee: Money) -> Transaction {
    Transaction {
        src,
        nonce,
        data: TransactionData::RegularSend { dst, amount },
        fee,
        sig: Signature::Unsigned,
    }
}

/// The transaction that sends `amount` from `src` to `dst`, with the
/// signature `sig` of its encoding.
pub fn signed_send(
    src: Address,
    nonce: u32,
    dst: Address,
    amount: Money,
    fee: Money,
    sig: [u8; 64],
) -> (tx: Transaction)
    ensures
        tx == (Transaction { sig: Signature::Signed(sig), ..unsigned_send(src, nonce, dst, amount, fee) }),
        tx.unsigned() == unsigned_send(src, nonce, dst, amount, fee),
{
    Transaction {
        src,
        nonce,
        data: TransactionData::RegularSend { dst, amount },
        fee,
        sig: Signature::Signed(sig),
    }
}

impl Clone for Wallet {
    fn clone(&self) -> (copy: Wallet)
        ensures
            copy.seed() == self.seed(),
            copy.nonce() == self.nonce(),
    {
        self.with_nonce(self.nonce)
    }
}

impl Wallet {
    pub closed spec fn seed(&self) -> Seq<u8> {
        self.seed@
    }

    /// The nonce that this wallet gives its transactions.
    pub closed spec fn nonce(&self) -> u32 {
        self.nonce
    }

    pub fn new(seed: Vec<u8>) -> (wallet: Self)
        ensures
            wallet.seed() == seed@,
            wallet.nonce() == 0,
    {
        Self { seed, nonce: 0 }
    }

    /// A wallet on the same seed whose transactions carry `nonce`.
    pub fn with_nonce(&self, nonce: u32) -> (wallet: Self)
        ensures
            wallet.seed() == self.seed(),
            wallet.nonce() == nonce,
    {
        Self { seed: bytes_to_vec(self.seed.as_slice()), nonce }
    }

    pub fn get_address(&self) -> (addr: Address)
        ensures
            addr == address_of(self.seed()),
    {
        let secret = digest(self.seed.as_slice());
        let public = ed25519_public_key(&secret);
        proof {
            lemma_array_of_view(public);
        }
        Address::PublicKey(public)
    }

    /// A regular send from this wallet's address, signed with its key: the
    /// signature is that of the encoding of the unsigned transaction.
    pub fn create_transaction(&self, dst: Address, amount: Money, fee: Money) -> (tx: Transaction)
        ensures
            tx.unsigned() == unsigned_send(address_of(self.seed()), self.nonce(), dst, amount, fee),
            tx.sig == Signature::Signed(
                array_of::<64>(
                    ed25519_signature(secret_of(self.seed())@, enc_tx(tx.unsigned())),
                ),
            ),
    {
        let secret = digest(self.seed.as_slice());
        let src = self.get_address();
        let unsigned = Transaction {
            src,
            nonce: self.nonce,
            data: TransactionData::RegularSend { dst, amount },
            fee,
            sig: Signature::Unsigned,
        };
        let bytes = encode_tx(&unsigned);
        let sig = ed25519_sign(&secret, bytes.as_slice());
        proof {
            lemma_array_of_view(sig);
        }
        signed_send(src, self.nonce, dst, amount, fee, sig)
    }
}

} // verus!
