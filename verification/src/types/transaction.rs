//! What a transaction is known by: its hash and its signature.

use vstd::prelude::*;
use crate::blockchain::keys::{address_bytes, address_text, decimal, write_decimal};
use crate::codec::{enc_tx, encode_tx};
use crate::crypto::{ascii_chars, ascii_string, ed25519_valid, ed25519_verify};
use crate::types::address::lemma_address_text_ascii;
use crate::types::hash::{digest, digest_of};
use crate::types::{Address, Digest, Signature, Transaction};

verus! {

/// The hash of a transaction: that of its encoding without the signature.
pub open spec fn tx_digest(t: Transaction) -> Digest {
    digest_of(enc_tx(t.unsigned()))
}

/// Whether a transaction is authorised by its sender: the treasury needs no
/// signature; a key must have signed the encoding of the transaction
/// without its signature.
pub open spec fn signature_valid(t: Transaction) -> bool {
    match t.src {
        Address::Treasury => true,
        Address::PublicKey(pk) => match t.sig {
            Signature::Unsigned => false,
            Signature::Signed(sig) => ed25519_valid(pk@, enc_tx(t.unsigned()), sig@),
        },
    }
}

/// Every digit of a number written in decimal is ASCII.
pub proof fn lemma_decimal_ascii(n: nat, width: nat)
    ensures
        forall|i: int| 0 <= i < decimal(n, width).len() ==> decimal(n, width)[i] < 128,
    decreases n + width,
{
    if !(n < 10 && width <= 1) {
        let w = if width > 0 {
            (width - 1) as nat
        } else {
            0
        };
        lemma_decimal_ascii(n / 10, w);
        let front = decimal(n / 10, w);
        let all = decimal(n, width);
        assert(all == front + seq![(48 + n % 10) as u8]);
        assert forall|i: int| 0 <= i < all.len() implies all[i] < 128 by {
            if i < front.len() {
                assert(all[i] == front[i]);
            }
        }
    }
}

/// What a transaction is called by: its sender, an underscore and its
/// nonce in decimal.
pub open spec fn uid_text(t: Transaction) -> Seq<u8> {
    address_text(t.src) + seq![95u8] + decimal(t.nonce as nat, 1)
}

impl Transaction {
    pub fn uid(&self) -> (id: String)
        ensures
            id@ == ascii_chars(uid_text(*self)),
    {
        let mut bytes = address_bytes(&self.src);
        bytes.push(95);
        write_decimal(&mut bytes, self.nonce as u64, 1);
        proof {
            lemma_address_text_ascii(self.src);
            lemma_decimal_ascii(self.nonce as nat, 1);
            assert(bytes@ =~= uid_text(*self));
        }
        ascii_string(bytes.as_slice())
    }

    pub fn hash(&self) -> (d: Digest)
        ensures
            d == tx_digest(*self),
    {
        let unsigned = self.without_signature();
        let bytes = encode_tx(&unsigned);
        digest(bytes.as_slice())
    }

    pub fn verify_signature(&self) -> (ok: bool)
        ensures
            ok == signature_valid(*self),
    {
        match &self.src {
            Address::Treasury => true,
            Address::PublicKey(pk) => match &self.sig {
                Signature::Unsigned => false,
                Signature::Signed(sig) => {
                    let unsigned = self.without_signature();
                    let bytes = encode_tx(&unsigned);
                    ed25519_verify(pk, bytes.as_slice(), sig)
                },
            },
        }
    }
}

} // verus!
