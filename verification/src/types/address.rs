//! How an address is written and read.

use vstd::prelude::*;
use crate::blockchain::keys::{address_bytes, address_text};
use crate::bytes::{array_of, read_array};
use crate::crypto::{
    ascii_chars,
    ascii_string,
    hex_bytes,
    hex_decode,
    hex_digit,
    hex_text,
    hex_value,
};
use crate::types::{Address, ParseAddressError};
use vstd::string::StringSliceAdditionalSpecFns;

verus! {

/// Every byte of the text of an address is ASCII.
pub proof fn lemma_address_text_ascii(a: Address)
    ensures
        forall|i: int| 0 <= i < address_text(a).len() ==> address_text(a)[i] < 128,
{
}

/// The address that a text stands for: the hexadecimal text of 32 bytes is
/// a public key; nothing else is an address.
pub open spec fn parse_address_text(text: Seq<u8>) -> Result<Address, ParseAddressError> {
    match hex_bytes(text) {
        Some(bytes) => if bytes.len() == 32 {
            Ok(Address::PublicKey(array_of::<32>(bytes)))
        } else {
            Err(ParseAddressError::Invalid)
        },
        None => Err(ParseAddressError::Invalid),
    }
}

/// Hexadecimal text reads back as the bytes that it was written for.
pub proof fn lemma_hex_roundtrip(bytes: Seq<u8>)
    ensures
        hex_bytes(hex_text(bytes)) == Some(bytes),
{
    let text = hex_text(bytes);
    assert forall|i: int| 0 <= i < text.len() implies hex_value(#[trigger] text[i]) is Some by {
        let b = bytes[i / 2] as int;
        if i % 2 == 0 {
            assert(text[i] == hex_digit(b / 16));
        } else {
            assert(text[i] == hex_digit(b % 16));
        }
    }
    let back = hex_bytes(text).unwrap();
    assert forall|i: int| 0 <= i < bytes.len() implies back[i] == bytes[i] by {
        let b = bytes[i] as int;
        assert(text[2 * i] == hex_digit(b / 16));
        assert(text[2 * i + 1] == hex_digit(b % 16));
    }
    assert(back =~= bytes);
}

/// The text of a public key reads back as that key.
pub proof fn lemma_parse_address_roundtrip(pk: [u8; 32])
    ensures
        parse_address_text(address_text(Address::PublicKey(pk))) == Ok::<
            Address,
            ParseAddressError,
        >(Address::PublicKey(pk)),
{
    lemma_hex_roundtrip(pk@);
    crate::bytes::lemma_array_of_view(pk);
}

impl Address {
    /// How the address is written: `Treasury`, or the public key in
    /// lower-case hexadecimal.
    pub fn to_string(&self) -> (text: String)
        ensures
            text@ == ascii_chars(address_text(*self)),
    {
        let bytes = address_bytes(self);
        proof {
            lemma_address_text_ascii(*self);
        }
        ascii_string(bytes.as_slice())
    }

    /// Reads an address from its text, given as bytes.
    pub fn parse(text: &[u8]) -> (r: Result<Address, ParseAddressError>)
        ensures
            r == parse_address_text(text@),
    {
        match hex_decode(text) {
            Some(bytes) => if bytes.len() == 32 {
                let key = read_array::<32>(bytes.as_slice(), 0);
                assert(bytes@.subrange(0, 32) =~= bytes@);
                Ok(Address::PublicKey(key))
            } else {
                Err(ParseAddressError::Invalid)
            },
            None => Err(ParseAddressError::Invalid),
        }
    }
}

impl std::str::FromStr for Address {
    type Err = ParseAddressError;

    fn from_str(s: &str) -> (r: Result<Self, ParseAddressError>)
        ensures
            r == parse_address_text(s.spec_bytes()),
    {
        Address::parse(s.as_bytes())
    }
}

} // verus!
