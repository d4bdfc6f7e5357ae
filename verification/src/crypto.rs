//! The primitives that the ledger takes from outside: SHA3-256, Ed25519
//! and hexadecimal text. Nothing here is proved; each item says what it
//! relies on.

use vstd::prelude::*;

verus! {

/// The SHA3-256 digest of a byte string.
pub uninterp spec fn sha3_256(data: Seq<u8>) -> Seq<u8>;

/// The Ed25519 public key that belongs to a 32-byte secret key.
pub uninterp spec fn ed25519_public(secret: Seq<u8>) -> Seq<u8>;

/// The Ed25519 signature that a secret key makes of a message.
pub uninterp spec fn ed25519_signature(secret: Seq<u8>, message: Seq<u8>) -> Seq<u8>;

/// Whether `signature` is an Ed25519 signature of `message` under the
/// public key `public`.
pub uninterp spec fn ed25519_valid(public: Seq<u8>, message: Seq<u8>, signature: Seq<u8>) -> bool;

/// Calls `sha3::Sha3_256::digest` (the `Digest` trait's one-shot function).
/// The digest depends on the input bytes alone and has 32 bytes.
#[verifier::external_body]
pub(crate) fn sha3_digest(data: &[u8]) -> (out: [u8; 32])
    ensures
        out@ == sha3_256(data@),
{
    let digest = <sha3::Sha3_256 as sha3::Digest>::digest(data);
    digest.into()
}

/// Calls `ed25519_dalek::SigningKey::from_bytes` and `verifying_key`: the
/// public key is derived from the secret key alone.
#[verifier::external_body]
pub(crate) fn ed25519_public_key(secret: &[u8; 32]) -> (out: [u8; 32])
    ensures
        out@ == ed25519_public(secret@),
{
    ed25519_dalek::SigningKey::from_bytes(secret).verifying_key().to_bytes()
}

/// Calls `ed25519_dalek::SigningKey::sign` (the `Signer` trait). Ed25519
/// signing is deterministic, so the signature depends on the key and the
/// message alone; signing with this key type does not fail.
#[verifier::external_body]
pub(crate) fn ed25519_sign(secret: &[u8; 32], message: &[u8]) -> (out: [u8; 64])
    ensures
        out@ == ed25519_signature(secret@, message@),
{
    let key = ed25519_dalek::SigningKey::from_bytes(secret);
    ed25519_dalek::Signer::sign(&key, message).to_bytes()
}

/// Calls `ed25519_dalek::VerifyingKey::from_bytes` and `verify` (the
/// `Verifier` trait). Bytes that are no public key verify nothing.
#[verifier::external_body]
pub(crate) fn ed25519_verify(public: &[u8; 32], message: &[u8], signature: &[u8; 64]) -> (ok: bool)
    ensures
        ok == ed25519_valid(public@, message@, signature@),
{
    match ed25519_dalek::VerifyingKey::from_bytes(public) {
        Ok(key) => ed25519_dalek::Verifier::verify(
            &key,
            message,
            &ed25519_dalek::Signature::from_bytes(signature),
        ).is_ok(),
        Err(_) => false,
    }
}

/// The lower-case hexadecimal digit of a value below 16.
pub open spec fn hex_digit(n: int) -> u8 {
    if n < 10 {
        (48 + n) as u8
    } else {
        (87 + n) as u8
    }
}

/// Lower-case hexadecimal text: two digits for each byte, the high half first.
pub open spec fn hex_text(data: Seq<u8>) -> Seq<u8> {
    Seq::new(
        2 * data.len(),
        |i: int|
            if i % 2 == 0 {
                hex_digit(data[i / 2] as int / 16)
            } else {
                hex_digit(data[i / 2] as int % 16)
            },
    )
}

/// Calls `hex::encode`, which writes each byte as two characters of
/// `0123456789abcdef`, the high half first; the result is taken as bytes.
#[verifier::external_body]
pub(crate) fn hex_encode(data: &[u8]) -> (out: Vec<u8>)
    ensures
        out@ == hex_text(data@),
{
    hex::encode(data).into_bytes()
}

/// The value of a hexadecimal digit of either case, if the byte is one.
pub open spec fn hex_value(c: u8) -> Option<int> {
    if 48 <= c <= 57 {
        Some(c - 48)
    } else if 97 <= c <= 102 {
        Some(c - 87)
    } else if 65 <= c <= 70 {
        Some(c - 55)
    } else {
        None
    }
}

/// The bytes that a hexadecimal text stands for: two digits of either case
/// for each byte, the high half first. A text of odd length, or with a
/// byte that is no digit, stands for nothing.
pub open spec fn hex_bytes(text: Seq<u8>) -> Option<Seq<u8>> {
    if text.len() % 2 == 0 && (forall|i: int|
        0 <= i < text.len() ==> hex_value(#[trigger] text[i]) is Some) {
        Some(
            Seq::new(
                text.len() / 2,
                |i: int|
                    (hex_value(text[2 * i]).unwrap() * 16 + hex_value(text[2 * i + 1]).unwrap()) as u8,
            ),
        )
    } else {
        None
    }
}

/// Calls `hex::decode`, which refuses a text of odd length and any byte that
/// is not one of `0-9`, `a-f`, `A-F`, and else gives one byte for each two
/// digits, the high half first.
#[verifier::external_body]
pub(crate) fn hex_decode(text: &[u8]) -> (out: Option<Vec<u8>>)
    ensures
        match out {
            Some(bytes) => hex_bytes(text@) == Some(bytes@),
            None => hex_bytes(text@) is None,
        },
{
    hex::decode(text).ok()
}

/// The characters of a run of ASCII bytes.
pub open spec fn ascii_chars(bytes: Seq<u8>) -> Seq<char> {
    bytes.map_values(|b: u8| b as char)
}

/// Calls `String::from_utf8_lossy`. Bytes below 128 are valid UTF-8, one
/// character each, so nothing is replaced.
#[verifier::external_body]
pub(crate) fn ascii_string(bytes: &[u8]) -> (text: String)
    requires
        forall|i: int| 0 <= i < bytes@.len() ==> bytes@[i] < 128,
    ensures
        text@ == ascii_chars(bytes@),
{
    String::from_utf8_lossy(bytes).into_owned()
}

} // verus!
