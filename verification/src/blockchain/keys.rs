//! The keys under which the chain is stored. Heights are written in
//! decimal, padded with zeros to ten digits.

use vstd::prelude::*;
use crate::bytes::push_bytes;
use crate::crypto::{hex_digit, hex_encode, hex_text};
use crate::types::Address;

verus! {

/// `n` in decimal, with zeros in front up to `width` digits.
pub open spec fn decimal(n: nat, width: nat) -> Seq<u8>
    decreases n + width,
{
    if n < 10 && width <= 1 {
        seq![(48 + n) as u8]
    } else {
        decimal(
            n / 10,
            if width > 0 {
                (width - 1) as nat
            } else {
                0
            },
        ) + seq![(48 + n % 10) as u8]
    }
}

pub proof fn lemma_decimal_len(n: nat, width: nat)
    ensures
        decimal(n, width).len() >= 1,
        decimal(n, width).len() >= width,
        n >= 10 || width > 1 ==> decimal(n, width).len() >= 2,
    decreases n + width,
{
    if !(n < 10 && width <= 1) {
        lemma_decimal_len(
            n / 10,
            if width > 0 {
                (width - 1) as nat
            } else {
                0
            },
        );
    }
}

/// A number written in decimal is not much longer than it is wide.
pub proof fn lemma_decimal_short(n: nat, width: nat)
    ensures
        decimal(n, width).len() <= width + n / 5 + 1,
    decreases n + width,
{
    if !(n < 10 && width <= 1) {
        lemma_decimal_short(
            n / 10,
            if width > 0 {
                (width - 1) as nat
            } else {
                0
            },
        );
    }
}

/// Two numbers that are written alike are the same number.
pub proof fn lemma_decimal_injective(a: nat, b: nat, width: nat)
    requires
        decimal(a, width) == decimal(b, width),
    ensures
        a == b,
    decreases a + width,
{
    let w = if width > 0 {
        (width - 1) as nat
    } else {
        0
    };
    lemma_decimal_len(a, width);
    lemma_decimal_len(b, width);
    if a < 10 && width <= 1 {
        assert(decimal(a, width)[0] == (48 + a) as u8);
        assert(decimal(b, width)[0] == (48 + b) as u8);
    } else {
        let pa = decimal(a / 10, w);
        let pb = decimal(b / 10, w);
        let la = seq![(48 + a % 10) as u8];
        let lb = seq![(48 + b % 10) as u8];
        assert(decimal(a, width) == pa + la);
        assert(decimal(b, width) == pb + lb);
        assert((pa + la).last() == (48 + a % 10) as u8);
        assert((pb + lb).last() == (48 + b % 10) as u8);
        assert((pa + la).drop_last() =~= pa);
        assert((pb + lb).drop_last() =~= pb);
        lemma_decimal_injective(a / 10, b / 10, w);
    }
}

/// Appends `n` in decimal, with zeros in front up to `width` digits.
pub fn write_decimal(out: &mut Vec<u8>, n: u64, width: usize)
    ensures
        final(out)@ == old(out)@ + decimal(n as nat, width as nat),
    decreases n + width,
{
    if n < 10 && width <= 1 {
        out.push(48 + n as u8);
        assert(out@ =~= old(out)@ + decimal(n as nat, width as nat));
    } else {
        write_decimal(
            out,
            n / 10,
            if width > 0 {
                width - 1
            } else {
                0
            },
        );
        out.push(48 + (n % 10) as u8);
        assert(out@ =~= old(out)@ + decimal(n as nat, width as nat));
    }
}

/// `height`
pub open spec fn key_height() -> Seq<u8> {
    seq![104u8, 101, 105, 103, 104, 116]
}

/// `block_` and a height
pub open spec fn key_block(i: u64) -> Seq<u8> {
    seq![98u8, 108, 111, 99, 107, 95] + decimal(i as nat, 10)
}

/// `merkle_` and a height
pub open spec fn key_merkle(i: u64) -> Seq<u8> {
    seq![109u8, 101, 114, 107, 108, 101, 95] + decimal(i as nat, 10)
}

/// `rollback_` and a height
pub open spec fn key_rollback(i: u64) -> Seq<u8> {
    seq![114u8, 111, 108, 108, 98, 97, 99, 107, 95] + decimal(i as nat, 10)
}

/// `power_` and a height
pub open spec fn key_power(i: u64) -> Seq<u8> {
    seq![112u8, 111, 119, 101, 114, 95] + decimal(i as nat, 10)
}

/// How an address is written: `Treasury`, or a public key in hexadecimal.
pub open spec fn address_text(a: Address) -> Seq<u8> {
    match a {
        Address::Treasury => seq![84u8, 114, 101, 97, 115, 117, 114, 121],
        Address::PublicKey(pk) => hex_text(pk@),
    }
}

/// `account_` and an address
pub open spec fn key_account(a: Address) -> Seq<u8> {
    seq![97u8, 99, 99, 111, 117, 110, 116, 95] + address_text(a)
}

pub fn height_key() -> (k: Vec<u8>)
    ensures
        k@ == key_height(),
{
    let word: [u8; 6] = [104, 101, 105, 103, 104, 116];
    let mut k: Vec<u8> = Vec::new();
    push_bytes(&mut k, word.as_slice());
    assert(k@ =~= key_height());
    k
}

pub fn block_key(i: u64) -> (k: Vec<u8>)
    ensures
        k@ == key_block(i),
{
    let word: [u8; 6] = [98, 108, 111, 99, 107, 95];
    let mut k: Vec<u8> = Vec::new();
    push_bytes(&mut k, word.as_slice());
    write_decimal(&mut k, i, 10);
    assert(k@ =~= key_block(i));
    k
}

pub fn merkle_key(i: u64) -> (k: Vec<u8>)
    ensures
        k@ == key_merkle(i),
{
    let word: [u8; 7] = [109, 101, 114, 107, 108, 101, 95];
    let mut k: Vec<u8> = Vec::new();
    push_bytes(&mut k, word.as_slice());
    write_decimal(&mut k, i, 10);
    assert(k@ =~= key_merkle(i));
    k
}

pub fn rollback_key(i: u64) -> (k: Vec<u8>)
    ensures
        k@ == key_rollback(i),
{
    let word: [u8; 9] = [114, 111, 108, 108, 98, 97, 99, 107, 95];
    let mut k: Vec<u8> = Vec::new();
    push_bytes(&mut k, word.as_slice());
    write_decimal(&mut k, i, 10);
    assert(k@ =~= key_rollback(i));
    k
}

pub fn power_key(i: u64) -> (k: Vec<u8>)
    ensures
        k@ == key_power(i),
{
    let word: [u8; 6] = [112, 111, 119, 101, 114, 95];
    let mut k: Vec<u8> = Vec::new();
    push_bytes(&mut k, word.as_slice());
    write_decimal(&mut k, i, 10);
    assert(k@ =~= key_power(i));
    k
}

/// How an address is written.
pub fn address_bytes(a: &Address) -> (text: Vec<u8>)
    ensures
        text@ == address_text(*a),
{
    match a {
        Address::Treasury => {
            let word: [u8; 8] = [84, 114, 101, 97, 115, 117, 114, 121];
            let mut text: Vec<u8> = Vec::new();
            push_bytes(&mut text, word.as_slice());
            assert(text@ =~= address_text(*a));
            text
        },
        Address::PublicKey(pk) => hex_encode(pk.as_slice()),
    }
}

pub fn account_key(a: &Address) -> (k: Vec<u8>)
    ensures
        k@ == key_account(*a),
{
    let word: [u8; 8] = [97, 99, 99, 111, 117, 110, 116, 95];
    let mut k: Vec<u8> = Vec::new();
    push_bytes(&mut k, word.as_slice());
    let text = address_bytes(a);
    push_bytes(&mut k, text.as_slice());
    assert(k@ =~= key_account(*a));
    k
}

/// What a key is for.
pub enum KeyKind {
    Height,
    Block,
    Merkle,
    Rollback,
    Power,
    Account,
    Other,
}

/// The kind of a key, told by its first byte.
pub open spec fn key_kind(k: Seq<u8>) -> KeyKind {
    if k.len() == 0 {
        KeyKind::Other
    } else if k[0] == 104 {
        KeyKind::Height
    } else if k[0] == 98 {
        KeyKind::Block
    } else if k[0] == 109 {
        KeyKind::Merkle
    } else if k[0] == 114 {
        KeyKind::Rollback
    } else if k[0] == 112 {
        KeyKind::Power
    } else if k[0] == 97 {
        KeyKind::Account
    } else {
        KeyKind::Other
    }
}

/// Each key of the chain is of its own kind, so keys of two kinds differ.
pub proof fn lemma_key_kinds(i: u64, a: Address)
    ensures
        key_kind(key_height()) is Height,
        key_kind(key_block(i)) is Block,
        key_kind(key_merkle(i)) is Merkle,
        key_kind(key_rollback(i)) is Rollback,
        key_kind(key_power(i)) is Power,
        key_kind(key_account(a)) is Account,
{
}

/// Keys of one kind for two heights differ.
pub proof fn lemma_keys_injective(i: u64, j: u64)
    requires
        i != j,
    ensures
        key_block(i) != key_block(j),
        key_merkle(i) != key_merkle(j),
        key_rollback(i) != key_rollback(j),
        key_power(i) != key_power(j),
{
    let di = decimal(i as nat, 10);
    let dj = decimal(j as nat, 10);
    if di == dj {
        lemma_decimal_injective(i as nat, j as nat, 10);
    }
    lemma_decimal_len(i as nat, 10);
    lemma_decimal_len(j as nat, 10);
    let b = seq![98u8, 108, 111, 99, 107, 95];
    let m = seq![109u8, 101, 114, 107, 108, 101, 95];
    let r = seq![114u8, 111, 108, 108, 98, 97, 99, 107, 95];
    let p = seq![112u8, 111, 119, 101, 114, 95];
    assert((b + di).skip(6) =~= di);
    assert((b + dj).skip(6) =~= dj);
    assert((m + di).skip(7) =~= di);
    assert((m + dj).skip(7) =~= dj);
    assert((r + di).skip(9) =~= di);
    assert((r + dj).skip(9) =~= dj);
    assert((p + di).skip(6) =~= di);
    assert((p + dj).skip(6) =~= dj);
}

/// Two byte strings that are written alike in hexadecimal are the same.
pub proof fn lemma_hex_injective(a: Seq<u8>, b: Seq<u8>)
    requires
        hex_text(a) == hex_text(b),
    ensures
        a == b,
{
    assert(hex_text(a).len() == 2 * a.len());
    assert(hex_text(b).len() == 2 * b.len());
    assert forall|i: int| 0 <= i < a.len() implies a[i] == b[i] by {
        assert(hex_text(a)[2 * i] == hex_digit(a[i] as int / 16));
        assert(hex_text(b)[2 * i] == hex_digit(b[i] as int / 16));
        assert(hex_text(a)[2 * i + 1] == hex_digit(a[i] as int % 16));
        assert(hex_text(b)[2 * i + 1] == hex_digit(b[i] as int % 16));
    }
    assert(a =~= b);
}

/// Two addresses with one account key are the same address.
pub proof fn lemma_account_key_injective(a: Address, b: Address)
    requires
        key_account(a) == key_account(b),
    ensures
        a == b,
{
    let w = seq![97u8, 99, 99, 111, 117, 110, 116, 95];
    assert((w + address_text(a)).skip(8) =~= address_text(a));
    assert((w + address_text(b)).skip(8) =~= address_text(b));
    lemma_address_text_injective(a, b);
}

/// Two addresses that are written alike are the same address.
pub proof fn lemma_address_text_injective(a: Address, b: Address)
    requires
        address_text(a) == address_text(b),
    ensures
        a == b,
{
    match (a, b) {
        (Address::PublicKey(x), Address::PublicKey(y)) => {
            lemma_hex_injective(x@, y@);
            assert(x =~= y);
        },
        (Address::Treasury, Address::Treasury) => {},
        (Address::Treasury, Address::PublicKey(y)) => {
            assert(hex_text(y@).len() == 64);
            assert(address_text(a).len() == 8);
        },
        (Address::PublicKey(x), Address::Treasury) => {
            assert(hex_text(x@).len() == 64);
            assert(address_text(b).len() == 8);
        },
    }
}

/// The keys of the chain are short enough to be stored in a journal.
pub proof fn lemma_keys_short(i: u64, a: Address)
    ensures
        key_height().len() <= u64::MAX,
        key_power(i).len() <= u64::MAX,
        key_account(a).len() <= u64::MAX,
{
    lemma_decimal_short(i as nat, 10);
    match a {
        Address::Treasury => {},
        Address::PublicKey(pk) => {
            assert(hex_text(pk@).len() == 64);
        },
    }
}

} // verus!
