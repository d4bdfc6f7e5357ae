//! The canonical byte encoding of every entity that is stored or hashed:
//! fields in a fixed order, integers little-endian at their full width, one
//! tag byte before each variant, a 64-bit count before each sequence.
//!
//! For each entity `enc_*` is its encoding and `parse_*` reads one value at
//! a position of a byte string and gives the position after it. A parser
//! accepts exactly the encodings: see the `lemma_*_complete` and
//! `lemma_*_sound` pairs.

use vstd::prelude::*;
use vstd::bytes::{
    lemma_auto_spec_u32_to_from_le_bytes,
    lemma_auto_spec_u64_to_from_le_bytes,
    spec_u32_from_le_bytes,
    spec_u32_to_le_bytes,
    spec_u64_from_le_bytes,
    spec_u64_to_le_bytes,
    u32_from_le_bytes,
    u32_to_le_bytes,
    u64_from_le_bytes,
    u64_to_le_bytes,
};
use vstd::slice::slice_subrange;
use crate::bytes::{array_of, lemma_array_of, lemma_array_of_view, push_bytes, read_array};
use crate::bytes::bytes_to_vec;
use crate::db::{ops_view, Op, WriteOp};
use crate::types::{
    Account,
    Address,
    Block,
    BlockView,
    Digest,
    Header,
    ProofOfWork,
    Signature,
    Transaction,
    TransactionData,
};

verus! {

/// Whether the byte string `e` stands in `s` at position `pos`.
pub open spec fn holds_at(s: Seq<u8>, pos: int, e: Seq<u8>) -> bool {
    &&& 0 <= pos
    &&& pos + e.len() <= s.len()
    &&& s.subrange(pos, pos + e.len()) == e
}

/// A concatenation stands at a position exactly when its first part stands
/// there and its second part right after it.
pub proof fn lemma_holds_concat(s: Seq<u8>, pos: int, a: Seq<u8>, b: Seq<u8>)
    ensures
        holds_at(s, pos, a + b) <==> holds_at(s, pos, a) && holds_at(s, pos + a.len(), b),
{
    if holds_at(s, pos, a + b) {
        assert(s.subrange(pos, pos + a.len()) =~= a) by {
            assert forall|i: int| 0 <= i < a.len() implies s.subrange(pos, pos + a.len())[i]
                == a[i] by {
                assert(s.subrange(pos, pos + (a + b).len())[i] == (a + b)[i]);
            }
        }
        assert(s.subrange(pos + a.len(), pos + a.len() + b.len()) =~= b) by {
            assert forall|i: int| 0 <= i < b.len() implies s.subrange(
                pos + a.len(),
                pos + a.len() + b.len(),
            )[i] == b[i] by {
                assert(s.subrange(pos, pos + (a + b).len())[a.len() + i] == (a + b)[a.len() + i]);
            }
        }
    }
    if holds_at(s, pos, a) && holds_at(s, pos + a.len(), b) {
        assert(s.subrange(pos, pos + (a + b).len()) =~= a + b) by {
            assert forall|i: int| 0 <= i < (a + b).len() implies s.subrange(
                pos,
                pos + (a + b).len(),
            )[i] == (a + b)[i] by {
                if i < a.len() {
                    assert(s.subrange(pos, pos + a.len())[i] == a[i]);
                } else {
                    assert(s.subrange(pos + a.len(), pos + a.len() + b.len())[i - a.len()] == b[i
                        - a.len()]);
                }
            }
        }
    }
}

/// A byte string stands in itself at position 0, and nothing else of its
/// length does.
pub proof fn lemma_holds_whole(s: Seq<u8>, e: Seq<u8>)
    ensures
        holds_at(s, 0, e) && e.len() == s.len() <==> s == e,
{
    assert(s.subrange(0, s.len() as int) =~= s);
}

pub open spec fn enc_u32(x: u32) -> Seq<u8> {
    spec_u32_to_le_bytes(x)
}

pub open spec fn enc_u64(x: u64) -> Seq<u8> {
    spec_u64_to_le_bytes(x)
}

pub open spec fn parse_u32(s: Seq<u8>, pos: int) -> Option<(u32, int)> {
    if 0 <= pos && pos + 4 <= s.len() {
        Some((spec_u32_from_le_bytes(s.subrange(pos, pos + 4)), pos + 4))
    } else {
        None
    }
}

pub open spec fn parse_u64(s: Seq<u8>, pos: int) -> Option<(u64, int)> {
    if 0 <= pos && pos + 8 <= s.len() {
        Some((spec_u64_from_le_bytes(s.subrange(pos, pos + 8)), pos + 8))
    } else {
        None
    }
}

pub open spec fn parse_array<const N: usize>(s: Seq<u8>, pos: int) -> Option<([u8; N], int)> {
    if 0 <= pos && pos + N <= s.len() {
        Some((array_of::<N>(s.subrange(pos, pos + N)), pos + N))
    } else {
        None
    }
}

pub proof fn lemma_u32_len(x: u32)
    ensures
        enc_u32(x).len() == 4,
{
    lemma_auto_spec_u32_to_from_le_bytes();
}

pub proof fn lemma_u64_len(x: u64)
    ensures
        enc_u64(x).len() == 8,
{
    lemma_auto_spec_u64_to_from_le_bytes();
}

pub proof fn lemma_u32_complete(s: Seq<u8>, pos: int, v: u32)
    requires
        holds_at(s, pos, enc_u32(v)),
    ensures
        parse_u32(s, pos) == Some((v, pos + 4)),
        enc_u32(v).len() == 4,
{
    lemma_auto_spec_u32_to_from_le_bytes();
}

pub proof fn lemma_u32_sound(s: Seq<u8>, pos: int)
    ensures
        parse_u32(s, pos) matches Some((v, p)) ==> holds_at(s, pos, enc_u32(v)) && p == pos
            + enc_u32(v).len(),
{
    lemma_auto_spec_u32_to_from_le_bytes();
}

pub proof fn lemma_u64_complete(s: Seq<u8>, pos: int, v: u64)
    requires
        holds_at(s, pos, enc_u64(v)),
    ensures
        parse_u64(s, pos) == Some((v, pos + 8)),
        enc_u64(v).len() == 8,
{
    lemma_auto_spec_u64_to_from_le_bytes();
}

pub proof fn lemma_u64_sound(s: Seq<u8>, pos: int)
    ensures
        parse_u64(s, pos) matches Some((v, p)) ==> holds_at(s, pos, enc_u64(v)) && p == pos
            + enc_u64(v).len(),
{
    lemma_auto_spec_u64_to_from_le_bytes();
}

pub proof fn lemma_array_complete<const N: usize>(s: Seq<u8>, pos: int, v: [u8; N])
    requires
        holds_at(s, pos, v@),
    ensures
        parse_array::<N>(s, pos) == Some((v, pos + N)),
{
    lemma_array_of_view(v);
}

pub proof fn lemma_array_sound<const N: usize>(s: Seq<u8>, pos: int)
    ensures
        parse_array::<N>(s, pos) matches Some((v, p)) ==> holds_at(s, pos, v@) && p == pos + N,
{
    if 0 <= pos && pos + N <= s.len() {
        lemma_array_of::<N>(s.subrange(pos, pos + N));
    }
}

/// Appends the encoding of `x`.
pub fn write_u32(out: &mut Vec<u8>, x: u32)
    ensures
        final(out)@ == old(out)@ + enc_u32(x),
{
    let b = u32_to_le_bytes(x);
    push_bytes(out, b.as_slice());
}

/// Appends the encoding of `x`.
pub fn write_u64(out: &mut Vec<u8>, x: u64)
    ensures
        final(out)@ == old(out)@ + enc_u64(x),
{
    let b = u64_to_le_bytes(x);
    push_bytes(out, b.as_slice());
}

/// Appends the bytes of an array.
pub fn write_array<const N: usize>(out: &mut Vec<u8>, a: &[u8; N])
    ensures
        final(out)@ == old(out)@ + a@,
{
    push_bytes(out, a.as_slice());
}

pub fn read_u32(buf: &[u8], pos: usize) -> (r: Option<(u32, usize)>)
    ensures
        match r {
            Some((v, p)) => parse_u32(buf@, pos as int) == Some((v, p as int)),
            None => parse_u32(buf@, pos as int) is None,
        },
{
    if pos <= buf.len() && buf.len() - pos >= 4 {
        Some((u32_from_le_bytes(slice_subrange(buf, pos, pos + 4)), pos + 4))
    } else {
        None
    }
}

pub fn read_u64(buf: &[u8], pos: usize) -> (r: Option<(u64, usize)>)
    ensures
        match r {
            Some((v, p)) => parse_u64(buf@, pos as int) == Some((v, p as int)),
            None => parse_u64(buf@, pos as int) is None,
        },
{
    if pos <= buf.len() && buf.len() - pos >= 8 {
        Some((u64_from_le_bytes(slice_subrange(buf, pos, pos + 8)), pos + 8))
    } else {
        None
    }
}

pub fn read_bytes<const N: usize>(buf: &[u8], pos: usize) -> (r: Option<([u8; N], usize)>)
    ensures
        match r {
            Some((v, p)) => parse_array::<N>(buf@, pos as int) == Some((v, p as int)),
            None => parse_array::<N>(buf@, pos as int) is None,
        },
{
    if pos <= buf.len() && buf.len() - pos >= N {
        Some((read_array::<N>(buf, pos), pos + N))
    } else {
        None
    }
}

/// A tag byte followed by `rest` stands at a position exactly when the tag
/// is the byte there and `rest` stands right after it.
pub proof fn lemma_holds_tag(s: Seq<u8>, pos: int, tag: u8, rest: Seq<u8>)
    ensures
        holds_at(s, pos, seq![tag] + rest) <==> 0 <= pos < s.len() && s[pos] == tag && holds_at(
            s,
            pos + 1,
            rest,
        ),
{
    lemma_holds_concat(s, pos, seq![tag], rest);
    if 0 <= pos < s.len() {
        assert(s.subrange(pos, pos + 1)[0] == s[pos]);
        if s[pos] == tag {
            assert(s.subrange(pos, pos + 1) =~= seq![tag]);
        }
    }
}

pub open spec fn enc_address(a: Address) -> Seq<u8> {
    match a {
        Address::Treasury => seq![0u8] + Seq::<u8>::empty(),
        Address::PublicKey(pk) => seq![1u8] + pk@,
    }
}

pub open spec fn parse_address(s: Seq<u8>, pos: int) -> Option<(Address, int)> {
    if !(0 <= pos < s.len()) {
        None
    } else if s[pos] == 0 {
        Some((Address::Treasury, pos + 1))
    } else if s[pos] == 1 {
        match parse_array::<32>(s, pos + 1) {
            Some((pk, p)) => Some((Address::PublicKey(pk), p)),
            None => None,
        }
    } else {
        None
    }
}

pub proof fn lemma_address_complete(s: Seq<u8>, pos: int, v: Address)
    requires
        holds_at(s, pos, enc_address(v)),
    ensures
        parse_address(s, pos) == Some((v, pos + enc_address(v).len())),
{
    match v {
        Address::Treasury => {
            lemma_holds_tag(s, pos, 0, Seq::empty());
        },
        Address::PublicKey(pk) => {
            lemma_holds_tag(s, pos, 1, pk@);
            lemma_array_complete::<32>(s, pos + 1, pk);
        },
    }
}

pub proof fn lemma_address_sound(s: Seq<u8>, pos: int)
    ensures
        parse_address(s, pos) matches Some((v, p)) ==> holds_at(s, pos, enc_address(v)) && p == pos
            + enc_address(v).len(),
{
    if 0 <= pos < s.len() {
        if s[pos] == 0 {
            lemma_holds_tag(s, pos, 0, Seq::empty());
            assert(s.subrange(pos + 1, pos + 1) =~= Seq::<u8>::empty());
        } else if s[pos] == 1 {
            lemma_array_sound::<32>(s, pos + 1);
            match parse_array::<32>(s, pos + 1) {
                Some((pk, p)) => {
                    lemma_holds_tag(s, pos, 1, pk@);
                },
                None => {},
            }
        }
    }
}

pub open spec fn enc_signature(a: Signature) -> Seq<u8> {
    match a {
        Signature::Unsigned => seq![0u8] + Seq::<u8>::empty(),
        Signature::Signed(sig) => seq![1u8] + sig@,
    }
}

pub open spec fn parse_signature(s: Seq<u8>, pos: int) -> Option<(Signature, int)> {
    if !(0 <= pos < s.len()) {
        None
    } else if s[pos] == 0 {
        Some((Signature::Unsigned, pos + 1))
    } else if s[pos] == 1 {
        match parse_array::<64>(s, pos + 1) {
            Some((sig, p)) => Some((Signature::Signed(sig), p)),
            None => None,
        }
    } else {
        None
    }
}

pub proof fn lemma_signature_complete(s: Seq<u8>, pos: int, v: Signature)
    requires
        holds_at(s, pos, enc_signature(v)),
    ensures
        parse_signature(s, pos) == Some((v, pos + enc_signature(v).len())),
{
    match v {
        Signature::Unsigned => {
            lemma_holds_tag(s, pos, 0, Seq::empty());
        },
        Signature::Signed(sig) => {
            lemma_holds_tag(s, pos, 1, sig@);
            lemma_array_complete::<64>(s, pos + 1, sig);
        },
    }
}

pub proof fn lemma_signature_sound(s: Seq<u8>, pos: int)
    ensures
        parse_signature(s, pos) matches Some((v, p)) ==> holds_at(s, pos, enc_signature(v)) && p
            == pos + enc_signature(v).len(),
{
    if 0 <= pos < s.len() {
        if s[pos] == 0 {
            lemma_holds_tag(s, pos, 0, Seq::empty());
            assert(s.subrange(pos + 1, pos + 1) =~= Seq::<u8>::empty());
        } else if s[pos] == 1 {
            lemma_array_sound::<64>(s, pos + 1);
            match parse_array::<64>(s, pos + 1) {
                Some((sig, p)) => {
                    lemma_holds_tag(s, pos, 1, sig@);
                },
                None => {},
            }
        }
    }
}

pub open spec fn enc_account(a: Account) -> Seq<u8> {
    enc_u64(a.balance) + enc_u32(a.nonce)
}

pub open spec fn parse_account(s: Seq<u8>, pos: int) -> Option<(Account, int)> {
    match parse_u64(s, pos) {
        Some((balance, at1)) => match parse_u32(s, at1) {
            Some((nonce, at2)) => Some((Account { balance, nonce }, at2)),
            None => None,
        },
        None => None,
    }
}

pub proof fn lemma_account_complete(s: Seq<u8>, pos: int, v: Account)
    requires
        holds_at(s, pos, enc_account(v)),
    ensures
        parse_account(s, pos) == Some((v, pos + enc_account(v).len())),
{
    lemma_holds_concat(s, pos, enc_u64(v.balance), enc_u32(v.nonce));
    lemma_u64_complete(s, pos, v.balance);
    lemma_u32_complete(s, pos + 8, v.nonce);
}

pub proof fn lemma_account_sound(s: Seq<u8>, pos: int)
    ensures
        parse_account(s, pos) matches Some((v, p)) ==> holds_at(s, pos, enc_account(v)) && p == pos
            + enc_account(v).len(),
{
    lemma_u64_sound(s, pos);
    match parse_u64(s, pos) {
        Some((balance, at1)) => {
            lemma_u32_sound(s, at1);
            lemma_holds_concat(s, pos, enc_u64(balance), enc_u32(parse_u32(s, at1).unwrap().0));
        },
        None => {},
    }
}

pub open spec fn enc_pow(w: ProofOfWork) -> Seq<u8> {
    enc_u32(w.timestamp) + enc_u32(w.target) + enc_u64(w.nonce)
}

pub open spec fn parse_pow(s: Seq<u8>, pos: int) -> Option<(ProofOfWork, int)> {
    match parse_u32(s, pos) {
        Some((timestamp, at1)) => match parse_u32(s, at1) {
            Some((target, at2)) => match parse_u64(s, at2) {
                Some((nonce, at3)) => Some((ProofOfWork { timestamp, target, nonce }, at3)),
                None => None,
            },
            None => None,
        },
        None => None,
    }
}

pub proof fn lemma_pow_complete(s: Seq<u8>, pos: int, v: ProofOfWork)
    requires
        holds_at(s, pos, enc_pow(v)),
    ensures
        parse_pow(s, pos) == Some((v, pos + enc_pow(v).len())),
{
    let a = enc_u32(v.timestamp);
    let b = enc_u32(v.target);
    let c = enc_u64(v.nonce);
    lemma_holds_concat(s, pos, a + b, c);
    lemma_holds_concat(s, pos, a, b);
    lemma_u32_complete(s, pos, v.timestamp);
    lemma_u32_complete(s, pos + 4, v.target);
    lemma_u64_complete(s, pos + 8, v.nonce);
}

pub proof fn lemma_pow_sound(s: Seq<u8>, pos: int)
    ensures
        parse_pow(s, pos) matches Some((v, p)) ==> holds_at(s, pos, enc_pow(v)) && p == pos
            + enc_pow(v).len(),
{
    lemma_u32_sound(s, pos);
    match parse_u32(s, pos) {
        Some((timestamp, at1)) => {
            lemma_u32_sound(s, at1);
            match parse_u32(s, at1) {
                Some((target, at2)) => {
                    lemma_u64_sound(s, at2);
                    match parse_u64(s, at2) {
                        Some((nonce, at3)) => {
                            let a = enc_u32(timestamp);
                            let b = enc_u32(target);
                            let c = enc_u64(nonce);
                            lemma_holds_concat(s, pos, a, b);
                            lemma_holds_concat(s, pos, a + b, c);
                        },
                        None => {},
                    }
                },
                None => {},
            }
        },
        None => {},
    }
}

pub open spec fn enc_header(h: Header) -> Seq<u8> {
    h.parent_hash@ + enc_u64(h.number) + h.block_root@ + enc_pow(h.proof_of_work)
}

pub open spec fn parse_header(s: Seq<u8>, pos: int) -> Option<(Header, int)> {
    match parse_array::<32>(s, pos) {
        Some((parent_hash, at1)) => match parse_u64(s, at1) {
            Some((number, at2)) => match parse_array::<32>(s, at2) {
                Some((block_root, at3)) => match parse_pow(s, at3) {
                    Some((proof_of_work, at4)) => Some(
                        (Header { parent_hash, number, block_root, proof_of_work }, at4),
                    ),
                    None => None,
                },
                None => None,
            },
            None => None,
        },
        None => None,
    }
}

pub proof fn lemma_header_complete(s: Seq<u8>, pos: int, v: Header)
    requires
        holds_at(s, pos, enc_header(v)),
    ensures
        parse_header(s, pos) == Some((v, pos + enc_header(v).len())),
{
    let a = v.parent_hash@;
    let b = enc_u64(v.number);
    let c = v.block_root@;
    let d = enc_pow(v.proof_of_work);
    lemma_holds_concat(s, pos, a + b + c, d);
    lemma_holds_concat(s, pos, a + b, c);
    lemma_holds_concat(s, pos, a, b);
    lemma_array_complete::<32>(s, pos, v.parent_hash);
    lemma_u64_complete(s, pos + 32, v.number);
    lemma_array_complete::<32>(s, pos + 40, v.block_root);
    lemma_pow_complete(s, pos + 72, v.proof_of_work);
}

pub proof fn lemma_header_sound(s: Seq<u8>, pos: int)
    ensures
        parse_header(s, pos) matches Some((v, p)) ==> holds_at(s, pos, enc_header(v)) && p == pos
            + enc_header(v).len(),
{
    lemma_array_sound::<32>(s, pos);
    match parse_array::<32>(s, pos) {
        Some((parent_hash, at1)) => {
            lemma_u64_sound(s, at1);
            match parse_u64(s, at1) {
                Some((number, at2)) => {
                    lemma_array_sound::<32>(s, at2);
                    match parse_array::<32>(s, at2) {
                        Some((block_root, at3)) => {
                            lemma_pow_sound(s, at3);
                            match parse_pow(s, at3) {
                                Some((proof_of_work, at4)) => {
                                    let a = parent_hash@;
                                    let b = enc_u64(number);
                                    let c = block_root@;
                                    let d = enc_pow(proof_of_work);
                                    lemma_holds_concat(s, pos, a, b);
                                    lemma_holds_concat(s, pos, a + b, c);
                                    lemma_holds_concat(s, pos, a + b + c, d);
                                },
                                None => {},
                            }
                        },
                        None => {},
                    }
                },
                None => {},
            }
        },
        None => {},
    }
}

pub open spec fn enc_data(d: TransactionData) -> Seq<u8> {
    match d {
        TransactionData::RegularSend { dst, amount } => seq![0u8] + (enc_address(dst) + enc_u64(
            amount,
        )),
        TransactionData::RegisterValidator { vrf_stuff, amount } => seq![1u8] + (seq![vrf_stuff]
            + enc_u64(amount)),
        TransactionData::CreateContract {
            deposit_withdraw_circuit,
            update_circuits,
            initial_state,
        } => seq![2u8] + (deposit_withdraw_circuit@ + update_circuits@ + initial_state@),
        TransactionData::DepositWithdraw { contract_id, deposit_withdraws, next_state, proof } => seq![
            3u8,
        ] + (contract_id@ + deposit_withdraws@ + next_state@ + proof@),
        TransactionData::Update { contract_id, circuit_index, next_state, proof } => seq![4u8] + (
        contract_id@ + enc_u32(circuit_index) + next_state@ + proof@),
    }
}

pub open spec fn parse_regular_send(s: Seq<u8>, pos: int) -> Option<(TransactionData, int)> {
    match parse_address(s, pos) {
        Some((dst, at1)) => match parse_u64(s, at1) {
            Some((amount, at2)) => Some((TransactionData::RegularSend { dst, amount }, at2)),
            None => None,
        },
        None => None,
    }
}

pub open spec fn parse_register_validator(s: Seq<u8>, pos: int) -> Option<(TransactionData, int)> {
    if 0 <= pos < s.len() {
        match parse_u64(s, pos + 1) {
            Some((amount, at2)) => Some(
                (TransactionData::RegisterValidator { vrf_stuff: s[pos], amount }, at2),
            ),
            None => None,
        }
    } else {
        None
    }
}

pub open spec fn parse_create_contract(s: Seq<u8>, pos: int) -> Option<(TransactionData, int)> {
    match parse_array::<32>(s, pos) {
        Some((deposit_withdraw_circuit, at1)) => match parse_array::<32>(s, at1) {
            Some((update_circuits, at2)) => match parse_array::<32>(s, at2) {
                Some((initial_state, at3)) => Some(
                    (
                        TransactionData::CreateContract {
                            deposit_withdraw_circuit,
                            update_circuits,
                            initial_state,
                        },
                        at3,
                    ),
                ),
                None => None,
            },
            None => None,
        },
        None => None,
    }
}

pub open spec fn parse_deposit_withdraw(s: Seq<u8>, pos: int) -> Option<(TransactionData, int)> {
    match parse_array::<32>(s, pos) {
        Some((contract_id, at1)) => match parse_array::<32>(s, at1) {
            Some((deposit_withdraws, at2)) => match parse_array::<32>(s, at2) {
                Some((next_state, at3)) => match parse_array::<32>(s, at3) {
                    Some((proof, at4)) => Some(
                        (
                            TransactionData::DepositWithdraw {
                                contract_id,
                                deposit_withdraws,
                                next_state,
                                proof,
                            },
                            at4,
                        ),
                    ),
                    None => None,
                },
                None => None,
            },
            None => None,
        },
        None => None,
    }
}

pub open spec fn parse_update(s: Seq<u8>, pos: int) -> Option<(TransactionData, int)> {
    match parse_array::<32>(s, pos) {
        Some((contract_id, at1)) => match parse_u32(s, at1) {
            Some((circuit_index, at2)) => match parse_array::<32>(s, at2) {
                Some((next_state, at3)) => match parse_array::<32>(s, at3) {
                    Some((proof, at4)) => Some(
                        (
                            TransactionData::Update { contract_id, circuit_index, next_state, proof },
                            at4,
                        ),
                    ),
                    None => None,
                },
                None => None,
            },
            None => None,
        },
        None => None,
    }
}

pub open spec fn parse_data(s: Seq<u8>, pos: int) -> Option<(TransactionData, int)> {
    if !(0 <= pos < s.len()) {
        None
    } else if s[pos] == 0 {
        parse_regular_send(s, pos + 1)
    } else if s[pos] == 1 {
        parse_register_validator(s, pos + 1)
    } else if s[pos] == 2 {
        parse_create_contract(s, pos + 1)
    } else if s[pos] == 3 {
        parse_deposit_withdraw(s, pos + 1)
    } else if s[pos] == 4 {
        parse_update(s, pos + 1)
    } else {
        None
    }
}

pub proof fn lemma_data_complete(s: Seq<u8>, pos: int, v: TransactionData)
    requires
        holds_at(s, pos, enc_data(v)),
    ensures
        parse_data(s, pos) == Some((v, pos + enc_data(v).len())),
{
    let q = pos + 1;
    match v {
        TransactionData::RegularSend { dst, amount } => {
            lemma_holds_tag(s, pos, 0, enc_address(dst) + enc_u64(amount));
            lemma_holds_concat(s, q, enc_address(dst), enc_u64(amount));
            lemma_address_complete(s, q, dst);
            lemma_u64_complete(s, q + enc_address(dst).len(), amount);
        },
        TransactionData::RegisterValidator { vrf_stuff, amount } => {
            lemma_holds_tag(s, pos, 1, seq![vrf_stuff] + enc_u64(amount));
            lemma_holds_tag(s, q, vrf_stuff, enc_u64(amount));
            lemma_u64_complete(s, q + 1, amount);
        },
        TransactionData::CreateContract { deposit_withdraw_circuit: a, update_circuits: b, initial_state: c } => {
            lemma_holds_tag(s, pos, 2, a@ + b@ + c@);
            lemma_holds_concat(s, q, a@ + b@, c@);
            lemma_holds_concat(s, q, a@, b@);
            lemma_array_complete::<32>(s, q, a);
            lemma_array_complete::<32>(s, q + 32, b);
            lemma_array_complete::<32>(s, q + 64, c);
        },
        TransactionData::DepositWithdraw { contract_id: a, deposit_withdraws: b, next_state: c, proof: d } => {
            lemma_holds_tag(s, pos, 3, a@ + b@ + c@ + d@);
            lemma_holds_concat(s, q, a@ + b@ + c@, d@);
            lemma_holds_concat(s, q, a@ + b@, c@);
            lemma_holds_concat(s, q, a@, b@);
            lemma_array_complete::<32>(s, q, a);
            lemma_array_complete::<32>(s, q + 32, b);
            lemma_array_complete::<32>(s, q + 64, c);
            lemma_array_complete::<32>(s, q + 96, d);
        },
        TransactionData::Update { contract_id: a, circuit_index, next_state: c, proof: d } => {
            let b = enc_u32(circuit_index);
            lemma_holds_tag(s, pos, 4, a@ + b + c@ + d@);
            lemma_holds_concat(s, q, a@ + b + c@, d@);
            lemma_holds_concat(s, q, a@ + b, c@);
            lemma_holds_concat(s, q, a@, b);
            lemma_array_complete::<32>(s, q, a);
            lemma_u32_complete(s, q + 32, circuit_index);
            lemma_array_complete::<32>(s, q + 36, c);
            lemma_array_complete::<32>(s, q + 68, d);
        },
    }
}

pub proof fn lemma_data_sound(s: Seq<u8>, pos: int)
    ensures
        parse_data(s, pos) matches Some((v, p)) ==> holds_at(s, pos, enc_data(v)) && p == pos
            + enc_data(v).len(),
{
    let q = pos + 1;
    if parse_data(s, pos) is Some {
        let (v, p) = parse_data(s, pos).unwrap();
        match v {
            TransactionData::RegularSend { dst, amount } => {
                lemma_address_sound(s, q);
                lemma_u64_sound(s, q + enc_address(dst).len());
                lemma_holds_concat(s, q, enc_address(dst), enc_u64(amount));
                lemma_holds_tag(s, pos, 0, enc_address(dst) + enc_u64(amount));
            },
            TransactionData::RegisterValidator { vrf_stuff, amount } => {
                lemma_u64_sound(s, q + 1);
                lemma_holds_tag(s, q, vrf_stuff, enc_u64(amount));
                lemma_holds_tag(s, pos, 1, seq![vrf_stuff] + enc_u64(amount));
            },
            TransactionData::CreateContract { deposit_withdraw_circuit: a, update_circuits: b, initial_state: c } => {
                lemma_array_sound::<32>(s, q);
                lemma_array_sound::<32>(s, q + 32);
                lemma_array_sound::<32>(s, q + 64);
                lemma_holds_concat(s, q, a@, b@);
                lemma_holds_concat(s, q, a@ + b@, c@);
                lemma_holds_tag(s, pos, 2, a@ + b@ + c@);
            },
            TransactionData::DepositWithdraw { contract_id: a, deposit_withdraws: b, next_state: c, proof: d } => {
                lemma_array_sound::<32>(s, q);
                lemma_array_sound::<32>(s, q + 32);
                lemma_array_sound::<32>(s, q + 64);
                lemma_array_sound::<32>(s, q + 96);
                lemma_holds_concat(s, q, a@, b@);
                lemma_holds_concat(s, q, a@ + b@, c@);
                lemma_holds_concat(s, q, a@ + b@ + c@, d@);
                lemma_holds_tag(s, pos, 3, a@ + b@ + c@ + d@);
            },
            TransactionData::Update { contract_id: a, circuit_index, next_state: c, proof: d } => {
                let b = enc_u32(circuit_index);
                lemma_array_sound::<32>(s, q);
                lemma_u32_sound(s, q + 32);
                lemma_array_sound::<32>(s, q + 36);
                lemma_array_sound::<32>(s, q + 68);
                lemma_holds_concat(s, q, a@, b);
                lemma_holds_concat(s, q, a@ + b, c@);
                lemma_holds_concat(s, q, a@ + b + c@, d@);
                lemma_holds_tag(s, pos, 4, a@ + b + c@ + d@);
            },
        }
    }
}

pub open spec fn enc_tx(t: Transaction) -> Seq<u8> {
    enc_address(t.src) + enc_u32(t.nonce) + enc_data(t.data) + enc_u64(t.fee) + enc_signature(
        t.sig,
    )
}

pub open spec fn parse_tx(s: Seq<u8>, pos: int) -> Option<(Transaction, int)> {
    match parse_address(s, pos) {
        Some((src, at1)) => match parse_u32(s, at1) {
            Some((nonce, at2)) => match parse_data(s, at2) {
                Some((data, at3)) => match parse_u64(s, at3) {
                    Some((fee, at4)) => match parse_signature(s, at4) {
                        Some((sig, at5)) => Some((Transaction { src, nonce, data, fee, sig }, at5)),
                        None => None,
                    },
                    None => None,
                },
                None => None,
            },
            None => None,
        },
        None => None,
    }
}

pub proof fn lemma_tx_complete(s: Seq<u8>, pos: int, v: Transaction)
    requires
        holds_at(s, pos, enc_tx(v)),
    ensures
        parse_tx(s, pos) == Some((v, pos + enc_tx(v).len())),
{
    let a = enc_address(v.src);
    let b = enc_u32(v.nonce);
    let c = enc_data(v.data);
    let d = enc_u64(v.fee);
    let e = enc_signature(v.sig);
    lemma_holds_concat(s, pos, a + b + c + d, e);
    lemma_holds_concat(s, pos, a + b + c, d);
    lemma_holds_concat(s, pos, a + b, c);
    lemma_holds_concat(s, pos, a, b);
    lemma_address_complete(s, pos, v.src);
    lemma_u32_complete(s, pos + a.len(), v.nonce);
    lemma_data_complete(s, pos + a.len() + 4, v.data);
    lemma_u64_complete(s, pos + a.len() + 4 + c.len(), v.fee);
    lemma_signature_complete(s, pos + a.len() + 4 + c.len() + 8, v.sig);
}

pub proof fn lemma_tx_sound(s: Seq<u8>, pos: int)
    ensures
        parse_tx(s, pos) matches Some((v, p)) ==> holds_at(s, pos, enc_tx(v)) && p == pos + enc_tx(
            v,
        ).len(),
{
    if parse_tx(s, pos) is Some {
        let (v, p) = parse_tx(s, pos).unwrap();
        let a = enc_address(v.src);
        let b = enc_u32(v.nonce);
        let c = enc_data(v.data);
        let d = enc_u64(v.fee);
        let e = enc_signature(v.sig);
        lemma_address_sound(s, pos);
        let at1 = pos + a.len();
        lemma_u32_sound(s, at1);
        lemma_data_sound(s, at1 + 4);
        let at3 = at1 + 4 + c.len();
        lemma_u64_sound(s, at3);
        lemma_signature_sound(s, at3 + 8);
        lemma_holds_concat(s, pos, a, b);
        lemma_holds_concat(s, pos, a + b, c);
        lemma_holds_concat(s, pos, a + b + c, d);
        lemma_holds_concat(s, pos, a + b + c + d, e);
    }
}

pub fn write_address(out: &mut Vec<u8>, a: &Address)
    ensures
        final(out)@ == old(out)@ + enc_address(*a),
{
    match a {
        Address::Treasury => {
            out.push(0);
        },
        Address::PublicKey(pk) => {
            out.push(1);
            write_array(out, pk);
        },
    }
    assert(out@ =~= old(out)@ + enc_address(*a));
}

pub fn read_address(buf: &[u8], pos: usize) -> (r: Option<(Address, usize)>)
    ensures
        match r {
            Some((v, p)) => parse_address(buf@, pos as int) == Some((v, p as int)),
            None => parse_address(buf@, pos as int) is None,
        },
{
    if pos >= buf.len() {
        return None;
    }
    let tag = buf[pos];
    if tag == 0 {
        Some((Address::Treasury, pos + 1))
    } else if tag == 1 {
        match read_bytes::<32>(buf, pos + 1) {
            Some((pk, p)) => Some((Address::PublicKey(pk), p)),
            None => None,
        }
    } else {
        None
    }
}

pub fn write_signature(out: &mut Vec<u8>, a: &Signature)
    ensures
        final(out)@ == old(out)@ + enc_signature(*a),
{
    match a {
        Signature::Unsigned => {
            out.push(0);
        },
        Signature::Signed(sig) => {
            out.push(1);
            write_array(out, sig);
        },
    }
    assert(out@ =~= old(out)@ + enc_signature(*a));
}

pub fn read_signature(buf: &[u8], pos: usize) -> (r: Option<(Signature, usize)>)
    ensures
        match r {
            Some((v, p)) => parse_signature(buf@, pos as int) == Some((v, p as int)),
            None => parse_signature(buf@, pos as int) is None,
        },
{
    if pos >= buf.len() {
        return None;
    }
    let tag = buf[pos];
    if tag == 0 {
        Some((Signature::Unsigned, pos + 1))
    } else if tag == 1 {
        match read_bytes::<64>(buf, pos + 1) {
            Some((sig, p)) => Some((Signature::Signed(sig), p)),
            None => None,
        }
    } else {
        None
    }
}

pub fn write_account(out: &mut Vec<u8>, a: &Account)
    ensures
        final(out)@ == old(out)@ + enc_account(*a),
{
    write_u64(out, a.balance);
    write_u32(out, a.nonce);
    assert(out@ =~= old(out)@ + enc_account(*a));
}

pub fn read_account(buf: &[u8], pos: usize) -> (r: Option<(Account, usize)>)
    ensures
        match r {
            Some((v, p)) => parse_account(buf@, pos as int) == Some((v, p as int)),
            None => parse_account(buf@, pos as int) is None,
        },
{
    let (balance, at1) = read_u64(buf, pos)?;
    let (nonce, at2) = read_u32(buf, at1)?;
    Some((Account { balance, nonce }, at2))
}

pub fn write_pow(out: &mut Vec<u8>, w: &ProofOfWork)
    ensures
        final(out)@ == old(out)@ + enc_pow(*w),
{
    write_u32(out, w.timestamp);
    write_u32(out, w.target);
    write_u64(out, w.nonce);
    assert(out@ =~= old(out)@ + enc_pow(*w));
}

pub fn read_pow(buf: &[u8], pos: usize) -> (r: Option<(ProofOfWork, usize)>)
    ensures
        match r {
            Some((v, p)) => parse_pow(buf@, pos as int) == Some((v, p as int)),
            None => parse_pow(buf@, pos as int) is None,
        },
{
    let (timestamp, at1) = read_u32(buf, pos)?;
    let (target, at2) = read_u32(buf, at1)?;
    let (nonce, at3) = read_u64(buf, at2)?;
    Some((ProofOfWork { timestamp, target, nonce }, at3))
}

pub fn write_header(out: &mut Vec<u8>, h: &Header)
    ensures
        final(out)@ == old(out)@ + enc_header(*h),
{
    write_array(out, &h.parent_hash);
    write_u64(out, h.number);
    write_array(out, &h.block_root);
    write_pow(out, &h.proof_of_work);
    assert(out@ =~= old(out)@ + enc_header(*h));
}

pub fn read_header(buf: &[u8], pos: usize) -> (r: Option<(Header, usize)>)
    ensures
        match r {
            Some((v, p)) => parse_header(buf@, pos as int) == Some((v, p as int)),
            None => parse_header(buf@, pos as int) is None,
        },
{
    let (parent_hash, at1) = read_bytes::<32>(buf, pos)?;
    let (number, at2) = read_u64(buf, at1)?;
    let (block_root, at3) = read_bytes::<32>(buf, at2)?;
    let (proof_of_work, at4) = read_pow(buf, at3)?;
    Some((Header { parent_hash, number, block_root, proof_of_work }, at4))
}

pub fn write_data(out: &mut Vec<u8>, d: &TransactionData)
    ensures
        final(out)@ == old(out)@ + enc_data(*d),
{
    match d {
        TransactionData::RegularSend { dst, amount } => {
            out.push(0);
            write_address(out, dst);
            write_u64(out, *amount);
        },
        TransactionData::RegisterValidator { vrf_stuff, amount } => {
            out.push(1);
            out.push(*vrf_stuff);
            write_u64(out, *amount);
        },
        TransactionData::CreateContract {
            deposit_withdraw_circuit,
            update_circuits,
            initial_state,
        } => {
            out.push(2);
            write_array(out, deposit_withdraw_circuit);
            write_array(out, update_circuits);
            write_array(out, initial_state);
        },
        TransactionData::DepositWithdraw { contract_id, deposit_withdraws, next_state, proof } => {
            out.push(3);
            write_array(out, contract_id);
            write_array(out, deposit_withdraws);
            write_array(out, next_state);
            write_array(out, proof);
        },
        TransactionData::Update { contract_id, circuit_index, next_state, proof } => {
            out.push(4);
            write_array(out, contract_id);
            write_u32(out, *circuit_index);
            write_array(out, next_state);
            write_array(out, proof);
        },
    }
    assert(out@ =~= old(out)@ + enc_data(*d));
}

pub fn read_data(buf: &[u8], pos: usize) -> (r: Option<(TransactionData, usize)>)
    ensures
        match r {
            Some((v, p)) => parse_data(buf@, pos as int) == Some((v, p as int)),
            None => parse_data(buf@, pos as int) is None,
        },
{
    if pos >= buf.len() {
        return None;
    }
    let tag = buf[pos];
    let q = pos + 1;
    if tag == 0 {
        let (dst, at1) = read_address(buf, q)?;
        let (amount, at2) = read_u64(buf, at1)?;
        Some((TransactionData::RegularSend { dst, amount }, at2))
    } else if tag == 1 {
        if q >= buf.len() {
            return None;
        }
        let vrf_stuff = buf[q];
        let (amount, at2) = read_u64(buf, q + 1)?;
        Some((TransactionData::RegisterValidator { vrf_stuff, amount }, at2))
    } else if tag == 2 {
        let (deposit_withdraw_circuit, at1) = read_bytes::<32>(buf, q)?;
        let (update_circuits, at2) = read_bytes::<32>(buf, at1)?;
        let (initial_state, at3) = read_bytes::<32>(buf, at2)?;
        Some(
            (
                TransactionData::CreateContract {
                    deposit_withdraw_circuit,
                    update_circuits,
                    initial_state,
                },
                at3,
            ),
        )
    } else if tag == 3 {
        let (contract_id, at1) = read_bytes::<32>(buf, q)?;
        let (deposit_withdraws, at2) = read_bytes::<32>(buf, at1)?;
        let (next_state, at3) = read_bytes::<32>(buf, at2)?;
        let (proof, at4) = read_bytes::<32>(buf, at3)?;
        Some(
            (
                TransactionData::DepositWithdraw {
                    contract_id,
                    deposit_withdraws,
                    next_state,
                    proof,
                },
                at4,
            ),
        )
    } else if tag == 4 {
        let (contract_id, at1) = read_bytes::<32>(buf, q)?;
        let (circuit_index, at2) = read_u32(buf, at1)?;
        let (next_state, at3) = read_bytes::<32>(buf, at2)?;
        let (proof, at4) = read_bytes::<32>(buf, at3)?;
        Some((TransactionData::Update { contract_id, circuit_index, next_state, proof }, at4))
    } else {
        None
    }
}

pub fn write_tx(out: &mut Vec<u8>, t: &Transaction)
    ensures
        final(out)@ == old(out)@ + enc_tx(*t),
{
    write_address(out, &t.src);
    write_u32(out, t.nonce);
    write_data(out, &t.data);
    write_u64(out, t.fee);
    write_signature(out, &t.sig);
    assert(out@ =~= old(out)@ + enc_tx(*t));
}

pub fn read_tx(buf: &[u8], pos: usize) -> (r: Option<(Transaction, usize)>)
    ensures
        match r {
            Some((v, p)) => parse_tx(buf@, pos as int) == Some((v, p as int)),
            None => parse_tx(buf@, pos as int) is None,
        },
{
    let (src, at1) = read_address(buf, pos)?;
    let (nonce, at2) = read_u32(buf, at1)?;
    let (data, at3) = read_data(buf, at2)?;
    let (fee, at4) = read_u64(buf, at3)?;
    let (sig, at5) = read_signature(buf, at4)?;
    Some((Transaction { src, nonce, data, fee, sig }, at5))
}

/// The encodings of the items of a sequence, one after the other.
pub open spec fn enc_items<T>(items: Seq<T>, enc: spec_fn(T) -> Seq<u8>) -> Seq<u8>
    decreases items.len(),
{
    if items.len() == 0 {
        Seq::empty()
    } else {
        enc(items[0]) + enc_items(items.drop_first(), enc)
    }
}

/// Reads `count` items, one after the other.
pub open spec fn parse_items<T>(
    s: Seq<u8>,
    pos: int,
    count: nat,
    parse: spec_fn(Seq<u8>, int) -> Option<(T, int)>,
) -> Option<(Seq<T>, int)>
    decreases count,
{
    if count == 0 {
        Some((Seq::empty(), pos))
    } else {
        match parse(s, pos) {
            Some((v, at1)) => match parse_items(s, at1, (count - 1) as nat, parse) {
                Some((rest, at2)) => Some((seq![v] + rest, at2)),
                None => None,
            },
            None => None,
        }
    }
}

/// A sequence behind its length as a 64-bit count.
pub open spec fn enc_list<T>(items: Seq<T>, enc: spec_fn(T) -> Seq<u8>) -> Seq<u8> {
    enc_u64(items.len() as u64) + enc_items(items, enc)
}

pub open spec fn parse_list<T>(
    s: Seq<u8>,
    pos: int,
    parse: spec_fn(Seq<u8>, int) -> Option<(T, int)>,
) -> Option<(Seq<T>, int)> {
    match parse_u64(s, pos) {
        Some((count, at1)) => parse_items(s, at1, count as nat, parse),
        None => None,
    }
}

/// That `parse` accepts exactly the encodings by `enc` of the values that
/// are `valid`, and reads each of them back.
pub open spec fn exact_codec<T>(
    valid: spec_fn(T) -> bool,
    enc: spec_fn(T) -> Seq<u8>,
    parse: spec_fn(Seq<u8>, int) -> Option<(T, int)>,
) -> bool {
    &&& forall|s: Seq<u8>, pos: int, v: T|
        valid(v) && #[trigger] holds_at(s, pos, enc(v)) ==> parse(s, pos) == Some(
            (v, pos + enc(v).len()),
        )
    &&& forall|s: Seq<u8>, pos: int|
        (#[trigger] parse(s, pos)) matches Some((v, p)) ==> valid(v) && holds_at(s, pos, enc(v))
            && p == pos + enc(v).len()
}

pub open spec fn all_valid<T>(items: Seq<T>, valid: spec_fn(T) -> bool) -> bool {
    forall|i: int| 0 <= i < items.len() ==> valid(#[trigger] items[i])
}

pub proof fn lemma_enc_items_push<T>(items: Seq<T>, x: T, enc: spec_fn(T) -> Seq<u8>)
    ensures
        enc_items(items.push(x), enc) == enc_items(items, enc) + enc(x),
    decreases items.len(),
{
    let more = items.push(x);
    if items.len() == 0 {
        assert(more.drop_first() =~= Seq::<T>::empty());
        assert(more[0] == x);
        assert(enc_items(more.drop_first(), enc) =~= Seq::<u8>::empty());
        assert(enc_items(items, enc) =~= Seq::<u8>::empty());
        assert(enc_items(more, enc) == enc(x) + enc_items(more.drop_first(), enc));
        assert(enc_items(more, enc) =~= enc_items(items, enc) + enc(x));
    } else {
        assert(more.drop_first() =~= items.drop_first().push(x));
        assert(more[0] == items[0]);
        lemma_enc_items_push(items.drop_first(), x, enc);
        assert(enc_items(more, enc) == enc(more[0]) + enc_items(more.drop_first(), enc));
        assert(enc_items(more, enc) =~= enc_items(items, enc) + enc(x));
    }
}

pub proof fn lemma_items_complete<T>(
    s: Seq<u8>,
    pos: int,
    items: Seq<T>,
    valid: spec_fn(T) -> bool,
    enc: spec_fn(T) -> Seq<u8>,
    parse: spec_fn(Seq<u8>, int) -> Option<(T, int)>,
)
    requires
        exact_codec(valid, enc, parse),
        all_valid(items, valid),
        holds_at(s, pos, enc_items(items, enc)),
    ensures
        parse_items(s, pos, items.len(), parse) == Some(
            (items, pos + enc_items(items, enc).len()),
        ),
    decreases items.len(),
{
    if items.len() == 0 {
        assert(items =~= Seq::<T>::empty());
    } else {
        let first = enc(items[0]);
        let rest = items.drop_first();
        lemma_holds_concat(s, pos, first, enc_items(rest, enc));
        assert(holds_at(s, pos, enc(items[0])));
        assert(valid(items[0]));
        assert forall|i: int| 0 <= i < rest.len() implies valid(#[trigger] rest[i]) by {
            assert(rest[i] == items[i + 1]);
        }
        lemma_items_complete(s, pos + first.len(), rest, valid, enc, parse);
        assert(seq![items[0]] + rest =~= items);
    }
}

pub proof fn lemma_items_sound<T>(
    s: Seq<u8>,
    pos: int,
    count: nat,
    valid: spec_fn(T) -> bool,
    enc: spec_fn(T) -> Seq<u8>,
    parse: spec_fn(Seq<u8>, int) -> Option<(T, int)>,
)
    requires
        exact_codec(valid, enc, parse),
        0 <= pos <= s.len(),
    ensures
        parse_items(s, pos, count, parse) matches Some((items, p)) ==> {
            &&& items.len() == count
            &&& all_valid(items, valid)
            &&& holds_at(s, pos, enc_items(items, enc))
            &&& p == pos + enc_items(items, enc).len()
        },
    decreases count,
{
    if count == 0 {
        assert(s.subrange(pos, pos) =~= Seq::<u8>::empty());
    } else {
        match parse(s, pos) {
            Some((v, at1)) => {
                lemma_items_sound(s, at1, (count - 1) as nat, valid, enc, parse);
                match parse_items(s, at1, (count - 1) as nat, parse) {
                    Some((rest, at2)) => {
                        let items = seq![v] + rest;
                        assert(items.drop_first() =~= rest);
                        lemma_holds_concat(s, pos, enc(v), enc_items(rest, enc));
                        assert forall|i: int| 0 <= i < items.len() implies valid(
                            #[trigger] items[i],
                        ) by {
                            if i > 0 {
                                assert(items[i] == rest[i - 1]);
                            }
                        }
                    },
                    None => {},
                }
            },
            None => {},
        }
    }
}

pub proof fn lemma_list_complete<T>(
    s: Seq<u8>,
    pos: int,
    items: Seq<T>,
    valid: spec_fn(T) -> bool,
    enc: spec_fn(T) -> Seq<u8>,
    parse: spec_fn(Seq<u8>, int) -> Option<(T, int)>,
)
    requires
        exact_codec(valid, enc, parse),
        all_valid(items, valid),
        items.len() <= u64::MAX,
        holds_at(s, pos, enc_list(items, enc)),
    ensures
        parse_list(s, pos, parse) == Some((items, pos + enc_list(items, enc).len())),
{
    let n = items.len() as u64;
    lemma_holds_concat(s, pos, enc_u64(n), enc_items(items, enc));
    lemma_u64_complete(s, pos, n);
    lemma_items_complete(s, pos + 8, items, valid, enc, parse);
}

pub proof fn lemma_list_sound<T>(
    s: Seq<u8>,
    pos: int,
    valid: spec_fn(T) -> bool,
    enc: spec_fn(T) -> Seq<u8>,
    parse: spec_fn(Seq<u8>, int) -> Option<(T, int)>,
)
    requires
        exact_codec(valid, enc, parse),
    ensures
        parse_list(s, pos, parse) matches Some((items, p)) ==> {
            &&& items.len() <= u64::MAX
            &&& all_valid(items, valid)
            &&& holds_at(s, pos, enc_list(items, enc))
            &&& p == pos + enc_list(items, enc).len()
        },
{
    lemma_u64_sound(s, pos);
    match parse_u64(s, pos) {
        Some((count, at1)) => {
            lemma_items_sound(s, at1, count as nat, valid, enc, parse);
            match parse_items(s, at1, count as nat, parse) {
                Some((items, p)) => {
                    lemma_holds_concat(s, pos, enc_u64(count), enc_items(items, enc));
                },
                None => {},
            }
        },
        None => {},
    }
}

pub open spec fn always<T>() -> spec_fn(T) -> bool {
    |v: T| true
}

pub open spec fn tx_enc() -> spec_fn(Transaction) -> Seq<u8> {
    |t: Transaction| enc_tx(t)
}

pub open spec fn tx_parse() -> spec_fn(Seq<u8>, int) -> Option<(Transaction, int)> {
    |s: Seq<u8>, pos: int| parse_tx(s, pos)
}

pub proof fn lemma_tx_exact()
    ensures
        exact_codec(always::<Transaction>(), tx_enc(), tx_parse()),
{
    assert forall|s: Seq<u8>, pos: int, v: Transaction| #[trigger]
        holds_at(s, pos, tx_enc()(v)) implies tx_parse()(s, pos) == Some(
        (v, pos + tx_enc()(v).len()),
    ) by {
        lemma_tx_complete(s, pos, v);
    }
    assert forall|s: Seq<u8>, pos: int| (#[trigger] tx_parse()(s, pos)) is Some implies {
        let (v, p) = tx_parse()(s, pos).unwrap();
        holds_at(s, pos, tx_enc()(v)) && p == pos + tx_enc()(v).len()
    } by {
        lemma_tx_sound(s, pos);
    }
}

pub open spec fn enc_block(b: BlockView) -> Seq<u8> {
    enc_header(b.header) + enc_list(b.body, tx_enc())
}

pub open spec fn parse_block(s: Seq<u8>, pos: int) -> Option<(BlockView, int)> {
    match parse_header(s, pos) {
        Some((header, at1)) => match parse_list(s, at1, tx_parse()) {
            Some((body, at2)) => Some((BlockView { header, body }, at2)),
            None => None,
        },
        None => None,
    }
}

/// A block whose body can be counted in 64 bits.
pub open spec fn block_valid(b: BlockView) -> bool {
    b.body.len() <= u64::MAX
}

pub proof fn lemma_block_complete(s: Seq<u8>, pos: int, v: BlockView)
    requires
        block_valid(v),
        holds_at(s, pos, enc_block(v)),
    ensures
        parse_block(s, pos) == Some((v, pos + enc_block(v).len())),
{
    lemma_tx_exact();
    lemma_holds_concat(s, pos, enc_header(v.header), enc_list(v.body, tx_enc()));
    lemma_header_complete(s, pos, v.header);
    lemma_list_complete(
        s,
        pos + enc_header(v.header).len(),
        v.body,
        always::<Transaction>(),
        tx_enc(),
        tx_parse(),
    );
}

pub proof fn lemma_block_sound(s: Seq<u8>, pos: int)
    ensures
        parse_block(s, pos) matches Some((v, p)) ==> block_valid(v) && holds_at(
            s,
            pos,
            enc_block(v),
        ) && p == pos + enc_block(v).len(),
{
    lemma_tx_exact();
    lemma_header_sound(s, pos);
    match parse_header(s, pos) {
        Some((header, at1)) => {
            lemma_list_sound(s, at1, always::<Transaction>(), tx_enc(), tx_parse());
            match parse_list(s, at1, tx_parse()) {
                Some((body, at2)) => {
                    lemma_holds_concat(s, pos, enc_header(header), enc_list(body, tx_enc()));
                },
                None => {},
            }
        },
        None => {},
    }
}

/// A byte string behind its length as a 64-bit count.
pub open spec fn enc_bytes(b: Seq<u8>) -> Seq<u8> {
    enc_u64(b.len() as u64) + b
}

pub open spec fn parse_bytes(s: Seq<u8>, pos: int) -> Option<(Seq<u8>, int)> {
    match parse_u64(s, pos) {
        Some((n, at1)) => if at1 + n <= s.len() {
            Some((s.subrange(at1, at1 + n), at1 + n))
        } else {
            None
        },
        None => None,
    }
}

pub proof fn lemma_bytes_complete(s: Seq<u8>, pos: int, v: Seq<u8>)
    requires
        v.len() <= u64::MAX,
        holds_at(s, pos, enc_bytes(v)),
    ensures
        parse_bytes(s, pos) == Some((v, pos + enc_bytes(v).len())),
{
    lemma_holds_concat(s, pos, enc_u64(v.len() as u64), v);
    lemma_u64_complete(s, pos, v.len() as u64);
}

pub proof fn lemma_bytes_sound(s: Seq<u8>, pos: int)
    ensures
        parse_bytes(s, pos) matches Some((v, p)) ==> v.len() <= u64::MAX && holds_at(
            s,
            pos,
            enc_bytes(v),
        ) && p == pos + enc_bytes(v).len(),
{
    lemma_u64_sound(s, pos);
    match parse_bytes(s, pos) {
        Some((v, p)) => {
            lemma_holds_concat(s, pos, enc_u64(v.len() as u64), v);
        },
        None => {},
    }
}

pub open spec fn enc_op(op: Op) -> Seq<u8> {
    match op {
        Op::Remove(k) => seq![0u8] + enc_bytes(k),
        Op::Put(k, v) => seq![1u8] + (enc_bytes(k) + enc_bytes(v)),
    }
}

pub open spec fn parse_op(s: Seq<u8>, pos: int) -> Option<(Op, int)> {
    if !(0 <= pos < s.len()) {
        None
    } else if s[pos] == 0 {
        match parse_bytes(s, pos + 1) {
            Some((k, p)) => Some((Op::Remove(k), p)),
            None => None,
        }
    } else if s[pos] == 1 {
        match parse_bytes(s, pos + 1) {
            Some((k, at1)) => match parse_bytes(s, at1) {
                Some((v, at2)) => Some((Op::Put(k, v), at2)),
                None => None,
            },
            None => None,
        }
    } else {
        None
    }
}

/// A write whose key and value can each be counted in 64 bits.
pub open spec fn op_valid(op: Op) -> bool {
    match op {
        Op::Remove(k) => k.len() <= u64::MAX,
        Op::Put(k, v) => k.len() <= u64::MAX && v.len() <= u64::MAX,
    }
}

pub proof fn lemma_op_complete(s: Seq<u8>, pos: int, v: Op)
    requires
        op_valid(v),
        holds_at(s, pos, enc_op(v)),
    ensures
        parse_op(s, pos) == Some((v, pos + enc_op(v).len())),
{
    match v {
        Op::Remove(k) => {
            lemma_holds_tag(s, pos, 0, enc_bytes(k));
            lemma_bytes_complete(s, pos + 1, k);
        },
        Op::Put(k, val) => {
            lemma_holds_tag(s, pos, 1, enc_bytes(k) + enc_bytes(val));
            lemma_holds_concat(s, pos + 1, enc_bytes(k), enc_bytes(val));
            lemma_bytes_complete(s, pos + 1, k);
            lemma_bytes_complete(s, pos + 1 + enc_bytes(k).len(), val);
        },
    }
}

pub proof fn lemma_op_sound(s: Seq<u8>, pos: int)
    ensures
        parse_op(s, pos) matches Some((v, p)) ==> op_valid(v) && holds_at(s, pos, enc_op(v)) && p
            == pos + enc_op(v).len(),
{
    if parse_op(s, pos) is Some {
        let (v, p) = parse_op(s, pos).unwrap();
        match v {
            Op::Remove(k) => {
                lemma_bytes_sound(s, pos + 1);
                lemma_holds_tag(s, pos, 0, enc_bytes(k));
            },
            Op::Put(k, val) => {
                lemma_bytes_sound(s, pos + 1);
                lemma_bytes_sound(s, pos + 1 + enc_bytes(k).len());
                lemma_holds_concat(s, pos + 1, enc_bytes(k), enc_bytes(val));
                lemma_holds_tag(s, pos, 1, enc_bytes(k) + enc_bytes(val));
            },
        }
    }
}

pub open spec fn op_ok() -> spec_fn(Op) -> bool {
    |op: Op| op_valid(op)
}

pub open spec fn op_enc() -> spec_fn(Op) -> Seq<u8> {
    |op: Op| enc_op(op)
}

pub open spec fn op_parse() -> spec_fn(Seq<u8>, int) -> Option<(Op, int)> {
    |s: Seq<u8>, pos: int| parse_op(s, pos)
}

pub proof fn lemma_op_exact()
    ensures
        exact_codec(op_ok(), op_enc(), op_parse()),
{
    assert forall|s: Seq<u8>, pos: int, v: Op|
        op_ok()(v) && #[trigger] holds_at(s, pos, op_enc()(v)) implies op_parse()(s, pos) == Some(
        (v, pos + op_enc()(v).len()),
    ) by {
        lemma_op_complete(s, pos, v);
    }
    assert forall|s: Seq<u8>, pos: int| (#[trigger] op_parse()(s, pos)) is Some implies {
        let (v, p) = op_parse()(s, pos).unwrap();
        op_ok()(v) && holds_at(s, pos, op_enc()(v)) && p == pos + op_enc()(v).len()
    } by {
        lemma_op_sound(s, pos);
    }
}

pub open spec fn digest_enc() -> spec_fn(Digest) -> Seq<u8> {
    |d: Digest| d@
}

pub open spec fn digest_parse() -> spec_fn(Seq<u8>, int) -> Option<(Digest, int)> {
    |s: Seq<u8>, pos: int| parse_array::<32>(s, pos)
}

pub proof fn lemma_digest_exact()
    ensures
        exact_codec(always::<Digest>(), digest_enc(), digest_parse()),
{
    assert forall|s: Seq<u8>, pos: int, v: Digest| #[trigger]
        holds_at(s, pos, digest_enc()(v)) implies digest_parse()(s, pos) == Some(
        (v, pos + digest_enc()(v).len()),
    ) by {
        lemma_array_complete::<32>(s, pos, v);
    }
    assert forall|s: Seq<u8>, pos: int| (#[trigger] digest_parse()(s, pos)) is Some implies {
        let (v, p) = digest_parse()(s, pos).unwrap();
        holds_at(s, pos, digest_enc()(v)) && p == pos + digest_enc()(v).len()
    } by {
        lemma_array_sound::<32>(s, pos);
    }
}

pub fn write_txs(out: &mut Vec<u8>, items: &Vec<Transaction>)
    ensures
        final(out)@ == old(out)@ + enc_list(items@, tx_enc()),
{
    write_u64(out, items.len() as u64);
    let mut i: usize = 0;
    while i < items.len()
        invariant
            i <= items.len(),
            out@ == old(out)@ + enc_u64(items.len() as u64) + enc_items(
                items@.take(i as int),
                tx_enc(),
            ),
        decreases items.len() - i,
    {
        proof {
            let all = items@;
            lemma_enc_items_push(all.take(i as int), all[i as int], tx_enc());
            assert(all.take(i as int + 1) =~= all.take(i as int).push(all[i as int]));
        }
        write_tx(out, &items[i]);
        assert(out@ =~= old(out)@ + enc_u64(items.len() as u64) + enc_items(
            items@.take(i as int + 1),
            tx_enc(),
        ));
        i = i + 1;
    }
    proof {
        let all = items@;
        assert(all.take(items@.len() as int) =~= all);
        assert(out@ =~= old(out)@ + enc_list(all, tx_enc()));
    }
}

pub fn read_txs(buf: &[u8], pos: usize) -> (r: Option<(Vec<Transaction>, usize)>)
    ensures
        match r {
            Some((v, p)) => parse_list(buf@, pos as int, tx_parse()) == Some((v@, p as int)),
            None => parse_list(buf@, pos as int, tx_parse()) is None,
        },
{
    let (count, start) = read_u64(buf, pos)?;
    let mut items: Vec<Transaction> = Vec::new();
    let mut p: usize = start;
    let mut i: u64 = 0;
    assert(items@ =~= Seq::empty());
    while i < count
        invariant
            i <= count,
            parse_u64(buf@, pos as int) == Some((count, start as int)),
            parse_items(buf@, start as int, count as nat, tx_parse()) == (match parse_items(
                buf@,
                p as int,
                (count - i) as nat,
                tx_parse(),
            ) {
                Some((rest, end)) => Some((items@ + rest, end)),
                None => None,
            }),
        decreases count - i,
    {
        match read_tx(buf, p) {
            Some((item, next)) => {
                proof {
                    let before = items@;
                    assert(tx_parse()(buf@, p as int) == Some((item, next as int)));
                    match parse_items(buf@, next as int, (count - i - 1) as nat, tx_parse()) {
                        Some((rest, end)) => {
                            assert(before + (seq![item] + rest) =~= before.push(item) + rest);
                        },
                        None => {},
                    }
                    
                }
                items.push(item);
                p = next;
            },
            None => {
                proof {
                    assert(tx_parse()(buf@, p as int) is None);
                    assert(parse_items(buf@, p as int, (count - i) as nat, tx_parse()) is None);
                }
                return None;
            },
        }
        i = i + 1;
    }
    proof {
        let all = items@;
        assert(all + Seq::empty() =~= all);
    }
    Some((items, p))
}

pub fn write_digests(out: &mut Vec<u8>, items: &Vec<Digest>)
    ensures
        final(out)@ == old(out)@ + enc_list(items@, digest_enc()),
{
    write_u64(out, items.len() as u64);
    let mut i: usize = 0;
    while i < items.len()
        invariant
            i <= items.len(),
            out@ == old(out)@ + enc_u64(items.len() as u64) + enc_items(
                items@.take(i as int),
                digest_enc(),
            ),
        decreases items.len() - i,
    {
        proof {
            let all = items@;
            lemma_enc_items_push(all.take(i as int), all[i as int], digest_enc());
            assert(all.take(i as int + 1) =~= all.take(i as int).push(all[i as int]));
        }
        write_array(out, &items[i]);
        assert(out@ =~= old(out)@ + enc_u64(items.len() as u64) + enc_items(
            items@.take(i as int + 1),
            digest_enc(),
        ));
        i = i + 1;
    }
    proof {
        let all = items@;
        assert(all.take(items@.len() as int) =~= all);
        assert(out@ =~= old(out)@ + enc_list(all, digest_enc()));
    }
}

pub fn read_digests(buf: &[u8], pos: usize) -> (r: Option<(Vec<Digest>, usize)>)
    ensures
        match r {
            Some((v, p)) => parse_list(buf@, pos as int, digest_parse()) == Some((v@, p as int)),
            None => parse_list(buf@, pos as int, digest_parse()) is None,
        },
{
    let (count, start) = read_u64(buf, pos)?;
    let mut items: Vec<Digest> = Vec::new();
    let mut p: usize = start;
    let mut i: u64 = 0;
    assert(items@ =~= Seq::empty());
    while i < count
        invariant
            i <= count,
            parse_u64(buf@, pos as int) == Some((count, start as int)),
            parse_items(buf@, start as int, count as nat, digest_parse()) == (match parse_items(
                buf@,
                p as int,
                (count - i) as nat,
                digest_parse(),
            ) {
                Some((rest, end)) => Some((items@ + rest, end)),
                None => None,
            }),
        decreases count - i,
    {
        match read_bytes::<32>(buf, p) {
            Some((item, next)) => {
                proof {
                    let before = items@;
                    assert(digest_parse()(buf@, p as int) == Some((item, next as int)));
                    match parse_items(buf@, next as int, (count - i - 1) as nat, digest_parse()) {
                        Some((rest, end)) => {
                            assert(before + (seq![item] + rest) =~= before.push(item) + rest);
                        },
                        None => {},
                    }
                    
                }
                items.push(item);
                p = next;
            },
            None => {
                proof {
                    assert(digest_parse()(buf@, p as int) is None);
                    assert(parse_items(buf@, p as int, (count - i) as nat, digest_parse()) is None);
                }
                return None;
            },
        }
        i = i + 1;
    }
    proof {
        let all = items@;
        assert(all + Seq::empty() =~= all);
    }
    Some((items, p))
}

pub fn write_blob(out: &mut Vec<u8>, b: &[u8])
    ensures
        final(out)@ == old(out)@ + enc_bytes(b@),
{
    write_u64(out, b.len() as u64);
    push_bytes(out, b);
    assert(out@ =~= old(out)@ + enc_bytes(b@));
}

pub fn read_blob(buf: &[u8], pos: usize) -> (r: Option<(Vec<u8>, usize)>)
    ensures
        match r {
            Some((v, p)) => parse_bytes(buf@, pos as int) == Some((v@, p as int)),
            None => parse_bytes(buf@, pos as int) is None,
        },
{
    let (n, start) = read_u64(buf, pos)?;
    if n > (buf.len() - start) as u64 {
        return None;
    }
    let end = start + n as usize;
    Some((bytes_to_vec(slice_subrange(buf, start, end)), end))
}

pub fn write_op(out: &mut Vec<u8>, op: &WriteOp)
    ensures
        final(out)@ == old(out)@ + enc_op(op@),
{
    match op {
        WriteOp::Remove(k) => {
            out.push(0);
            write_blob(out, k.as_slice());
        },
        WriteOp::Put(k, v) => {
            out.push(1);
            write_blob(out, k.as_slice());
            write_blob(out, v.as_slice());
        },
    }
    assert(out@ =~= old(out)@ + enc_op(op@));
}

pub fn read_op(buf: &[u8], pos: usize) -> (r: Option<(WriteOp, usize)>)
    ensures
        match r {
            Some((v, p)) => parse_op(buf@, pos as int) == Some((v@, p as int)),
            None => parse_op(buf@, pos as int) is None,
        },
{
    if pos >= buf.len() {
        return None;
    }
    let tag = buf[pos];
    if tag == 0 {
        let (k, p) = read_blob(buf, pos + 1)?;
        Some((WriteOp::Remove(k), p))
    } else if tag == 1 {
        let (k, at1) = read_blob(buf, pos + 1)?;
        let (v, at2) = read_blob(buf, at1)?;
        Some((WriteOp::Put(k, v), at2))
    } else {
        None
    }
}

pub fn write_ops(out: &mut Vec<u8>, items: &Vec<WriteOp>)
    ensures
        final(out)@ == old(out)@ + enc_list(ops_view(items@), op_enc()),
{
    write_u64(out, items.len() as u64);
    let mut i: usize = 0;
    while i < items.len()
        invariant
            i <= items.len(),
            out@ == old(out)@ + enc_u64(items.len() as u64) + enc_items(
                ops_view(items@).take(i as int),
                op_enc(),
            ),
        decreases items.len() - i,
    {
        proof {
            let all = ops_view(items@);
            lemma_enc_items_push(all.take(i as int), all[i as int], op_enc());
            assert(all.take(i as int + 1) =~= all.take(i as int).push(all[i as int]));
        }
        write_op(out, &items[i]);
        assert(out@ =~= old(out)@ + enc_u64(items.len() as u64) + enc_items(
            ops_view(items@).take(i as int + 1),
            op_enc(),
        ));
        i = i + 1;
    }
    proof {
        let all = ops_view(items@);
        assert(all.take(items@.len() as int) =~= all);
        assert(out@ =~= old(out)@ + enc_list(all, op_enc()));
    }
}

pub fn read_ops(buf: &[u8], pos: usize) -> (r: Option<(Vec<WriteOp>, usize)>)
    ensures
        match r {
            Some((v, p)) => parse_list(buf@, pos as int, op_parse()) == Some((ops_view(v@), p as int)),
            None => parse_list(buf@, pos as int, op_parse()) is None,
        },
{
    let (count, start) = read_u64(buf, pos)?;
    let mut items: Vec<WriteOp> = Vec::new();
    let mut p: usize = start;
    let mut i: u64 = 0;
    assert(ops_view(items@) =~= Seq::empty());
    while i < count
        invariant
            i <= count,
            parse_u64(buf@, pos as int) == Some((count, start as int)),
            parse_items(buf@, start as int, count as nat, op_parse()) == (match parse_items(
                buf@,
                p as int,
                (count - i) as nat,
                op_parse(),
            ) {
                Some((rest, end)) => Some((ops_view(items@) + rest, end)),
                None => None,
            }),
        decreases count - i,
    {
        match read_op(buf, p) {
            Some((item, next)) => {
                proof {
                    let before = ops_view(items@);
                    assert(op_parse()(buf@, p as int) == Some((item@, next as int)));
                    match parse_items(buf@, next as int, (count - i - 1) as nat, op_parse()) {
                        Some((rest, end)) => {
                            assert(before + (seq![item@] + rest) =~= before.push(item@) + rest);
                        },
                        None => {},
                    }
                    assert(ops_view(items@.push(item)) =~= before.push(item@));
                }
                items.push(item);
                p = next;
            },
            None => {
                proof {
                    assert(op_parse()(buf@, p as int) is None);
                    assert(parse_items(buf@, p as int, (count - i) as nat, op_parse()) is None);
                }
                return None;
            },
        }
        i = i + 1;
    }
    proof {
        let all = ops_view(items@);
        assert(all + Seq::empty() =~= all);
    }
    Some((items, p))
}

/// A stored 64-bit number, read back.
pub open spec fn dec_u64(s: Seq<u8>) -> Option<u64> {
    match parse_u64(s, 0) {
        Some((v, p)) => if p == s.len() {
            Some(v)
        } else {
            None
        },
        None => None,
    }
}

/// Decoding the encoding of a number gives the number.
pub proof fn lemma_u64_roundtrip(v: u64)
    ensures
        dec_u64(enc_u64(v)) == Some(v),
{
    lemma_holds_whole(enc_u64(v), enc_u64(v));
    lemma_u64_complete(enc_u64(v), 0, v);
}

/// Only its encoding decodes to a number.
pub proof fn lemma_u64_canonical(s: Seq<u8>)
    ensures
        dec_u64(s) matches Some(v) ==> enc_u64(v) == s,
{
    lemma_u64_sound(s, 0);
    if dec_u64(s) is Some {
        lemma_holds_whole(s, enc_u64(dec_u64(s).unwrap()));
    }
}

pub fn encode_u64(x: u64) -> (out: Vec<u8>)
    ensures
        out@ == enc_u64(x),
{
    let mut out: Vec<u8> = Vec::new();
    write_u64(&mut out, x);
    assert(out@ =~= enc_u64(x));
    out
}

pub fn decode_u64(buf: &[u8]) -> (r: Option<u64>)
    ensures
        r == dec_u64(buf@),
{
    match read_u64(buf, 0) {
        Some((v, p)) => if p == buf.len() {
            Some(v)
        } else {
            None
        },
        None => None,
    }
}

/// A stored account, read back.
pub open spec fn dec_account(s: Seq<u8>) -> Option<Account> {
    match parse_account(s, 0) {
        Some((v, p)) => if p == s.len() {
            Some(v)
        } else {
            None
        },
        None => None,
    }
}

/// Decoding the encoding of an account gives the account.
pub proof fn lemma_account_roundtrip(v: Account)
    ensures
        dec_account(enc_account(v)) == Some(v),
{
    lemma_holds_whole(enc_account(v), enc_account(v));
    lemma_account_complete(enc_account(v), 0, v);
}

/// Only its encoding decodes to an account.
pub proof fn lemma_account_canonical(s: Seq<u8>)
    ensures
        dec_account(s) matches Some(v) ==> enc_account(v) == s,
{
    lemma_account_sound(s, 0);
    if dec_account(s) is Some {
        lemma_holds_whole(s, enc_account(dec_account(s).unwrap()));
    }
}

pub fn encode_account(a: &Account) -> (out: Vec<u8>)
    ensures
        out@ == enc_account(*a),
{
    let mut out: Vec<u8> = Vec::new();
    write_account(&mut out, a);
    assert(out@ =~= enc_account(*a));
    out
}

pub fn decode_account(buf: &[u8]) -> (r: Option<Account>)
    ensures
        r == dec_account(buf@),
{
    match read_account(buf, 0) {
        Some((v, p)) => if p == buf.len() {
            Some(v)
        } else {
            None
        },
        None => None,
    }
}

/// The encoding of a transaction on its own: what is hashed and signed.
pub fn encode_tx(t: &Transaction) -> (out: Vec<u8>)
    ensures
        out@ == enc_tx(*t),
{
    let mut out: Vec<u8> = Vec::new();
    write_tx(&mut out, t);
    assert(out@ =~= enc_tx(*t));
    out
}

/// The encoding of a header on its own: what is hashed.
pub fn encode_header(h: &Header) -> (out: Vec<u8>)
    ensures
        out@ == enc_header(*h),
{
    let mut out: Vec<u8> = Vec::new();
    write_header(&mut out, h);
    assert(out@ =~= enc_header(*h));
    out
}

/// A header on its own, read back: the whole byte string must be its
/// encoding.
pub open spec fn dec_header(s: Seq<u8>) -> Option<Header> {
    match parse_header(s, 0) {
        Some((v, end)) => if end == s.len() {
            Some(v)
        } else {
            None
        },
        None => None,
    }
}

/// Decoding the encoding of a header gives it back.
pub proof fn lemma_header_roundtrip(v: Header)
    ensures
        dec_header(enc_header(v)) == Some(v),
{
    lemma_holds_whole(enc_header(v), enc_header(v));
    lemma_header_complete(enc_header(v), 0, v);
}

/// Only its encoding decodes to a header.
pub proof fn lemma_header_canonical(s: Seq<u8>)
    ensures
        dec_header(s) matches Some(v) ==> enc_header(v) == s,
{
    lemma_header_sound(s, 0);
    if dec_header(s) is Some {
        lemma_holds_whole(s, enc_header(dec_header(s).unwrap()));
    }
}

pub fn decode_header(buf: &[u8]) -> (r: Option<Header>)
    ensures
        r == dec_header(buf@),
{
    match read_header(buf, 0) {
        Some((v, end)) => if end == buf.len() {
            Some(v)
        } else {
            None
        },
        None => None,
    }
}

/// A tx on its own, read back: the whole byte string must be its
/// encoding.
pub open spec fn dec_tx(s: Seq<u8>) -> Option<Transaction> {
    match parse_tx(s, 0) {
        Some((v, end)) => if end == s.len() {
            Some(v)
        } else {
            None
        },
        None => None,
    }
}

/// Decoding the encoding of a tx gives it back.
pub proof fn lemma_tx_roundtrip(v: Transaction)
    ensures
        dec_tx(enc_tx(v)) == Some(v),
{
    lemma_holds_whole(enc_tx(v), enc_tx(v));
    lemma_tx_complete(enc_tx(v), 0, v);
}

/// Only its encoding decodes to a tx.
pub proof fn lemma_tx_canonical(s: Seq<u8>)
    ensures
        dec_tx(s) matches Some(v) ==> enc_tx(v) == s,
{
    lemma_tx_sound(s, 0);
    if dec_tx(s) is Some {
        lemma_holds_whole(s, enc_tx(dec_tx(s).unwrap()));
    }
}

pub fn decode_tx(buf: &[u8]) -> (r: Option<Transaction>)
    ensures
        r == dec_tx(buf@),
{
    match read_tx(buf, 0) {
        Some((v, end)) => if end == buf.len() {
            Some(v)
        } else {
            None
        },
        None => None,
    }
}

/// A address on its own, read back: the whole byte string must be its
/// encoding.
pub open spec fn dec_address(s: Seq<u8>) -> Option<Address> {
    match parse_address(s, 0) {
        Some((v, end)) => if end == s.len() {
            Some(v)
        } else {
            None
        },
        None => None,
    }
}

/// Decoding the encoding of a address gives it back.
pub proof fn lemma_address_roundtrip(v: Address)
    ensures
        dec_address(enc_address(v)) == Some(v),
{
    lemma_holds_whole(enc_address(v), enc_address(v));
    lemma_address_complete(enc_address(v), 0, v);
}

/// Only its encoding decodes to a address.
pub proof fn lemma_address_canonical(s: Seq<u8>)
    ensures
        dec_address(s) matches Some(v) ==> enc_address(v) == s,
{
    lemma_address_sound(s, 0);
    if dec_address(s) is Some {
        lemma_holds_whole(s, enc_address(dec_address(s).unwrap()));
    }
}

pub fn decode_address(buf: &[u8]) -> (r: Option<Address>)
    ensures
        r == dec_address(buf@),
{
    match read_address(buf, 0) {
        Some((v, end)) => if end == buf.len() {
            Some(v)
        } else {
            None
        },
        None => None,
    }
}

/// The encoding of an address on its own.
pub fn encode_address(a: &Address) -> (out: Vec<u8>)
    ensures
        out@ == enc_address(*a),
{
    let mut out: Vec<u8> = Vec::new();
    write_address(&mut out, a);
    assert(out@ =~= enc_address(*a));
    out
}

/// A stored block, read back.
pub open spec fn dec_block(s: Seq<u8>) -> Option<BlockView> {
    match parse_block(s, 0) {
        Some((v, p)) => if p == s.len() {
            Some(v)
        } else {
            None
        },
        None => None,
    }
}

/// Decoding the encoding of a block gives the block.
pub proof fn lemma_block_roundtrip(v: BlockView)
    requires
        block_valid(v),
    ensures
        dec_block(enc_block(v)) == Some(v),
{
    lemma_holds_whole(enc_block(v), enc_block(v));
    lemma_block_complete(enc_block(v), 0, v);
}

/// Only its encoding decodes to a block.
pub proof fn lemma_block_canonical(s: Seq<u8>)
    ensures
        dec_block(s) matches Some(v) ==> enc_block(v) == s && block_valid(v),
{
    lemma_block_sound(s, 0);
    if dec_block(s) is Some {
        lemma_holds_whole(s, enc_block(dec_block(s).unwrap()));
    }
}

pub fn encode_block(b: &Block) -> (out: Vec<u8>)
    ensures
        out@ == enc_block(b@),
        block_valid(b@),
{
    let mut out: Vec<u8> = Vec::new();
    write_header(&mut out, &b.header);
    write_txs(&mut out, &b.body);
    assert(out@ =~= enc_block(b@));
    assert(b.body@.len() == b.body.len());
    out
}

pub fn decode_block(buf: &[u8]) -> (r: Option<Block>)
    ensures
        match r {
            Some(b) => dec_block(buf@) == Some(b@),
            None => dec_block(buf@) is None,
        },
{
    let (header, at1) = read_header(buf, 0)?;
    let (body, at2) = read_txs(buf, at1)?;
    if at2 == buf.len() {
        Some(Block { header, body })
    } else {
        None
    }
}

/// The encoding of a batch of writes.
pub open spec fn enc_ops(ops: Seq<Op>) -> Seq<u8> {
    enc_list(ops, op_enc())
}

/// A batch that can be stored: it and all its keys and values can be
/// counted in 64 bits.
pub open spec fn ops_valid(ops: Seq<Op>) -> bool {
    ops.len() <= u64::MAX && all_valid(ops, op_ok())
}

/// A stored batch of writes, read back.
pub open spec fn dec_ops(s: Seq<u8>) -> Option<Seq<Op>> {
    match parse_list(s, 0, op_parse()) {
        Some((v, p)) => if p == s.len() {
            Some(v)
        } else {
            None
        },
        None => None,
    }
}

/// Decoding the encoding of a batch gives the batch.
pub proof fn lemma_ops_roundtrip(v: Seq<Op>)
    requires
        ops_valid(v),
    ensures
        dec_ops(enc_ops(v)) == Some(v),
{
    lemma_op_exact();
    lemma_holds_whole(enc_ops(v), enc_ops(v));
    lemma_list_complete(enc_ops(v), 0, v, op_ok(), op_enc(), op_parse());
}

/// Only its encoding decodes to a batch.
pub proof fn lemma_ops_canonical(s: Seq<u8>)
    ensures
        dec_ops(s) matches Some(v) ==> enc_ops(v) == s && ops_valid(v),
{
    lemma_op_exact();
    lemma_list_sound(s, 0, op_ok(), op_enc(), op_parse());
    if dec_ops(s) is Some {
        lemma_holds_whole(s, enc_ops(dec_ops(s).unwrap()));
    }
}

/// Every batch held in memory can be stored.
pub proof fn lemma_ops_view_valid(ops: Vec<WriteOp>)
    ensures
        ops_valid(ops_view(ops@)),
{
    assert(ops@.len() == ops.len());
    assert forall|i: int| 0 <= i < ops_view(ops@).len() implies op_ok()(
        #[trigger] ops_view(ops@)[i],
    ) by {
        match ops@[i] {
            WriteOp::Remove(k) => {
                assert(k@.len() == k.len());
            },
            WriteOp::Put(k, v) => {
                assert(k@.len() == k.len());
                assert(v@.len() == v.len());
            },
        }
    }
}

pub fn encode_ops(ops: &Vec<WriteOp>) -> (out: Vec<u8>)
    ensures
        out@ == enc_ops(ops_view(ops@)),
        ops_valid(ops_view(ops@)),
{
    let mut out: Vec<u8> = Vec::new();
    write_ops(&mut out, ops);
    assert(out@ =~= enc_ops(ops_view(ops@)));
    proof {
        lemma_ops_view_valid(*ops);
    }
    out
}

pub fn decode_ops(buf: &[u8]) -> (r: Option<Vec<WriteOp>>)
    ensures
        match r {
            Some(ops) => dec_ops(buf@) == Some(ops_view(ops@)),
            None => dec_ops(buf@) is None,
        },
{
    let (ops, p) = read_ops(buf, 0)?;
    if p == buf.len() {
        Some(ops)
    } else {
        None
    }
}

/// The encoding of a list of digests.
pub open spec fn enc_digests(ds: Seq<Digest>) -> Seq<u8> {
    enc_list(ds, digest_enc())
}

/// A stored list of digests, read back.
pub open spec fn dec_digests(s: Seq<u8>) -> Option<Seq<Digest>> {
    match parse_list(s, 0, digest_parse()) {
        Some((v, p)) => if p == s.len() {
            Some(v)
        } else {
            None
        },
        None => None,
    }
}

/// Decoding the encoding of a list of digests gives the list.
pub proof fn lemma_digests_roundtrip(v: Seq<Digest>)
    requires
        v.len() <= u64::MAX,
    ensures
        dec_digests(enc_digests(v)) == Some(v),
{
    lemma_digest_exact();
    lemma_holds_whole(enc_digests(v), enc_digests(v));
    lemma_list_complete(enc_digests(v), 0, v, always::<Digest>(), digest_enc(), digest_parse());
}

/// Only its encoding decodes to a list of digests.
pub proof fn lemma_digests_canonical(s: Seq<u8>)
    ensures
        dec_digests(s) matches Some(v) ==> enc_digests(v) == s && v.len() <= u64::MAX,
{
    lemma_digest_exact();
    lemma_list_sound(s, 0, always::<Digest>(), digest_enc(), digest_parse());
    if dec_digests(s) is Some {
        lemma_holds_whole(s, enc_digests(dec_digests(s).unwrap()));
    }
}

pub fn encode_digests(ds: &Vec<Digest>) -> (out: Vec<u8>)
    ensures
        out@ == enc_digests(ds@),
{
    let mut out: Vec<u8> = Vec::new();
    write_digests(&mut out, ds);
    assert(out@ =~= enc_digests(ds@));
    out
}

pub fn decode_digests(buf: &[u8]) -> (r: Option<Vec<Digest>>)
    ensures
        match r {
            Some(ds) => dec_digests(buf@) == Some(ds@),
            None => dec_digests(buf@) is None,
        },
{
    let (ds, p) = read_digests(buf, 0)?;
    if p == buf.len() {
        Some(ds)
    } else {
        None
    }
}

} // verus!
