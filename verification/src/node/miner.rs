//! What a node hands to a miner, and what it makes of the miner's answer.

use vstd::prelude::*;
use vstd::bytes::{spec_u64_from_le_bytes, u64_from_le_bytes};
use crate::codec::{enc_header, enc_u32, enc_u64, encode_header, lemma_u32_len, lemma_u64_len};
use crate::crypto::{ascii_chars, ascii_string, hex_bytes, hex_decode, hex_encode, hex_text};
use crate::node::api::messages::Puzzle;
use crate::types::{Block, BlockView, Header, ProofOfWork};

verus! {

/// Where the nonce stands in an encoded header.
pub const NONCE_OFFSET: usize = 80;

/// The number of bytes of the nonce.
pub const NONCE_SIZE: usize = 8;

/// A miner that a node works with.
#[derive(Debug)]
pub struct Miner {
    /// Where puzzles are sent.
    pub webhook: String,
    /// The block that the miner is working on.
    pub block: Option<Block>,
}

/// A header with another nonce.
pub open spec fn header_with_nonce(h: Header, nonce: u64) -> Header {
    Header { proof_of_work: ProofOfWork { nonce, ..h.proof_of_work }, ..h }
}

/// An encoded header has 88 bytes, the last 8 of which are the nonce: a
/// miner that writes a nonce there has the header with that nonce.
pub proof fn lemma_nonce_in_header(h: Header, nonce: u64)
    ensures
        enc_header(h).len() == 88,
        enc_header(h).subrange(80, 88) == enc_u64(h.proof_of_work.nonce),
        enc_header(header_with_nonce(h, nonce)) == enc_header(h).take(80) + enc_u64(nonce),
{
    let w = h.proof_of_work;
    lemma_u64_len(h.number);
    lemma_u32_len(w.timestamp);
    lemma_u32_len(w.target);
    lemma_u64_len(w.nonce);
    lemma_u64_len(nonce);
    let front = h.parent_hash@ + enc_u64(h.number) + h.block_root@ + (enc_u32(w.timestamp) + enc_u32(
        w.target,
    ));
    assert(enc_header(h) =~= front + enc_u64(w.nonce));
    assert(enc_header(header_with_nonce(h, nonce)) =~= front + enc_u64(nonce));
    assert(enc_header(h).subrange(80, 88) =~= enc_u64(w.nonce));
    assert(enc_header(h).take(80) =~= front);
}

/// Every byte of a hexadecimal text is ASCII.
pub proof fn lemma_hex_text_ascii(data: Seq<u8>)
    ensures
        forall|i: int| 0 <= i < hex_text(data).len() ==> hex_text(data)[i] < 128,
{
}

/// The puzzle for a block under a proof-of-work key: the key and the
/// encoded header in hexadecimal, the place of the nonce in the header,
/// and the target to meet.
pub fn puzzle_of(block: &Block, key: &[u8]) -> (puzzle: Puzzle)
    ensures
        puzzle.key@ == ascii_chars(hex_text(key@)),
        puzzle.blob@ == ascii_chars(hex_text(enc_header(block.header))),
        puzzle.offset == NONCE_OFFSET,
        puzzle.size == NONCE_SIZE,
        puzzle.target == block.header.proof_of_work.target,
{
    let header = encode_header(&block.header);
    let key_text = hex_encode(key);
    let blob_text = hex_encode(header.as_slice());
    proof {
        lemma_hex_text_ascii(key@);
        lemma_hex_text_ascii(header@);
    }
    Puzzle {
        key: ascii_string(key_text.as_slice()),
        blob: ascii_string(blob_text.as_slice()),
        offset: NONCE_OFFSET,
        size: NONCE_SIZE,
        target: block.header.proof_of_work.target,
    }
}

/// The nonce that a text stands for: the hexadecimal text of 8 bytes,
/// read as a little-endian number.
pub open spec fn nonce_of_text(text: Seq<u8>) -> Option<u64> {
    match hex_bytes(text) {
        Some(bytes) => if bytes.len() == 8 {
            Some(spec_u64_from_le_bytes(bytes))
        } else {
            None
        },
        None => None,
    }
}

/// Reads a nonce from the text that a miner sent.
pub fn parse_nonce(text: &[u8]) -> (nonce: Option<u64>)
    ensures
        nonce == nonce_of_text(text@),
{
    match hex_decode(text) {
        Some(bytes) => if bytes.len() == 8 {
            Some(u64_from_le_bytes(bytes.as_slice()))
        } else {
            None
        },
        None => None,
    }
}

/// A block with another nonce.
pub fn with_nonce(block: &Block, nonce: u64) -> (solved: Block)
    ensures
        solved@ == (BlockView { header: header_with_nonce(block.header, nonce), body: block@.body }),
{
    let mut solved = block.clone();
    solved.header.proof_of_work.nonce = nonce;
    solved
}

impl Miner {
    /// The block that the miner was working on, with the nonce that it
    /// sent. There is none where the miner had no block, or where what it
    /// sent is no nonce.
    pub fn solution(&self, nonce_text: &[u8]) -> (solved: Option<Block>)
        ensures
            match solved {
                Some(b) => self.block is Some && nonce_of_text(nonce_text@) is Some && b@ == (
                BlockView {
                    header: header_with_nonce(
                        self.block.unwrap().header,
                        nonce_of_text(nonce_text@).unwrap(),
                    ),
                    body: self.block.unwrap()@.body,
                }),
                None => self.block is None || nonce_of_text(nonce_text@) is None,
            },
    {
        match &self.block {
            Some(block) => match parse_nonce(nonce_text) {
                Some(nonce) => Some(with_nonce(block, nonce)),
                None => None,
            },
            None => None,
        }
    }
}

} // verus!
