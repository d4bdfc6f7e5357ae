//! The block that every chain starts with.

use vstd::prelude::*;
use crate::bytes::{array_of, lemma_array_of_view};
use crate::config::GENESIS_TARGET;
use crate::types::blocks::body_root;
use crate::types::{Block, BlockView, Header, ProofOfWork, Transaction};

verus! {

/// What stands for the parent of the first block: 32 zero bytes.
pub open spec fn no_parent() -> [u8; 32] {
    array_of::<32>(Seq::new(32, |i: int| 0u8))
}

/// The first block: number 0, no parent, no transactions.
pub open spec fn genesis_block() -> BlockView {
    BlockView {
        header: Header {
            parent_hash: no_parent(),
            number: 0,
            block_root: body_root(Seq::empty()),
            proof_of_work: ProofOfWork { timestamp: 0, target: GENESIS_TARGET, nonce: 0 },
        },
        body: Seq::empty(),
    }
}

pub fn get_genesis_block() -> (block: Block)
    ensures
        block@ == genesis_block(),
{
    let mut block = Block {
        header: Header {
            parent_hash: [0u8; 32],
            number: 0,
            block_root: [0u8; 32],
            proof_of_work: ProofOfWork { timestamp: 0, target: GENESIS_TARGET, nonce: 0 },
        },
        body: Vec::new(),
    };
    block.header.block_root = block.merkle_tree().root();
    assert(block@.body =~= Seq::<Transaction>::empty());
    proof {
        assert(block.header.parent_hash@ =~= Seq::new(32, |i: int| 0u8));
        lemma_array_of_view(block.header.parent_hash);
    }
    block
}

} // verus!
