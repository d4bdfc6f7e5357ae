//! The Merkle tree of a block's body.

use vstd::prelude::*;
use crate::merkle::{lemma_root_is_last, merkle_root, tree_nodes, MerkleTree};
use crate::types::transaction::tx_digest;
use crate::types::{Block, Digest, Transaction};

verus! {

/// The leaves of the tree over a body: the hash of each transaction, in order.
pub open spec fn body_leaves(body: Seq<Transaction>) -> Seq<Digest> {
    body.map_values(|t: Transaction| tx_digest(t))
}

/// The Merkle root of a body.
pub open spec fn body_root(body: Seq<Transaction>) -> Digest {
    merkle_root(body_leaves(body))
}

/// The hashes of the transactions of a body, in order.
pub fn leaves_of(body: &Vec<Transaction>) -> (leaves: Vec<Digest>)
    ensures
        leaves@ == body_leaves(body@),
{
    let mut leaves: Vec<Digest> = Vec::new();
    let mut i: usize = 0;
    while i < body.len()
        invariant
            i <= body.len(),
            leaves@ == body_leaves(body@.take(i as int)),
        decreases body.len() - i,
    {
        leaves.push(body[i].hash());
        assert(leaves@ =~= body_leaves(body@.take(i as int + 1)));
        i = i + 1;
    }
    assert(body@.take(body@.len() as int) =~= body@);
    leaves
}

impl Block {
    pub fn merkle_tree(&self) -> (tree: MerkleTree)
        ensures
            tree.nodes() == tree_nodes(body_leaves(self@.body)),
            tree.nodes().len() > 0,
            tree.nodes().last() == body_root(self@.body),
    {
        proof {
            lemma_root_is_last(body_leaves(self@.body));
        }
        MerkleTree::build(leaves_of(&self.body))
    }
}

} // verus!
