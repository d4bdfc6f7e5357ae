//! The Merkle tree over the transactions of a block.

use vstd::prelude::*;
use crate::bytes::push_bytes;
use crate::codec::{decode_digests, dec_digests, enc_digests, encode_digests};
use crate::types::hash::{digest, digest_of};
use crate::types::Digest;

verus! {

/// The parent of two nodes: the digest of the left one followed by the
/// right one.
pub open spec fn parent_of(left: Digest, right: Digest) -> Digest {
    digest_of(left@ + right@)
}

/// The level above `level`: its nodes in pairs, the last one paired with
/// itself where their number is odd.
pub open spec fn level_above(level: Seq<Digest>) -> Seq<Digest> {
    Seq::new(
        ((level.len() + 1) / 2) as nat,
        |i: int|
            parent_of(
                level[2 * i],
                if 2 * i + 1 < level.len() {
                    level[2 * i + 1]
                } else {
                    level[2 * i]
                },
            ),
    )
}

/// All nodes of the tree over `leaves`: the leaves, then each level above,
/// up to the root. The tree over no leaves is the digest of the empty
/// byte string alone.
pub open spec fn tree_nodes(leaves: Seq<Digest>) -> Seq<Digest>
    decreases leaves.len(),
{
    if leaves.len() == 0 {
        seq![digest_of(Seq::empty())]
    } else if leaves.len() == 1 {
        leaves
    } else {
        leaves + tree_nodes(level_above(leaves))
    }
}

/// The root of the tree over `leaves`.
pub open spec fn merkle_root(leaves: Seq<Digest>) -> Digest
    decreases leaves.len(),
{
    if leaves.len() == 0 {
        digest_of(Seq::empty())
    } else if leaves.len() == 1 {
        leaves[0]
    } else {
        merkle_root(level_above(leaves))
    }
}

/// The root is the last node of the tree.
pub proof fn lemma_root_is_last(leaves: Seq<Digest>)
    ensures
        tree_nodes(leaves).len() > 0,
        tree_nodes(leaves).last() == merkle_root(leaves),
    decreases leaves.len(),
{
    if leaves.len() >= 2 {
        lemma_root_is_last(level_above(leaves));
    }
}

/// A Merkle tree, held as the list of its nodes.
#[derive(Debug, PartialEq, Eq)]
pub struct MerkleTree {
    nodes: Vec<Digest>,
}

impl MerkleTree {
    #[verifier::type_invariant]
    spec fn has_root(self) -> bool {
        self.nodes@.len() > 0
    }

    /// The nodes: leaves first, root last.
    pub closed spec fn nodes(self) -> Seq<Digest> {
        self.nodes@
    }

    /// The tree over `leaves`.
    pub fn build(leaves: Vec<Digest>) -> (tree: MerkleTree)
        ensures
            tree.nodes() == tree_nodes(leaves@),
    {
        let ghost all = leaves@;
        if leaves.len() == 0 {
            let empty: Vec<u8> = Vec::new();
            let mut nodes: Vec<Digest> = Vec::new();
            nodes.push(digest(empty.as_slice()));
            assert(empty@ =~= Seq::<u8>::empty());
            assert(nodes@ =~= tree_nodes(all));
            return MerkleTree { nodes };
        }
        let mut nodes = leaves;
        let mut start: usize = 0;
        let mut width: usize = nodes.len();
        proof {
            assert(nodes@.skip(0) =~= nodes@);
            assert(nodes@.take(0) + nodes@ =~= nodes@);
        }
        while width > 1
            invariant
                width >= 1,
                start + width == nodes.len(),
                tree_nodes(all) == nodes@.take(start as int) + tree_nodes(
                    nodes@.skip(start as int),
                ),
            decreases width,
        {
            let ghost below = nodes@.take(start as int);
            let ghost level = nodes@.skip(start as int);
            let ghost above = level_above(level);
            let count: usize = width / 2 + width % 2;
            let mut j: usize = 0;
            while j < count
                invariant
                    j <= count,
                    count == (width + 1) / 2,
                    width >= 2,
                    start + width + j == nodes.len(),
                    level.len() == width,
                    above == level_above(level),
                    nodes@ == below + level + above.take(j as int),
                    below.len() == start,
                decreases count - j,
            {
                let left = nodes[start + 2 * j];
                let right = if 2 * j + 1 < width {
                    nodes[start + 2 * j + 1]
                } else {
                    left
                };
                assert(left == level[2 * j]);
                assert(2 * j + 1 < width ==> right == level[2 * j + 1]);
                let mut both: Vec<u8> = Vec::new();
                push_bytes(&mut both, left.as_slice());
                push_bytes(&mut both, right.as_slice());
                assert(both@ =~= left@ + right@);
                let node = digest(both.as_slice());
                assert(node == above[j as int]);
                nodes.push(node);
                assert(nodes@ =~= below + level + above.take(j as int + 1));
                j = j + 1;
            }
            proof {
                assert(above.take(count as int) =~= above);
                assert(nodes@.take((start + width) as int) =~= below + level);
                assert(nodes@.skip((start + width) as int) =~= above);
                assert(tree_nodes(level) == level + tree_nodes(above));
                assert(below + (level + tree_nodes(above)) =~= (below + level) + tree_nodes(above));
            }
            start = start + width;
            width = count;
        }
        proof {
            let level = nodes@.skip(start as int);
            assert(tree_nodes(level) == level);
            assert(nodes@.take(start as int) + level =~= nodes@);
        }
        MerkleTree { nodes }
    }

    pub fn root(&self) -> (root: Digest)
        ensures
            root == self.nodes().last(),
    {
        proof {
            use_type_invariant(self);
        }
        self.nodes[self.nodes.len() - 1]
    }

    /// The bytes under which the tree is stored.
    pub fn encode(&self) -> (out: Vec<u8>)
        ensures
            out@ == enc_digests(self.nodes()),
    {
        encode_digests(&self.nodes)
    }

    /// The tree stored as `buf`, if `buf` is a list of nodes that is not empty.
    pub fn decode(buf: &[u8]) -> (r: Option<MerkleTree>)
        ensures
            match r {
                Some(tree) => dec_digests(buf@) == Some(tree.nodes()),
                None => dec_digests(buf@) is None || dec_digests(buf@).unwrap().len() == 0,
            },
    {
        match decode_digests(buf) {
            Some(nodes) => if nodes.len() > 0 {
                Some(MerkleTree { nodes })
            } else {
                None
            },
            None => None,
        }
    }
}

} // verus!
