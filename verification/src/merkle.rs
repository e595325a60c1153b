//! The Merkle tree over transaction hashes: each leaf hashes its input bytes
//! with SHA-256; levels pair up (duplicating the last node of an odd level)
//! and hash the concatenation of the two child hashes; the root hash stands
//! for all transactions of a block.

use vstd::prelude::*;

use crate::bytes::clone_bytes;
use crate::crypto::{sha256, sha256_of};

verus! {

/// Pads a level to even length by duplicating its last hash.
pub open spec fn pad_even(s: Seq<Seq<u8>>) -> Seq<Seq<u8>> {
    if s.len() % 2 == 1 {
        s.push(s.last())
    } else {
        s
    }
}

/// One level up: the hash of each adjacent pair's concatenation.
pub open spec fn level_up(s: Seq<Seq<u8>>) -> Seq<Seq<u8>>
    recommends
        s.len() % 2 == 0,
{
    Seq::new(s.len() / 2, |i: int| sha256_of(s[2 * i] + s[2 * i + 1]))
}

/// The Merkle root over a level of node hashes.
pub open spec fn merkle_root_of(s: Seq<Seq<u8>>) -> Seq<u8>
    recommends
        s.len() > 0,
    decreases s.len(),
{
    if s.len() <= 1 {
        if s.len() == 1 {
            s[0]
        } else {
            Seq::empty()
        }
    } else {
        merkle_root_of(level_up(pad_even(s)))
    }
}

/// The leaf hashes of a sequence of data strings.
pub open spec fn leaf_hashes(data: Seq<Seq<u8>>) -> Seq<Seq<u8>> {
    Seq::new(data.len(), |i: int| sha256_of(data[i]))
}

/// The Merkle root of a sequence of data strings: SHA-256 each into a leaf,
/// then fold the levels. A single datum's root is its own leaf hash,
/// SHA-256 of the datum.
pub open spec fn merkle_root_of_data(data: Seq<Seq<u8>>) -> Seq<u8> {
    merkle_root_of(leaf_hashes(data))
}

/// A node of the tree; only the hash is meaningful to the contracts.
#[derive(Debug)]
pub struct MerkleNode {
    pub left: Option<Box<MerkleNode>>,
    pub right: Option<Box<MerkleNode>>,
    /// The node's hash.
    pub hash: Vec<u8>,
}

impl MerkleNode {
    /// A leaf or inner node: a leaf hashes the given data; an inner node
    /// hashes the concatenation of whichever child hashes are present.
    pub fn new(left: Option<Box<MerkleNode>>, right: Option<Box<MerkleNode>>, data: Option<&Vec<u8>>)
        -> (r: MerkleNode)
        ensures
            data is Some ==> r.hash@ == sha256_of(data.unwrap()@),
            data is None && left is Some && right is Some ==> r.hash@ == sha256_of(
                left.unwrap().hash@ + right.unwrap().hash@,
            ),
    {
        let data_hash: Vec<u8> = match data {
            Some(d) => sha256(d),
            None => {
                let mut combined: Vec<u8> = Vec::new();
                let ghost lh: Seq<u8> = match left {
                    Some(ref l) => l.hash@,
                    None => Seq::empty(),
                };
                match left {
                    Some(ref l) => {
                        let mut lb = clone_bytes(&l.hash);
                        combined.append(&mut lb);
                    },
                    None => {},
                }
                proof {
                    assert(combined@ =~= lh);
                }
                match right {
                    Some(ref r) => {
                        let mut rb = clone_bytes(&r.hash);
                        combined.append(&mut rb);
                    },
                    None => {},
                }
                proof {
                    if left is Some && right is Some {
                        assert(combined@ =~= left.unwrap().hash@ + right.unwrap().hash@);
                    }
                }
                sha256(&combined)
            },
        };
        MerkleNode { left, right, hash: data_hash }
    }
}

/// The hashes of a level of nodes.
pub open spec fn node_hashes(s: Seq<MerkleNode>) -> Seq<Seq<u8>> {
    Seq::new(s.len(), |i: int| s[i].hash@)
}

/// The tree itself: its root carries the Merkle root hash.
#[derive(Debug)]
pub struct MerkleTree {
    pub root: Box<MerkleNode>,
}

impl MerkleTree {
    /// Builds the tree bottom-up from the data strings: hash each into a
    /// leaf, duplicate the last node of every odd level, and hash pairs
    /// upward until one root remains. Empty input is invalid.
    pub fn new(data: Vec<Vec<u8>>) -> (r: MerkleTree)
        requires
            data@.len() > 0,
        ensures
            r.root.hash@ == merkle_root_of_data(Seq::new(data@.len(), |i: int| data@[i]@)),
    {
        let ghost dview = Seq::new(data@.len(), |i: int| data@[i]@);
        let mut nodes: Vec<MerkleNode> = Vec::new();
        let mut i: usize = 0;
        while i < data.len()
            invariant
                i <= data@.len(),
                dview == Seq::new(data@.len(), |j: int| data@[j]@),
                nodes@.len() == i,
                forall|j: int| 0 <= j < i ==> (#[trigger] nodes@[j]).hash@ == sha256_of(dview[j]),
            decreases data@.len() - i,
        {
            let leaf = MerkleNode::new(None, None, Some(&data[i]));
            nodes.push(leaf);
            i = i + 1;
        }
        proof {
            assert(node_hashes(nodes@) =~= leaf_hashes(dview));
        }
        let ghost target = merkle_root_of(leaf_hashes(dview));
        while nodes.len() > 1
            invariant
                nodes@.len() >= 1,
                merkle_root_of(node_hashes(nodes@)) == target,
            decreases nodes@.len(),
        {
            let ghost lvl = node_hashes(nodes@);
            if nodes.len() % 2 != 0 {
                let last_hash = clone_bytes(&nodes[nodes.len() - 1].hash);
                nodes.push(MerkleNode { left: None, right: None, hash: last_hash });
                proof {
                    assert(node_hashes(nodes@) =~= pad_even(lvl));
                }
            } else {
                proof {
                    assert(node_hashes(nodes@) =~= pad_even(lvl));
                }
            }
            let ghost padded = node_hashes(nodes@);
            let mut new_level: Vec<MerkleNode> = Vec::new();
            let mut k: usize = 0;
            while k + 1 < nodes.len()
                invariant
                    padded == node_hashes(nodes@),
                    nodes@.len() % 2 == 0,
                    nodes@.len() >= 2,
                    k % 2 == 0,
                    k <= nodes@.len(),
                    new_level@.len() == k / 2,
                    forall|j: int|
                        0 <= j < new_level@.len() ==> (#[trigger] new_level@[j]).hash@
                            == level_up(padded)[j],
                decreases nodes@.len() - k,
            {
                let left_hash = clone_bytes(&nodes[k].hash);
                let right_hash = clone_bytes(&nodes[k + 1].hash);
                let left_node = MerkleNode { left: None, right: None, hash: left_hash };
                let right_node = MerkleNode { left: None, right: None, hash: right_hash };
                let parent = MerkleNode::new(
                    Some(Box::new(left_node)),
                    Some(Box::new(right_node)),
                    None,
                );
                new_level.push(parent);
                proof {
                    assert(level_up(padded)[k as int / 2]
                        == sha256_of(padded[2 * (k as int / 2)] + padded[2 * (k as int / 2) + 1]));
                    assert(2 * (k as int / 2) == k as int);
                }
                k = k + 2;
            }
            proof {
                assert(k == nodes@.len());
                assert(node_hashes(new_level@) =~= level_up(padded));
                assert(merkle_root_of(lvl) == merkle_root_of(level_up(pad_even(lvl))));
            }
            nodes = new_level;
            proof {
                assert(level_up(padded).len() >= 1);
            }
        }
        let ghost final_hashes = node_hashes(nodes@);
        proof {
            assert(final_hashes.len() == 1);
            assert(merkle_root_of(final_hashes) == final_hashes[0]);
        }
        let mut nodes = nodes;
        let root = match nodes.pop() {
            Some(n) => n,
            None => {
                proof {
                    assert(false);
                }
                MerkleNode { left: None, right: None, hash: Vec::new() }
            },
        };
        MerkleTree { root: Box::new(root) }
    }
}

/// A Merkle input of a single datum yields a root equal to the SHA-256 of
/// that datum (for a block with one transaction: SHA-256 of the transaction's
/// hash, itself the SHA-256 of the transaction's canonical bytes).
pub proof fn lemma_merkle_single(d: Seq<u8>)
    ensures
        merkle_root_of_data(seq![d]) == sha256_of(d),
{
    assert(leaf_hashes(seq![d]).len() == 1);
    assert(leaf_hashes(seq![d])[0] == sha256_of(d));
}

} // verus!
