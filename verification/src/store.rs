//! The node's state: the block store keyed by block hash, the UTXO set, the
//! mempool, the orphan pool, and the chain tip. This is the injected handle
//! everything else works on; the persistent store of a deployment mirrors it.

use vstd::prelude::*;

use crate::block::{Block, BlockV, block_wf};
use crate::bytes::clone_bytes;
use crate::errors::ChainError;
use crate::mempool::{Mempool, mempool_wf};
use crate::tx::{Tx, TxV};
use crate::utxo::UtxoSet;

verus! {

/// The views of a sequence of blocks.
pub open spec fn blocks_view(s: Seq<Block>) -> Seq<BlockV> {
    Seq::new(s.len(), |i: int| s[i]@)
}

/// The views of a pushed sequence are the views plus the pushed view.
pub proof fn lemma_blocks_view_push(s: Seq<Block>, x: Block)
    ensures
        blocks_view(s.push(x)) == blocks_view(s).push(x@),
{
    assert forall|m: int| 0 <= m < s.len() + 1 implies
        blocks_view(s.push(x))[m] == blocks_view(s).push(x@)[m] by {
        if m < s.len() {
            assert(s.push(x)[m] == s[m]);
        } else {
            assert(s.push(x)[m] == x);
        }
    }
    assert(blocks_view(s.push(x)) =~= blocks_view(s).push(x@));
}

/// The ghost map a sequence of blocks denotes, keyed by block hash.
pub open spec fn blocks_map(s: Seq<BlockV>) -> Map<Seq<u8>, BlockV>
    decreases s.len(),
{
    if s.len() == 0 {
        Map::empty()
    } else {
        blocks_map(s.drop_last()).insert(s.last().hash, s.last())
    }
}

/// Unique hashes and well-formed blocks.
pub open spec fn blocks_wf(s: Seq<BlockV>) -> bool {
    &&& forall|i: int, j: int|
        0 <= i < s.len() && 0 <= j < s.len() && i != j ==> (#[trigger] s[i]).hash != (
        #[trigger] s[j]).hash
    &&& forall|i: int| 0 <= i < s.len() ==> block_wf(#[trigger] s[i])
}

/// A hash of the map comes from some block.
pub proof fn lemma_bmap_domain(s: Seq<BlockV>, h: Seq<u8>)
    ensures
        blocks_map(s).contains_key(h) <==> exists|i: int|
            0 <= i < s.len() && (#[trigger] s[i]).hash == h,
    decreases s.len(),
{
    if s.len() > 0 {
        lemma_bmap_domain(s.drop_last(), h);
        if blocks_map(s).contains_key(h) {
            if s.last().hash == h {
                assert(s[s.len() - 1].hash == h);
            } else {
                let i = choose|i: int|
                    0 <= i < s.drop_last().len() && (#[trigger] s.drop_last()[i]).hash == h;
                assert(s.drop_last()[i] == s[i]);
            }
        }
        if exists|i: int| 0 <= i < s.len() && (#[trigger] s[i]).hash == h {
            let i = choose|i: int| 0 <= i < s.len() && (#[trigger] s[i]).hash == h;
            if i < s.len() - 1 {
                assert(s.drop_last()[i] == s[i]);
                assert(blocks_map(s.drop_last()).contains_key(h));
            }
        }
    }
}

/// With unique hashes, the map sends each block's hash to the block.
pub proof fn lemma_bmap_index(s: Seq<BlockV>, i: int)
    requires
        blocks_wf(s),
        0 <= i < s.len(),
    ensures
        blocks_map(s).contains_key(s[i].hash),
        blocks_map(s)[s[i].hash] == s[i],
    decreases s.len(),
{
    lemma_bmap_domain(s, s[i].hash);
    if i == s.len() - 1 {
    } else {
        assert(s[s.len() - 1].hash != s[i].hash);
        assert(s.drop_last()[i] == s[i]);
        lemma_blocks_wf_drop_last(s);
        lemma_bmap_index(s.drop_last(), i);
    }
}

/// Dropping the last block keeps the store well-formed.
pub proof fn lemma_blocks_wf_drop_last(s: Seq<BlockV>)
    requires
        blocks_wf(s),
        s.len() > 0,
    ensures
        blocks_wf(s.drop_last()),
{
    assert forall|a: int, b: int|
        0 <= a < s.drop_last().len() && 0 <= b < s.drop_last().len() && a != b implies (
    #[trigger] s.drop_last()[a]).hash != (#[trigger] s.drop_last()[b]).hash by {
        assert(s.drop_last()[a] == s[a]);
        assert(s.drop_last()[b] == s[b]);
    }
    assert forall|a: int| 0 <= a < s.drop_last().len() implies block_wf(
        #[trigger] s.drop_last()[a],
    ) by {
        assert(s.drop_last()[a] == s[a]);
    }
}

/// Removing the block at position `i` removes exactly its hash from the map.
pub proof fn lemma_bmap_remove(s: Seq<BlockV>, i: int)
    requires
        blocks_wf(s),
        0 <= i < s.len(),
    ensures
        blocks_map(s.remove(i)) == blocks_map(s).remove(s[i].hash),
    decreases s.len(),
{
    let t = s.remove(i);
    if i == s.len() - 1 {
        assert(t =~= s.drop_last());
        lemma_bmap_domain(s.drop_last(), s[i].hash);
        assert forall|a: int| 0 <= a < s.drop_last().len() implies (
        #[trigger] s.drop_last()[a]).hash != s[i].hash by {
            assert(s.drop_last()[a] == s[a]);
        }
        assert(!blocks_map(s.drop_last()).contains_key(s[i].hash));
        assert(blocks_map(t) =~= blocks_map(s).remove(s[i].hash));
    } else {
        assert(t.drop_last() =~= s.drop_last().remove(i));
        assert(t.last() == s.last());
        lemma_blocks_wf_drop_last(s);
        assert(s.drop_last()[i] == s[i]);
        lemma_bmap_remove(s.drop_last(), i);
        assert(s.last().hash != s[i].hash) by {
            assert(s[s.len() - 1].hash != s[i].hash);
        }
        assert(blocks_map(t)
            == blocks_map(s.drop_last()).remove(s[i].hash).insert(s.last().hash, s.last()));
        assert(blocks_map(s.drop_last()).remove(s[i].hash).insert(s.last().hash, s.last())
            =~= blocks_map(s).remove(s[i].hash));
    }
}

/// A strictly increasing integer sequence grows at least as fast as its
/// indices.
pub proof fn lemma_increasing_at_least(src: Seq<int>, j: int)
    requires
        forall|a: int, b: int| 0 <= a < b < src.len() ==> src[a] < src[b],
        forall|a: int| 0 <= a < src.len() ==> #[trigger] src[a] >= 0,
        0 <= j < src.len(),
    ensures
        src[j] >= j,
    decreases j,
{
    if j > 0 {
        lemma_increasing_at_least(src, j - 1);
        assert(src[j - 1] < src[j]);
    }
}

/// Whether some listed hash equals `h`.
pub open spec fn hash_listed(hs: Seq<Vec<u8>>, h: Seq<u8>) -> bool {
    exists|k: int| 0 <= k < hs.len() && (#[trigger] hs[k])@ == h
}

/// The node's whole state.
pub struct NodeState {
    /// The block store, keyed by block hash.
    pub blocks: Vec<Block>,
    /// The unspent outputs.
    pub utxos: UtxoSet,
    /// The pending transactions.
    pub mempool: Mempool,
    /// Blocks waiting for their parent.
    pub orphans: Vec<Block>,
    /// The tip hash, if a chain exists.
    pub last_hash: Option<Vec<u8>>,
}

/// The ghost image of the node's state.
pub ghost struct NodeStateV {
    pub blocks: Seq<BlockV>,
    pub utxos: Seq<crate::utxo::UtxoEntryV>,
    pub mempool: Seq<TxV>,
    pub orphans: Seq<BlockV>,
    pub last_hash: Option<Seq<u8>>,
}

impl View for NodeState {
    type V = NodeStateV;

    open spec fn view(&self) -> NodeStateV {
        NodeStateV {
            blocks: blocks_view(self.blocks@),
            utxos: self.utxos@,
            mempool: self.mempool@,
            orphans: blocks_view(self.orphans@),
            last_hash: match self.last_hash {
                Some(ref h) => Some(h@),
                None => None,
            },
        }
    }
}

impl NodeState {
    /// The block store as a map from hash to block.
    pub open spec fn bmap(&self) -> Map<Seq<u8>, BlockV> {
        blocks_map(self@.blocks)
    }

    /// The UTXO set as a map from key to output.
    pub open spec fn umap(&self) -> Map<(Seq<u8>, u32), crate::tx::TxOutputV> {
        crate::utxo::entries_map(self@.utxos)
    }

    /// Well-formedness of the whole state.
    pub open spec fn wf(&self) -> bool {
        &&& blocks_wf(self@.blocks)
        &&& crate::utxo::entries_wf(self@.utxos)
        &&& mempool_wf(self@.mempool)
        &&& blocks_wf(self@.orphans)
        &&& match self@.last_hash {
            Some(h) => h.len() == 32,
            None => true,
        }
    }

    /// A fresh, empty node state.
    pub fn new() -> (r: NodeState)
        ensures
            r.wf(),
            r@.blocks.len() == 0,
            r@.utxos.len() == 0,
            r@.mempool.len() == 0,
            r@.orphans.len() == 0,
            r@.last_hash is None,
    {
        NodeState {
            blocks: Vec::new(),
            utxos: UtxoSet::new(),
            mempool: Mempool::new(),
            orphans: Vec::new(),
            last_hash: None,
        }
    }

    /// The position of a block hash in the store.
    fn find_block(&self, block_hash: &Vec<u8>) -> (r: Option<usize>)
        ensures
            r is Some ==> 0 <= r.unwrap() < self@.blocks.len()
                && self@.blocks[r.unwrap() as int].hash == block_hash@,
            r is None ==> forall|i: int|
                0 <= i < self@.blocks.len() ==> (#[trigger] self@.blocks[i]).hash != block_hash@,
    {
        let mut i: usize = 0;
        while i < self.blocks.len()
            invariant
                i <= self.blocks@.len(),
                self@.blocks.len() == self.blocks@.len(),
                forall|j: int| 0 <= j < i ==> (#[trigger] self@.blocks[j]).hash != block_hash@,
            decreases self.blocks@.len() - i,
        {
            if crate::bytes::bytes_eq(&self.blocks[i].hash, block_hash) {
                proof {
                    assert(self@.blocks[i as int].hash == block_hash@);
                }
                return Some(i);
            }
            i = i + 1;
        }
        None
    }

    /// Looks a block up by hash.
    pub fn get_block(&self, block_hash: &Vec<u8>) -> (r: Option<&Block>)
        requires
            self.wf(),
        ensures
            r is Some <==> self.bmap().contains_key(block_hash@),
            r is Some ==> r.unwrap()@ == self.bmap()[block_hash@],
    {
        proof {
            lemma_bmap_domain(self@.blocks, block_hash@);
        }
        match self.find_block(block_hash) {
            Some(i) => {
                proof {
                    lemma_bmap_index(self@.blocks, i as int);
                }
                Some(&self.blocks[i])
            },
            None => None,
        }
    }

    /// Stores a block under its hash; a block whose hash is already present
    /// leaves the store as it is.
    pub fn put_block(&mut self, block: Block)
        requires
            old(self).wf(),
            block_wf(block@),
        ensures
            final(self).wf(),
            old(self).bmap().contains_key(block@.hash) ==> final(self)@ == old(self)@,
            !old(self).bmap().contains_key(block@.hash) ==> {
                &&& final(self).bmap() == old(self).bmap().insert(block@.hash, block@)
                &&& final(self)@.blocks == old(self)@.blocks.push(block@)
                &&& final(self)@.utxos == old(self)@.utxos
                &&& final(self)@.mempool == old(self)@.mempool
                &&& final(self)@.orphans == old(self)@.orphans
                &&& final(self)@.last_hash == old(self)@.last_hash
            },
    {
        proof {
            lemma_bmap_domain(self@.blocks, block@.hash);
        }
        match self.find_block(&block.hash) {
            Some(_) => {},
            None => {
                let ghost prev = self.blocks@;
                let ghost bv = block@;
                self.blocks.push(block);
                proof {
                    assert(self@.blocks =~= old(self)@.blocks.push(bv)) by {
                        assert forall|m: int| 0 <= m < prev.len() + 1 implies
                            self@.blocks[m] == old(self)@.blocks.push(bv)[m] by {
                            if m < prev.len() {
                                assert(self.blocks@[m] == prev[m]);
                            } else {
                                assert(self.blocks@[m] == self.blocks@.last());
                            }
                        }
                    }
                    let t = self@.blocks;
                    assert(t.drop_last() =~= old(self)@.blocks);
                    assert forall|a: int, b: int|
                        0 <= a < t.len() && 0 <= b < t.len() && a != b implies (
                    #[trigger] t[a]).hash != (#[trigger] t[b]).hash by {
                        if a < t.len() - 1 && b < t.len() - 1 {
                            assert(t[a] == old(self)@.blocks[a]);
                            assert(t[b] == old(self)@.blocks[b]);
                        } else if a == t.len() - 1 {
                            assert(t[b] == old(self)@.blocks[b]);
                        } else {
                            assert(t[a] == old(self)@.blocks[a]);
                        }
                    }
                    assert forall|a: int| 0 <= a < t.len() implies block_wf(#[trigger] t[a]) by {
                        if a < t.len() - 1 {
                            assert(t[a] == old(self)@.blocks[a]);
                        }
                    }
                }
            },
        }
    }

    /// Deletes the block with the given hash, if it is stored.
    pub fn delete_block(&mut self, block_hash: &Vec<u8>)
        requires
            old(self).wf(),
        ensures
            final(self).wf(),
            final(self).bmap() == old(self).bmap().remove(block_hash@),
            final(self)@.utxos == old(self)@.utxos,
            final(self)@.mempool == old(self)@.mempool,
            final(self)@.orphans == old(self)@.orphans,
            final(self)@.last_hash == old(self)@.last_hash,
            forall|j: int|
                0 <= j < final(self)@.blocks.len() ==> exists|m: int|
                    0 <= m < old(self)@.blocks.len() && (#[trigger] final(self)@.blocks[j])
                        == old(self)@.blocks[m],
    {
        let ghost s0 = self@.blocks;
        match self.find_block(block_hash) {
            Some(i) => {
                self.blocks.remove(i);
                proof {
                    assert(self@.blocks =~= s0.remove(i as int)) by {
                        assert forall|m: int| 0 <= m < s0.len() - 1 implies
                            self@.blocks[m] == s0.remove(i as int)[m] by {
                            if m < i as int {
                                assert(self.blocks@[m] == old(self).blocks@[m]);
                            } else {
                                assert(self.blocks@[m] == old(self).blocks@[m + 1]);
                            }
                        }
                    }
                    lemma_bmap_remove(s0, i as int);
                    let t = self@.blocks;
                    assert forall|a: int, b: int|
                        0 <= a < t.len() && 0 <= b < t.len() && a != b implies (
                    #[trigger] t[a]).hash != (#[trigger] t[b]).hash by {
                        let a0 = if a < i as int { a } else { a + 1 };
                        let b0 = if b < i as int { b } else { b + 1 };
                        assert(t[a] == s0[a0]);
                        assert(t[b] == s0[b0]);
                    }
                    assert forall|a: int| 0 <= a < t.len() implies block_wf(#[trigger] t[a]) by {
                        let a0 = if a < i as int { a } else { a + 1 };
                        assert(t[a] == s0[a0]);
                    }
                    assert forall|j: int| 0 <= j < t.len() implies exists|m: int|
                        0 <= m < s0.len() && (#[trigger] t[j]) == s0[m] by {
                        let j0 = if j < i as int { j } else { j + 1 };
                        assert(t[j] == s0[j0]);
                    }
                }
            },
            None => {
                proof {
                    lemma_bmap_domain(s0, block_hash@);
                    assert(old(self).bmap().remove(block_hash@) =~= old(self).bmap());
                }
            },
        }
    }

    /// Empties the block store.
    pub fn delete_all_blocks(&mut self)
        requires
            old(self).wf(),
        ensures
            final(self).wf(),
            final(self)@.blocks.len() == 0,
            final(self)@.utxos == old(self)@.utxos,
            final(self)@.mempool == old(self)@.mempool,
            final(self)@.orphans == old(self)@.orphans,
            final(self)@.last_hash == old(self)@.last_hash,
    {
        self.blocks = Vec::new();
        proof {
            assert(self@.blocks =~= Seq::<BlockV>::empty());
        }
    }

    /// The hashes of every stored block.
    pub fn get_all_block_hashes(&self) -> (r: Vec<Vec<u8>>)
        ensures
            r@.len() == self@.blocks.len(),
            forall|i: int|
                0 <= i < r@.len() ==> (#[trigger] r@[i])@ == self@.blocks[i].hash,
    {
        let mut out: Vec<Vec<u8>> = Vec::new();
        let mut i: usize = 0;
        while i < self.blocks.len()
            invariant
                i <= self.blocks@.len(),
                self@.blocks.len() == self.blocks@.len(),
                out@.len() == i,
                forall|j: int| 0 <= j < i ==> (#[trigger] out@[j])@ == self@.blocks[j].hash,
            decreases self.blocks@.len() - i,
        {
            out.push(clone_bytes(&self.blocks[i].hash));
            i = i + 1;
        }
        out
    }

    /// Whether a chain exists: a tip hash is recorded.
    pub fn blockchain_exists(&self) -> (r: bool)
        ensures
            r == (self@.last_hash is Some),
    {
        self.last_hash.is_some()
    }

    /// The tip hash; `StoreError` when no chain exists.
    pub fn get_last_hash(&self) -> (r: Result<Vec<u8>, ChainError>)
        ensures
            r is Ok <==> self@.last_hash is Some,
            r is Ok ==> r.unwrap()@ == self@.last_hash.unwrap(),
            r is Err ==> r.unwrap_err() == ChainError::StoreError,
    {
        match &self.last_hash {
            Some(h) => Ok(clone_bytes(h)),
            None => Err(ChainError::StoreError),
        }
    }

    /// Records the tip hash.
    pub fn put_last_hash(&mut self, last_hash: &Vec<u8>)
        requires
            old(self).wf(),
            last_hash@.len() == 32,
        ensures
            final(self).wf(),
            final(self)@.last_hash == Some(last_hash@),
            final(self)@.blocks == old(self)@.blocks,
            final(self)@.utxos == old(self)@.utxos,
            final(self)@.mempool == old(self)@.mempool,
            final(self)@.orphans == old(self)@.orphans,
    {
        self.last_hash = Some(clone_bytes(last_hash));
    }

    /// Forgets the tip hash.
    pub fn delete_last_hash(&mut self)
        requires
            old(self).wf(),
        ensures
            final(self).wf(),
            final(self)@.last_hash is None,
            final(self)@.blocks == old(self)@.blocks,
            final(self)@.utxos == old(self)@.utxos,
            final(self)@.mempool == old(self)@.mempool,
            final(self)@.orphans == old(self)@.orphans,
    {
        self.last_hash = None;
    }

    /// The position of a block hash in the orphan pool.
    fn find_orphan(&self, block_hash: &Vec<u8>) -> (r: Option<usize>)
        ensures
            r is Some ==> 0 <= r.unwrap() < self@.orphans.len()
                && self@.orphans[r.unwrap() as int].hash == block_hash@,
            r is None ==> forall|i: int|
                0 <= i < self@.orphans.len() ==> (#[trigger] self@.orphans[i]).hash != block_hash@,
    {
        let mut i: usize = 0;
        while i < self.orphans.len()
            invariant
                i <= self.orphans@.len(),
                self@.orphans.len() == self.orphans@.len(),
                forall|j: int| 0 <= j < i ==> (#[trigger] self@.orphans[j]).hash != block_hash@,
            decreases self.orphans@.len() - i,
        {
            if crate::bytes::bytes_eq(&self.orphans[i].hash, block_hash) {
                proof {
                    assert(self@.orphans[i as int].hash == block_hash@);
                }
                return Some(i);
            }
            i = i + 1;
        }
        None
    }

    /// How many orphans are pooled.
    pub fn orphan_count(&self) -> (r: usize)
        ensures
            r == self@.orphans.len(),
    {
        self.orphans.len()
    }

    /// The orphan at a position.
    pub fn orphan_at(&self, i: usize) -> (r: &Block)
        requires
            i < self@.orphans.len(),
        ensures
            r@ == self@.orphans[i as int],
    {
        &self.orphans[i]
    }

    /// Queues a block in the orphan pool; a pooled block of the same hash is
    /// replaced.
    pub fn put_orphan_block(&mut self, block: &Block)
        requires
            old(self).wf(),
            block_wf(block@),
        ensures
            final(self).wf(),
            exists|i: int|
                0 <= i < final(self)@.orphans.len() && (#[trigger] final(self)@.orphans[i])
                    == block@,
            forall|i: int|
                0 <= i < old(self)@.orphans.len() && (#[trigger] old(self)@.orphans[i]).hash
                    != block@.hash ==> final(self)@.orphans.contains(old(self)@.orphans[i]),
            forall|i: int|
                0 <= i < final(self)@.orphans.len() ==> (#[trigger] final(self)@.orphans[i])
                    == block@ || old(self)@.orphans.contains(final(self)@.orphans[i]),
            final(self)@.orphans.len() <= old(self)@.orphans.len() + 1,
            final(self)@.blocks == old(self)@.blocks,
            final(self)@.utxos == old(self)@.utxos,
            final(self)@.mempool == old(self)@.mempool,
            final(self)@.last_hash == old(self)@.last_hash,
    {
        let ghost s0 = self@.orphans;
        match self.find_orphan(&block.hash) {
            Some(i) => {
                let dup = block.duplicate();
                self.orphans.set(i, dup);
                proof {
                    assert(self@.orphans =~= s0.update(i as int, block@)) by {
                        assert forall|m: int| 0 <= m < s0.len() implies
                            self@.orphans[m] == s0.update(i as int, block@)[m] by {
                            if m != i as int {
                                assert(self.orphans@[m] == old(self).orphans@[m]);
                            }
                        }
                    }
                    let t = self@.orphans;
                    assert(t[i as int] == block@);
                    assert forall|a: int, b: int|
                        0 <= a < t.len() && 0 <= b < t.len() && a != b implies (
                    #[trigger] t[a]).hash != (#[trigger] t[b]).hash by {
                        if a != i as int && b != i as int {
                            assert(t[a] == s0[a]);
                            assert(t[b] == s0[b]);
                        } else if a == i as int {
                            assert(t[b] == s0[b]);
                            assert(s0[b].hash != s0[i as int].hash);
                        } else {
                            assert(t[a] == s0[a]);
                            assert(s0[a].hash != s0[i as int].hash);
                        }
                    }
                    assert forall|a: int| 0 <= a < t.len() implies block_wf(#[trigger] t[a]) by {
                        if a != i as int {
                            assert(t[a] == s0[a]);
                        }
                    }
                    assert forall|m: int|
                        0 <= m < s0.len() && (#[trigger] s0[m]).hash != block@.hash implies
                        t.contains(s0[m]) by {
                        assert(t[m] == s0[m]);
                    }
                    assert forall|m: int| 0 <= m < t.len() implies (#[trigger] t[m]) == block@
                        || s0.contains(t[m]) by {
                        if m != i as int {
                            assert(t[m] == s0[m]);
                        }
                    }
                }
            },
            None => {
                let dup = block.duplicate();
                let ghost prev = self.orphans@;
                self.orphans.push(dup);
                proof {
                    assert(self@.orphans =~= s0.push(block@)) by {
                        assert forall|m: int| 0 <= m < s0.len() + 1 implies
                            self@.orphans[m] == s0.push(block@)[m] by {
                            if m < s0.len() {
                                assert(self.orphans@[m] == prev[m]);
                            } else {
                                assert(self.orphans@[m] == self.orphans@.last());
                            }
                        }
                    }
                    let t = self@.orphans;
                    assert(t[t.len() - 1] == block@);
                    assert forall|a: int, b: int|
                        0 <= a < t.len() && 0 <= b < t.len() && a != b implies (
                    #[trigger] t[a]).hash != (#[trigger] t[b]).hash by {
                        if a < t.len() - 1 && b < t.len() - 1 {
                            assert(t[a] == s0[a]);
                            assert(t[b] == s0[b]);
                        } else if a == t.len() - 1 {
                            assert(t[b] == s0[b]);
                        } else {
                            assert(t[a] == s0[a]);
                        }
                    }
                    assert forall|a: int| 0 <= a < t.len() implies block_wf(#[trigger] t[a]) by {
                        if a < t.len() - 1 {
                            assert(t[a] == s0[a]);
                        }
                    }
                    assert forall|m: int|
                        0 <= m < s0.len() && (#[trigger] s0[m]).hash != block@.hash implies
                        t.contains(s0[m]) by {
                        assert(t[m] == s0[m]);
                    }
                    assert forall|m: int| 0 <= m < t.len() implies (#[trigger] t[m]) == block@
                        || s0.contains(t[m]) by {
                        if m < t.len() - 1 {
                            assert(t[m] == s0[m]);
                        }
                    }
                }
            },
        }
    }

    /// Removes the orphans with the given hashes; everything else stays.
    pub fn remove_from_orphan_blocks(&mut self, block_hashes: &Vec<Vec<u8>>)
        requires
            old(self).wf(),
        ensures
            final(self).wf(),
            forall|j: int|
                0 <= j < final(self)@.orphans.len() ==> old(self)@.orphans.contains(
                    #[trigger] final(self)@.orphans[j],
                ),
            forall|j: int|
                0 <= j < final(self)@.orphans.len() ==> !hash_listed(
                    block_hashes@,
                    (#[trigger] final(self)@.orphans[j]).hash,
                ),
            forall|m: int|
                0 <= m < old(self)@.orphans.len() ==> final(self)@.orphans.contains(
                    #[trigger] old(self)@.orphans[m],
                ) || hash_listed(block_hashes@, old(self)@.orphans[m].hash),
            final(self)@.orphans.len() <= old(self)@.orphans.len(),
            final(self)@.blocks == old(self)@.blocks,
            final(self)@.utxos == old(self)@.utxos,
            final(self)@.mempool == old(self)@.mempool,
            final(self)@.last_hash == old(self)@.last_hash,
    {
        let mut kept: Vec<Block> = Vec::new();
        let ghost mut src: Seq<int> = Seq::empty();
        let mut i: usize = 0;
        while i < self.orphans.len()
            invariant
                blocks_wf(old(self)@.orphans),
                i <= self.orphans@.len(),
                self@ == old(self)@,
                self@.orphans.len() == self.orphans@.len(),
                src.len() == blocks_view(kept@).len(),
                forall|j: int| 0 <= j < src.len() ==> 0 <= #[trigger] src[j] < i,
                forall|j: int, m: int| 0 <= j < m < src.len() ==> src[j] < src[m],
                forall|j: int|
                    0 <= j < src.len() ==> #[trigger] blocks_view(kept@)[j]
                        == self@.orphans[src[j]],
                forall|j: int|
                    0 <= j < src.len() ==> !hash_listed(
                        block_hashes@,
                        self@.orphans[#[trigger] src[j]].hash,
                    ),
                forall|m: int|
                    0 <= m < i ==> crate::mempool::surviving(src, m) || hash_listed(
                        block_hashes@,
                        (#[trigger] self@.orphans[m]).hash,
                    ),
            decreases self.orphans@.len() - i,
        {
            let ghost src_entry = src;
            let mut listed = false;
            let mut k: usize = 0;
            while k < block_hashes.len()
                invariant
                    k <= block_hashes@.len(),
                    i < self.orphans@.len(),
                    self@.orphans.len() == self.orphans@.len(),
                    listed == exists|q: int|
                        0 <= q < k && (#[trigger] block_hashes@[q])@ == self@.orphans[i as int].hash,
                decreases block_hashes@.len() - k,
            {
                if crate::bytes::bytes_eq(&self.orphans[i].hash, &block_hashes[k]) {
                    proof {
                        assert(block_hashes@[k as int]@ == self@.orphans[i as int].hash);
                    }
                    listed = true;
                }
                k = k + 1;
            }
            proof {
                assert(listed == hash_listed(block_hashes@, self@.orphans[i as int].hash));
            }
            if !listed {
                let ghost prev = kept@;
                let dup = self.orphans[i].duplicate();
                kept.push(dup);
                proof {
                    lemma_blocks_view_push(prev, dup);
                    src = src.push(i as int);
                    assert forall|j: int|
                        0 <= j < src.len() implies !hash_listed(
                            block_hashes@,
                            self@.orphans[#[trigger] src[j]].hash,
                        ) by {
                        if j < src.len() - 1 {
                            assert(src[j] == src_entry[j]);
                        } else {
                            assert(src[j] == i as int);
                        }
                    }
                }
            }
            proof {
                let ii = i as int;
                assert forall|m: int|
                    0 <= m < ii + 1 implies crate::mempool::surviving(src, m) || hash_listed(
                        block_hashes@,
                        (#[trigger] self@.orphans[m]).hash,
                    ) by {
                    if m == ii {
                        if !listed {
                            assert(src[src.len() - 1] == ii);
                            assert(crate::mempool::surviving(src, ii));
                        }
                    } else {
                        if crate::mempool::surviving(src_entry, m) {
                            let j0 = choose|j: int|
                                0 <= j < src_entry.len() && #[trigger] src_entry[j] == m;
                            assert(src[j0] == m);
                            assert(crate::mempool::surviving(src, m));
                        }
                    }
                }
            }
            i = i + 1;
        }
        let ghost keptv = kept@;
        self.orphans = kept;
        proof {
            let s = self@.orphans;
            let n = s.len() as int;
            assert(s == blocks_view(keptv));
            assert(s.len() <= old(self)@.orphans.len()) by {
                if n > 0 {
                    lemma_increasing_at_least(src, n - 1);
                }
            }
            assert forall|j: int| 0 <= j < n implies #[trigger] s[j] == old(self)@.orphans[src[j]] by {
                assert(blocks_view(keptv)[j] == old(self)@.orphans[src[j]]);
            }
            assert forall|a: int, b: int|
                0 <= a < n && 0 <= b < n && a != b implies (#[trigger] s[a]).hash != (
            #[trigger] s[b]).hash by {
                assert(s[a] == old(self)@.orphans[src[a]]);
                assert(s[b] == old(self)@.orphans[src[b]]);
                assert(src[a] != src[b]) by {
                    if a < b {
                        assert(src[a] < src[b]);
                    } else {
                        assert(src[b] < src[a]);
                    }
                }
            }
            assert forall|j: int| 0 <= j < n implies block_wf(#[trigger] s[j]) by {
                assert(s[j] == old(self)@.orphans[src[j]]);
            }
            assert forall|j: int| 0 <= j < n implies old(self)@.orphans.contains(#[trigger] s[j]) by {
                assert(old(self)@.orphans[src[j]] == s[j]);
            }
            assert forall|j: int| 0 <= j < n implies !hash_listed(
                block_hashes@,
                (#[trigger] s[j]).hash,
            ) by {
                assert(s[j] == old(self)@.orphans[src[j]]);
                assert(!hash_listed(block_hashes@, old(self)@.orphans[src[j]].hash));
            }
            assert forall|m: int|
                0 <= m < old(self)@.orphans.len() implies final(self)@.orphans.contains(
                    #[trigger] old(self)@.orphans[m],
                ) || hash_listed(block_hashes@, old(self)@.orphans[m].hash) by {
                if crate::mempool::surviving(src, m) {
                    let j0 = choose|j: int| 0 <= j < src.len() && #[trigger] src[j] == m;
                    assert(s[j0] == old(self)@.orphans[src[j0]]);
                    assert(s[j0] == old(self)@.orphans[m]);
                }
            }
        }
    }

    /// Empties the orphan pool.
    pub fn delete_all_orphan_blocks(&mut self)
        requires
            old(self).wf(),
        ensures
            final(self).wf(),
            final(self)@.orphans.len() == 0,
            final(self)@.blocks == old(self)@.blocks,
            final(self)@.utxos == old(self)@.utxos,
            final(self)@.mempool == old(self)@.mempool,
            final(self)@.last_hash == old(self)@.last_hash,
    {
        self.orphans = Vec::new();
        proof {
            assert(self@.orphans =~= Seq::<BlockV>::empty());
        }
    }

    /// Empties the mempool.
    pub fn delete_mempool(&mut self)
        requires
            old(self).wf(),
        ensures
            final(self).wf(),
            final(self)@.mempool.len() == 0,
            final(self)@.blocks == old(self)@.blocks,
            final(self)@.utxos == old(self)@.utxos,
            final(self)@.orphans == old(self)@.orphans,
            final(self)@.last_hash == old(self)@.last_hash,
    {
        self.mempool.delete_mempool();
    }

    /// Empties the UTXO set.
    pub fn delete_all_utxos(&mut self)
        requires
            old(self).wf(),
        ensures
            final(self).wf(),
            final(self)@.utxos.len() == 0,
            final(self).umap() == Map::<(Seq<u8>, u32), crate::tx::TxOutputV>::empty(),
            final(self)@.blocks == old(self)@.blocks,
            final(self)@.mempool == old(self)@.mempool,
            final(self)@.orphans == old(self)@.orphans,
            final(self)@.last_hash == old(self)@.last_hash,
    {
        self.utxos.delete_all_utxos();
    }
}

} // verus!
