//! Blocks: structure, hashing over the Merkle root of the transactions,
//! proof-of-work mining, and the two verification levels (full, and the
//! orphan check that skips the UTXO-dependent transaction checks).

use vstd::prelude::*;

use crate::bytes::{clone_bytes, lex_lt, make_zero32, push_bytes, push_u32_le, push_u64_le, u32_le, u64_le, zero32, is_zero32, bytes_lex_lt, bytes_eq};
use crate::crypto;
use crate::errors::ChainError;
use crate::mempool::{Mempool, txs_view, lemma_txs_view_push};
use crate::merkle::{MerkleTree, merkle_root_of_data};
use crate::tx::{COINBASE_REWARD, Tx, TxV, TxVerdict, TxVerify, coinbase_tx, is_coinbase_v, tx_hash_of, tx_valid, tx_verdict, tx_wf};
use crate::utxo::UtxoSet;

verus! {

/// The fixed difficulty: a block hash must start with this many zero bits.
pub const DIFFICULTY: u32 = 16;

/// The ghost image of a block.
pub ghost struct BlockV {
    pub txs: Seq<TxV>,
    pub prev_hash: Seq<u8>,
    pub hash: Seq<u8>,
    pub nonce: u32,
    pub height: u32,
    pub timestamp: u64,
}

/// A block: its transactions (coinbase first), the previous block's hash,
/// its own hash, the proof-of-work nonce, its height, and a timestamp.
#[derive(Debug)]
pub struct Block {
    pub txs: Vec<Tx>,
    pub prev_hash: Vec<u8>,
    pub hash: Vec<u8>,
    pub nonce: u32,
    pub height: u32,
    pub timestamp: u64,
}

impl View for Block {
    type V = BlockV;

    open spec fn view(&self) -> BlockV {
        BlockV {
            txs: txs_view(self.txs@),
            prev_hash: self.prev_hash@,
            hash: self.hash@,
            nonce: self.nonce,
            height: self.height,
            timestamp: self.timestamp,
        }
    }
}

/// A well-formed block: 32-byte hashes and well-formed transactions.
pub open spec fn block_wf(b: BlockV) -> bool {
    &&& b.prev_hash.len() == 32
    &&& b.hash.len() == 32
    &&& forall|i: int| 0 <= i < b.txs.len() ==> tx_wf(#[trigger] b.txs[i])
}

/// The ids of the block's transactions, the Merkle leaves.
pub open spec fn tx_hashes_of(txs: Seq<TxV>) -> Seq<Seq<u8>> {
    Seq::new(txs.len(), |i: int| tx_hash_of(txs[i]))
}

/// The bytes a block's proof-of-work hash is computed over: previous hash,
/// Merkle root of the transaction hashes, then nonce, height and timestamp
/// in little-endian.
pub open spec fn block_pow_input(b: BlockV) -> Seq<u8> {
    b.prev_hash + merkle_root_of_data(tx_hashes_of(b.txs)) + u32_le(b.nonce) + u32_le(b.height)
        + u64_le(b.timestamp)
}

/// The hash of a block (independent of its stored `hash` field).
pub open spec fn block_hash_of(b: BlockV) -> Seq<u8> {
    crypto::sha256_of(block_pow_input(b))
}

/// The proof-of-work target: a 1 bit after `DIFFICULTY` zero bits, as a
/// 32-byte string compared lexicographically.
pub open spec fn target_spec() -> Seq<u8> {
    Seq::new(
        32,
        |i: int| if i == DIFFICULTY as int / 8 {
            (1u8 << (7 - (DIFFICULTY % 8)) as u8)
        } else {
            0u8
        },
    )
}

/// The structural checks shared by full and orphan verification: some
/// transactions, the first a coinbase paying exactly the reward, the stored
/// hash equal to the recomputed hash, and the hash under the target.
pub open spec fn block_core_valid(b: BlockV) -> bool {
    &&& b.txs.len() > 0
    &&& is_coinbase_v(b.txs[0])
    &&& b.txs[0].outputs.len() > 0
    &&& b.txs[0].outputs[0].value == COINBASE_REWARD
    &&& block_hash_of(b) == b.hash
    &&& lex_lt(b.hash, target_spec())
}

/// Full validity: the structural checks, and every transaction verifying
/// against the UTXO map.
pub open spec fn block_valid(b: BlockV, u: Map<(Seq<u8>, u32), crate::tx::TxOutputV>) -> bool {
    &&& block_core_valid(b)
    &&& forall|i: int| 0 <= i < b.txs.len() ==> tx_valid(#[trigger] b.txs[i], u)
}

/// Builds the proof-of-work target.
pub fn get_target_difficulty() -> (r: Vec<u8>)
    ensures
        r@ == target_spec(),
{
    let byte_index: usize = (DIFFICULTY / 8) as usize;
    let bit_index: u32 = DIFFICULTY % 8;
    let bit: u8 = 1u8 << (7 - bit_index) as u8;
    let mut t: Vec<u8> = Vec::new();
    let mut i: usize = 0;
    while i < 32
        invariant
            i <= 32,
            t@.len() == i,
            byte_index == DIFFICULTY as int / 8,
            bit == (1u8 << (7 - (DIFFICULTY % 8)) as u8),
            forall|j: int| 0 <= j < i ==> t@[j] == target_spec()[j],
        decreases 32 - i,
    {
        if i == byte_index {
            t.push(bit);
        } else {
            t.push(0u8);
        }
        i = i + 1;
    }
    proof {
        assert(t@ =~= target_spec());
    }
    t
}

impl Block {
    /// A deep copy with the same view.
    pub fn duplicate(&self) -> (r: Block)
        ensures
            r@ == self@,
    {
        let mut txs: Vec<Tx> = Vec::new();
        let mut i: usize = 0;
        while i < self.txs.len()
            invariant
                i <= self.txs@.len(),
                txs_view(txs@) =~= txs_view(self.txs@).take(i as int),
            decreases self.txs@.len() - i,
        {
            let ghost prev = txs@;
            let t = self.txs[i].duplicate();
            txs.push(t);
            proof {
                lemma_txs_view_push(prev, t);
                assert(t@ == txs_view(self.txs@)[i as int]);
                crate::tx::lemma_take_succ(txs_view(self.txs@), i as int);
            }
            i = i + 1;
        }
        let r = Block {
            txs,
            prev_hash: clone_bytes(&self.prev_hash),
            hash: clone_bytes(&self.hash),
            nonce: self.nonce,
            height: self.height,
            timestamp: self.timestamp,
        };
        proof {
            assert(txs_view(r.txs@) =~= txs_view(self.txs@));
            assert(r@ == self@);
        }
        r
    }

    /// The genesis block: a single coinbase paying the reward to `addr`, an
    /// all-zero previous hash, height 0, and an unmined hash of zeros.
    pub fn genesis(addr: &crate::address::Address, timestamp: u64) -> (r: Block)
        requires
            addr@.pub_key_hash.len() == 20,
        ensures
            r@.txs.len() == 1,
            is_coinbase_v(r@.txs[0]),
            r@.txs[0].outputs.len() == 1,
            r@.txs[0].outputs[0].value == COINBASE_REWARD,
            r@.txs[0].outputs[0].pub_key_hash == addr@.pub_key_hash,
            r@.prev_hash == zero32(),
            r@.hash == zero32(),
            r@.nonce == 0,
            r@.height == 0,
            r@.timestamp == timestamp,
            block_wf(r@),
    {
        let cbtx = coinbase_tx(addr);
        let mut txs: Vec<Tx> = Vec::new();
        let ghost cb = cbtx@;
        txs.push(cbtx);
        let r = Block {
            txs,
            prev_hash: make_zero32(),
            hash: make_zero32(),
            nonce: 0,
            height: 0,
            timestamp,
        };
        proof {
            assert(txs_view(r.txs@) =~= seq![cb]);
        }
        r
    }

    /// Whether this is the genesis block: all-zero previous hash at height 0.
    pub fn is_genesis(&self) -> (r: bool)
        ensures
            r == (self@.prev_hash == zero32() && self@.height == 0),
    {
        self.height == 0 && is_zero32(&self.prev_hash)
    }

    /// A candidate block for mining: a fresh coinbase paying `reward_addr`
    /// first, then every pending transaction in mempool order, on top of the
    /// given tip.
    pub fn new(
        reward_addr: &crate::address::Address,
        prev_hash: &Vec<u8>,
        prev_height: u32,
        mempool: &Mempool,
        timestamp: u64,
    ) -> (r: Block)
        requires
            reward_addr@.pub_key_hash.len() == 20,
            prev_height < u32::MAX,
        ensures
            r@.txs.len() == mempool@.len() + 1,
            is_coinbase_v(r@.txs[0]),
            tx_wf(r@.txs[0]),
            r@.txs[0].outputs.len() == 1,
            r@.txs[0].outputs[0].value == COINBASE_REWARD,
            r@.txs[0].outputs[0].pub_key_hash == reward_addr@.pub_key_hash,
            r@.txs.skip(1) == mempool@,
            r@.prev_hash == prev_hash@,
            r@.height == prev_height + 1,
            r@.timestamp == timestamp,
            r@.hash == zero32(),
            r@.nonce == 0,
    {
        let cbtx = coinbase_tx(reward_addr);
        let ghost cb = cbtx@;
        let mut txs: Vec<Tx> = Vec::new();
        txs.push(cbtx);
        proof {
            assert(txs_view(txs@) =~= seq![cb]);
        }
        let mut i: usize = 0;
        while i < mempool.len()
            invariant
                i <= mempool@.len(),
                cb == txs_view(txs@)[0],
                txs_view(txs@) =~= seq![cb] + mempool@.take(i as int),
            decreases mempool@.len() - i,
        {
            let ghost prev = txs@;
            let t = mempool.tx_at(i).duplicate();
            txs.push(t);
            proof {
                lemma_txs_view_push(prev, t);
                assert(txs_view(txs@) =~= seq![cb] + mempool@.take(i + 1));
            }
            i = i + 1;
        }
        proof {
            assert(mempool@.take(mempool@.len() as int) =~= mempool@);
        }
        let r = Block {
            txs,
            prev_hash: clone_bytes(prev_hash),
            hash: make_zero32(),
            nonce: 0,
            height: prev_height + 1,
            timestamp,
        };
        proof {
            assert(r@.txs =~= seq![cb] + mempool@);
            assert(r@.txs.skip(1) =~= mempool@);
        }
        r
    }

    /// The block's hash: SHA-256 over the previous hash, the Merkle root of
    /// the transaction hashes, and the nonce, height and timestamp.
    pub fn hash(&self) -> (r: Vec<u8>)
        requires
            self@.txs.len() > 0,
        ensures
            r@ == block_hash_of(self@),
            r@.len() == 32,
    {
        let root = self.hash_txs();
        let mut input: Vec<u8> = Vec::new();
        push_bytes(&mut input, &self.prev_hash);
        push_bytes(&mut input, &root);
        push_u32_le(&mut input, self.nonce);
        push_u32_le(&mut input, self.height);
        push_u64_le(&mut input, self.timestamp);
        proof {
            assert(input@ =~= block_pow_input(self@));
        }
        crypto::sha256(&input)
    }

    /// The Merkle root of the transactions' hashes.
    fn hash_txs(&self) -> (r: Vec<u8>)
        requires
            self@.txs.len() > 0,
        ensures
            r@ == merkle_root_of_data(tx_hashes_of(self@.txs)),
    {
        let mut tx_hashes: Vec<Vec<u8>> = Vec::new();
        let mut i: usize = 0;
        while i < self.txs.len()
            invariant
                i <= self.txs@.len(),
                self@.txs.len() == self.txs@.len(),
                tx_hashes@.len() == i,
                forall|j: int|
                    0 <= j < i ==> (#[trigger] tx_hashes@[j])@ == tx_hash_of(self@.txs[j]),
            decreases self.txs@.len() - i,
        {
            let h = self.txs[i].hash();
            tx_hashes.push(h);
            i = i + 1;
        }
        let ghost hv = Seq::new(tx_hashes@.len(), |j: int| tx_hashes@[j]@);
        proof {
            assert(hv =~= tx_hashes_of(self@.txs));
        }
        let tree = MerkleTree::new(tx_hashes);
        tree.root.hash
    }

    /// Full verification: the structural checks and every transaction
    /// verified against the UTXO set.
    pub fn verify(&self, utxos: &UtxoSet) -> (r: bool)
        requires
            utxos.wf(),
        ensures
            r == block_valid(self@, utxos.umap()),
    {
        if self.txs.len() == 0 {
            return false;
        }
        let mut i: usize = 0;
        while i < self.txs.len()
            invariant
                utxos.wf(),
                i <= self.txs@.len(),
                self@.txs.len() == self.txs@.len(),
                forall|j: int| 0 <= j < i ==> tx_valid(#[trigger] self@.txs[j], utxos.umap()),
            decreases self.txs@.len() - i,
        {
            let verdict = self.txs[i].verify(utxos);
            if !matches!(verdict, TxVerdict::Valid) {
                proof {
                    assert(!tx_valid(self@.txs[i as int], utxos.umap()));
                }
                return false;
            }
            i = i + 1;
        }
        self.verify_orphan()
    }

    /// Orphan verification: the structural checks only; the per-input UTXO
    /// checks wait until the orphan joins the chain.
    pub fn verify_orphan(&self) -> (r: bool)
        ensures
            r == block_core_valid(self@),
    {
        if self.txs.len() == 0 {
            return false;
        }
        let coinbase = &self.txs[0];
        if !coinbase.is_coinbase() {
            return false;
        }
        if coinbase.outputs.len() == 0 {
            return false;
        }
        if coinbase.outputs[0].value != COINBASE_REWARD {
            proof {
                assert(self@.txs[0].outputs[0].value != COINBASE_REWARD);
            }
            return false;
        }
        let target = get_target_difficulty();
        let hash = self.hash();
        if !bytes_eq(&hash, &self.hash) {
            return false;
        }
        if !bytes_lex_lt(&hash, &target) {
            return false;
        }
        true
    }

    /// Searches for a proof-of-work nonce: with everything else fixed, tries
    /// nonces from zero up and keeps the first whose hash is under the
    /// target, storing hash and nonce in the block. The Merkle root is
    /// computed once; each attempt hashes only the header bytes. Fails
    /// (leaving the block unchanged) exactly when no nonce below `u32::MAX`
    /// works.
    pub fn mine(&mut self) -> (r: Result<(), ChainError>)
        requires
            old(self)@.txs.len() > 0,
        ensures
            r is Ok ==> {
                &&& final(self)@.txs == old(self)@.txs
                &&& final(self)@.prev_hash == old(self)@.prev_hash
                &&& final(self)@.height == old(self)@.height
                &&& final(self)@.timestamp == old(self)@.timestamp
                &&& final(self)@.hash == block_hash_of(final(self)@)
                &&& final(self)@.hash.len() == 32
                &&& lex_lt(final(self)@.hash, target_spec())
            },
            r is Err ==> final(self)@ == old(self)@ && r.unwrap_err() == ChainError::StaleBlock,
            r is Err <==> (forall|n: u32|
                n < u32::MAX ==> !lex_lt(
                    block_hash_of(
                        BlockV {
                            txs: old(self)@.txs,
                            prev_hash: old(self)@.prev_hash,
                            hash: old(self)@.hash,
                            nonce: n,
                            height: old(self)@.height,
                            timestamp: old(self)@.timestamp,
                        },
                    ),
                    target_spec(),
                )),
    {
        let target = get_target_difficulty();
        let root = self.hash_txs();
        let ghost orig = old(self)@;
        let mut nonce: u32 = 0;
        loop
            invariant
                orig == old(self)@,
                self@ == orig,
                self@.txs.len() > 0,
                root@ == merkle_root_of_data(tx_hashes_of(orig.txs)),
                target@ == target_spec(),
                nonce <= u32::MAX,
                forall|n: u32|
                    n < nonce ==> !lex_lt(
                        block_hash_of(
                            BlockV {
                                txs: orig.txs,
                                prev_hash: orig.prev_hash,
                                hash: orig.hash,
                                nonce: n,
                                height: orig.height,
                                timestamp: orig.timestamp,
                            },
                        ),
                        target_spec(),
                    ),
            decreases u32::MAX - nonce,
        {
            if nonce >= u32::MAX {
                return Err(ChainError::StaleBlock);
            }
            let ghost bv = BlockV {
                txs: orig.txs,
                prev_hash: orig.prev_hash,
                hash: orig.hash,
                nonce: nonce,
                height: orig.height,
                timestamp: orig.timestamp,
            };
            let mut input: Vec<u8> = Vec::new();
            push_bytes(&mut input, &self.prev_hash);
            push_bytes(&mut input, &root);
            push_u32_le(&mut input, nonce);
            push_u32_le(&mut input, self.height);
            push_u64_le(&mut input, self.timestamp);
            proof {
                assert(tx_hashes_of(bv.txs) =~= tx_hashes_of(orig.txs));
                assert(input@ =~= block_pow_input(bv));
            }
            let h = crypto::sha256(&input);
            if bytes_lex_lt(&h, &target) {
                self.nonce = nonce;
                let ghost pre2 = self@;
                self.hash = h;
                proof {
                    assert(self@.txs =~= pre2.txs);
                    assert(block_pow_input(self@) =~= block_pow_input(bv));
                    assert(lex_lt(block_hash_of(bv), target_spec()));
                    assert(nonce < u32::MAX);
                }
                return Ok(());
            }
            proof {
                assert(!lex_lt(block_hash_of(bv), target_spec()));
            }
            nonce = nonce + 1;
        }
    }
}

} // verus!
