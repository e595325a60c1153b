//! The decision kernel of the peer-to-peer protocol: inventory announcements,
//! inventory requests and responses, and chain synchronization. The gossip
//! transport, peer identities and topic subscription are the shell's job; it
//! hands decoded payloads in and carries the decisions out.

use vstd::prelude::*;

use crate::block::Block;
use crate::bytes::clone_bytes;
use crate::chain::{CommitOutcome, chain_at, node_chain_wf};
use crate::errors::ChainError;
use crate::mempool::no_shared_input;
use crate::reorg::ChainManager;
use crate::store::NodeState;
use crate::tx::{Tx, TxVerdict, TxVerify, tx_valid, tx_wf};

verus! {

/// An inventory announcement: the id of a transaction or the hash of a block.
#[derive(Debug)]
pub enum NewInventory {
    Transaction(Vec<u8>),
    Block(Vec<u8>),
}

/// A full inventory item, sent in response to a request.
#[derive(Debug)]
pub enum Inventory {
    Transaction(Tx),
    Block(Block),
}

/// What the HTTP handlers and the miner send to the network task.
#[derive(Debug)]
pub enum P2Prx {
    BroadcastNewInv(NewInventory),
    HealthCheck,
}

impl NodeState {
    /// On a `new_inv` announcement: whether to request the item from the
    /// announcer — a transaction neither pending nor in the UTXO producer
    /// set, or a block not stored locally.
    pub fn handle_new_inventory(&self, inv: &NewInventory) -> (r: bool)
        requires
            self.wf(),
        ensures
            inv is Transaction ==> r == (!(exists|i: int|
                0 <= i < self@.mempool.len() && (#[trigger] self@.mempool[i]).id
                    == inv->Transaction_0@) && !(exists|o: u32|
                #[trigger] self.umap().contains_key((inv->Transaction_0@, o)))),
            inv is Block ==> r == !self.bmap().contains_key(inv->Block_0@),
    {
        match inv {
            NewInventory::Transaction(tx_id) => {
                let in_mem = self.mempool.mempool_contains_tx(tx_id);
                let in_utxo = self.utxos.utxo_set_contains_tx(tx_id);
                proof {
                    assert(self.umap() == self.utxos.umap());
                    if exists|o: u32| #[trigger] self.utxos.umap().contains_key((tx_id@, o)) {
                        let o = choose|o: u32|
                            #[trigger] self.utxos.umap().contains_key((tx_id@, o));
                        assert(self.umap().contains_key((tx_id@, o)));
                    }
                    if exists|o: u32| #[trigger] self.umap().contains_key((tx_id@, o)) {
                        let o = choose|o: u32| #[trigger] self.umap().contains_key((tx_id@, o));
                        assert(self.utxos.umap().contains_key((tx_id@, o)));
                    }
                }
                !in_mem && !in_utxo
            },
            NewInventory::Block(block_hash) => self.get_block(block_hash).is_none(),
        }
    }

    /// On an `inv_req`: the full item if it is held locally — a pending
    /// transaction from the mempool, a block from the store.
    pub fn handle_inventory_req(&self, inv: &NewInventory) -> (r: Option<Inventory>)
        requires
            self.wf(),
        ensures
            inv is Transaction ==> {
                &&& (r is Some <==> exists|i: int|
                    0 <= i < self@.mempool.len() && (#[trigger] self@.mempool[i]).id
                        == inv->Transaction_0@)
                &&& (r is Some ==> r->0 is Transaction && exists|i: int|
                    0 <= i < self@.mempool.len() && (#[trigger] self@.mempool[i]).id
                        == inv->Transaction_0@ && r->0->Transaction_0@ == self@.mempool[i])
            },
            inv is Block ==> {
                &&& (r is Some <==> self.bmap().contains_key(inv->Block_0@))
                &&& (r is Some ==> r->0 is Block && r->0->Block_0@ == self.bmap()[inv->Block_0@])
            },
    {
        match inv {
            NewInventory::Transaction(tx_id) => {
                match self.mempool.get_tx_from_mempool(tx_id) {
                    Some(tx) => Some(Inventory::Transaction(tx.duplicate())),
                    None => None,
                }
            },
            NewInventory::Block(block_hash) => {
                match self.get_block(block_hash) {
                    Some(b) => Some(Inventory::Block(b.duplicate())),
                    None => None,
                }
            },
        }
    }

    /// On an `inv_res` carrying a transaction: verify it against the UTXO
    /// set, guard against a mempool double spend, and admit it. The error
    /// names the first check that failed.
    pub fn handle_inventory_res_tx(&mut self, tx: &Tx) -> (r: Result<(), ChainError>)
        requires
            old(self).wf(),
            tx_wf(tx@),
        ensures
            final(self).wf(),
            final(self)@.blocks == old(self)@.blocks,
            final(self)@.utxos == old(self)@.utxos,
            final(self)@.orphans == old(self)@.orphans,
            final(self)@.last_hash == old(self)@.last_hash,
            r is Ok <==> tx_valid(tx@, old(self).umap()) && (forall|i: int|
                0 <= i < old(self)@.mempool.len() ==> no_shared_input(
                    tx@,
                    #[trigger] old(self)@.mempool[i],
                )),
            r is Ok ==> final(self)@.mempool.len() > 0 && final(self)@.mempool.last() == tx@,
            r is Err ==> final(self)@.mempool == old(self)@.mempool,
    {
        let verdict = tx.verify(&self.utxos);
        match verdict {
            TxVerdict::Valid => {},
            TxVerdict::UnknownInput => {
                return Err(ChainError::UnknownInput);
            },
            TxVerdict::WrongKey => {
                return Err(ChainError::WrongKey);
            },
            TxVerdict::BadSignature => {
                return Err(ChainError::BadSignature);
            },
        }
        self.mempool.add_tx_to_mempool(tx)
    }

    /// On an `inv_res` carrying a block: run the commit state machine.
    pub fn handle_inventory_res_block(&mut self, mgr: &mut ChainManager, block: &Block) -> (r:
        CommitOutcome)
        requires
            old(self).wf(),
            node_chain_wf(&*old(self)),
            crate::block::block_wf(block@),
        ensures
            final(self).wf(),
            node_chain_wf(&*final(self)),
            r == CommitOutcome::Extended <==> crate::chain::extends_chain(old(self)@, block@),
    {
        self.commit_block(mgr, block)
    }

    /// On a `chain_sync_req` carrying a peer's tip height: the hashes of the
    /// blocks above it, tip first.
    pub fn handle_chainsync_req(&self, height: u32) -> (r: Result<Vec<Vec<u8>>, ChainError>)
        requires
            self.wf(),
            node_chain_wf(self),
        ensures
            r is Ok <==> self@.last_hash is Some,
            r is Ok ==> {
                let bm = self.bmap();
                let tip = self@.last_hash.unwrap();
                let th = bm[tip].height as nat;
                &&& r->Ok_0@.len() == (if height == 0 {
                    th + 1 as int
                } else if height <= th {
                    (th - height) as int
                } else {
                    0 as int
                })
                &&& forall|j: int|
                    0 <= j < r->Ok_0@.len() ==> (#[trigger] r->Ok_0@[j])@ == chain_at(
                        bm,
                        tip,
                        th,
                        (th - j) as nat,
                    ).hash
            },
            r is Err ==> r->Err_0 == ChainError::StoreError,
    {
        let blocks = match self.get_blocks_since_height(height) {
            Ok(b) => b,
            Err(e) => {
                return Err(e);
            },
        };
        let mut hashes: Vec<Vec<u8>> = Vec::new();
        let ghost bm = self.bmap();
        let ghost tip = self@.last_hash.unwrap();
        let ghost th = bm[tip].height as nat;
        let mut i: usize = 0;
        while i < blocks.len()
            invariant
                i <= blocks@.len(),
                hashes@.len() == i,
                forall|j: int|
                    0 <= j < blocks@.len() ==> (#[trigger] blocks@[j])@ == chain_at(
                        bm,
                        tip,
                        th,
                        (th - j) as nat,
                    ),
                forall|j: int|
                    0 <= j < i ==> (#[trigger] hashes@[j])@ == chain_at(bm, tip, th, (th - j) as nat).hash,
            decreases blocks@.len() - i,
        {
            hashes.push(clone_bytes(&blocks[i].hash));
            i = i + 1;
        }
        Ok(hashes)
    }

    /// On a `chain_sync_res` carrying block hashes: those not stored locally,
    /// to be requested from the sender, in the order they came.
    pub fn handle_chainsync_res(&self, block_hashes: &Vec<Vec<u8>>) -> (r: Vec<Vec<u8>>)
        requires
            self.wf(),
        ensures
            forall|j: int|
                0 <= j < r@.len() ==> !self.bmap().contains_key((#[trigger] r@[j])@),
            forall|k: int|
                0 <= k < block_hashes@.len() && !self.bmap().contains_key(
                    (#[trigger] block_hashes@[k])@,
                ) ==> crate::store::hash_listed(r@, block_hashes@[k]@),
    {
        let mut unknown: Vec<Vec<u8>> = Vec::new();
        let mut i: usize = 0;
        while i < block_hashes.len()
            invariant
                self.wf(),
                i <= block_hashes@.len(),
                forall|j: int|
                    0 <= j < unknown@.len() ==> !self.bmap().contains_key(
                        (#[trigger] unknown@[j])@,
                    ),
                forall|k: int|
                    0 <= k < i && !self.bmap().contains_key((#[trigger] block_hashes@[k])@)
                        ==> crate::store::hash_listed(unknown@, block_hashes@[k]@),
            decreases block_hashes@.len() - i,
        {
            let h = &block_hashes[i];
            if self.get_block(h).is_none() {
                let ghost prev = unknown@;
                let dup = clone_bytes(h);
                unknown.push(dup);
                proof {
                    assert(unknown@[unknown@.len() - 1]@ == block_hashes@[i as int]@);
                    assert forall|k: int|
                        0 <= k < i + 1 && !self.bmap().contains_key(
                            (#[trigger] block_hashes@[k])@,
                        ) implies crate::store::hash_listed(unknown@, block_hashes@[k]@) by {
                        if k < i {
                            let j0 = choose|j: int|
                                0 <= j < prev.len() && (#[trigger] prev[j])@ == block_hashes@[k]@;
                            assert(unknown@[j0]@ == block_hashes@[k]@);
                        } else {
                            assert(unknown@[unknown@.len() - 1]@ == block_hashes@[k]@);
                        }
                    }
                }
            } else {
                proof {
                    assert forall|k: int|
                        0 <= k < i + 1 && !self.bmap().contains_key(
                            (#[trigger] block_hashes@[k])@,
                        ) implies crate::store::hash_listed(unknown@, block_hashes@[k]@) by {
                        if k >= i {
                            assert(self.bmap().contains_key(block_hashes@[i as int]@));
                        }
                    }
                }
            }
            i = i + 1;
        }
        unknown
    }

    /// The height to publish with a `chain_sync_req`: the tip height, or zero
    /// with an empty chain. A recorded tip whose block is missing leaves the
    /// store unusable, so the chain is cleared, as a fresh node's would be.
    pub fn publish_chainsync_height(&mut self) -> (r: u32)
        requires
            old(self).wf(),
            node_chain_wf(&*old(self)),
        ensures
            final(self).wf(),
            node_chain_wf(&*final(self)),
            old(self)@.last_hash is Some && old(self).bmap().contains_key(
                old(self)@.last_hash.unwrap(),
            ) ==> final(self)@ == old(self)@ && r == old(self).bmap()[old(self)@.last_hash.unwrap()].height,
            !(old(self)@.last_hash is Some) ==> r == 0 && final(self)@ == old(self)@,
            old(self)@.last_hash is Some && !old(self).bmap().contains_key(
                old(self)@.last_hash.unwrap(),
            ) ==> r == 0 && final(self)@.last_hash is None && final(self)@.blocks.len() == 0
                && final(self)@.utxos.len() == 0 && final(self)@.orphans.len() == 0
                && final(self)@.mempool.len() == 0,
    {
        match self.get_last_block() {
            Ok(b) => b.height,
            Err(_) => {
                if self.blockchain_exists() {
                    self.clear_blockchain();
                }
                0
            },
        }
    }
}

} // verus!
