//! Chain-level logic: applying a block to the UTXO set, block-driven mempool
//! eviction, the main-chain linkage invariant, and the walks from tip to
//! genesis that rebuild the UTXO set, look transactions up, and serve chain
//! queries.

use vstd::prelude::*;

use crate::block::{Block, BlockV, block_wf, target_spec};
use crate::bytes::{clone_bytes, lex_lt, zero32};
use crate::errors::ChainError;
use crate::mempool::{listed_id, tx_refs, txs_view};
use crate::store::{NodeState, NodeStateV, blocks_map, lemma_bmap_index, blocks_wf};
use crate::tx::{TxInputV, TxOutputV, TxV, Tx, is_coinbase_v, tx_wf};
use crate::utxo::UtxoSet;

verus! {

/// The UTXO map after removing the outputs a list of inputs references.
pub open spec fn remove_tx_inputs(
    u: Map<(Seq<u8>, u32), TxOutputV>,
    inputs: Seq<TxInputV>,
) -> Map<(Seq<u8>, u32), TxOutputV>
    decreases inputs.len(),
{
    if inputs.len() == 0 {
        u
    } else {
        remove_tx_inputs(u, inputs.drop_last()).remove(
            (inputs.last().prev_tx_id, inputs.last().out),
        )
    }
}

/// The UTXO map after inserting a transaction's outputs under its id.
pub open spec fn add_tx_outputs(
    u: Map<(Seq<u8>, u32), TxOutputV>,
    id: Seq<u8>,
    outputs: Seq<TxOutputV>,
) -> Map<(Seq<u8>, u32), TxOutputV>
    decreases outputs.len(),
{
    if outputs.len() == 0 {
        u
    } else {
        add_tx_outputs(u, id, outputs.drop_last()).insert(
            (id, (outputs.len() - 1) as u32),
            outputs.last(),
        )
    }
}

/// Applying one transaction: delete what its inputs reference (a coinbase's
/// phantom input deletes nothing), then insert its outputs.
pub open spec fn apply_tx_utxo(u: Map<(Seq<u8>, u32), TxOutputV>, t: TxV) -> Map<
    (Seq<u8>, u32),
    TxOutputV,
> {
    if is_coinbase_v(t) {
        add_tx_outputs(u, t.id, t.outputs)
    } else {
        add_tx_outputs(remove_tx_inputs(u, t.inputs), t.id, t.outputs)
    }
}

/// Applying a block's transactions in order.
pub open spec fn apply_txs_utxo(u: Map<(Seq<u8>, u32), TxOutputV>, txs: Seq<TxV>) -> Map<
    (Seq<u8>, u32),
    TxOutputV,
>
    decreases txs.len(),
{
    if txs.len() == 0 {
        u
    } else {
        apply_tx_utxo(apply_txs_utxo(u, txs.drop_last()), txs.last())
    }
}

/// Applying a sequence of blocks in order.
pub open spec fn apply_chain_utxo(u: Map<(Seq<u8>, u32), TxOutputV>, blocks: Seq<BlockV>) -> Map<
    (Seq<u8>, u32),
    TxOutputV,
>
    decreases blocks.len(),
{
    if blocks.len() == 0 {
        u
    } else {
        apply_txs_utxo(apply_chain_utxo(u, blocks.drop_last()), blocks.last().txs)
    }
}

/// The main-chain linkage invariant from a hash at a height down to genesis:
/// every block is stored under its own hash at its own height; above genesis
/// the hash meets the proof-of-work target and the previous block sits one
/// height below; the genesis block's previous hash is all zeros.
pub open spec fn chain_ok(bm: Map<Seq<u8>, BlockV>, h: Seq<u8>, height: nat) -> bool
    decreases height,
{
    &&& bm.contains_key(h)
    &&& bm[h].hash == h
    &&& bm[h].height == height
    &&& (height > 0 ==> lex_lt(h, target_spec()) && chain_ok(
        bm,
        bm[h].prev_hash,
        (height - 1) as nat,
    ))
    &&& (height == 0 ==> bm[h].prev_hash == zero32())
}

/// Unfolds one step of the chain invariant.
pub proof fn lemma_chain_ok_unfold(bm: Map<Seq<u8>, BlockV>, h: Seq<u8>, height: nat)
    requires
        chain_ok(bm, h, height),
    ensures
        bm.contains_key(h),
        bm[h].hash == h,
        bm[h].height == height,
        height > 0 ==> lex_lt(h, target_spec()) && chain_ok(bm, bm[h].prev_hash, (height - 1) as nat),
        height == 0 ==> bm[h].prev_hash == zero32(),
{
}

/// The block at height `k` on the lineage from `h` (at `height`) down.
pub open spec fn chain_at(bm: Map<Seq<u8>, BlockV>, h: Seq<u8>, height: nat, k: nat) -> BlockV
    recommends
        k <= height,
    decreases height - k,
{
    if k >= height {
        bm[h]
    } else {
        chain_at(bm, bm[h].prev_hash, (height - 1) as nat, k)
    }
}

/// The whole node's chain invariant: if a tip is recorded, it is a stored
/// block whose lineage links all the way down.
pub open spec fn node_chain_wf(st: &NodeState) -> bool {
    match st@.last_hash {
        None => true,
        Some(h) => st.bmap().contains_key(h) && chain_ok(st.bmap(), h, st.bmap()[h].height as nat),
    }
}

/// Every block on the main chain above genesis carries the hash of the block
/// one height below as its previous hash, sits at its own height, and its
/// hash meets the proof-of-work target.
pub proof fn lemma_main_chain_linked(bm: Map<Seq<u8>, BlockV>, h: Seq<u8>, height: nat, k: nat)
    requires
        chain_ok(bm, h, height),
        0 < k <= height,
    ensures
        chain_at(bm, h, height, k).height == k,
        chain_at(bm, h, height, k).prev_hash == chain_at(bm, h, height, (k - 1) as nat).hash,
        lex_lt(chain_at(bm, h, height, k).hash, target_spec()),
        bm.contains_key(chain_at(bm, h, height, k).hash),
    decreases height - k,
{
    lemma_chain_at_ok(bm, h, height, k);
    lemma_chain_at_ok(bm, h, height, (k - 1) as nat);
    let b = chain_at(bm, h, height, k);
    lemma_chain_at_prev(bm, h, height, k);
}

/// The block at height `k` on a linked lineage satisfies the invariant.
pub proof fn lemma_chain_at_ok(bm: Map<Seq<u8>, BlockV>, h: Seq<u8>, height: nat, k: nat)
    requires
        chain_ok(bm, h, height),
        k <= height,
    ensures
        chain_ok(bm, chain_at(bm, h, height, k).hash, k),
        chain_at(bm, h, height, k) == bm[chain_at(bm, h, height, k).hash],
        chain_at(bm, h, height, k).height == k,
    decreases height - k,
{
    if k >= height {
    } else {
        lemma_chain_at_ok(bm, bm[h].prev_hash, (height - 1) as nat, k);
    }
}

/// The previous hash of the chain block at height `k` is the hash of the
/// chain block at height `k - 1`.
pub proof fn lemma_chain_at_prev(bm: Map<Seq<u8>, BlockV>, h: Seq<u8>, height: nat, k: nat)
    requires
        chain_ok(bm, h, height),
        0 < k <= height,
    ensures
        chain_at(bm, h, height, k).prev_hash == chain_at(bm, h, height, (k - 1) as nat).hash,
    decreases height - k,
{
    if k >= height {
        lemma_chain_at_ok(bm, bm[h].prev_hash, (height - 1) as nat, (k - 1) as nat);
    } else {
        lemma_chain_at_prev(bm, bm[h].prev_hash, (height - 1) as nat, k);
    }
}

/// Adding a block under a fresh hash preserves any chain linkage that held.
pub proof fn lemma_chain_ok_monotone(
    bm: Map<Seq<u8>, BlockV>,
    h: Seq<u8>,
    height: nat,
    nh: Seq<u8>,
    nb: BlockV,
)
    requires
        chain_ok(bm, h, height),
        !bm.contains_key(nh),
    ensures
        chain_ok(bm.insert(nh, nb), h, height),
    decreases height,
{
    if height > 0 {
        lemma_chain_ok_monotone(bm, bm[h].prev_hash, (height - 1) as nat, nh, nb);
    }
}

impl NodeState {
    /// Applies a block forward: for every transaction, delete the outputs its
    /// inputs reference (nothing for the coinbase's phantom input), then
    /// insert all its outputs keyed by the transaction's id.
    pub fn update_utxos(&mut self, block: &Block)
        requires
            old(self).wf(),
            block_wf(block@),
            forall|i: int| 0 <= i < block@.txs.len() ==> (#[trigger] block@.txs[i]).outputs.len()
                < 0x1_0000_0000,
        ensures
            final(self).wf(),
            final(self).umap() == apply_txs_utxo(old(self).umap(), block@.txs),
            final(self)@.blocks == old(self)@.blocks,
            final(self)@.mempool == old(self)@.mempool,
            final(self)@.orphans == old(self)@.orphans,
            final(self)@.last_hash == old(self)@.last_hash,
    {
        let ghost txs = block@.txs;
        let mut i: usize = 0;
        while i < block.txs.len()
            invariant
                self.wf(),
                txs == block@.txs,
                block_wf(block@),
                forall|q: int| 0 <= q < txs.len() ==> (#[trigger] txs[q]).outputs.len()
                    < 0x1_0000_0000,
                i <= block.txs@.len(),
                txs.len() == block.txs@.len(),
                self.umap() == apply_txs_utxo(old(self).umap(), txs.take(i as int)),
                self@.blocks == old(self)@.blocks,
                self@.mempool == old(self)@.mempool,
                self@.orphans == old(self)@.orphans,
                self@.last_hash == old(self)@.last_hash,
            decreases block.txs@.len() - i,
        {
            let tx = &block.txs[i];
            proof {
                assert(tx@ == txs[i as int]);
                assert(txs.take(i + 1).drop_last() =~= txs.take(i as int));
                assert(txs.take(i + 1).last() == txs[i as int]);
            }
            let ghost u_before_tx = self.umap();
            if !tx.is_coinbase() {
                let mut p: usize = 0;
                while p < tx.inputs.len()
                    invariant
                        self.wf(),
                        tx@ == txs[i as int],
                        tx_wf(tx@),
                        p <= tx.inputs@.len(),
                        tx@.inputs.len() == tx.inputs@.len(),
                        self.umap() == remove_tx_inputs(u_before_tx, tx@.inputs.take(p as int)),
                        self@.blocks == old(self)@.blocks,
                        self@.mempool == old(self)@.mempool,
                        self@.orphans == old(self)@.orphans,
                        self@.last_hash == old(self)@.last_hash,
                    decreases tx.inputs@.len() - p,
                {
                    let inp = &tx.inputs[p];
                    proof {
                        assert(inp@ == tx@.inputs[p as int]);
                        assert(tx@.inputs.take(p + 1).drop_last() =~= tx@.inputs.take(p as int));
                        assert(tx@.inputs.take(p + 1).last() == tx@.inputs[p as int]);
                    }
                    self.utxos.delete_utxo(&inp.prev_tx_id, inp.out);
                    p = p + 1;
                }
                proof {
                    assert(tx@.inputs.take(tx@.inputs.len() as int) =~= tx@.inputs);
                }
            }
            let ghost u_after_inputs = self.umap();
            proof {
                if is_coinbase_v(tx@) {
                    assert(u_after_inputs == u_before_tx);
                } else {
                    assert(u_after_inputs == remove_tx_inputs(u_before_tx, tx@.inputs));
                }
            }
            let mut k: usize = 0;
            while k < tx.outputs.len()
                invariant
                    self.wf(),
                    tx@ == txs[i as int],
                    tx_wf(tx@),
                    k <= tx.outputs@.len(),
                    tx@.outputs.len() == tx.outputs@.len(),
                    tx@.outputs.len() < 0x1_0000_0000,
                    self.umap() == add_tx_outputs(u_after_inputs, tx@.id, tx@.outputs.take(k as int)),
                    self@.blocks == old(self)@.blocks,
                    self@.mempool == old(self)@.mempool,
                    self@.orphans == old(self)@.orphans,
                    self@.last_hash == old(self)@.last_hash,
                decreases tx.outputs@.len() - k,
            {
                let o = tx.outputs[k].duplicate();
                proof {
                    assert(o@ == tx@.outputs[k as int]);
                    assert(tx@.outputs.take(k + 1).drop_last() =~= tx@.outputs.take(k as int));
                    assert(tx@.outputs.take(k + 1).last() == tx@.outputs[k as int]);
                    assert(tx@.outputs.take(k + 1).len() - 1 == k as int);
                }
                self.utxos.put_utxo(&tx.id, k as u32, o);
                k = k + 1;
            }
            proof {
                assert(tx@.outputs.take(tx@.outputs.len() as int) =~= tx@.outputs);
                assert(self.umap() == apply_tx_utxo(u_before_tx, txs[i as int]));
            }
            i = i + 1;
        }
        proof {
            assert(txs.take(txs.len() as int) =~= txs);
        }
    }

    /// Evicts from the mempool every transaction that shares an input
    /// reference with a non-coinbase transaction of the block: both the mined
    /// transaction itself and any conflicting double spend go.
    pub fn update_mempool(&mut self, block: &Block)
        requires
            old(self).wf(),
        ensures
            final(self).wf(),
            forall|j: int|
                0 <= j < final(self)@.mempool.len() ==> old(self)@.mempool.contains(
                    #[trigger] final(self)@.mempool[j],
                ),
            forall|j: int|
                0 <= j < final(self)@.mempool.len() ==> !shares_input_with_block(
                    #[trigger] final(self)@.mempool[j],
                    block@,
                ),
            forall|m: int|
                0 <= m < old(self)@.mempool.len() && !shares_input_with_block(
                    #[trigger] old(self)@.mempool[m],
                    block@,
                ) ==> final(self)@.mempool.contains(old(self)@.mempool[m]),
            final(self)@.blocks == old(self)@.blocks,
            final(self)@.utxos == old(self)@.utxos,
            final(self)@.orphans == old(self)@.orphans,
            final(self)@.last_hash == old(self)@.last_hash,
    {
        // Collect the ids of mempool transactions that share an input
        // reference with a non-coinbase block transaction.
        let mut ids: Vec<Vec<u8>> = Vec::new();
        let mut m: usize = 0;
        while m < self.mempool.len()
            invariant
                self.wf(),
                self@ == old(self)@,
                m <= self@.mempool.len(),
                forall|k: int|
                    0 <= k < ids@.len() ==> id_from_sharing_mempool(
                        self@.mempool,
                        block@,
                        (#[trigger] ids@[k])@,
                    ),
                forall|j: int|
                    0 <= j < m && shares_input_with_block(#[trigger] self@.mempool[j], block@)
                        ==> listed_id(ids@, self@.mempool[j]),
            decreases self@.mempool.len() - m,
        {
            let mtx = self.mempool.tx_at(m);
            if shares_exec(mtx, block) {
                let ghost prev = ids@;
                let id = clone_bytes(&mtx.id);
                ids.push(id);
                proof {
                    assert(ids@[ids@.len() - 1]@ == self@.mempool[m as int].id);
                    assert forall|k: int| 0 <= k < ids@.len() implies id_from_sharing_mempool(
                        self@.mempool,
                        block@,
                        (#[trigger] ids@[k])@,
                    ) by {
                        if k < ids@.len() - 1 {
                            assert(ids@[k] == prev[k]);
                            assert(id_from_sharing_mempool(self@.mempool, block@, prev[k]@));
                        } else {
                            assert(ids@[k]@ == self@.mempool[m as int].id);
                            assert(shares_input_with_block(self@.mempool[m as int], block@));
                        }
                    }
                    assert forall|j: int|
                        0 <= j < m + 1 && shares_input_with_block(
                            #[trigger] self@.mempool[j],
                            block@,
                        ) implies listed_id(ids@, self@.mempool[j]) by {
                        if j < m {
                            let k0 = choose|k: int|
                                0 <= k < prev.len() && (#[trigger] prev[k])@ == self@.mempool[j].id;
                            assert(ids@[k0] == prev[k0]);
                        } else {
                            assert(ids@[ids@.len() - 1]@ == self@.mempool[j].id);
                        }
                    }
                }
            } else {
                proof {
                    assert forall|j: int|
                        0 <= j < m + 1 && shares_input_with_block(
                            #[trigger] self@.mempool[j],
                            block@,
                        ) implies listed_id(ids@, self@.mempool[j]) by {}
                }
            }
            m = m + 1;
        }
        let ghost pre = self@;
        self.mempool.remove_txs_from_mempool(&ids);
        proof {
            assert forall|j: int|
                0 <= j < self@.mempool.len() implies !shares_input_with_block(
                #[trigger] self@.mempool[j],
                block@,
            ) by {
                assert(pre.mempool.contains(self@.mempool[j]));
                let j0 = choose|q: int|
                    0 <= q < pre.mempool.len() && pre.mempool[q] == self@.mempool[j];
                if shares_input_with_block(self@.mempool[j], block@) {
                    assert(listed_id(ids@, pre.mempool[j0]));
                    assert(!listed_id(ids@, self@.mempool[j]));
                }
            }
            assert forall|q: int|
                0 <= q < pre.mempool.len() && !shares_input_with_block(
                    #[trigger] pre.mempool[q],
                    block@,
                ) implies self@.mempool.contains(pre.mempool[q]) by {
                if listed_id(ids@, pre.mempool[q]) {
                    let k0 = choose|k: int|
                        0 <= k < ids@.len() && (#[trigger] ids@[k])@ == pre.mempool[q].id;
                    assert(id_from_sharing_mempool(pre.mempool, block@, ids@[k0]@));
                    let j0 = choose|j: int|
                        0 <= j < pre.mempool.len() && (#[trigger] pre.mempool[j]).id == ids@[k0]@
                            && shares_input_with_block(pre.mempool[j], block@);
                    assert(pre.mempool[j0].id == pre.mempool[q].id);
                    assert(j0 == q);
                    assert(false);
                }
            }
        }
    }
}

/// Whether some mempool transaction has this id and shares an input
/// reference with the block.
pub open spec fn id_from_sharing_mempool(mem: Seq<TxV>, b: BlockV, id: Seq<u8>) -> bool {
    exists|j: int|
        0 <= j < mem.len() && (#[trigger] mem[j]).id == id && shares_input_with_block(mem[j], b)
}

/// Whether a transaction shares an input reference with some non-coinbase
/// transaction of the block.
pub open spec fn shares_input_with_block(t: TxV, b: BlockV) -> bool {
    exists|i: int, p: int|
        0 <= i < b.txs.len() && !is_coinbase_v(b.txs[i]) && 0 <= p < b.txs[i].inputs.len()
            && tx_refs(t, (#[trigger] b.txs[i].inputs[p]).prev_tx_id, b.txs[i].inputs[p].out)
}

/// Decides `shares_input_with_block`.
fn shares_exec(t: &Tx, block: &Block) -> (r: bool)
    ensures
        r == shares_input_with_block(t@, block@),
{
    let mut i: usize = 0;
    while i < block.txs.len()
        invariant
            i <= block.txs@.len(),
            block@.txs.len() == block.txs@.len(),
            forall|q: int, p: int|
                0 <= q < i && !is_coinbase_v(block@.txs[q]) && 0 <= p < block@.txs[q].inputs.len()
                    ==> !tx_refs(
                    t@,
                    (#[trigger] block@.txs[q].inputs[p]).prev_tx_id,
                    block@.txs[q].inputs[p].out,
                ),
        decreases block.txs@.len() - i,
    {
        let btx = &block.txs[i];
        proof {
            assert(btx@ == block@.txs[i as int]);
        }
        if !btx.is_coinbase() {
            let mut p: usize = 0;
            while p < btx.inputs.len()
                invariant
                    i < block.txs@.len(),
                    block@.txs.len() == block.txs@.len(),
                    btx@ == block@.txs[i as int],
                    !is_coinbase_v(btx@),
                    p <= btx.inputs@.len(),
                    btx@.inputs.len() == btx.inputs@.len(),
                    forall|q: int|
                        0 <= q < p ==> !tx_refs(
                            t@,
                            (#[trigger] btx@.inputs[q]).prev_tx_id,
                            btx@.inputs[q].out,
                        ),
                decreases btx.inputs@.len() - p,
            {
                let inp = &btx.inputs[p];
                proof {
                    assert(inp@ == btx@.inputs[p as int]);
                }
                let mut q: usize = 0;
                let mut found = false;
                while q < t.inputs.len()
                    invariant
                        t@.inputs.len() == t.inputs@.len(),
                        q <= t.inputs@.len(),
                        found == exists|w: int|
                            0 <= w < q && (#[trigger] t@.inputs[w]).prev_tx_id == inp@.prev_tx_id
                                && t@.inputs[w].out == inp@.out,
                    decreases t.inputs@.len() - q,
                {
                    let ti = &t.inputs[q];
                    if ti.out == inp.out && crate::bytes::bytes_eq(&ti.prev_tx_id, &inp.prev_tx_id) {
                        proof {
                            assert(t@.inputs[q as int].prev_tx_id == inp@.prev_tx_id);
                        }
                        found = true;
                    }
                    q = q + 1;
                }
                if found {
                    proof {
                        assert(tx_refs(t@, btx@.inputs[p as int].prev_tx_id, btx@.inputs[p as int].out));
                        assert(shares_input_with_block(t@, block@));
                    }
                    return true;
                }
                proof {
                    assert(!tx_refs(t@, btx@.inputs[p as int].prev_tx_id, btx@.inputs[p as int].out));
                }
                p = p + 1;
            }
        }
        i = i + 1;
    }
    proof {
        if shares_input_with_block(t@, block@) {
            let (i0, p0) = choose|i0: int, p0: int|
                0 <= i0 < block@.txs.len() && !is_coinbase_v(block@.txs[i0]) && 0 <= p0
                    < block@.txs[i0].inputs.len() && tx_refs(
                    t@,
                    (#[trigger] block@.txs[i0].inputs[p0]).prev_tx_id,
                    block@.txs[i0].inputs[p0].out,
                );
            assert(false);
        }
    }
    false
}


/// Whether some pooled orphan sits directly on the current tip.
pub open spec fn orphan_on_tip(st: NodeStateV) -> bool {
    exists|j: int|
        0 <= j < st.orphans.len() && st.last_hash is Some && (#[trigger] st.orphans[j]).prev_hash
            == st.last_hash.unwrap()
}


/// A spent-output reference recorded during the rebuild walk.
pub open spec fn spent_contains(sp: Seq<(Seq<u8>, u32)>, key: (Seq<u8>, u32)) -> bool {
    exists|i: int| 0 <= i < sp.len() && sp[i] == key
}

/// Emits a transaction's outputs into the map being rebuilt: ascending by
/// index, each key on first sight only, and never one already recorded as
/// spent by a higher block or an earlier transaction.
pub open spec fn emit_tx_outputs(
    m: Map<(Seq<u8>, u32), TxOutputV>,
    sp: Seq<(Seq<u8>, u32)>,
    id: Seq<u8>,
    outs: Seq<TxOutputV>,
) -> Map<(Seq<u8>, u32), TxOutputV>
    decreases outs.len(),
{
    if outs.len() == 0 {
        m
    } else {
        let m1 = emit_tx_outputs(m, sp, id, outs.drop_last());
        let key = (id, (outs.len() - 1) as u32);
        if spent_contains(sp, key) || m1.contains_key(key) {
            m1
        } else {
            m1.insert(key, outs.last())
        }
    }
}

/// The spent references after a transaction: a coinbase records nothing;
/// anything else records every input's reference, in input order.
pub open spec fn spend_tx_inputs(sp: Seq<(Seq<u8>, u32)>, t: TxV) -> Seq<(Seq<u8>, u32)> {
    if is_coinbase_v(t) {
        sp
    } else {
        sp + Seq::new(t.inputs.len(), |p: int| (t.inputs[p].prev_tx_id, t.inputs[p].out))
    }
}

/// Walks one block's transactions in order: emit each transaction's unspent
/// outputs, then record what it spends.
pub open spec fn walk_txs(
    m: Map<(Seq<u8>, u32), TxOutputV>,
    sp: Seq<(Seq<u8>, u32)>,
    txs: Seq<TxV>,
) -> (Map<(Seq<u8>, u32), TxOutputV>, Seq<(Seq<u8>, u32)>)
    decreases txs.len(),
{
    if txs.len() == 0 {
        (m, sp)
    } else {
        let (m1, s1) = walk_txs(m, sp, txs.drop_last());
        (emit_tx_outputs(m1, s1, txs.last().id, txs.last().outputs), spend_tx_inputs(s1, txs.last()))
    }
}

/// The UTXO rebuild walk from a block down to genesis: the map and spent
/// references threaded through every block, tip first.
pub open spec fn walk_chain(
    bm: Map<Seq<u8>, BlockV>,
    h: Seq<u8>,
    height: nat,
    m: Map<(Seq<u8>, u32), TxOutputV>,
    sp: Seq<(Seq<u8>, u32)>,
) -> (Map<(Seq<u8>, u32), TxOutputV>, Seq<(Seq<u8>, u32)>)
    decreases height,
{
    let (m1, s1) = walk_txs(m, sp, bm[h].txs);
    if height == 0 {
        (m1, s1)
    } else {
        walk_chain(bm, bm[h].prev_hash, (height - 1) as nat, m1, s1)
    }
}

/// The UTXO set the chain denotes: the rebuild walk from the tip with an
/// empty map and nothing spent.
pub open spec fn chain_utxos(bm: Map<Seq<u8>, BlockV>, tip: Seq<u8>, th: nat) -> Map<
    (Seq<u8>, u32),
    TxOutputV,
> {
    walk_chain(bm, tip, th, Map::empty(), Seq::empty()).0
}

/// The ghost image of the recorded spent references.
pub open spec fn spent_view(s: Seq<(Vec<u8>, u32)>) -> Seq<(Seq<u8>, u32)> {
    Seq::new(s.len(), |i: int| (s[i].0@, s[i].1))
}

/// A stored block looked up by hash is well-formed and stored under its own
/// hash.
pub proof fn lemma_bmap_wf(s: Seq<BlockV>, h: Seq<u8>)
    requires
        blocks_wf(s),
        blocks_map(s).contains_key(h),
    ensures
        block_wf(blocks_map(s)[h]),
        blocks_map(s)[h].hash == h,
{
    crate::store::lemma_bmap_domain(s, h);
    let i = choose|i: int| 0 <= i < s.len() && (#[trigger] s[i]).hash == h;
    lemma_bmap_index(s, i);
}

/// The first transaction with the given id among a block's transactions.
pub open spec fn first_tx_with_id(txs: Seq<TxV>, id: Seq<u8>) -> Option<TxV>
    decreases txs.len(),
{
    if txs.len() == 0 {
        None
    } else if txs[0].id == id {
        Some(txs[0])
    } else {
        first_tx_with_id(txs.skip(1), id)
    }
}

/// The transaction a walk from the tip finds: the first match in the highest
/// block that holds one.
pub open spec fn chain_tx_lookup(
    bm: Map<Seq<u8>, BlockV>,
    h: Seq<u8>,
    height: nat,
    id: Seq<u8>,
) -> Option<TxV>
    decreases height,
{
    if first_tx_with_id(bm[h].txs, id) is Some {
        first_tx_with_id(bm[h].txs, id)
    } else if height == 0 {
        None
    } else {
        chain_tx_lookup(bm, bm[h].prev_hash, (height - 1) as nat, id)
    }
}

/// A transaction found in any block of the lineage is found by the walk from
/// the top.
pub proof fn lemma_lookup_from_above(
    bm: Map<Seq<u8>, BlockV>,
    h: Seq<u8>,
    height: nat,
    k: nat,
    id: Seq<u8>,
)
    requires
        chain_ok(bm, h, height),
        k <= height,
        first_tx_with_id(chain_at(bm, h, height, k).txs, id) is Some,
    ensures
        chain_tx_lookup(bm, h, height, id) is Some,
    decreases height - k,
{
    if k >= height {
    } else {
        if first_tx_with_id(bm[h].txs, id) is Some {
        } else {
            lemma_lookup_from_above(bm, bm[h].prev_hash, (height - 1) as nat, k, id);
        }
    }
}

/// Finds the first transaction with the given id in a slice of transactions.
fn find_tx_in_block(block: &Block, tx_id: &Vec<u8>) -> (r: Option<Tx>)
    ensures
        r is Some <==> first_tx_with_id(block@.txs, tx_id@) is Some,
        r is Some ==> r.unwrap()@ == first_tx_with_id(block@.txs, tx_id@).unwrap(),
{
    let ghost txs = block@.txs;
    proof {
        assert(txs.skip(0) =~= txs);
    }
    let mut j: usize = 0;
    while j < block.txs.len()
        invariant
            j <= block.txs@.len(),
            txs == block@.txs,
            txs.len() == block.txs@.len(),
            first_tx_with_id(txs, tx_id@) == first_tx_with_id(txs.skip(j as int), tx_id@),
        decreases block.txs@.len() - j,
    {
        proof {
            assert(txs.skip(j as int)[0] == txs[j as int]);
            assert(txs.skip(j as int).skip(1) =~= txs.skip(j + 1));
        }
        if crate::bytes::bytes_eq(&block.txs[j].id, tx_id) {
            proof {
                assert(txs[j as int].id == tx_id@);
            }
            return Some(block.txs[j].duplicate());
        }
        j = j + 1;
    }
    proof {
        assert(txs.skip(txs.len() as int).len() == 0);
    }
    None
}

impl NodeState {
    /// The block at the tip; `StoreError` when there is no chain or the tip
    /// block is missing.
    pub fn get_last_block(&self) -> (r: Result<Block, ChainError>)
        requires
            self.wf(),
        ensures
            r is Ok <==> self@.last_hash is Some && self.bmap().contains_key(
                self@.last_hash.unwrap(),
            ),
            r is Ok ==> r.unwrap()@ == self.bmap()[self@.last_hash.unwrap()],
            r is Err ==> r.unwrap_err() == ChainError::StoreError,
    {
        let lh = match self.get_last_hash() {
            Ok(h) => h,
            Err(e) => {
                return Err(e);
            },
        };
        match self.get_block(&lh) {
            Some(b) => Ok(b.duplicate()),
            None => Err(ChainError::StoreError),
        }
    }

    /// The height of the tip block.
    pub fn get_chain_height(&self) -> (r: Result<u32, ChainError>)
        requires
            self.wf(),
        ensures
            r is Ok <==> self@.last_hash is Some && self.bmap().contains_key(
                self@.last_hash.unwrap(),
            ),
            r is Ok ==> r.unwrap() == self.bmap()[self@.last_hash.unwrap()].height,
            r is Err ==> r.unwrap_err() == ChainError::StoreError,
    {
        match self.get_last_block() {
            Ok(b) => Ok(b.height),
            Err(e) => Err(e),
        }
    }

    /// Initializes the blockchain: mines a genesis block whose single
    /// coinbase pays `addr`, stores it, points the tip at it, and applies its
    /// outputs to the UTXO set. Must not be called when a chain exists.
    pub fn create_blockchain(
        &mut self,
        addr: &crate::address::Address,
        timestamp: u64,
    ) -> (r: Result<(), ChainError>)
        requires
            old(self).wf(),
            !(old(self)@.last_hash is Some),
            addr@.pub_key_hash.len() == 20,
        ensures
            final(self).wf(),
            node_chain_wf(&*final(self)),
            r is Ok ==> {
                &&& final(self)@.last_hash is Some
                &&& final(self).bmap().contains_key(final(self)@.last_hash.unwrap())
                &&& {
                    let g = final(self).bmap()[final(self)@.last_hash.unwrap()];
                    &&& g.height == 0
                    &&& g.txs.len() == 1
                    &&& is_coinbase_v(g.txs[0])
                    &&& g.txs[0].outputs.len() == 1
                    &&& g.txs[0].outputs[0].value == crate::tx::COINBASE_REWARD
                    &&& g.txs[0].outputs[0].pub_key_hash == addr@.pub_key_hash
                    &&& g.hash == crate::block::block_hash_of(g)
                    &&& crate::bytes::lex_lt(g.hash, target_spec())
                    &&& final(self).umap() == apply_txs_utxo(old(self).umap(), g.txs)
                }
            },
            r is Err ==> final(self)@ == old(self)@,
    {
        let mut genesis_block = crate::block::Block::genesis(addr, timestamp);
        match genesis_block.mine() {
            Ok(_) => {},
            Err(_) => {
                return Err(ChainError::StaleBlock);
            },
        }
        let ghost gv = genesis_block@;
        let dup = genesis_block.duplicate();
        proof {
            crate::store::lemma_bmap_domain(self@.blocks, gv.hash);
            if self.bmap().contains_key(gv.hash) {
                let i = choose|i: int|
                    0 <= i < self@.blocks.len() && (#[trigger] self@.blocks[i]).hash == gv.hash;
            }
        }
        if self.get_block(&genesis_block.hash).is_some() {
            // A block under this hash is already stored without a tip; treat
            // the store as unusable rather than overwrite it.
            return Err(ChainError::StoreError);
        }
        self.put_block(dup);
        self.put_last_hash(&genesis_block.hash);
        self.update_utxos(&genesis_block);
        proof {
            let bm = self.bmap();
            assert(bm.contains_key(gv.hash));
            assert(bm[gv.hash] == gv);
            assert(chain_ok(bm, gv.hash, 0));
        }
        Ok(())
    }

    /// Clears the chain: blocks, UTXOs, orphans, mempool and tip all go.
    pub fn clear_blockchain(&mut self)
        requires
            old(self).wf(),
        ensures
            final(self).wf(),
            node_chain_wf(&*final(self)),
            final(self)@.blocks.len() == 0,
            final(self)@.utxos.len() == 0,
            final(self)@.orphans.len() == 0,
            final(self)@.mempool.len() == 0,
            final(self)@.last_hash is None,
    {
        self.delete_all_blocks();
        self.delete_all_utxos();
        self.delete_all_orphan_blocks();
        self.delete_mempool();
        self.delete_last_hash();
    }

    /// Walks the chain from the tip looking for a transaction by id;
    /// `UnknownInput` when no block of the lineage holds it.
    pub fn get_tx_from_chain(&self, tx_id: &Vec<u8>) -> (r: Result<Tx, ChainError>)
        requires
            self.wf(),
            node_chain_wf(self),
            self@.last_hash is Some,
        ensures
            r is Ok <==> chain_tx_lookup(
                self.bmap(),
                self@.last_hash.unwrap(),
                self.bmap()[self@.last_hash.unwrap()].height as nat,
                tx_id@,
            ) is Some,
            r is Ok ==> r.unwrap()@ == chain_tx_lookup(
                self.bmap(),
                self@.last_hash.unwrap(),
                self.bmap()[self@.last_hash.unwrap()].height as nat,
                tx_id@,
            ).unwrap(),
            r is Err ==> r.unwrap_err() == ChainError::UnknownInput,
    {
        let ghost bm = self.bmap();
        let ghost tip = self@.last_hash.unwrap();
        let ghost tip_height = bm[tip].height as nat;
        let lh = match self.get_last_hash() {
            Ok(h) => h,
            Err(_) => {
                proof {
                    assert(false);
                }
                return Err(ChainError::UnknownInput);
            },
        };
        let mut current_block = match self.get_block(&lh) {
            Some(b) => b.duplicate(),
            None => {
                proof {
                    assert(false);
                }
                return Err(ChainError::UnknownInput);
            },
        };
        loop
            invariant
                self.wf(),
                bm == self.bmap(),
                tip == self@.last_hash.unwrap(),
                tip_height == bm[tip].height as nat,
                chain_ok(bm, tip, tip_height),
                chain_ok(bm, current_block@.hash, current_block@.height as nat),
                current_block@ == bm[current_block@.hash],
                chain_tx_lookup(bm, tip, tip_height, tx_id@) == chain_tx_lookup(
                    bm,
                    current_block@.hash,
                    current_block@.height as nat,
                    tx_id@,
                ),
            decreases current_block@.height,
        {
            proof {
                lemma_chain_ok_unfold(bm, current_block@.hash, current_block@.height as nat);
            }
            match find_tx_in_block(&current_block, tx_id) {
                Some(t) => {
                    return Ok(t);
                },
                None => {},
            }
            if current_block.is_genesis() {
                return Err(ChainError::UnknownInput);
            }
            proof {
                assert(current_block@.height > 0) by {
                    if current_block@.height == 0 {
                        assert(bm[current_block@.hash].prev_hash == crate::bytes::zero32());
                    }
                }
                lemma_chain_ok_unfold(bm, bm[current_block@.hash].prev_hash,
                    (current_block@.height - 1) as nat);
            }
            let prev = match self.get_block(&current_block.prev_hash) {
                Some(b) => b.duplicate(),
                None => {
                    proof {
                        assert(false);
                    }
                    return Err(ChainError::UnknownInput);
                },
            };
            current_block = prev;
        }
    }

    /// The blocks from the tip down to, but not including, the block at the
    /// requested height; with a requested height of zero, down to and
    /// including genesis.
    pub fn get_blocks_since_height(&self, height: u32) -> (r: Result<Vec<Block>, ChainError>)
        requires
            self.wf(),
            node_chain_wf(self),
        ensures
            r is Ok <==> self@.last_hash is Some,
            r is Err ==> r.unwrap_err() == ChainError::StoreError,
            r is Ok ==> {
                let bm = self.bmap();
                let tip = self@.last_hash.unwrap();
                let th = bm[tip].height as nat;
                forall|j: int|
                    0 <= j < r.unwrap()@.len() ==> (#[trigger] r.unwrap()@[j])@ == chain_at(
                        bm,
                        tip,
                        th,
                        (th - j) as nat,
                    )
            },
            r is Ok ==> r->Ok_0@.len() == {
                let th = self.bmap()[self@.last_hash.unwrap()].height;
                if height == 0 {
                    th + 1
                } else if height <= th {
                    (th - height) as int
                } else {
                    0
                }
            },
    {
        let ghost bm = self.bmap();
        let mut current_block = match self.get_last_block() {
            Ok(b) => b,
            Err(_) => {
                return Err(ChainError::StoreError);
            },
        };
        let ghost tip = self@.last_hash.unwrap();
        let ghost th = bm[tip].height as nat;
        let mut res: Vec<Block> = Vec::new();
        loop
            invariant
                self.wf(),
                bm == self.bmap(),
                tip == self@.last_hash.unwrap(),
                self@.last_hash is Some,
                th == bm[tip].height as nat,
                chain_ok(bm, tip, th),
                chain_ok(bm, current_block@.hash, current_block@.height as nat),
                current_block@ == chain_at(bm, tip, th, current_block@.height as nat),
                res@.len() == th - current_block@.height,
                height != 0 && res@.len() > 0 ==> height <= current_block@.height,
                res@.len() == 0 ==> current_block@.height == th,
                forall|j: int|
                    0 <= j < res@.len() ==> (#[trigger] res@[j])@ == chain_at(
                        bm,
                        tip,
                        th,
                        (th - j) as nat,
                    ),
            decreases current_block@.height + 1,
        {
            if !(height < current_block.height || height == 0) {
                proof {
                    if res@.len() > 0 {
                        assert(height == current_block@.height);
                    }
                }
                return Ok(res);
            }
            let dup = current_block.duplicate();
            res.push(dup);
            let was_genesis = current_block.is_genesis();
            proof {
                assert(res@[res@.len() - 1]@ == chain_at(bm, tip, th, current_block@.height as nat));
            }
            if was_genesis {
                proof {
                    assert(height == 0);
                }
                return Ok(res);
            }
            proof {
                lemma_chain_at_ok(bm, tip, th, current_block@.height as nat);
                assert(current_block@ == bm[current_block@.hash]);
                lemma_chain_ok_unfold(bm, current_block@.hash, current_block@.height as nat);
                assert(current_block@.height > 0) by {
                    if current_block@.height == 0 {
                        assert(bm[current_block@.hash].prev_hash == crate::bytes::zero32());
                    }
                }
                lemma_chain_ok_unfold(bm, bm[current_block@.hash].prev_hash,
                    (current_block@.height - 1) as nat);
                crate::chain::lemma_chain_at_step(bm, tip, th, current_block@.height as nat);
                lemma_chain_at_ok(bm, tip, th, (current_block@.height - 1) as nat);
            }
            let prev = match self.get_block(&current_block.prev_hash) {
                Some(b) => b.duplicate(),
                None => {
                    proof {
                        assert(false);
                    }
                    return Err(ChainError::StoreError);
                },
            };
            current_block = prev;
        }
    }
}

/// Stepping down one block: the chain block below `k` is reached through the
/// previous hash of the chain block at `k`.
pub proof fn lemma_chain_at_step(bm: Map<Seq<u8>, BlockV>, h: Seq<u8>, height: nat, k: nat)
    requires
        chain_ok(bm, h, height),
        0 < k <= height,
    ensures
        chain_at(bm, h, height, (k - 1) as nat) == bm[chain_at(bm, h, height, k).prev_hash],
{
    lemma_chain_at_prev(bm, h, height, k);
    lemma_chain_at_ok(bm, h, height, (k - 1) as nat);
}


impl NodeState {
    /// Rebuilds the UTXO set by walking the chain from the tip: a transaction
    /// output is emitted on first sight unless a higher block or an earlier
    /// transaction already spent it. The result is exactly the walk's map,
    /// and every key of it is produced by a transaction on the main chain.
    pub fn get_utxos_from_chain(&self) -> (r: Result<UtxoSet, ChainError>)
        requires
            self.wf(),
            node_chain_wf(self),
        ensures
            r is Ok <==> self@.last_hash is Some,
            r is Err ==> r->Err_0 == ChainError::StoreError,
            r is Ok ==> r->Ok_0.wf(),
            r is Ok ==> r->Ok_0.umap() == chain_utxos(
                self.bmap(),
                self@.last_hash.unwrap(),
                self.bmap()[self@.last_hash.unwrap()].height as nat,
            ),
            r is Ok ==> forall|k: (Seq<u8>, u32)|
                #[trigger] r->Ok_0.umap().contains_key(k) ==> chain_tx_lookup(
                    self.bmap(),
                    self@.last_hash.unwrap(),
                    self.bmap()[self@.last_hash.unwrap()].height as nat,
                    k.0,
                ) is Some,
    {
        let ghost bm = self.bmap();
        let mut current_block = match self.get_last_block() {
            Ok(b) => b,
            Err(_) => {
                return Err(ChainError::StoreError);
            },
        };
        let ghost tip = self@.last_hash.unwrap();
        let ghost th = bm[tip].height as nat;
        let mut utxo_map = UtxoSet::new();
        // Spent references seen so far, walking down from the tip.
        let mut spent: Vec<(Vec<u8>, u32)> = Vec::new();
        proof {
            assert(spent_view(spent@) =~= Seq::<(Seq<u8>, u32)>::empty());
        }
        loop
            invariant
                self.wf(),
                bm == self.bmap(),
                tip == self@.last_hash.unwrap(),
                self@.last_hash is Some,
                th == bm[tip].height as nat,
                chain_ok(bm, tip, th),
                chain_ok(bm, current_block@.hash, current_block@.height as nat),
                current_block@ == chain_at(bm, tip, th, current_block@.height as nat),
                utxo_map.wf(),
                walk_chain(bm, tip, th, Map::empty(), Seq::empty()) == walk_chain(
                    bm,
                    current_block@.hash,
                    current_block@.height as nat,
                    utxo_map.umap(),
                    spent_view(spent@),
                ),
                forall|k: (Seq<u8>, u32)|
                    #[trigger] utxo_map.umap().contains_key(k) ==> chain_tx_lookup(
                        bm,
                        tip,
                        th,
                        k.0,
                    ) is Some,
            decreases current_block@.height + 1,
        {
            proof {
                lemma_chain_at_ok(bm, tip, th, current_block@.height as nat);
                assert(current_block@ == bm[current_block@.hash]);
                lemma_chain_ok_unfold(bm, current_block@.hash, current_block@.height as nat);
                lemma_bmap_wf(self@.blocks, current_block@.hash);
                assert(crate::block::block_wf(current_block@));
            }
            let ghost m_blk = utxo_map.umap();
            let ghost s_blk = spent_view(spent@);
            let ghost blk_txs = current_block@.txs;
            let mut t: usize = 0;
            while t < current_block.txs.len()
                invariant
                    self.wf(),
                    bm == self.bmap(),
                    tip == self@.last_hash.unwrap(),
                    th == bm[tip].height as nat,
                    chain_ok(bm, tip, th),
                    chain_ok(bm, current_block@.hash, current_block@.height as nat),
                    current_block@ == chain_at(bm, tip, th, current_block@.height as nat),
                    crate::block::block_wf(current_block@),
                    blk_txs == current_block@.txs,
                    t <= current_block.txs@.len(),
                    blk_txs.len() == current_block.txs@.len(),
                    utxo_map.wf(),
                    utxo_map.umap() == walk_txs(m_blk, s_blk, blk_txs.take(t as int)).0,
                    spent_view(spent@) == walk_txs(m_blk, s_blk, blk_txs.take(t as int)).1,
                    forall|k: (Seq<u8>, u32)|
                        #[trigger] utxo_map.umap().contains_key(k) ==> chain_tx_lookup(
                            bm,
                            tip,
                            th,
                            k.0,
                        ) is Some,
                decreases current_block.txs@.len() - t,
            {
                let tx = &current_block.txs[t];
                proof {
                    assert(tx@ == blk_txs[t as int]);
                    assert(tx_wf(tx@));
                    assert(blk_txs.take(t + 1).drop_last() =~= blk_txs.take(t as int));
                    assert(blk_txs.take(t + 1).last() == blk_txs[t as int]);
                }
                let ghost m_tx = utxo_map.umap();
                let ghost s_tx = spent_view(spent@);
                let txid_here = clone_bytes(&tx.id);
                let mut k: usize = 0;
                while k < tx.outputs.len()
                    invariant
                        self.wf(),
                        bm == self.bmap(),
                        tip == self@.last_hash.unwrap(),
                        th == bm[tip].height as nat,
                        chain_ok(bm, tip, th),
                        chain_ok(bm, current_block@.hash, current_block@.height as nat),
                        current_block@ == chain_at(bm, tip, th, current_block@.height as nat),
                        t < current_block.txs@.len(),
                        blk_txs == current_block@.txs,
                        tx@ == blk_txs[t as int],
                        tx_wf(tx@),
                        txid_here@ == tx@.id,
                        k <= tx.outputs@.len(),
                        tx@.outputs.len() == tx.outputs@.len(),
                        utxo_map.wf(),
                        spent_view(spent@) == s_tx,
                        utxo_map.umap() == emit_tx_outputs(
                            m_tx,
                            s_tx,
                            tx@.id,
                            tx@.outputs.take(k as int),
                        ),
                        forall|q: (Seq<u8>, u32)|
                            #[trigger] utxo_map.umap().contains_key(q) ==> chain_tx_lookup(
                                bm,
                                tip,
                                th,
                                q.0,
                            ) is Some,
                    decreases tx.outputs@.len() - k,
                {
                    proof {
                        assert(tx@.outputs.take(k + 1).drop_last() =~= tx@.outputs.take(k as int));
                        assert(tx@.outputs.take(k + 1).last() == tx@.outputs[k as int]);
                        assert(tx@.outputs.take(k + 1).len() - 1 == k as int);
                    }
                    let mut already_spent = false;
                    let mut si: usize = 0;
                    while si < spent.len()
                        invariant
                            si <= spent@.len(),
                            txid_here@ == tx@.id,
                            spent_view(spent@) == s_tx,
                            already_spent == exists|w: int|
                                0 <= w < si && s_tx[w] == (tx@.id, k as u32),
                        decreases spent@.len() - si,
                    {
                        let (sid, sout) = &spent[si];
                        if *sout == k as u32 && crate::bytes::bytes_eq(sid, &txid_here) {
                            proof {
                                assert(s_tx[si as int] == (tx@.id, k as u32));
                            }
                            already_spent = true;
                        }
                        proof {
                            if s_tx[si as int] == (tx@.id, k as u32) {
                                assert(spent@[si as int].0@ == tx@.id);
                                assert(spent@[si as int].1 == k as u32);
                            }
                        }
                        si = si + 1;
                    }
                    proof {
                        assert(already_spent == spent_contains(s_tx, (tx@.id, k as u32)));
                    }
                    let fresh = utxo_map.get_utxo(&txid_here, k as u32).is_none();
                    if fresh && !already_spent {
                        let o = tx.outputs[k].duplicate();
                        let ghost before = utxo_map.umap();
                        proof {
                            assert(crate::tx::tx_output_wf(tx@.outputs[k as int]));
                        }
                        utxo_map.put_utxo(&txid_here, k as u32, o);
                        proof {
                            assert forall|q: (Seq<u8>, u32)|
                                #[trigger] utxo_map.umap().contains_key(q) implies
                                chain_tx_lookup(bm, tip, th, q.0) is Some by {
                                if q == (tx@.id, k as u32) {
                                    lemma_first_tx_here(blk_txs, t as int);
                                    lemma_lookup_from_above(
                                        bm,
                                        tip,
                                        th,
                                        current_block@.height as nat,
                                        tx@.id,
                                    );
                                } else {
                                    assert(before.contains_key(q));
                                }
                            }
                        }
                    }
                    k = k + 1;
                }
                proof {
                    assert(tx@.outputs.take(tx@.outputs.len() as int) =~= tx@.outputs);
                }
                // Record the outputs this transaction spends, so that lower
                // blocks do not re-emit them.
                let cb = tx.is_coinbase();
                if !cb {
                    proof {
                        assert(spent_view(spent@) =~= s_tx + Seq::new(
                            0 as nat,
                            |q: int| (tx@.inputs[q].prev_tx_id, tx@.inputs[q].out),
                        ));
                    }
                    let mut p: usize = 0;
                    while p < tx.inputs.len()
                        invariant
                            p <= tx.inputs@.len(),
                            tx_wf(tx@),
                            tx@.inputs.len() == tx.inputs@.len(),
                            spent_view(spent@) == s_tx + Seq::new(
                                p as nat,
                                |q: int| (tx@.inputs[q].prev_tx_id, tx@.inputs[q].out),
                            ),
                        decreases tx.inputs@.len() - p,
                    {
                        let inp = &tx.inputs[p];
                        proof {
                            assert(inp@ == tx@.inputs[p as int]);
                        }
                        let ghost prevsp = spent@;
                        spent.push((clone_bytes(&inp.prev_tx_id), inp.out));
                        proof {
                            assert(spent_view(prevsp).len() == s_tx.len() + p);
                            assert(spent@.len() == prevsp.len() + 1);
                            assert forall|w: int| 0 <= w < spent@.len() implies
                                #[trigger] spent_view(spent@)[w] == (s_tx + Seq::new(
                                    (p + 1) as nat,
                                    |q: int| (tx@.inputs[q].prev_tx_id, tx@.inputs[q].out),
                                ))[w] by {
                                if w < prevsp.len() {
                                    assert(spent@[w] == prevsp[w]);
                                    assert(spent_view(prevsp)[w] == (s_tx + Seq::new(
                                        p as nat,
                                        |q: int| (tx@.inputs[q].prev_tx_id, tx@.inputs[q].out),
                                    ))[w]);
                                } else {
                                    assert(spent@[w] == spent@.last());
                                    assert(spent@.last().0@ == tx@.inputs[p as int].prev_tx_id);
                                    assert(spent@.last().1 == tx@.inputs[p as int].out);
                                    assert(w - s_tx.len() == p);
                                }
                            }
                            assert(spent_view(spent@) =~= s_tx + Seq::new(
                                (p + 1) as nat,
                                |q: int| (tx@.inputs[q].prev_tx_id, tx@.inputs[q].out),
                            ));
                        }
                        p = p + 1;
                    }
                    proof {
                        assert(spent_view(spent@) =~= spend_tx_inputs(s_tx, tx@));
                    }
                } else {
                    proof {
                        assert(spent_view(spent@) =~= spend_tx_inputs(s_tx, tx@));
                    }
                }
                proof {
                    assert(utxo_map.umap() == walk_txs(m_blk, s_blk, blk_txs.take(t + 1)).0);
                    assert(spent_view(spent@) == walk_txs(m_blk, s_blk, blk_txs.take(t + 1)).1);
                }
                t = t + 1;
            }
            proof {
                assert(blk_txs.take(blk_txs.len() as int) =~= blk_txs);
            }
            if current_block.is_genesis() {
                proof {
                    assert(current_block@.height == 0) by {
                        if current_block@.height != 0 {
                        }
                    }
                }
                return Ok(utxo_map);
            }
            proof {
                assert(current_block@.height > 0) by {
                    if current_block@.height == 0 {
                        assert(bm[current_block@.hash].prev_hash == crate::bytes::zero32());
                    }
                }
                lemma_chain_ok_unfold(bm, bm[current_block@.hash].prev_hash,
                    (current_block@.height - 1) as nat);
                lemma_chain_at_step(bm, tip, th, current_block@.height as nat);
                lemma_chain_at_ok(bm, tip, th, (current_block@.height - 1) as nat);
            }
            let prev = match self.get_block(&current_block.prev_hash) {
                Some(b) => b.duplicate(),
                None => {
                    proof {
                        assert(false);
                    }
                    return Err(ChainError::StoreError);
                },
            };
            current_block = prev;
        }
    }

    /// Wipes the UTXO set and rebuilds it from the chain. Afterwards every
    /// unspent output's producing transaction is on the main chain.
    pub fn reindex_utxos(&mut self) -> (r: Result<(), ChainError>)
        requires
            old(self).wf(),
            node_chain_wf(&*old(self)),
        ensures
            final(self).wf(),
            node_chain_wf(&*final(self)),
            final(self)@.blocks == old(self)@.blocks,
            final(self)@.mempool == old(self)@.mempool,
            final(self)@.orphans == old(self)@.orphans,
            final(self)@.last_hash == old(self)@.last_hash,
            r is Ok <==> old(self)@.last_hash is Some,
            r is Ok ==> final(self).umap() == chain_utxos(
                old(self).bmap(),
                old(self)@.last_hash.unwrap(),
                old(self).bmap()[old(self)@.last_hash.unwrap()].height as nat,
            ),
            r is Ok ==> forall|k: (Seq<u8>, u32)|
                #[trigger] final(self).umap().contains_key(k) ==> chain_tx_lookup(
                    old(self).bmap(),
                    old(self)@.last_hash.unwrap(),
                    old(self).bmap()[old(self)@.last_hash.unwrap()].height as nat,
                    k.0,
                ) is Some,
            r is Err ==> r.unwrap_err() == ChainError::StoreError,
    {
        let rebuilt = match self.get_utxos_from_chain() {
            Ok(u) => u,
            Err(e) => {
                return Err(e);
            },
        };
        let ghost ru = rebuilt.umap();
        let ghost rv = rebuilt@;
        self.utxos = rebuilt;
        proof {
            assert(self@.utxos == rv);
            assert(self.umap() == ru);
        }
        Ok(())
    }
}

/// A transaction sitting in a list is found by the first-match search.
pub proof fn lemma_first_tx_here(txs: Seq<TxV>, t: int)
    requires
        0 <= t < txs.len(),
    ensures
        first_tx_with_id(txs, txs[t].id) is Some,
    decreases txs.len(),
{
    if txs.len() > 0 {
        if txs[0].id == txs[t].id {
        } else {
            assert(t > 0);
            assert(txs.skip(1)[t - 1] == txs[t]);
            lemma_first_tx_here(txs.skip(1), t - 1);
        }
    }
}


/// What committing a received block did.
#[derive(Clone, Copy, Debug, PartialEq, Eq, Structural)]
pub enum CommitOutcome {
    /// The block fully verified on top of the tip and is now the tip.
    Extended,
    /// The block passed the structural checks only (or does not sit on the
    /// tip) and waits in the orphan pool.
    Orphaned,
    /// The block failed even the structural checks and was dropped.
    Discarded,
}

/// The condition under which a received block extends the chain: a tip
/// exists, the block fully verifies against the UTXO set, sits directly on
/// the tip at the next height, and its hash is not already stored.
pub open spec fn extends_chain(st: NodeStateV, b: BlockV) -> bool {
    &&& st.last_hash is Some
    &&& crate::block::block_valid(b, crate::utxo::entries_map(st.utxos))
    &&& blocks_map(st.blocks).contains_key(st.last_hash.unwrap())
    &&& b.prev_hash == st.last_hash.unwrap()
    &&& b.height == blocks_map(st.blocks)[st.last_hash.unwrap()].height + 1
    &&& !blocks_map(st.blocks).contains_key(b.hash)
}

impl NodeState {
    /// Commits one received block, without draining orphans afterwards:
    /// a block that extends the chain is applied to the UTXO set, evicts the
    /// mempool transactions it conflicts with, is stored and becomes the tip;
    /// a structurally valid block that does not extend the chain is pooled as
    /// an orphan; anything else is discarded.
    pub fn commit_block_once(&mut self, block: &Block) -> (r: CommitOutcome)
        requires
            old(self).wf(),
            node_chain_wf(&*old(self)),
            block_wf(block@),
        ensures
            final(self).wf(),
            node_chain_wf(&*final(self)),
            r == CommitOutcome::Extended <==> extends_chain(old(self)@, block@),
            r == CommitOutcome::Extended ==> {
                &&& final(self)@.last_hash == Some(block@.hash)
                &&& final(self).bmap() == old(self).bmap().insert(block@.hash, block@)
                &&& final(self).umap() == apply_txs_utxo(old(self).umap(), block@.txs)
                &&& forall|j: int|
                    0 <= j < final(self)@.mempool.len() ==> old(self)@.mempool.contains(
                        #[trigger] final(self)@.mempool[j],
                    ) && !shares_input_with_block(final(self)@.mempool[j], block@)
                &&& forall|m: int|
                    0 <= m < old(self)@.mempool.len() && !shares_input_with_block(
                        #[trigger] old(self)@.mempool[m],
                        block@,
                    ) ==> final(self)@.mempool.contains(old(self)@.mempool[m])
                &&& final(self)@.orphans.len() <= old(self)@.orphans.len()
            },
            r == CommitOutcome::Orphaned <==> !extends_chain(old(self)@, block@)
                && crate::block::block_core_valid(block@),
            r == CommitOutcome::Orphaned ==> {
                &&& exists|i: int|
                    0 <= i < final(self)@.orphans.len() && (#[trigger] final(self)@.orphans[i])
                        == block@
                &&& final(self)@.blocks == old(self)@.blocks
                &&& final(self)@.utxos == old(self)@.utxos
                &&& final(self)@.mempool == old(self)@.mempool
                &&& final(self)@.last_hash == old(self)@.last_hash
                &&& final(self)@.orphans.len() <= old(self)@.orphans.len() + 1
            },
            r == CommitOutcome::Discarded ==> final(self)@ == old(self)@,
    {
        if !block.verify_orphan() {
            return CommitOutcome::Discarded;
        }
        let full = block.verify(&self.utxos);
        let mut extend = false;
        if full {
            match &self.last_hash {
                Some(_) => {
                    let tip_block = match self.get_last_block() {
                        Ok(b) => Some(b),
                        Err(_) => None,
                    };
                    match tip_block {
                        Some(tb) => {
                            if crate::bytes::bytes_eq(&block.prev_hash, &tb.hash)
                                && tb.height < u32::MAX && block.height == tb.height + 1
                                && self.get_block(&block.hash).is_none() {
                                proof {
                                    lemma_bmap_wf(
                                        self@.blocks,
                                        self@.last_hash.unwrap(),
                                    );
                                    assert(tb@.hash == self@.last_hash.unwrap());
                                }
                                extend = true;
                            }
                        },
                        None => {},
                    }
                },
                None => {},
            }
        }
        if extend {
            proof {
                assert(extends_chain(self@, block@));
            }
            let ghost pre = self@;
            let ghost tiph = self@.last_hash.unwrap();
            let ghost tip_height = self.bmap()[tiph].height as nat;
            self.update_utxos(block);
            self.update_mempool(block);
            let dup = block.duplicate();
            self.put_block(dup);
            let mut one: Vec<Vec<u8>> = Vec::new();
            one.push(clone_bytes(&block.hash));
            self.remove_from_orphan_blocks(&one);
            self.put_last_hash(&block.hash);
            proof {
                let bm = self.bmap();
                assert(bm == blocks_map(pre.blocks).insert(block@.hash, block@));
                lemma_chain_ok_unfold(blocks_map(pre.blocks), tiph, tip_height);
                lemma_chain_ok_monotone(
                    blocks_map(pre.blocks),
                    tiph,
                    tip_height,
                    block@.hash,
                    block@,
                );
                assert(chain_ok(bm, block@.hash, block@.height as nat));
            }
            return CommitOutcome::Extended;
        }
        proof {
            assert(!extends_chain(self@, block@)) by {
                if extends_chain(self@, block@) {
                    lemma_bmap_wf(self@.blocks, self@.last_hash.unwrap());
                }
            }
        }
        self.put_orphan_block(block);
        CommitOutcome::Orphaned
    }

    /// Drains the orphan pool: while some pooled block extends the new tip,
    /// commits it; each pass works over a snapshot of the pool, and the work
    /// is bounded by the pool's size.
    pub fn check_for_valid_orphan_blocks(&mut self)
        requires
            old(self).wf(),
            node_chain_wf(&*old(self)),
        ensures
            final(self).wf(),
            node_chain_wf(&*final(self)),
            !orphan_on_tip(old(self)@) ==> final(self)@ == old(self)@,
    {
        let mut rounds = self.orphan_count();
        loop
            invariant
                self.wf(),
                node_chain_wf(&*self),
                self@ == old(self)@ || orphan_on_tip(old(self)@),
            decreases rounds,
        {
            if rounds == 0 {
                return;
            }
            rounds = rounds - 1;
            let hashes = self.orphan_hashes();
            let mut extended_any = false;
            let mut i: usize = 0;
            while i < hashes.len()
                invariant
                    self.wf(),
                    node_chain_wf(&*self),
                    i <= hashes@.len(),
                    self@ == old(self)@ || orphan_on_tip(old(self)@),
                decreases hashes@.len() - i,
            {
                let candidate: Option<Block> = {
                    let mut found: Option<Block> = None;
                    let mut j: usize = 0;
                    while j < self.orphans.len()
                        invariant
                            self.wf(),
                            i < hashes@.len(),
                            j <= self@.orphans.len(),
                            found is Some ==> block_wf(found.unwrap()@),
                            found is Some ==> exists|q: int|
                                0 <= q < self@.orphans.len() && found.unwrap()@ == (
                                #[trigger] self@.orphans[q]),
                        decreases self@.orphans.len() - j,
                    {
                        if crate::bytes::bytes_eq(&self.orphans[j].hash, &hashes[i]) {
                            proof {
                                assert(block_wf(self@.orphans[j as int]));
                            }
                            found = Some(self.orphans[j].duplicate());
                            proof {
                                assert(found.unwrap()@ == self@.orphans[j as int]);
                            }
                        }
                        j = j + 1;
                    }
                    found
                };
                match candidate {
                    Some(orphan) => {
                        let on_tip = match &self.last_hash {
                            Some(h) => crate::bytes::bytes_eq(&orphan.prev_hash, h),
                            None => false,
                        };
                        if on_tip {
                            proof {
                                if self@ == old(self)@ {
                                    assert(orphan_on_tip(old(self)@));
                                }
                            }
                            let outcome = self.commit_block_once(&orphan);
                            if matches!(outcome, CommitOutcome::Extended) {
                                extended_any = true;
                            }
                        }
                    },
                    None => {},
                }
                i = i + 1;
            }
            if !extended_any {
                return;
            }
        }
    }

    /// The hashes of all pooled orphans.
    pub fn orphan_hashes(&self) -> (r: Vec<Vec<u8>>)
        ensures
            r@.len() == self@.orphans.len(),
            forall|i: int| 0 <= i < r@.len() ==> (#[trigger] r@[i])@ == self@.orphans[i].hash,
    {
        let mut out: Vec<Vec<u8>> = Vec::new();
        let mut i: usize = 0;
        while i < self.orphans.len()
            invariant
                i <= self.orphans@.len(),
                self@.orphans.len() == self.orphans@.len(),
                out@.len() == i,
                forall|j: int| 0 <= j < i ==> (#[trigger] out@[j])@ == self@.orphans[j].hash,
            decreases self.orphans@.len() - i,
        {
            out.push(clone_bytes(&self.orphans[i].hash));
            i = i + 1;
        }
        out
    }
}


/// Adding outputs under one id leaves every key with another id untouched.
pub proof fn lemma_add_outputs_other(
    u: Map<(Seq<u8>, u32), TxOutputV>,
    id: Seq<u8>,
    outs: Seq<TxOutputV>,
    q: (Seq<u8>, u32),
)
    requires
        q.0 != id,
    ensures
        add_tx_outputs(u, id, outs).contains_key(q) == u.contains_key(q),
        u.contains_key(q) ==> add_tx_outputs(u, id, outs)[q] == u[q],
    decreases outs.len(),
{
    if outs.len() > 0 {
        lemma_add_outputs_other(u, id, outs.drop_last(), q);
    }
}

/// Adding outputs under an id places each output at its own index.
pub proof fn lemma_add_outputs_at(
    u: Map<(Seq<u8>, u32), TxOutputV>,
    id: Seq<u8>,
    outs: Seq<TxOutputV>,
    k: int,
)
    requires
        0 <= k < outs.len(),
        outs.len() <= 0xffff_ffff,
    ensures
        add_tx_outputs(u, id, outs).contains_key((id, k as u32)),
        add_tx_outputs(u, id, outs)[(id, k as u32)] == outs[k],
    decreases outs.len(),
{
    if k == outs.len() - 1 {
    } else {
        assert(outs.drop_last()[k] == outs[k]);
        lemma_add_outputs_at(u, id, outs.drop_last(), k);
        assert((outs.len() - 1) as u32 != k as u32);
    }
}

/// Removing input references never adds a key.
pub proof fn lemma_remove_inputs_subset(
    u: Map<(Seq<u8>, u32), TxOutputV>,
    inputs: Seq<TxInputV>,
    q: (Seq<u8>, u32),
)
    ensures
        remove_tx_inputs(u, inputs).contains_key(q) ==> u.contains_key(q),
        remove_tx_inputs(u, inputs).contains_key(q) ==> remove_tx_inputs(u, inputs)[q] == u[q],
    decreases inputs.len(),
{
    if inputs.len() > 0 {
        lemma_remove_inputs_subset(u, inputs.drop_last(), q);
    }
}

/// A key no input references survives the removals untouched.
pub proof fn lemma_remove_inputs_other(
    u: Map<(Seq<u8>, u32), TxOutputV>,
    inputs: Seq<TxInputV>,
    q: (Seq<u8>, u32),
)
    requires
        forall|p: int|
            0 <= p < inputs.len() ==> ((#[trigger] inputs[p]).prev_tx_id, inputs[p].out) != q,
    ensures
        remove_tx_inputs(u, inputs).contains_key(q) == u.contains_key(q),
        u.contains_key(q) ==> remove_tx_inputs(u, inputs)[q] == u[q],
    decreases inputs.len(),
{
    if inputs.len() > 0 {
        assert forall|p: int|
            0 <= p < inputs.drop_last().len() implies ((#[trigger] inputs.drop_last()[p]).prev_tx_id,
            inputs.drop_last()[p].out) != q by {
            assert(inputs.drop_last()[p] == inputs[p]);
        }
        lemma_remove_inputs_other(u, inputs.drop_last(), q);
        assert((inputs[inputs.len() - 1].prev_tx_id, inputs[inputs.len() - 1].out) != q);
    }
}

/// Every referenced key is gone after the removals.
pub proof fn lemma_remove_inputs_gone(
    u: Map<(Seq<u8>, u32), TxOutputV>,
    inputs: Seq<TxInputV>,
    p: int,
)
    requires
        0 <= p < inputs.len(),
    ensures
        !remove_tx_inputs(u, inputs).contains_key((inputs[p].prev_tx_id, inputs[p].out)),
    decreases inputs.len(),
{
    if p == inputs.len() - 1 {
    } else {
        assert(inputs.drop_last()[p] == inputs[p]);
        lemma_remove_inputs_gone(u, inputs.drop_last(), p);
    }
}

/// Every output of every transaction of the block stands in the UTXO map at
/// its own index after the block is applied.
pub open spec fn outputs_placed(u: Map<(Seq<u8>, u32), TxOutputV>, txs: Seq<TxV>) -> bool {
    forall|i: int, k: int|
        0 <= i < txs.len() && 0 <= k < txs[i].outputs.len()
            ==> #[trigger] apply_txs_utxo(u, txs).contains_key((txs[i].id, k as u32))
            && apply_txs_utxo(u, txs)[(txs[i].id, k as u32)] == txs[i].outputs[k]
}

/// No output referenced by an input of a non-coinbase transaction of the
/// block remains in the UTXO map after the block is applied.
pub open spec fn inputs_cleared(u: Map<(Seq<u8>, u32), TxOutputV>, txs: Seq<TxV>) -> bool {
    forall|i: int, p: int|
        0 <= i < txs.len() && !is_coinbase_v(#[trigger] txs[i]) && 0 <= p < txs[i].inputs.len()
            ==> !apply_txs_utxo(u, txs).contains_key(
            ((#[trigger] txs[i].inputs[p]).prev_tx_id, txs[i].inputs[p].out),
        )
}

/// After a block's transactions are applied, every output an input of a
/// non-coinbase transaction referenced is gone from the UTXO set, and every
/// output of every transaction stands in it at its index — provided the
/// transactions carry distinct ids and no input references a transaction of
/// the same block (spending within one block is outside this statement).
#[verifier::rlimit(60)]
pub proof fn lemma_commit_utxo_effect(u: Map<(Seq<u8>, u32), TxOutputV>, txs: Seq<TxV>)
    requires
        forall|i: int, j: int|
            0 <= i < txs.len() && 0 <= j < txs.len() && i != j ==> (#[trigger] txs[i]).id != (
            #[trigger] txs[j]).id,
        forall|i: int| 0 <= i < txs.len() ==> (#[trigger] txs[i]).outputs.len() <= 0xffff_ffff,
        forall|i: int, p: int, j: int|
            0 <= i < txs.len() && !is_coinbase_v(txs[i]) && 0 <= p < txs[i].inputs.len() && 0 <= j
                < txs.len() ==> (#[trigger] txs[i].inputs[p]).prev_tx_id != (#[trigger] txs[j]).id,
    ensures
        inputs_cleared(u, txs),
        outputs_placed(u, txs),
    decreases txs.len(),
{
    if txs.len() == 0 {
        return;
    }
    let short = txs.drop_last();
    let t = txs.last();
    let pre = apply_txs_utxo(u, short);
    let mid = if is_coinbase_v(t) {
        pre
    } else {
        remove_tx_inputs(pre, t.inputs)
    };
    let fin = apply_txs_utxo(u, txs);
    assert(fin == add_tx_outputs(mid, t.id, t.outputs));
    assert forall|i: int, j: int|
        0 <= i < short.len() && 0 <= j < short.len() && i != j implies (#[trigger] short[i]).id
            != (#[trigger] short[j]).id by {
        assert(short[i] == txs[i]);
        assert(short[j] == txs[j]);
    }
    assert forall|i: int| 0 <= i < short.len() implies (#[trigger] short[i]).outputs.len()
        <= 0xffff_ffff by {
        assert(short[i] == txs[i]);
    }
    assert forall|i: int, p: int, j: int|
        0 <= i < short.len() && !is_coinbase_v(short[i]) && 0 <= p < short[i].inputs.len() && 0
            <= j < short.len() implies (#[trigger] short[i].inputs[p]).prev_tx_id != (
    #[trigger] short[j]).id by {
        assert(short[i] == txs[i]);
        assert(short[j] == txs[j]);
        assert(txs[i].inputs[p].prev_tx_id != txs[j].id);
    }
    lemma_commit_utxo_effect(u, short);
    let n = txs.len() as int;
    assert forall|i: int, k: int| #![trigger apply_txs_utxo(u, txs).contains_key((txs[i].id, k as u32))]
        0 <= i < n && 0 <= k < txs[i].outputs.len() implies apply_txs_utxo(u, txs).contains_key(
        (txs[i].id, k as u32),
    ) && apply_txs_utxo(u, txs)[(txs[i].id, k as u32)] == txs[i].outputs[k] by {
        assert(apply_txs_utxo(u, txs) == fin);
        if i == n - 1 {
            lemma_add_outputs_at(mid, t.id, t.outputs, k);
        } else {
            assert(short[i] == txs[i]);
            assert(short[i].outputs[k] == txs[i].outputs[k]);
            assert(pre.contains_key((txs[i].id, k as u32)));
            assert(pre[(txs[i].id, k as u32)] == txs[i].outputs[k]);
            if !is_coinbase_v(t) {
                assert forall|p: int|
                    0 <= p < t.inputs.len() implies ((#[trigger] t.inputs[p]).prev_tx_id,
                    t.inputs[p].out) != (txs[i].id, k as u32) by {
                    assert(txs[n - 1].inputs[p].prev_tx_id != txs[i].id);
                }
                lemma_remove_inputs_other(pre, t.inputs, (txs[i].id, k as u32));
            }
            assert(txs[n - 1].id != txs[i].id);
            lemma_add_outputs_other(mid, t.id, t.outputs, (txs[i].id, k as u32));
        }
    }
    assert forall|i: int, p: int|
        0 <= i < n && !is_coinbase_v(#[trigger] txs[i]) && 0 <= p < txs[i].inputs.len() implies
        !fin.contains_key(((#[trigger] txs[i].inputs[p]).prev_tx_id, txs[i].inputs[p].out)) by {
        let q = (txs[i].inputs[p].prev_tx_id, txs[i].inputs[p].out);
        assert(q.0 != t.id) by {
            assert(txs[i].inputs[p].prev_tx_id != txs[n - 1].id);
        }
        if i == n - 1 {
            lemma_remove_inputs_gone(pre, t.inputs, p);
            lemma_add_outputs_other(mid, t.id, t.outputs, q);
        } else {
            assert(short[i] == txs[i]);
            assert(!pre.contains_key(q));
            if !is_coinbase_v(t) {
                lemma_remove_inputs_subset(pre, t.inputs, q);
            }
            lemma_add_outputs_other(mid, t.id, t.outputs, q);
        }
    }
}

} // verus!
