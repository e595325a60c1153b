//! Longest-chain reorganization: the chain snapshot and its restore
//! round-trip, rollback to a base block, validated re-application of an
//! orphan chain, the orphan-chain scan with its age-based pruning rule, and
//! the full commit entry point.

use vstd::prelude::*;

use crate::block::{Block, BlockV, block_wf, block_valid};
use crate::bytes::clone_bytes;
use crate::chain::{CommitOutcome, apply_txs_utxo, apply_chain_utxo, chain_ok, node_chain_wf, lemma_chain_ok_unfold, lemma_bmap_wf, chain_tx_lookup};
use crate::errors::ChainError;
use crate::store::{NodeState, blocks_map};
use crate::tx::{TxOutput, TxOutputV, TxV, is_coinbase_v, tx_wf};

verus! {


/// Removes a transaction's output keys, ascending by index.
pub open spec fn remove_tx_outputs(
    u: Map<(Seq<u8>, u32), TxOutputV>,
    id: Seq<u8>,
    count: nat,
) -> Map<(Seq<u8>, u32), TxOutputV>
    decreases count,
{
    if count == 0 {
        u
    } else {
        remove_tx_outputs(u, id, (count - 1) as nat).remove((id, (count - 1) as u32))
    }
}

/// Reinstates the outputs a transaction's inputs spent, each looked up on
/// the (still intact) chain, in input order.
pub open spec fn reinstate_inputs(
    u: Map<(Seq<u8>, u32), TxOutputV>,
    inputs: Seq<crate::tx::TxInputV>,
    bm: Map<Seq<u8>, BlockV>,
    tip: Seq<u8>,
    th: nat,
) -> Map<(Seq<u8>, u32), TxOutputV>
    decreases inputs.len(),
{
    if inputs.len() == 0 {
        u
    } else {
        let u1 = reinstate_inputs(u, inputs.drop_last(), bm, tip, th);
        let inp = inputs.last();
        let t = chain_tx_lookup(bm, tip, th, inp.prev_tx_id).unwrap();
        u1.insert((inp.prev_tx_id, inp.out), t.outputs[inp.out as int])
    }
}

/// Reverting one transaction: delete its outputs, then (for a non-coinbase
/// transaction) reinstate what its inputs spent.
pub open spec fn revert_tx_utxo(
    u: Map<(Seq<u8>, u32), TxOutputV>,
    t: TxV,
    bm: Map<Seq<u8>, BlockV>,
    tip: Seq<u8>,
    th: nat,
) -> Map<(Seq<u8>, u32), TxOutputV> {
    let u1 = remove_tx_outputs(u, t.id, t.outputs.len());
    if is_coinbase_v(t) {
        u1
    } else {
        reinstate_inputs(u1, t.inputs, bm, tip, th)
    }
}

/// Reverting a block's transactions in order.
pub open spec fn revert_txs_utxo(
    u: Map<(Seq<u8>, u32), TxOutputV>,
    txs: Seq<TxV>,
    bm: Map<Seq<u8>, BlockV>,
    tip: Seq<u8>,
    th: nat,
) -> Map<(Seq<u8>, u32), TxOutputV>
    decreases txs.len(),
{
    if txs.len() == 0 {
        u
    } else {
        revert_tx_utxo(revert_txs_utxo(u, txs.drop_last(), bm, tip, th), txs.last(), bm, tip, th)
    }
}

/// Reverting a list of blocks in order (the rollback walks them tip first).
pub open spec fn revert_blocks_utxo(
    u: Map<(Seq<u8>, u32), TxOutputV>,
    blocks: Seq<BlockV>,
    bm: Map<Seq<u8>, BlockV>,
    tip: Seq<u8>,
    th: nat,
) -> Map<(Seq<u8>, u32), TxOutputV>
    decreases blocks.len(),
{
    if blocks.len() == 0 {
        u
    } else {
        revert_txs_utxo(
            revert_blocks_utxo(u, blocks.drop_last(), bm, tip, th),
            blocks.last().txs,
            bm,
            tip,
            th,
        )
    }
}

/// Whether a transaction is one of the listed blocks' transactions.
pub open spec fn tx_of_blocks(blocks: Seq<BlockV>, t: TxV) -> bool {
    exists|i: int, j: int|
        0 <= i < blocks.len() && 0 <= j < blocks[i].txs.len() && #[trigger] blocks[i].txs[j] == t
}

/// Whether every spent output of the listed blocks can be reinstated: its
/// producing transaction is found on the chain, with the referenced index in
/// range.
pub open spec fn rollback_inputs_ok(
    blocks: Seq<BlockV>,
    bm: Map<Seq<u8>, BlockV>,
    tip: Seq<u8>,
    th: nat,
) -> bool {
    forall|i: int, t: int, p: int|
        0 <= i < blocks.len() && 0 <= t < blocks[i].txs.len() && !is_coinbase_v(blocks[i].txs[t])
            && 0 <= p < blocks[i].txs[t].inputs.len() ==> {
            let inp = #[trigger] blocks[i].txs[t].inputs[p];
            &&& chain_tx_lookup(bm, tip, th, inp.prev_tx_id) is Some
            &&& inp.out < chain_tx_lookup(bm, tip, th, inp.prev_tx_id).unwrap().outputs.len()
        }
}

/// The lineage strictly above a base height, tip first: what a rollback to
/// that base removes.
pub open spec fn lineage_above(
    bm: Map<Seq<u8>, BlockV>,
    tip: Seq<u8>,
    th: nat,
    base_height: nat,
) -> Seq<BlockV> {
    Seq::new((th - base_height) as nat, |j: int| crate::chain::chain_at(bm, tip, th, (th - j) as nat))
}

/// An orphan chain must reach within this many blocks of the tip to be kept.
pub const MAX_ORPHAN_CHAIN_AGE: u32 = 10;

/// The ghost image of a recorded restore action.
pub ghost enum UtxoChangeV {
    /// On restore, put this output back under the key.
    Put { tx_id: Seq<u8>, out: u32, output: TxOutputV },
    /// On restore, delete the key.
    Del { tx_id: Seq<u8>, out: u32 },
}

/// One recorded restore action: how to undo one UTXO mutation.
#[derive(Debug)]
pub enum UtxoChange {
    Put { tx_id: Vec<u8>, out: u32, output: TxOutput },
    Del { tx_id: Vec<u8>, out: u32 },
}

impl View for UtxoChange {
    type V = UtxoChangeV;

    open spec fn view(&self) -> UtxoChangeV {
        match self {
            UtxoChange::Put { tx_id, out, output } => UtxoChangeV::Put {
                tx_id: tx_id@,
                out: *out,
                output: output@,
            },
            UtxoChange::Del { tx_id, out } => UtxoChangeV::Del { tx_id: tx_id@, out: *out },
        }
    }
}

/// Applies one restore action to a UTXO map.
pub open spec fn apply_restore(u: Map<(Seq<u8>, u32), TxOutputV>, c: UtxoChangeV) -> Map<
    (Seq<u8>, u32),
    TxOutputV,
> {
    match c {
        UtxoChangeV::Put { tx_id, out, output } => u.insert((tx_id, out), output),
        UtxoChangeV::Del { tx_id, out } => u.remove((tx_id, out)),
    }
}

/// Undoes the recorded changes, newest first.
pub open spec fn restore_fold(
    u: Map<(Seq<u8>, u32), TxOutputV>,
    cs: Seq<UtxoChangeV>,
) -> Map<(Seq<u8>, u32), TxOutputV>
    decreases cs.len(),
{
    if cs.len() == 0 {
        u
    } else {
        restore_fold(apply_restore(u, cs.last()), cs.drop_last())
    }
}

/// The views of a sequence of changes.
pub open spec fn changes_view(s: Seq<UtxoChange>) -> Seq<UtxoChangeV> {
    Seq::new(s.len(), |i: int| s[i]@)
}

/// The state saved before a rollback, with what is needed to put everything
/// back: the tip hash, the inverse of every UTXO change made since, the
/// block records that rollback removes, and (in ghost) the exact UTXO map
/// and block map at snapshot time.
pub struct ChainSnapshot {
    pub last_hash: Vec<u8>,
    pub utxo_changes: Vec<UtxoChange>,
    pub removed_blocks: Vec<Block>,
    /// The UTXO map at snapshot time.
    pub pre_utxos: Ghost<Map<(Seq<u8>, u32), TxOutputV>>,
    /// The block map at snapshot time.
    pub pre_blocks: Ghost<Map<Seq<u8>, BlockV>>,
}

/// The snapshot invariant against the current state: undoing the recorded
/// changes in reverse returns exactly the saved UTXO map, every change is
/// well-formed, and every saved block is either still stored unchanged or
/// listed among the blocks rollback removes.
pub open spec fn snapshot_inv(snap: &ChainSnapshot, st: &NodeState) -> bool {
    &&& restore_fold(st.umap(), changes_view(snap.utxo_changes@)) == snap.pre_utxos@
    &&& snap.last_hash@.len() == 32
    &&& forall|i: int|
        0 <= i < snap.utxo_changes@.len() ==> change_wf(#[trigger] snap.utxo_changes@[i]@)
    &&& forall|i: int| 0 <= i < snap.removed_blocks@.len() ==> block_wf(
        #[trigger] snap.removed_blocks@[i]@,
    )
    &&& forall|k: Seq<u8>|
        #[trigger] snap.pre_blocks@.contains_key(k) ==> (st.bmap().contains_key(k)
            && st.bmap()[k] == snap.pre_blocks@[k]) || (exists|j: int|
            0 <= j < snap.removed_blocks@.len() && (#[trigger] snap.removed_blocks@[j]@).hash == k
                && snap.removed_blocks@[j]@ == snap.pre_blocks@[k])
    &&& forall|j: int|
        0 <= j < snap.removed_blocks@.len() ==> snap.pre_blocks@.contains_key(
            (#[trigger] snap.removed_blocks@[j]@).hash,
        ) && snap.pre_blocks@[snap.removed_blocks@[j]@.hash] == snap.removed_blocks@[j]@
}

/// A well-formed recorded change: 32-byte key, 20-byte lock.
pub open spec fn change_wf(c: UtxoChangeV) -> bool {
    match c {
        UtxoChangeV::Put { tx_id, out, output } => tx_id.len() == 32 && output.pub_key_hash.len()
            == 20,
        UtxoChangeV::Del { tx_id, out } => tx_id.len() == 32,
    }
}

/// Coordinates reorganizations: the chain-wide lock and the active snapshot.
pub struct ChainManager {
    locked: bool,
}

impl View for ChainManager {
    type V = bool;

    closed spec fn view(&self) -> bool {
        self.locked
    }
}

impl ChainManager {
    /// A fresh, unlocked manager.
    pub fn new() -> (r: ChainManager)
        ensures
            !r.is_locked(),
    {
        ChainManager { locked: false }
    }

    /// Whether the chain is locked for a reorganization.
    pub open spec fn is_locked(&self) -> bool {
        self@
    }

    /// Takes the chain-wide lock; fails if it is already held.
    pub fn lock_chain(&mut self) -> (r: Result<(), ChainError>)
        ensures
            r is Ok <==> !old(self).is_locked(),
            final(self).is_locked() == (old(self).is_locked() || r is Ok),
            r is Err ==> r.unwrap_err() == ChainError::RollbackFailed,
    {
        if self.locked {
            return Err(ChainError::RollbackFailed);
        }
        self.locked = true;
        Ok(())
    }

    /// Releases the chain-wide lock.
    pub fn unlock_chain(&mut self)
        ensures
            !final(self).is_locked(),
    {
        self.locked = false;
    }
}

/// Deletes a UTXO and records how to restore it.
fn delete_utxo_recorded(st: &mut NodeState, snap: &mut ChainSnapshot, tx_id: &Vec<u8>, out: u32)
    requires
        old(st).wf(),
        snapshot_inv(old(snap), &*old(st)),
        tx_id@.len() == 32,
    ensures
        final(st).wf(),
        snapshot_inv(final(snap), &*final(st)),
        final(st).umap() == old(st).umap().remove((tx_id@, out)),
        final(st)@.blocks == old(st)@.blocks,
        final(st)@.mempool == old(st)@.mempool,
        final(st)@.orphans == old(st)@.orphans,
        final(st)@.last_hash == old(st)@.last_hash,
        final(snap).last_hash == old(snap).last_hash,
        final(snap).removed_blocks == old(snap).removed_blocks,
        final(snap).pre_utxos == old(snap).pre_utxos,
        final(snap).pre_blocks == old(snap).pre_blocks,
    {
        let ghost u0 = st.umap();
        let existing: Option<TxOutput> = match st.utxos.get_utxo(tx_id, out) {
            Some(o) => Some(o.duplicate()),
            None => None,
        };
        match existing {
            Some(o) => {
                proof {
                    assert(crate::tx::tx_output_wf(o@)) by {
                        crate::utxo::lemma_map_domain(st@.utxos, (tx_id@, out));
                        let i = choose|i: int|
                            0 <= i < st@.utxos.len() && crate::utxo::entry_key(
                                #[trigger] st@.utxos[i],
                            ) == (tx_id@, out);
                        crate::utxo::lemma_map_index(st@.utxos, i);
                    }
                }
                st.utxos.delete_utxo(tx_id, out);
                let ghost prev = snap.utxo_changes@;
                let c = UtxoChange::Put { tx_id: clone_bytes(tx_id), out, output: o };
                let ghost cv = c@;
                snap.utxo_changes.push(c);
                proof {
                    assert(changes_view(snap.utxo_changes@)
                        =~= changes_view(prev).push(cv)) by {
                        assert forall|m: int| 0 <= m < prev.len() + 1 implies
                            changes_view(snap.utxo_changes@)[m]
                                == changes_view(prev).push(cv)[m] by {
                            if m < prev.len() {
                                assert(snap.utxo_changes@[m] == prev[m]);
                            } else {
                                assert(snap.utxo_changes@[m] == snap.utxo_changes@.last());
                            }
                        }
                    }
                    let cs = changes_view(snap.utxo_changes@);
                    assert(cs.drop_last() =~= changes_view(prev));
                    assert(apply_restore(st.umap(), cv) =~= u0);
                    assert(restore_fold(st.umap(), cs) == restore_fold(u0, changes_view(prev)));
                    assert forall|i: int| 0 <= i < snap.utxo_changes@.len() implies change_wf(
                        #[trigger] snap.utxo_changes@[i]@,
                    ) by {
                        if i < prev.len() {
                            assert(snap.utxo_changes@[i] == prev[i]);
                        } else {
                            assert(snap.utxo_changes@[i]@ == cv);
                        }
                    }
                    assert forall|k: Seq<u8>|
                        #[trigger] snap.pre_blocks@.contains_key(k) implies (st.bmap().contains_key(
                        k,
                    ) && st.bmap()[k] == snap.pre_blocks@[k]) || (exists|j: int|
                        0 <= j < snap.removed_blocks@.len() && (
                        #[trigger] snap.removed_blocks@[j]@).hash == k && snap.removed_blocks@[j]@
                            == snap.pre_blocks@[k]) by {
                        assert(st.bmap() == old(st).bmap());
                        assert(snap.pre_blocks@ == old(snap).pre_blocks@);
                        assert(snap.removed_blocks@ == old(snap).removed_blocks@);
                    }
                }
            },
            None => {
                proof {
                    assert(st.umap().remove((tx_id@, out)) =~= st.umap());
                }
            },
        }
    }

/// Inserts a UTXO and records how to restore it.
fn put_utxo_recorded(
    st: &mut NodeState,
    snap: &mut ChainSnapshot,
    tx_id: &Vec<u8>,
    out: u32,
    txo: TxOutput,
)
    requires
        old(st).wf(),
        snapshot_inv(old(snap), &*old(st)),
        tx_id@.len() == 32,
        crate::tx::tx_output_wf(txo@),
    ensures
        final(st).wf(),
        snapshot_inv(final(snap), &*final(st)),
        final(st).umap() == old(st).umap().insert((tx_id@, out), txo@),
        final(st)@.blocks == old(st)@.blocks,
        final(st)@.mempool == old(st)@.mempool,
        final(st)@.orphans == old(st)@.orphans,
        final(st)@.last_hash == old(st)@.last_hash,
        final(snap).last_hash == old(snap).last_hash,
        final(snap).removed_blocks == old(snap).removed_blocks,
        final(snap).pre_utxos == old(snap).pre_utxos,
        final(snap).pre_blocks == old(snap).pre_blocks,
{
    let ghost u0 = st.umap();
    let existing: Option<TxOutput> = match st.utxos.get_utxo(tx_id, out) {
        Some(o) => Some(o.duplicate()),
        None => None,
    };
    let c = match existing {
        Some(o) => {
            proof {
                assert(crate::tx::tx_output_wf(o@)) by {
                    crate::utxo::lemma_map_domain(st@.utxos, (tx_id@, out));
                    let i = choose|i: int|
                        0 <= i < st@.utxos.len() && crate::utxo::entry_key(
                            #[trigger] st@.utxos[i],
                        ) == (tx_id@, out);
                    crate::utxo::lemma_map_index(st@.utxos, i);
                }
            }
            UtxoChange::Put { tx_id: clone_bytes(tx_id), out, output: o }
        },
        None => UtxoChange::Del { tx_id: clone_bytes(tx_id), out },
    };
    st.utxos.put_utxo(tx_id, out, txo);
    let ghost prev = snap.utxo_changes@;
    let ghost cv = c@;
    snap.utxo_changes.push(c);
    proof {
        assert(changes_view(snap.utxo_changes@) =~= changes_view(prev).push(cv)) by {
            assert forall|m: int| 0 <= m < prev.len() + 1 implies
                changes_view(snap.utxo_changes@)[m] == changes_view(prev).push(cv)[m] by {
                if m < prev.len() {
                    assert(snap.utxo_changes@[m] == prev[m]);
                } else {
                    assert(snap.utxo_changes@[m] == snap.utxo_changes@.last());
                }
            }
        }
        let cs = changes_view(snap.utxo_changes@);
        assert(cs.drop_last() =~= changes_view(prev));
        assert(apply_restore(st.umap(), cv) =~= u0);
        assert(restore_fold(st.umap(), cs) == restore_fold(u0, changes_view(prev)));
        assert forall|i: int| 0 <= i < snap.utxo_changes@.len() implies change_wf(
            #[trigger] snap.utxo_changes@[i]@,
        ) by {
            if i < prev.len() {
                assert(snap.utxo_changes@[i] == prev[i]);
            } else {
                assert(snap.utxo_changes@[i]@ == cv);
            }
        }
        assert forall|k: Seq<u8>|
            #[trigger] snap.pre_blocks@.contains_key(k) implies (st.bmap().contains_key(k)
                && st.bmap()[k] == snap.pre_blocks@[k]) || (exists|j: int|
                0 <= j < snap.removed_blocks@.len() && (#[trigger] snap.removed_blocks@[j]@).hash
                    == k && snap.removed_blocks@[j]@ == snap.pre_blocks@[k]) by {
            assert(st.bmap() == old(st).bmap());
            assert(snap.pre_blocks@ == old(snap).pre_blocks@);
            assert(snap.removed_blocks@ == old(snap).removed_blocks@);
        }
    }
}

impl NodeState {
    /// Stores a block under its hash, replacing any block already there.
    pub fn force_put_block(&mut self, block: Block)
        requires
            old(self).wf(),
            block_wf(block@),
        ensures
            final(self).wf(),
            final(self).bmap() == old(self).bmap().insert(block@.hash, block@),
            forall|k: Seq<u8>|
                old(self).bmap().contains_key(k) && k != block@.hash
                    ==> #[trigger] final(self).bmap().contains_key(k) && final(self).bmap()[k]
                    == old(self).bmap()[k],
            final(self)@.utxos == old(self)@.utxos,
            final(self)@.mempool == old(self)@.mempool,
            final(self)@.orphans == old(self)@.orphans,
            final(self)@.last_hash == old(self)@.last_hash,
    {
        self.delete_block(&block.hash);
        let ghost mid = self.bmap();
        self.put_block(block);
        proof {
            assert(!mid.contains_key(block@.hash));
            assert(final(self).bmap() =~= old(self).bmap().insert(block@.hash, block@));
        }
    }
}

/// The decision the longest-chain scan takes for one orphan chain: adopt it
/// when it would be strictly longer than the current chain; prune it when it
/// has fallen more than `MAX_ORPHAN_CHAIN_AGE` blocks behind; keep it
/// otherwise. A chain exactly `MAX_ORPHAN_CHAIN_AGE` behind is retained.
#[derive(Clone, Copy, Debug, PartialEq, Eq, Structural)]
pub enum OrphanAction {
    Adopt,
    Prune,
    Retain,
}

/// The decision `orphan_chain_action` takes, as a spec function.
pub open spec fn orphan_action_of(base_height: u32, chain_len: int, tip_height: u32) -> OrphanAction {
    if base_height + chain_len > tip_height {
        OrphanAction::Adopt
    } else if tip_height - (base_height + chain_len) > MAX_ORPHAN_CHAIN_AGE {
        OrphanAction::Prune
    } else {
        OrphanAction::Retain
    }
}

/// Decides what to do with an orphan chain of length `chain_len` rooted on a
/// base block at `base_height`, against a tip at `tip_height`.
pub fn orphan_chain_action(base_height: u32, chain_len: u64, tip_height: u32) -> (r: OrphanAction)
    requires
        chain_len <= 0xffff_ffff,
    ensures
        r == OrphanAction::Adopt <==> base_height + chain_len > tip_height,
        r == OrphanAction::Prune <==> base_height + chain_len <= tip_height && tip_height
            - (base_height + chain_len) > MAX_ORPHAN_CHAIN_AGE,
        r == OrphanAction::Retain <==> base_height + chain_len <= tip_height && tip_height
            - (base_height + chain_len) <= MAX_ORPHAN_CHAIN_AGE,
{
    let reach: u64 = base_height as u64 + chain_len;
    if reach > tip_height as u64 {
        OrphanAction::Adopt
    } else if (tip_height as u64 - reach) > MAX_ORPHAN_CHAIN_AGE as u64 {
        OrphanAction::Prune
    } else {
        OrphanAction::Retain
    }
}


/// A lineage stays linked in any second map that agrees with the first on
/// every key the first holds.
pub proof fn lemma_chain_ok_submap(
    bm1: Map<Seq<u8>, BlockV>,
    bm2: Map<Seq<u8>, BlockV>,
    h: Seq<u8>,
    height: nat,
)
    requires
        chain_ok(bm1, h, height),
        forall|k: Seq<u8>|
            #[trigger] bm1.contains_key(k) ==> bm2.contains_key(k) && bm2[k] == bm1[k],
    ensures
        chain_ok(bm2, h, height),
    decreases height,
{
    if height > 0 {
        lemma_chain_ok_submap(bm1, bm2, bm1[h].prev_hash, (height - 1) as nat);
    }
}

/// Removing a block above the lineage's height keeps the lineage linked.
pub proof fn lemma_chain_ok_remove(
    bm: Map<Seq<u8>, BlockV>,
    h: Seq<u8>,
    height: nat,
    d: Seq<u8>,
)
    requires
        chain_ok(bm, h, height),
        bm.contains_key(d) ==> bm[d].height > height,
    ensures
        chain_ok(bm.remove(d), h, height),
    decreases height,
{
    assert(bm[h].height == height);
    assert(h != d);
    if height > 0 {
        lemma_chain_ok_remove(bm, bm[h].prev_hash, (height - 1) as nat, d);
    }
}

impl NodeState {
    /// Takes a snapshot before a rollback to `base_hash`: the tip hash, the
    /// list of blocks that the rollback will remove (tip down, exclusive of
    /// the base), and the exact UTXO and block maps to restore.
    pub fn create_snapshot(&self, base_hash: &Vec<u8>) -> (r: Result<ChainSnapshot, ChainError>)
        requires
            self.wf(),
            node_chain_wf(self),
            self@.last_hash is Some,
        ensures
            r is Err ==> r->Err_0 == ChainError::RollbackFailed,
            r is Ok <==> exists|k: nat|
                k <= self.bmap()[self@.last_hash.unwrap()].height && (#[trigger] crate::chain::chain_at(
                    self.bmap(),
                    self@.last_hash.unwrap(),
                    self.bmap()[self@.last_hash.unwrap()].height as nat,
                    k,
                )).hash == base_hash@,
            r is Ok ==> {
                let snap = r->Ok_0;
                let bm = self.bmap();
                let tip = self@.last_hash.unwrap();
                let th = bm[tip].height as nat;
                &&& snapshot_inv(&snap, self)
                &&& snap.pre_utxos@ == self.umap()
                &&& snap.pre_blocks@ == bm
                &&& snap.last_hash@ == tip
                &&& snap.utxo_changes@.len() == 0
                &&& bm.contains_key(base_hash@)
                &&& chain_ok(bm, base_hash@, bm[base_hash@].height as nat)
                &&& bm[base_hash@].height <= th
                &&& snap.removed_blocks@.len() == th - bm[base_hash@].height
                &&& forall|j: int|
                    0 <= j < snap.removed_blocks@.len() ==> (#[trigger] snap.removed_blocks@[j])@
                        == crate::chain::chain_at(bm, tip, th, (th - j) as nat)
            },
    {
        let ghost bm = self.bmap();
        let ghost tip = self@.last_hash.unwrap();
        let ghost th = bm[tip].height as nat;
        let last_hash = match self.get_last_hash() {
            Ok(h) => h,
            Err(_) => {
                proof {
                    assert(false);
                }
                return Err(ChainError::RollbackFailed);
            },
        };
        let mut curr_block = match self.get_block(&last_hash) {
            Some(b) => b.duplicate(),
            None => {
                proof {
                    assert(false);
                }
                return Err(ChainError::RollbackFailed);
            },
        };
        let mut removed: Vec<Block> = Vec::new();
        loop
            invariant
                self.wf(),
                bm == self.bmap(),
                tip == self@.last_hash.unwrap(),
                self@.last_hash is Some,
                last_hash@ == tip,
                last_hash@.len() == 32,
                th == bm[tip].height as nat,
                chain_ok(bm, tip, th),
                chain_ok(bm, curr_block@.hash, curr_block@.height as nat),
                curr_block@ == crate::chain::chain_at(bm, tip, th, curr_block@.height as nat),
                removed@.len() == th - curr_block@.height,
                forall|j: int|
                    0 <= j < removed@.len() ==> (#[trigger] removed@[j])@
                        == crate::chain::chain_at(bm, tip, th, (th - j) as nat),
                forall|lv: nat|
                    curr_block@.height < lv <= th ==> (#[trigger] crate::chain::chain_at(
                        bm,
                        tip,
                        th,
                        lv,
                    )).hash != base_hash@,
            decreases curr_block@.height + 1,
        {
            proof {
                crate::chain::lemma_chain_at_ok(bm, tip, th, curr_block@.height as nat);
                assert(curr_block@ == bm[curr_block@.hash]);
                lemma_chain_ok_unfold(bm, curr_block@.hash, curr_block@.height as nat);
            }
            if crate::bytes::bytes_eq(&curr_block.hash, base_hash) {
                proof {
                    assert(crate::chain::chain_at(bm, tip, th, curr_block@.height as nat).hash
                        == base_hash@);
                }
                let snap = ChainSnapshot {
                    last_hash,
                    utxo_changes: Vec::new(),
                    removed_blocks: removed,
                    pre_utxos: Ghost(self.umap()),
                    pre_blocks: Ghost(bm),
                };
                proof {
                    assert(changes_view(snap.utxo_changes@) =~= Seq::<UtxoChangeV>::empty());
                    assert(restore_fold(self.umap(), changes_view(snap.utxo_changes@))
                        == self.umap());
                    assert forall|j: int| 0 <= j < snap.removed_blocks@.len() implies block_wf(
                        #[trigger] snap.removed_blocks@[j]@,
                    ) by {
                        assert(snap.removed_blocks@[j]@
                            == crate::chain::chain_at(bm, tip, th, (th - j) as nat));
                        crate::chain::lemma_chain_at_ok(bm, tip, th, (th - j) as nat);
                        lemma_bmap_wf(self@.blocks, snap.removed_blocks@[j]@.hash);
                    }
                    assert forall|j: int|
                        0 <= j < snap.removed_blocks@.len() implies snap.pre_blocks@.contains_key(
                        (#[trigger] snap.removed_blocks@[j]@).hash,
                    ) && snap.pre_blocks@[snap.removed_blocks@[j]@.hash]
                        == snap.removed_blocks@[j]@ by {
                        crate::chain::lemma_chain_at_ok(bm, tip, th, (th - j) as nat);
                    }
                }
                return Ok(snap);
            }
            if curr_block.is_genesis() {
                proof {
                    if exists|k: nat|
                        k <= th && (#[trigger] crate::chain::chain_at(bm, tip, th, k)).hash
                            == base_hash@ {
                        let k0 = choose|k: nat|
                            k <= th && (#[trigger] crate::chain::chain_at(bm, tip, th, k)).hash
                                == base_hash@;
                        assert(curr_block@.height == 0) by {
                            if curr_block@.height != 0 {
                                assert(bm[curr_block@.hash].prev_hash == crate::bytes::zero32());
                            }
                        }
                        if k0 == 0 {
                            assert(crate::chain::chain_at(bm, tip, th, 0).hash == curr_block@.hash);
                            assert(false);
                        } else {
                            assert(false);
                        }
                    }
                }
                return Err(ChainError::RollbackFailed);
            }
            proof {
                assert(curr_block@.height > 0) by {
                    if curr_block@.height == 0 {
                        assert(bm[curr_block@.hash].prev_hash == crate::bytes::zero32());
                    }
                }
                lemma_chain_ok_unfold(bm, bm[curr_block@.hash].prev_hash,
                    (curr_block@.height - 1) as nat);
                crate::chain::lemma_chain_at_step(bm, tip, th, curr_block@.height as nat);
                crate::chain::lemma_chain_at_ok(bm, tip, th, (curr_block@.height - 1) as nat);
            }
            let dup = curr_block.duplicate();
            removed.push(dup);
            proof {
                assert(removed@[removed@.len() - 1]@
                    == crate::chain::chain_at(bm, tip, th, curr_block@.height as nat));
            }
            let prev = match self.get_block(&curr_block.prev_hash) {
                Some(b) => b.duplicate(),
                None => {
                    proof {
                        assert(false);
                    }
                    return Err(ChainError::RollbackFailed);
                },
            };
            curr_block = prev;
        }
    }

    /// Restores a snapshot: writes the saved tip hash back, undoes every
    /// recorded UTXO change newest first, and re-inserts every removed block.
    /// Afterwards the UTXO set and the tip are exactly as saved, and every
    /// block of the saved block map is stored unchanged.
    pub fn restore_snapshot(&mut self, snap: &ChainSnapshot)
        requires
            old(self).wf(),
            snapshot_inv(snap, &*old(self)),
        ensures
            final(self).wf(),
            final(self).umap() == snap.pre_utxos@,
            final(self)@.last_hash == Some(snap.last_hash@),
            forall|k: Seq<u8>|
                #[trigger] snap.pre_blocks@.contains_key(k) ==> final(self).bmap().contains_key(k)
                    && final(self).bmap()[k] == snap.pre_blocks@[k],
            final(self)@.mempool == old(self)@.mempool,
            final(self)@.orphans == old(self)@.orphans,
    {
        self.put_last_hash(&snap.last_hash);
        let ghost cs = changes_view(snap.utxo_changes@);
        proof {
            assert(cs.take(snap.utxo_changes@.len() as int) =~= cs);
        }
        let mut j: usize = snap.utxo_changes.len();
        while j > 0
            invariant
                self.wf(),
                cs == changes_view(snap.utxo_changes@),
                j <= snap.utxo_changes@.len(),
                cs.len() == snap.utxo_changes@.len(),
                forall|i: int| 0 <= i < cs.len() ==> change_wf(#[trigger] cs[i]),
                restore_fold(self.umap(), cs.take(j as int)) == snap.pre_utxos@,
                self@.blocks == old(self)@.blocks,
                self@.mempool == old(self)@.mempool,
                self@.orphans == old(self)@.orphans,
                self@.last_hash == Some(snap.last_hash@),
            decreases j,
        {
            proof {
                assert(cs.take(j as int).drop_last() =~= cs.take(j - 1));
                assert(cs.take(j as int).last() == cs[j - 1]);
                assert(change_wf(cs[j - 1]));
            }
            match &snap.utxo_changes[j - 1] {
                UtxoChange::Put { tx_id, out, output } => {
                    self.utxos.put_utxo(tx_id, *out, output.duplicate());
                },
                UtxoChange::Del { tx_id, out } => {
                    self.utxos.delete_utxo(tx_id, *out);
                },
            }
            j = j - 1;
        }
        proof {
            assert(cs.take(0) =~= Seq::<UtxoChangeV>::empty());
        }
        let mut i: usize = 0;
        while i < snap.removed_blocks.len()
            invariant
                self.wf(),
                i <= snap.removed_blocks@.len(),
                forall|q: int|
                    0 <= q < snap.removed_blocks@.len() ==> block_wf(
                        #[trigger] snap.removed_blocks@[q]@,
                    ) && snap.pre_blocks@.contains_key(snap.removed_blocks@[q]@.hash)
                        && snap.pre_blocks@[snap.removed_blocks@[q]@.hash]
                        == snap.removed_blocks@[q]@,
                forall|k: Seq<u8>|
                    #[trigger] snap.pre_blocks@.contains_key(k) ==> (self.bmap().contains_key(k)
                        && self.bmap()[k] == snap.pre_blocks@[k]) || (exists|q: int|
                        i <= q < snap.removed_blocks@.len() && (
                        #[trigger] snap.removed_blocks@[q]@).hash == k),
                self.umap() == snap.pre_utxos@,
                self@.mempool == old(self)@.mempool,
                self@.orphans == old(self)@.orphans,
                self@.last_hash == Some(snap.last_hash@),
            decreases snap.removed_blocks@.len() - i,
        {
            let ghost pre_bm = self.bmap();
            let b = snap.removed_blocks[i].duplicate();
            let ghost bv = b@;
            self.force_put_block(b);
            proof {
                assert(bv == snap.removed_blocks@[i as int]@);
                assert forall|k: Seq<u8>|
                    #[trigger] snap.pre_blocks@.contains_key(k) implies (self.bmap().contains_key(
                    k,
                ) && self.bmap()[k] == snap.pre_blocks@[k]) || (exists|q: int|
                    i + 1 <= q < snap.removed_blocks@.len() && (
                    #[trigger] snap.removed_blocks@[q]@).hash == k) by {
                    if k == bv.hash {
                        assert(self.bmap()[k] == bv);
                        assert(snap.pre_blocks@[k] == bv);
                    } else {
                        if pre_bm.contains_key(k) && pre_bm[k] == snap.pre_blocks@[k] {
                            assert(self.bmap().contains_key(k));
                            assert(self.bmap()[k] == pre_bm[k]);
                        } else {
                            let q = choose|q: int|
                                i <= q < snap.removed_blocks@.len() && (
                                #[trigger] snap.removed_blocks@[q]@).hash == k;
                            assert(q != i);
                        }
                    }
                }
            }
            i = i + 1;
        }
        proof {
            assert forall|k: Seq<u8>|
                #[trigger] snap.pre_blocks@.contains_key(k) implies self.bmap().contains_key(k)
                    && self.bmap()[k] == snap.pre_blocks@[k] by {}
        }
    }
}


/// A first-match search among well-formed transactions finds a well-formed
/// transaction.
pub proof fn lemma_first_tx_wf(txs: Seq<TxV>, id: Seq<u8>)
    requires
        forall|i: int| 0 <= i < txs.len() ==> tx_wf(#[trigger] txs[i]),
    ensures
        crate::chain::first_tx_with_id(txs, id) is Some ==> tx_wf(
            crate::chain::first_tx_with_id(txs, id).unwrap(),
        ),
    decreases txs.len(),
{
    if txs.len() > 0 && txs[0].id != id {
        assert forall|i: int| 0 <= i < txs.skip(1).len() implies tx_wf(
            #[trigger] txs.skip(1)[i],
        ) by {
            assert(txs.skip(1)[i] == txs[i + 1]);
        }
        lemma_first_tx_wf(txs.skip(1), id);
    }
}

/// A transaction found on a chain of well-formed blocks is well-formed.
pub proof fn lemma_lookup_tx_wf(bm: Map<Seq<u8>, BlockV>, h: Seq<u8>, height: nat, id: Seq<u8>)
    requires
        chain_ok(bm, h, height),
        forall|k: Seq<u8>| #[trigger] bm.contains_key(k) ==> block_wf(bm[k]),
    ensures
        chain_tx_lookup(bm, h, height, id) is Some ==> tx_wf(
            chain_tx_lookup(bm, h, height, id).unwrap(),
        ),
    decreases height,
{
    assert(block_wf(bm[h]));
    lemma_first_tx_wf(bm[h].txs, id);
    if crate::chain::first_tx_with_id(bm[h].txs, id) is Some {
    } else if height > 0 {
        lemma_lookup_tx_wf(bm, bm[h].prev_hash, (height - 1) as nat, id);
    }
}

impl NodeState {
    /// Every stored block is well-formed.
    proof fn lemma_all_blocks_wf(&self)
        requires
            self.wf(),
        ensures
            forall|k: Seq<u8>| #[trigger] self.bmap().contains_key(k) ==> block_wf(self.bmap()[k]),
    {
        assert forall|k: Seq<u8>| #[trigger] self.bmap().contains_key(k) implies block_wf(
            self.bmap()[k],
        ) by {
            lemma_bmap_wf(self@.blocks, k);
        }
    }

    /// Rolls the chain back to the base block the snapshot was taken for:
    /// undoes every rolled-back block's UTXO effects (recording the inverse
    /// of each change in the snapshot), returns its non-coinbase transactions
    /// to the mempool where they do not conflict, deletes exactly the
    /// rolled-back block records, and points the tip at the base. It succeeds
    /// exactly when every spent output can be reinstated from the chain, and
    /// on success the UTXO map is exactly the reverted one. On failure the
    /// snapshot can still be restored.
    pub fn rollback_chain_to_block(
        &mut self,
        snap: &mut ChainSnapshot,
        target_hash: &Vec<u8>,
    ) -> (r: Result<(), ChainError>)
        requires
            old(self).wf(),
            node_chain_wf(&*old(self)),
            old(self)@.last_hash is Some,
            snapshot_inv(old(snap), &*old(self)),
            old(snap).pre_blocks@ == old(self).bmap(),
            old(self).bmap().contains_key(target_hash@),
            chain_ok(
                old(self).bmap(),
                target_hash@,
                old(self).bmap()[target_hash@].height as nat,
            ),
            old(snap).removed_blocks@.len() == old(self).bmap()[old(self)@.last_hash.unwrap()].height
                - old(self).bmap()[target_hash@].height,
            forall|j: int|
                0 <= j < old(snap).removed_blocks@.len() ==> (
                #[trigger] old(snap).removed_blocks@[j])@ == crate::chain::chain_at(
                    old(self).bmap(),
                    old(self)@.last_hash.unwrap(),
                    old(self).bmap()[old(self)@.last_hash.unwrap()].height as nat,
                    (old(self).bmap()[old(self)@.last_hash.unwrap()].height - j) as nat,
                ),
        ensures
            final(self).wf(),
            snapshot_inv(final(snap), &*final(self)),
            final(snap).pre_utxos == old(snap).pre_utxos,
            final(snap).pre_blocks == old(snap).pre_blocks,
            final(snap).last_hash == old(snap).last_hash,
            final(snap).removed_blocks == old(snap).removed_blocks,
            final(self)@.orphans == old(self)@.orphans,
            forall|j: int|
                0 <= j < final(self)@.mempool.len() ==> old(self)@.mempool.contains(
                    #[trigger] final(self)@.mempool[j],
                ) || tx_of_blocks(
                    crate::store::blocks_view(old(snap).removed_blocks@),
                    final(self)@.mempool[j],
                ),
            r is Ok <==> rollback_inputs_ok(
                crate::store::blocks_view(old(snap).removed_blocks@),
                old(self).bmap(),
                old(self)@.last_hash.unwrap(),
                old(self).bmap()[old(self)@.last_hash.unwrap()].height as nat,
            ),
            r is Ok ==> node_chain_wf(&*final(self)) && final(self)@.last_hash == Some(
                target_hash@,
            ),
            r is Ok ==> final(self).umap() == revert_blocks_utxo(
                old(self).umap(),
                crate::store::blocks_view(old(snap).removed_blocks@),
                old(self).bmap(),
                old(self)@.last_hash.unwrap(),
                old(self).bmap()[old(self)@.last_hash.unwrap()].height as nat,
            ),
            r is Ok ==> forall|k: Seq<u8>|
                (#[trigger] final(self).bmap().contains_key(k) <==> old(self).bmap().contains_key(
                    k,
                ) && !(exists|j: int|
                    0 <= j < old(snap).removed_blocks@.len() && (
                    #[trigger] old(snap).removed_blocks@[j])@.hash == k)) && (
                final(self).bmap().contains_key(k) ==> final(self).bmap()[k]
                    == old(self).bmap()[k]),
            r is Err ==> r->Err_0 == ChainError::RollbackFailed,
    {
        let ghost bm0 = self.bmap();
        let ghost tip0 = self@.last_hash.unwrap();
        let ghost th0 = bm0[tip0].height as nat;
        let ghost base_h = bm0[target_hash@].height as nat;
        let ghost u0 = self.umap();
        let ghost rv = crate::store::blocks_view(old(snap).removed_blocks@);
        proof {
            lemma_bmap_wf(self@.blocks, target_hash@);
            assert(target_hash@.len() == 32) by {
                assert(block_wf(bm0[target_hash@]));
                assert(bm0[target_hash@].hash == target_hash@);
            }
            assert(base_h <= th0) by {
                assert(old(snap).removed_blocks@.len() >= 0);
            }
            assert(rv.take(0) =~= Seq::<BlockV>::empty());
        }
        // Undo the UTXO effects of every rolled-back block, highest first,
        // and return their transactions to the mempool.
        let mut i: usize = 0;
        while i < snap.removed_blocks.len()
            invariant
                self.wf(),
                node_chain_wf(&*self),
                self@.last_hash is Some,
                self@.blocks == old(self)@.blocks,
                self@.last_hash == old(self)@.last_hash,
                self@.orphans == old(self)@.orphans,
                bm0 == self.bmap(),
                tip0 == self@.last_hash.unwrap(),
                th0 == bm0[tip0].height as nat,
                snapshot_inv(&*snap, &*self),
                snap.pre_utxos == old(snap).pre_utxos,
                snap.pre_blocks == old(snap).pre_blocks,
                snap.last_hash == old(snap).last_hash,
                snap.removed_blocks == old(snap).removed_blocks,
                rv == crate::store::blocks_view(snap.removed_blocks@),
                i <= snap.removed_blocks@.len(),
                rv.len() == snap.removed_blocks@.len(),
                self.umap() == revert_blocks_utxo(u0, rv.take(i as int), bm0, tip0, th0),
                rollback_inputs_ok(rv.take(i as int), bm0, tip0, th0),
                forall|j: int|
                    0 <= j < self@.mempool.len() ==> old(self)@.mempool.contains(
                        #[trigger] self@.mempool[j],
                    ) || tx_of_blocks(rv, self@.mempool[j]),
            decreases snap.removed_blocks@.len() - i,
        {
            let block = snap.removed_blocks[i].duplicate();
            proof {
                assert(block_wf(block@));
                assert(block@ == rv[i as int]);
                assert(rv.take(i + 1).drop_last() =~= rv.take(i as int));
                assert(rv.take(i + 1).last() == rv[i as int]);
            }
            let ghost u_blk = self.umap();
            let ghost btxs = block@.txs;
            let mut t: usize = 0;
            while t < block.txs.len()
                invariant
                    self.wf(),
                    node_chain_wf(&*self),
                    self@.last_hash is Some,
                    self@.blocks == old(self)@.blocks,
                    self@.last_hash == old(self)@.last_hash,
                    self@.orphans == old(self)@.orphans,
                    bm0 == self.bmap(),
                    tip0 == self@.last_hash.unwrap(),
                    th0 == bm0[tip0].height as nat,
                    snapshot_inv(&*snap, &*self),
                    snap.pre_utxos == old(snap).pre_utxos,
                    snap.pre_blocks == old(snap).pre_blocks,
                    snap.last_hash == old(snap).last_hash,
                    snap.removed_blocks == old(snap).removed_blocks,
                    rv == crate::store::blocks_view(snap.removed_blocks@),
                    i < rv.len(),
                    rollback_inputs_ok(rv.take(i as int), bm0, tip0, th0),
                    block_wf(block@),
                    block@ == rv[i as int],
                    btxs == block@.txs,
                    t <= block.txs@.len(),
                    btxs.len() == block.txs@.len(),
                    self.umap() == revert_txs_utxo(u_blk, btxs.take(t as int), bm0, tip0, th0),
                    forall|j: int|
                        0 <= j < self@.mempool.len() ==> old(self)@.mempool.contains(
                            #[trigger] self@.mempool[j],
                        ) || tx_of_blocks(rv, self@.mempool[j]),
                    forall|t2: int, p2: int|
                        0 <= t2 < t && !is_coinbase_v(btxs[t2]) && 0 <= p2
                            < btxs[t2].inputs.len() ==> {
                            let inp = #[trigger] btxs[t2].inputs[p2];
                            &&& chain_tx_lookup(bm0, tip0, th0, inp.prev_tx_id) is Some
                            &&& inp.out < chain_tx_lookup(
                                bm0,
                                tip0,
                                th0,
                                inp.prev_tx_id,
                            ).unwrap().outputs.len()
                        },
                decreases block.txs@.len() - t,
            {
                let tx = &block.txs[t];
                proof {
                    assert(tx@ == btxs[t as int]);
                    assert(tx_wf(tx@));
                    assert(btxs.take(t + 1).drop_last() =~= btxs.take(t as int));
                    assert(btxs.take(t + 1).last() == btxs[t as int]);
                }
                let ghost u_tx = self.umap();
                let ghost mem_tx = self@.mempool;
                // Remove the UTXOs this transaction created.
                let mut k: usize = 0;
                while k < tx.outputs.len()
                    invariant
                        self.wf(),
                        node_chain_wf(&*self),
                        self@.last_hash is Some,
                        self@.blocks == old(self)@.blocks,
                        self@.last_hash == old(self)@.last_hash,
                        self@.orphans == old(self)@.orphans,
                        bm0 == self.bmap(),
                        tip0 == self@.last_hash.unwrap(),
                        th0 == bm0[tip0].height as nat,
                        snapshot_inv(&*snap, &*self),
                        snap.pre_utxos == old(snap).pre_utxos,
                        snap.pre_blocks == old(snap).pre_blocks,
                        snap.last_hash == old(snap).last_hash,
                        snap.removed_blocks == old(snap).removed_blocks,
                        tx_wf(tx@),
                        k <= tx.outputs@.len(),
                        tx@.outputs.len() == tx.outputs@.len(),
                        self.umap() == remove_tx_outputs(u_tx, tx@.id, k as nat),
                        self@.mempool == mem_tx,
                        forall|j: int|
                            0 <= j < self@.mempool.len() ==> old(self)@.mempool.contains(
                                #[trigger] self@.mempool[j],
                            ) || tx_of_blocks(rv, self@.mempool[j]),
                    decreases tx.outputs@.len() - k,
                {
                    delete_utxo_recorded(self, snap, &tx.id, k as u32);
                    k = k + 1;
                }
                // Reinstate the UTXOs this transaction spent, looked up on
                // the not-yet-deleted chain.
                let ghost u_mid = self.umap();
                let cb = tx.is_coinbase();
                if !cb {
                    proof {
                        assert(tx@.inputs.take(0) =~= Seq::<crate::tx::TxInputV>::empty());
                    }
                    let mut p: usize = 0;
                    while p < tx.inputs.len()
                        invariant
                            self.wf(),
                            node_chain_wf(&*self),
                            self@.last_hash is Some,
                            self@.blocks == old(self)@.blocks,
                            self@.last_hash == old(self)@.last_hash,
                            self@.orphans == old(self)@.orphans,
                            bm0 == self.bmap(),
                            tip0 == self@.last_hash.unwrap(),
                            th0 == bm0[tip0].height as nat,
                            snapshot_inv(&*snap, &*self),
                            snap.pre_utxos == old(snap).pre_utxos,
                            snap.pre_blocks == old(snap).pre_blocks,
                            snap.last_hash == old(snap).last_hash,
                            snap.removed_blocks == old(snap).removed_blocks,
                            rv == crate::store::blocks_view(snap.removed_blocks@),
                            tx_wf(tx@),
                            i < rv.len(),
                            t < btxs.len(),
                            rv[i as int].txs == btxs,
                            btxs[t as int] == tx@,
                            !is_coinbase_v(tx@),
                            self@.mempool == mem_tx,
                            forall|j: int|
                                0 <= j < self@.mempool.len() ==> old(self)@.mempool.contains(
                                    #[trigger] self@.mempool[j],
                                ) || tx_of_blocks(rv, self@.mempool[j]),
                            p <= tx.inputs@.len(),
                            tx@.inputs.len() == tx.inputs@.len(),
                            self.umap() == reinstate_inputs(
                                u_mid,
                                tx@.inputs.take(p as int),
                                bm0,
                                tip0,
                                th0,
                            ),
                            forall|p2: int|
                                0 <= p2 < p ==> {
                                    let inp = #[trigger] tx@.inputs[p2];
                                    &&& chain_tx_lookup(bm0, tip0, th0, inp.prev_tx_id) is Some
                                    &&& inp.out < chain_tx_lookup(
                                        bm0,
                                        tip0,
                                        th0,
                                        inp.prev_tx_id,
                                    ).unwrap().outputs.len()
                                },
                        decreases tx.inputs@.len() - p,
                    {
                        let inp = &tx.inputs[p];
                        proof {
                            assert(inp@ == tx@.inputs[p as int]);
                            assert(crate::tx::tx_input_wf(tx@.inputs[p as int]));
                            assert(tx@.inputs.take(p + 1).drop_last() =~= tx@.inputs.take(p as int));
                            assert(tx@.inputs.take(p + 1).last() == tx@.inputs[p as int]);
                        }
                        let prev_tx = match self.get_tx_from_chain(&inp.prev_tx_id) {
                            Ok(t2) => t2,
                            Err(_) => {
                                proof {
                                    assert(rv[i as int].txs[t as int] == tx@);
                                    assert(rv[i as int].txs[t as int].inputs[p as int] == inp@);
                                    assert(!(chain_tx_lookup(bm0, tip0, th0, inp@.prev_tx_id)
                                        is Some));
                                    assert(!rollback_inputs_ok(rv, bm0, tip0, th0));
                                }
                                return Err(ChainError::RollbackFailed);
                            },
                        };
                        proof {
                            self.lemma_all_blocks_wf();
                            lemma_lookup_tx_wf(
                                self.bmap(),
                                self@.last_hash.unwrap(),
                                self.bmap()[self@.last_hash.unwrap()].height as nat,
                                inp.prev_tx_id@,
                            );
                            assert(tx_wf(prev_tx@));
                        }
                        let oi = inp.out as usize;
                        if oi >= prev_tx.outputs.len() {
                            proof {
                                assert(rv[i as int].txs[t as int] == tx@);
                                assert(rv[i as int].txs[t as int].inputs[p as int] == inp@);
                                assert(prev_tx@ == chain_tx_lookup(
                                    bm0,
                                    tip0,
                                    th0,
                                    inp@.prev_tx_id,
                                ).unwrap());
                                assert(!(inp@.out < chain_tx_lookup(
                                    bm0,
                                    tip0,
                                    th0,
                                    inp@.prev_tx_id,
                                ).unwrap().outputs.len()));
                                assert(!rollback_inputs_ok(rv, bm0, tip0, th0));
                            }
                            return Err(ChainError::RollbackFailed);
                        }
                        let txo = prev_tx.outputs[oi].duplicate();
                        proof {
                            assert(crate::tx::tx_output_wf(prev_tx@.outputs[oi as int]));
                            assert(txo@ == chain_tx_lookup(
                                bm0,
                                tip0,
                                th0,
                                inp@.prev_tx_id,
                            ).unwrap().outputs[inp@.out as int]);
                        }
                        put_utxo_recorded(self, snap, &inp.prev_tx_id, inp.out, txo);
                        p = p + 1;
                    }
                    proof {
                        assert(tx@.inputs.take(tx@.inputs.len() as int) =~= tx@.inputs);
                    }
                    // Return the transaction to the mempool, unless it now
                    // conflicts with a pending transaction.
                    let back = tx.duplicate();
                    let ghost mem_before = self@.mempool;
                    let _ = self.mempool.add_tx_to_mempool(&back);
                    proof {
                        assert forall|j: int|
                            0 <= j < self@.mempool.len() implies old(self)@.mempool.contains(
                            #[trigger] self@.mempool[j],
                        ) || tx_of_blocks(rv, self@.mempool[j]) by {
                            if mem_before.contains(self@.mempool[j]) {
                                let q0 = choose|q: int|
                                    0 <= q < mem_before.len() && mem_before[q] == self@.mempool[j];
                                assert(old(self)@.mempool.contains(mem_before[q0])
                                    || tx_of_blocks(rv, mem_before[q0]));
                            } else {
                                assert(self@.mempool[j] == back@);
                                assert(rv[i as int].txs[t as int] == tx@);
                                assert(tx_of_blocks(rv, back@));
                            }
                        }
                    }
                }
                proof {
                    assert(self.umap() == revert_tx_utxo(u_tx, btxs[t as int], bm0, tip0, th0));
                    assert(self.umap() == revert_txs_utxo(
                        u_blk,
                        btxs.take(t + 1),
                        bm0,
                        tip0,
                        th0,
                    ));
                }
                t = t + 1;
            }
            proof {
                assert(btxs.take(btxs.len() as int) =~= btxs);
                assert(self.umap() == revert_blocks_utxo(u0, rv.take(i + 1), bm0, tip0, th0));
                assert forall|i2: int, t2: int, p2: int|
                    0 <= i2 < i + 1 && 0 <= t2 < rv.take(i + 1)[i2].txs.len() && !is_coinbase_v(
                        rv.take(i + 1)[i2].txs[t2],
                    ) && 0 <= p2 < rv.take(i + 1)[i2].txs[t2].inputs.len() implies {
                    let inp = #[trigger] rv.take(i + 1)[i2].txs[t2].inputs[p2];
                    &&& chain_tx_lookup(bm0, tip0, th0, inp.prev_tx_id) is Some
                    &&& inp.out < chain_tx_lookup(bm0, tip0, th0, inp.prev_tx_id).unwrap().outputs.len()
                } by {
                    if i2 < i {
                        assert(rv.take(i as int)[i2] == rv[i2]);
                        assert(rv.take(i + 1)[i2] == rv[i2]);
                    } else {
                        assert(rv.take(i + 1)[i2] == rv[i as int]);
                        assert(rv[i as int].txs == btxs);
                    }
                }
            }
            i = i + 1;
        }
        proof {
            assert(rv.take(rv.len() as int) =~= rv);
        }
        // Delete the rolled-back block records, keeping the base's lineage
        // intact, then point the tip at the base.
        let ghost base_height = bm0[target_hash@].height as nat;
        let mut d: usize = 0;
        while d < snap.removed_blocks.len()
            invariant
                self.wf(),
                snapshot_inv(&*snap, &*self),
                snap.pre_utxos == old(snap).pre_utxos,
                snap.pre_blocks@ == bm0,
                snap.last_hash == old(snap).last_hash,
                snap.removed_blocks == old(snap).removed_blocks,
                rv == crate::store::blocks_view(snap.removed_blocks@),
                self@.orphans == old(self)@.orphans,
                self.umap() == revert_blocks_utxo(u0, rv, bm0, tip0, th0),
                d <= snap.removed_blocks@.len(),
                rv.len() == snap.removed_blocks@.len(),
                base_height == bm0[target_hash@].height as nat,
                base_height <= th0,
                target_hash@.len() == 32,
                chain_ok(bm0, tip0, th0),
                th0 == bm0[tip0].height as nat,
                rv.len() <= th0 - base_height,
                forall|j: int|
                    0 <= j < rv.len() ==> #[trigger] rv[j] == crate::chain::chain_at(
                        bm0,
                        tip0,
                        th0,
                        (th0 - j) as nat,
                    ),
                chain_ok(self.bmap(), target_hash@, base_height),
                forall|j: int|
                    0 <= j < self@.mempool.len() ==> old(self)@.mempool.contains(
                        #[trigger] self@.mempool[j],
                    ) || tx_of_blocks(rv, self@.mempool[j]),
                forall|k: Seq<u8>|
                    (#[trigger] self.bmap().contains_key(k) <==> bm0.contains_key(k) && !(
                    exists|j: int| 0 <= j < d && (#[trigger] rv[j]).hash == k)) && (
                    self.bmap().contains_key(k) ==> self.bmap()[k] == bm0[k]),
            decreases snap.removed_blocks@.len() - d,
        {
            let ghost pre_bm = self.bmap();
            let h = clone_bytes(&snap.removed_blocks[d].hash);
            proof {
                let j = d as int;
                assert(rv[j] == crate::chain::chain_at(bm0, tip0, th0, (th0 - j) as nat));
                assert(snap.removed_blocks@[j]@ == rv[j]);
                crate::chain::lemma_chain_at_ok(bm0, tip0, th0, (th0 - j) as nat);
                assert(snap.removed_blocks@[j]@.height == th0 - j);
                assert(h@ == snap.removed_blocks@[j]@.hash);
                assert(pre_bm.contains_key(h@) ==> pre_bm[h@].height > base_height) by {
                    if pre_bm.contains_key(h@) {
                        assert(pre_bm[h@] == bm0[h@]);
                        assert(bm0[h@] == snap.removed_blocks@[j]@);
                    }
                }
                lemma_chain_ok_remove(pre_bm, target_hash@, base_height, h@);
            }
            self.delete_block(&h);
            proof {
                assert(self.bmap() == pre_bm.remove(h@));
                assert(h@ == rv[d as int].hash);
                assert forall|k: Seq<u8>|
                    (#[trigger] self.bmap().contains_key(k) <==> bm0.contains_key(k) && !(
                    exists|j: int| 0 <= j < d + 1 && (#[trigger] rv[j]).hash == k)) && (
                    self.bmap().contains_key(k) ==> self.bmap()[k] == bm0[k]) by {
                    if k == h@ {
                        assert(rv[d as int].hash == k);
                    } else {
                        if self.bmap().contains_key(k) {
                            assert(pre_bm.contains_key(k));
                        }
                        if exists|j: int| 0 <= j < d + 1 && (#[trigger] rv[j]).hash == k {
                            let j0 = choose|j: int| 0 <= j < d + 1 && (#[trigger] rv[j]).hash == k;
                            assert(j0 < d);
                        }
                    }
                }
                assert forall|k2: Seq<u8>|
                    #[trigger] snap.pre_blocks@.contains_key(k2) implies (self.bmap().contains_key(
                    k2,
                ) && self.bmap()[k2] == snap.pre_blocks@[k2]) || (exists|j: int|
                    0 <= j < snap.removed_blocks@.len() && (
                    #[trigger] snap.removed_blocks@[j]@).hash == k2 && snap.removed_blocks@[j]@
                        == snap.pre_blocks@[k2]) by {
                    if k2 != h@ {
                        if pre_bm.contains_key(k2) && pre_bm[k2] == snap.pre_blocks@[k2] {
                            assert(self.bmap().contains_key(k2));
                        }
                    } else {
                        assert(snap.removed_blocks@[d as int]@.hash == k2);
                        assert(snap.pre_blocks@[k2] == bm0[k2]);
                        assert(bm0[k2] == snap.removed_blocks@[d as int]@) by {
                            crate::chain::lemma_chain_at_ok(bm0, tip0, th0, (th0 - d) as nat);
                        }
                    }
                }
            }
            d = d + 1;
        }
        self.put_last_hash(target_hash);
        proof {
            assert(self.bmap().contains_key(target_hash@)) by {
                lemma_chain_ok_unfold(self.bmap(), target_hash@, base_height);
            }
            assert forall|k: Seq<u8>|
                (#[trigger] self.bmap().contains_key(k) <==> bm0.contains_key(k) && !(
                exists|j: int|
                    0 <= j < old(snap).removed_blocks@.len() && (
                    #[trigger] old(snap).removed_blocks@[j])@.hash == k)) && (
                self.bmap().contains_key(k) ==> self.bmap()[k] == bm0[k]) by {
                if exists|j: int|
                    0 <= j < old(snap).removed_blocks@.len() && (
                    #[trigger] old(snap).removed_blocks@[j])@.hash == k {
                    let j0 = choose|j: int|
                        0 <= j < old(snap).removed_blocks@.len() && (
                        #[trigger] old(snap).removed_blocks@[j])@.hash == k;
                    assert(rv[j0].hash == k);
                }
                if exists|j: int| 0 <= j < rv.len() && (#[trigger] rv[j]).hash == k {
                    let j1 = choose|j: int| 0 <= j < rv.len() && (#[trigger] rv[j]).hash == k;
                    assert(old(snap).removed_blocks@[j1]@.hash == k);
                }
            }
        }
        Ok(())
    }


    /// Fully verifies a block against the current UTXO set and applies it on
    /// top of the tip, recording every UTXO change in the snapshot: inputs
    /// deleted, outputs inserted, its transactions dropped from the mempool,
    /// the block stored and made the tip. Fails, changing nothing, when the
    /// block does not verify, does not sit directly on the tip at the next
    /// height, or its hash is already stored.
    pub fn validate_and_apply_block(
        &mut self,
        snap: &mut ChainSnapshot,
        block: &Block,
    ) -> (r: Result<(), ChainError>)
        requires
            old(self).wf(),
            node_chain_wf(&*old(self)),
            old(self)@.last_hash is Some,
            snapshot_inv(old(snap), &*old(self)),
            block_wf(block@),
        ensures
            final(self).wf(),
            snapshot_inv(final(snap), &*final(self)),
            final(snap).pre_utxos == old(snap).pre_utxos,
            final(snap).pre_blocks == old(snap).pre_blocks,
            final(snap).last_hash == old(snap).last_hash,
            final(snap).removed_blocks == old(snap).removed_blocks,
            r is Ok <==> {
                let tip = old(self)@.last_hash.unwrap();
                &&& block_valid(block@, old(self).umap())
                &&& old(self).bmap().contains_key(tip)
                &&& block@.prev_hash == tip
                &&& old(self).bmap()[tip].height < u32::MAX
                &&& block@.height == old(self).bmap()[tip].height + 1
                &&& !old(self).bmap().contains_key(block@.hash)
            },
            r is Ok ==> {
                &&& node_chain_wf(&*final(self))
                &&& final(self)@.last_hash == Some(block@.hash)
                &&& final(self).umap() == apply_txs_utxo(old(self).umap(), block@.txs)
                &&& final(self)@.orphans == old(self)@.orphans
                &&& block_valid(block@, old(self).umap())
            },
            r is Err ==> final(self)@ == old(self)@ && r->Err_0 == ChainError::StaleBlock,
    {
        if !block.verify(&self.utxos) {
            return Err(ChainError::StaleBlock);
        }
        let tip_block = match self.get_last_block() {
            Ok(b) => b,
            Err(_) => {
                proof {
                    assert(false);
                }
                return Err(ChainError::StaleBlock);
            },
        };
        if !(crate::bytes::bytes_eq(&block.prev_hash, &tip_block.hash) && tip_block.height
            < u32::MAX && block.height == tip_block.height + 1) {
            return Err(ChainError::StaleBlock);
        }
        if self.get_block(&block.hash).is_some() {
            return Err(ChainError::StaleBlock);
        }
        proof {
            lemma_bmap_wf(self@.blocks, self@.last_hash.unwrap());
            assert(tip_block@.hash == self@.last_hash.unwrap());
        }
        let ghost pre = self@;
        let ghost u0 = self.umap();
        let ghost tiph = self@.last_hash.unwrap();
        let ghost tip_height = self.bmap()[tiph].height as nat;
        let ghost txs = block@.txs;
        // Apply every transaction, recording each UTXO change.
        let mut i: usize = 0;
        while i < block.txs.len()
            invariant
                self.wf(),
                snapshot_inv(&*snap, &*self),
                snap.pre_utxos == old(snap).pre_utxos,
                snap.pre_blocks == old(snap).pre_blocks,
                snap.last_hash == old(snap).last_hash,
                snap.removed_blocks == old(snap).removed_blocks,
                block_wf(block@),
                txs == block@.txs,
                i <= block.txs@.len(),
                txs.len() == block.txs@.len(),
                self.umap() == crate::chain::apply_txs_utxo(u0, txs.take(i as int)),
                self@.blocks == pre.blocks,
                self@.mempool == pre.mempool,
                self@.orphans == pre.orphans,
                self@.last_hash == pre.last_hash,
            decreases block.txs@.len() - i,
        {
            let tx = &block.txs[i];
            proof {
                assert(tx@ == txs[i as int]);
                assert(tx_wf(tx@));
                assert(txs.take(i + 1).drop_last() =~= txs.take(i as int));
                assert(txs.take(i + 1).last() == txs[i as int]);
            }
            let ghost u_before_tx = self.umap();
            let cb = tx.is_coinbase();
            if !cb {
                let mut p: usize = 0;
                while p < tx.inputs.len()
                    invariant
                        self.wf(),
                        snapshot_inv(&*snap, &*self),
                        snap.pre_utxos == old(snap).pre_utxos,
                        snap.pre_blocks == old(snap).pre_blocks,
                        snap.last_hash == old(snap).last_hash,
                        snap.removed_blocks == old(snap).removed_blocks,
                        tx_wf(tx@),
                        p <= tx.inputs@.len(),
                        tx@.inputs.len() == tx.inputs@.len(),
                        self.umap() == crate::chain::remove_tx_inputs(
                            u_before_tx,
                            tx@.inputs.take(p as int),
                        ),
                        self@.blocks == pre.blocks,
                        self@.mempool == pre.mempool,
                        self@.orphans == pre.orphans,
                        self@.last_hash == pre.last_hash,
                    decreases tx.inputs@.len() - p,
                {
                    let inp = &tx.inputs[p];
                    proof {
                        assert(inp@ == tx@.inputs[p as int]);
                        assert(crate::tx::tx_input_wf(tx@.inputs[p as int]));
                        assert(tx@.inputs.take(p + 1).drop_last() =~= tx@.inputs.take(p as int));
                        assert(tx@.inputs.take(p + 1).last() == tx@.inputs[p as int]);
                    }
                    delete_utxo_recorded(self, snap, &inp.prev_tx_id, inp.out);
                    p = p + 1;
                }
                proof {
                    assert(tx@.inputs.take(tx@.inputs.len() as int) =~= tx@.inputs);
                }
            }
            let ghost u_after_inputs = self.umap();
            proof {
                if crate::tx::is_coinbase_v(tx@) {
                    assert(u_after_inputs == u_before_tx);
                } else {
                    assert(u_after_inputs == crate::chain::remove_tx_inputs(
                        u_before_tx,
                        tx@.inputs,
                    ));
                }
            }
            let mut k: usize = 0;
            while k < tx.outputs.len()
                invariant
                    self.wf(),
                    snapshot_inv(&*snap, &*self),
                    snap.pre_utxos == old(snap).pre_utxos,
                    snap.pre_blocks == old(snap).pre_blocks,
                    snap.last_hash == old(snap).last_hash,
                    snap.removed_blocks == old(snap).removed_blocks,
                    tx_wf(tx@),
                    k <= tx.outputs@.len(),
                    tx@.outputs.len() == tx.outputs@.len(),
                    self.umap() == crate::chain::add_tx_outputs(
                        u_after_inputs,
                        tx@.id,
                        tx@.outputs.take(k as int),
                    ),
                    self@.blocks == pre.blocks,
                    self@.mempool == pre.mempool,
                    self@.orphans == pre.orphans,
                    self@.last_hash == pre.last_hash,
                decreases tx.outputs@.len() - k,
            {
                let o = tx.outputs[k].duplicate();
                proof {
                    assert(o@ == tx@.outputs[k as int]);
                    assert(crate::tx::tx_output_wf(tx@.outputs[k as int]));
                    assert(tx@.outputs.take(k + 1).drop_last() =~= tx@.outputs.take(k as int));
                    assert(tx@.outputs.take(k + 1).last() == tx@.outputs[k as int]);
                    assert(tx@.outputs.take(k + 1).len() - 1 == k as int);
                }
                put_utxo_recorded(self, snap, &tx.id, k as u32, o);
                k = k + 1;
            }
            proof {
                assert(tx@.outputs.take(tx@.outputs.len() as int) =~= tx@.outputs);
                assert(self.umap() == crate::chain::apply_tx_utxo(u_before_tx, txs[i as int]));
            }
            i = i + 1;
        }
        proof {
            assert(txs.take(txs.len() as int) =~= txs);
        }
        // Drop the block's transactions from the mempool.
        let mut ids: Vec<Vec<u8>> = Vec::new();
        let mut t: usize = 0;
        while t < block.txs.len()
            invariant
                t <= block.txs@.len(),
            decreases block.txs@.len() - t,
        {
            ids.push(clone_bytes(&block.txs[t].id));
            t = t + 1;
        }
        self.mempool.remove_txs_from_mempool(&ids);
        // Store the block and make it the tip.
        let dup = block.duplicate();
        let ghost bm_before = self.bmap();
        self.put_block(dup);
        self.put_last_hash(&block.hash);
        proof {
            let bm = self.bmap();
            assert(bm == bm_before.insert(block@.hash, block@));
            crate::chain::lemma_chain_ok_unfold(bm_before, tiph, tip_height);
            crate::chain::lemma_chain_ok_monotone(bm_before, tiph, tip_height, block@.hash, block@);
            assert(chain_ok(bm, block@.hash, block@.height as nat));
            assert forall|k2: Seq<u8>|
                #[trigger] snap.pre_blocks@.contains_key(k2) implies (bm.contains_key(k2)
                    && bm[k2] == snap.pre_blocks@[k2]) || (exists|j: int|
                    0 <= j < snap.removed_blocks@.len() && (
                    #[trigger] snap.removed_blocks@[j]@).hash == k2 && snap.removed_blocks@[j]@
                        == snap.pre_blocks@[k2]) by {
                if k2 != block@.hash {
                    if bm_before.contains_key(k2) && bm_before[k2] == snap.pre_blocks@[k2] {
                        assert(bm.contains_key(k2));
                    }
                }
            }
        }
        Ok(())
    }

    /// Applies an orphan chain block by block on top of the current tip,
    /// validating each. On success the UTXO set is exactly the one produced
    /// by applying the chain's blocks, in order, to the base UTXO state, and
    /// the tip is the chain's last block.
    pub fn apply_orphan_chain(
        &mut self,
        snap: &mut ChainSnapshot,
        chain: &Vec<Block>,
    ) -> (r: Result<(), ChainError>)
        requires
            old(self).wf(),
            node_chain_wf(&*old(self)),
            old(self)@.last_hash is Some,
            snapshot_inv(old(snap), &*old(self)),
            forall|i: int| 0 <= i < chain@.len() ==> block_wf((#[trigger] chain@[i])@),
        ensures
            final(self).wf(),
            snapshot_inv(final(snap), &*final(self)),
            final(snap).pre_utxos == old(snap).pre_utxos,
            final(snap).pre_blocks == old(snap).pre_blocks,
            final(snap).last_hash == old(snap).last_hash,
            final(snap).removed_blocks == old(snap).removed_blocks,
            final(self)@.orphans == old(self)@.orphans,
            r is Ok ==> {
                &&& node_chain_wf(&*final(self))
                &&& final(self).umap() == apply_chain_utxo(
                    old(self).umap(),
                    crate::store::blocks_view(chain@),
                )
                &&& chain@.len() > 0 ==> final(self)@.last_hash == Some(
                    chain@[chain@.len() - 1]@.hash,
                )
                &&& chain@.len() == 0 ==> final(self)@ == old(self)@
            },
            r is Err ==> r->Err_0 == ChainError::StaleBlock,
    {
        let ghost cv = crate::store::blocks_view(chain@);
        let ghost u0 = self.umap();
        proof {
            assert(apply_chain_utxo(u0, cv.take(0)) == u0) by {
                assert(cv.take(0) =~= Seq::<BlockV>::empty());
            }
        }
        let mut i: usize = 0;
        while i < chain.len()
            invariant
                self.wf(),
                node_chain_wf(&*self),
                self@.last_hash is Some,
                snapshot_inv(&*snap, &*self),
                snap.pre_utxos == old(snap).pre_utxos,
                snap.pre_blocks == old(snap).pre_blocks,
                snap.last_hash == old(snap).last_hash,
                snap.removed_blocks == old(snap).removed_blocks,
                self@.orphans == old(self)@.orphans,
                cv == crate::store::blocks_view(chain@),
                forall|q: int| 0 <= q < chain@.len() ==> block_wf((#[trigger] chain@[q])@),
                i <= chain@.len(),
                cv.len() == chain@.len(),
                self.umap() == apply_chain_utxo(u0, cv.take(i as int)),
                i > 0 ==> self@.last_hash == Some(cv[i - 1].hash),
                i == 0 ==> self@ == old(self)@,
            decreases chain@.len() - i,
        {
            let b = &chain[i];
            proof {
                assert(b@ == cv[i as int]);
                assert(cv.take(i + 1).drop_last() =~= cv.take(i as int));
                assert(cv.take(i + 1).last() == cv[i as int]);
            }
            match self.validate_and_apply_block(snap, b) {
                Ok(_) => {},
                Err(e) => {
                    return Err(e);
                },
            }
            i = i + 1;
        }
        proof {
            assert(cv.take(cv.len() as int) =~= cv);
        }
        Ok(())
    }

    /// Adopts an orphan chain over the current lineage, atomically: snapshot,
    /// roll back to the base block, apply the chain's blocks with full
    /// validation, and drop the adopted orphans from the pool. On any failure
    /// after the snapshot, the UTXO set and the tip are restored exactly to
    /// their state before the operation began, and the error surfaces.
    pub fn adopt_orphan_chain(
        &mut self,
        mgr: &mut ChainManager,
        base_block: &Block,
        orphan_chain: &Vec<Block>,
    ) -> (r: Result<(), ChainError>)
        requires
            old(self).wf(),
            node_chain_wf(&*old(self)),
            old(self)@.last_hash is Some,
            forall|i: int| 0 <= i < orphan_chain@.len() ==> block_wf((#[trigger] orphan_chain@[i])@),
        ensures
            final(self).wf(),
            node_chain_wf(&*final(self)),
            !final(mgr).is_locked(),
            r is Ok && orphan_chain@.len() > 0 ==> final(self)@.last_hash == Some(
                orphan_chain@[orphan_chain@.len() - 1]@.hash,
            ),
            r is Ok ==> final(self).umap() == apply_chain_utxo(
                revert_blocks_utxo(
                    old(self).umap(),
                    lineage_above(
                        old(self).bmap(),
                        old(self)@.last_hash.unwrap(),
                        old(self).bmap()[old(self)@.last_hash.unwrap()].height as nat,
                        old(self).bmap()[base_block@.hash].height as nat,
                    ),
                    old(self).bmap(),
                    old(self)@.last_hash.unwrap(),
                    old(self).bmap()[old(self)@.last_hash.unwrap()].height as nat,
                ),
                crate::store::blocks_view(orphan_chain@),
            ),
            r is Err ==> final(self).umap() == old(self).umap() && final(self)@.last_hash
                == old(self)@.last_hash,
            r is Err ==> forall|k: Seq<u8>|
                #[trigger] old(self).bmap().contains_key(k) ==> final(self).bmap().contains_key(k)
                    && final(self).bmap()[k] == old(self).bmap()[k],
            r is Err ==> final(self)@.orphans == old(self)@.orphans,
    {
        match mgr.lock_chain() {
            Ok(_) => {},
            Err(e) => {
                mgr.unlock_chain();
                return Err(e);
            },
        }
        let mut snap = match self.create_snapshot(&base_block.hash) {
            Ok(s) => s,
            Err(e) => {
                mgr.unlock_chain();
                return Err(e);
            },
        };
        let ghost tip0 = self@.last_hash.unwrap();
        let ghost removed0 = snap.removed_blocks@;
        proof {
            let bm = self.bmap();
            let tip = self@.last_hash.unwrap();
            let th = bm[tip].height as nat;
            let bh = bm[base_block.hash@].height as nat;
            assert(removed0.len() == th - bh);
            assert forall|j: int|
                0 <= j < removed0.len() implies crate::store::blocks_view(removed0)[j]
                    == lineage_above(bm, tip, th, bh)[j] by {
                assert(removed0[j]@ == crate::chain::chain_at(bm, tip, th, (th - j) as nat));
            }
            assert(crate::store::blocks_view(removed0) =~= lineage_above(bm, tip, th, bh));
            assert(base_block.hash@ == base_block@.hash);
            assert(bm == old(self).bmap());
            assert(tip == old(self)@.last_hash.unwrap());
            assert(crate::store::blocks_view(removed0) == lineage_above(
                old(self).bmap(),
                old(self)@.last_hash.unwrap(),
                old(self).bmap()[old(self)@.last_hash.unwrap()].height as nat,
                old(self).bmap()[base_block@.hash].height as nat,
            ));
        }
        match self.rollback_chain_to_block(&mut snap, &base_block.hash) {
            Ok(_) => {},
            Err(e) => {
                self.restore_snapshot(&snap);
                proof {
                    assert(self.bmap().contains_key(tip0));
                    assert(self.bmap()[tip0] == old(self).bmap()[tip0]);
                    lemma_chain_ok_submap(
                        old(self).bmap(),
                        self.bmap(),
                        tip0,
                        old(self).bmap()[tip0].height as nat,
                    );
                }
                mgr.unlock_chain();
                return Err(e);
            },
        }
        match self.apply_orphan_chain(&mut snap, orphan_chain) {
            Ok(_) => {},
            Err(e) => {
                self.restore_snapshot(&snap);
                proof {
                    assert(self.bmap().contains_key(tip0));
                    assert(self.bmap()[tip0] == old(self).bmap()[tip0]);
                    lemma_chain_ok_submap(
                        old(self).bmap(),
                        self.bmap(),
                        tip0,
                        old(self).bmap()[tip0].height as nat,
                    );
                }
                mgr.unlock_chain();
                return Err(e);
            },
        }
        proof {
            assert(snap.removed_blocks@ == removed0);
        }
        // The adopted blocks leave the orphan pool.
        let mut adopted: Vec<Vec<u8>> = Vec::new();
        let mut i: usize = 0;
        while i < orphan_chain.len()
            invariant
                i <= orphan_chain@.len(),
            decreases orphan_chain@.len() - i,
        {
            adopted.push(clone_bytes(&orphan_chain[i].hash));
            i = i + 1;
        }
        self.remove_from_orphan_blocks(&adopted);
        mgr.unlock_chain();
        Ok(())
    }
}


impl NodeState {
    /// Builds the maximal orphan chain starting from one orphan: repeatedly
    /// finds a pooled orphan whose previous hash is the current tail's hash.
    /// The walk is bounded by the pool's size.
    pub fn build_orphan_chain(&self, starting_orphan: &Block) -> (r: Vec<Block>)
        requires
            self.wf(),
            block_wf(starting_orphan@),
        ensures
            r@.len() >= 1,
            r@[0]@ == starting_orphan@,
            forall|j: int| 0 <= j < r@.len() ==> block_wf((#[trigger] r@[j])@),
            forall|j: int| 1 <= j < r@.len() ==> (#[trigger] r@[j])@.prev_hash == r@[j - 1]@.hash,
            (forall|j: int|
                0 <= j < self@.orphans.len() ==> (#[trigger] self@.orphans[j]).prev_hash
                    != starting_orphan@.hash) ==> r@.len() == 1,
    {
        let mut chain: Vec<Block> = Vec::new();
        chain.push(starting_orphan.duplicate());
        let mut curr_hash = clone_bytes(&starting_orphan.hash);
        let mut fuel = self.orphan_count();
        loop
            invariant
                self.wf(),
                chain@.len() >= 1,
                chain@[0]@ == starting_orphan@,
                curr_hash@ == chain@[chain@.len() - 1]@.hash,
                forall|j: int| 0 <= j < chain@.len() ==> block_wf((#[trigger] chain@[j])@),
                forall|j: int|
                    1 <= j < chain@.len() ==> (#[trigger] chain@[j])@.prev_hash == chain@[j - 1]@.hash,
                (forall|j: int|
                    0 <= j < self@.orphans.len() ==> (#[trigger] self@.orphans[j]).prev_hash
                        != starting_orphan@.hash) ==> chain@.len() == 1,
            decreases fuel,
        {
            if fuel == 0 {
                return chain;
            }
            fuel = fuel - 1;
            let mut next: Option<Block> = None;
            let mut j: usize = 0;
            while j < self.orphans.len()
                invariant
                    self.wf(),
                    j <= self@.orphans.len(),
                    next is Some ==> block_wf(next.unwrap()@) && next.unwrap()@.prev_hash
                        == curr_hash@,
                    next is Some ==> exists|q: int|
                        0 <= q < self@.orphans.len() && next.unwrap()@ == (
                        #[trigger] self@.orphans[q]),
                    next is None ==> forall|q: int|
                        0 <= q < j ==> (#[trigger] self@.orphans[q]).prev_hash != curr_hash@,
                decreases self@.orphans.len() - j,
            {
                if crate::bytes::bytes_eq(&self.orphans[j].prev_hash, &curr_hash) {
                    proof {
                        assert(block_wf(self@.orphans[j as int]));
                    }
                    next = Some(self.orphans[j].duplicate());
                    proof {
                        assert(next.unwrap()@ == self@.orphans[j as int]);
                    }
                }
                j = j + 1;
            }
            match next {
                Some(b) => {
                    proof {
                        if chain@.len() == 1 && (forall|j: int|
                            0 <= j < self@.orphans.len() ==> (
                            #[trigger] self@.orphans[j]).prev_hash != starting_orphan@.hash) {
                            assert(curr_hash@ == starting_orphan@.hash);
                            let q0 = choose|q: int|
                                0 <= q < self@.orphans.len() && b@ == (#[trigger] self@.orphans[q]);
                            assert(self@.orphans[q0].prev_hash == starting_orphan@.hash);
                            assert(false);
                        }
                    }
                    curr_hash = clone_bytes(&b.hash);
                    let ghost prev = chain@;
                    chain.push(b);
                    proof {
                        assert forall|q: int| 0 <= q < chain@.len() implies block_wf(
                            (#[trigger] chain@[q])@,
                        ) by {
                            if q < chain@.len() - 1 {
                                assert(chain@[q] == prev[q]);
                            }
                        }
                        assert forall|q: int|
                            1 <= q < chain@.len() implies (#[trigger] chain@[q])@.prev_hash
                                == chain@[q - 1]@.hash by {
                            if q < chain@.len() - 1 {
                                assert(chain@[q] == prev[q]);
                                assert(chain@[q - 1] == prev[q - 1]);
                            } else {
                                assert(chain@[q - 1] == prev[q - 1]);
                            }
                        }
                    }
                },
                None => {
                    return chain;
                },
            }
        }
    }

    /// Drops a whole orphan chain from the pool.
    pub fn prune_orphan_chain(&mut self, orphan_chain: &Vec<Block>)
        requires
            old(self).wf(),
        ensures
            final(self).wf(),
            forall|j: int, k: int|
                0 <= j < final(self)@.orphans.len() && 0 <= k < orphan_chain@.len() ==> (
                #[trigger] final(self)@.orphans[j]).hash != ((#[trigger] orphan_chain@[k])@).hash,
            final(self)@.blocks == old(self)@.blocks,
            final(self)@.utxos == old(self)@.utxos,
            final(self)@.mempool == old(self)@.mempool,
            final(self)@.last_hash == old(self)@.last_hash,
    {
        let mut hashes: Vec<Vec<u8>> = Vec::new();
        let mut i: usize = 0;
        while i < orphan_chain.len()
            invariant
                i <= orphan_chain@.len(),
                hashes@.len() == i,
                forall|k: int|
                    0 <= k < i ==> (#[trigger] hashes@[k])@ == orphan_chain@[k]@.hash,
            decreases orphan_chain@.len() - i,
        {
            hashes.push(clone_bytes(&orphan_chain[i].hash));
            i = i + 1;
        }
        self.remove_from_orphan_blocks(&hashes);
        proof {
            assert forall|j: int, k: int|
                0 <= j < self@.orphans.len() && 0 <= k < orphan_chain@.len() implies (
            #[trigger] self@.orphans[j]).hash != ((#[trigger] orphan_chain@[k])@).hash by {
                assert(!crate::store::hash_listed(hashes@, self@.orphans[j].hash));
                if self@.orphans[j].hash == orphan_chain@[k]@.hash {
                    assert(hashes@[k]@ == self@.orphans[j].hash);
                    assert(false);
                }
            }
        }
    }

}

/// The decision law for a lone orphan: when the pooled orphan with this hash
/// has no pooled child (its chain is exactly one block), its base is stored,
/// and a tip exists, the step takes exactly the action
/// `orphan_chain_action(base.height, 1, tip.height)` decides.
pub open spec fn lone_root_decided(
    pre: crate::store::NodeStateV,
    root: Seq<u8>,
    r: Option<OrphanAction>,
) -> bool {
    (exists|q: int| 0 <= q < pre.orphans.len() && (#[trigger] pre.orphans[q]).hash == root)
        && (forall|q: int|
        0 <= q < pre.orphans.len() && (#[trigger] pre.orphans[q]).hash == root
            ==> blocks_map(pre.blocks).contains_key(pre.orphans[q].prev_hash)) && (forall|w: int|
        0 <= w < pre.orphans.len() ==> (#[trigger] pre.orphans[w]).prev_hash != root)
        && pre.last_hash is Some && blocks_map(pre.blocks).contains_key(pre.last_hash.unwrap())
        ==> exists|q: int|
        0 <= q < pre.orphans.len() && (#[trigger] pre.orphans[q]).hash == root && r == Some(
            orphan_action_of(
                blocks_map(pre.blocks)[pre.orphans[q].prev_hash].height,
                1,
                blocks_map(pre.blocks)[pre.last_hash.unwrap()].height,
            ),
        )
}

/// One longest-chain decision, for the pooled orphan with the given
impl NodeState {
    /// One longest-chain decision, for the pooled orphan with the given
    /// hash: builds its maximal chain, then adopts, prunes or retains it per
    /// `orphan_chain_action`. Returns the action taken; `None` when the
    /// orphan is gone from the pool, its base is not a stored block, or no
    /// tip exists — the state is then untouched. A retained chain leaves the
    /// state untouched; a pruned chain's root leaves the pool; and when the
    /// root has no pooled child (a chain of exactly one block), the action
    /// taken is exactly `orphan_chain_action(base.height, 1, tip.height)`.
    pub fn scan_orphan_step(&mut self, mgr: &mut ChainManager, root_hash: &Vec<u8>) -> (r: Option<
        OrphanAction,
    >)
        requires
            old(self).wf(),
            node_chain_wf(&*old(self)),
        ensures
            final(self).wf(),
            node_chain_wf(&*final(self)),
            !final(mgr).is_locked() || old(mgr).is_locked(),
            r is None ==> final(self)@ == old(self)@,
            r == Some(OrphanAction::Retain) ==> final(self)@ == old(self)@,
            r == Some(OrphanAction::Prune) ==> forall|j: int|
                0 <= j < final(self)@.orphans.len() ==> (#[trigger] final(self)@.orphans[j]).hash
                    != root_hash@,
            lone_root_decided(old(self)@, root_hash@, r),
    {
        // Look the orphan up: an earlier adoption may have taken it.
        let mut orphan: Option<Block> = None;
        let mut j: usize = 0;
        while j < self.orphans.len()
            invariant
                self.wf(),
                j <= self@.orphans.len(),
                orphan is Some ==> block_wf(orphan.unwrap()@),
                orphan is Some ==> exists|q: int|
                    0 <= q < self@.orphans.len() && orphan.unwrap()@ == (
                    #[trigger] self@.orphans[q]) && self@.orphans[q].hash == root_hash@,
                orphan is None ==> forall|q: int|
                    0 <= q < j ==> (#[trigger] self@.orphans[q]).hash != root_hash@,
            decreases self@.orphans.len() - j,
        {
            if crate::bytes::bytes_eq(&self.orphans[j].hash, &root_hash) {
                proof {
                    assert(block_wf(self@.orphans[j as int]));
                }
                orphan = Some(self.orphans[j].duplicate());
                proof {
                    assert(orphan.unwrap()@ == self@.orphans[j as int]);
                }
            }
            j = j + 1;
        }
        let o = match orphan {
            Some(o) => o,
            None => {
                return None;
            },
        };
        let base = match self.get_block(&o.prev_hash) {
            Some(b) => b.duplicate(),
            None => {
                return None;
            },
        };
        let tip_height = match self.get_chain_height() {
            Ok(h) => h,
            Err(_) => {
                return None;
            },
        };
        let orphan_chain = self.build_orphan_chain(&o);
        if orphan_chain.len() > 0xffff_ffff_usize {
            return None;
        }
        proof {
            if forall|w: int|
                0 <= w < self@.orphans.len() ==> (#[trigger] self@.orphans[w]).prev_hash
                    != root_hash@ {
                assert(orphan_chain@.len() == 1) by {
                    assert(o@.hash == root_hash@);
                    assert forall|w: int|
                        0 <= w < self@.orphans.len() implies (
                    #[trigger] self@.orphans[w]).prev_hash != o@.hash by {}
                }
            }
        }
        let action = orphan_chain_action(base.height, orphan_chain.len() as u64, tip_height);
        match action {
            OrphanAction::Adopt => {
                let _ = self.adopt_orphan_chain(mgr, &base, &orphan_chain);
            },
            OrphanAction::Prune => {
                self.prune_orphan_chain(&orphan_chain);
                proof {
                    assert(orphan_chain@[0]@.hash == root_hash@);
                    assert forall|q: int|
                        0 <= q < self@.orphans.len() implies (#[trigger] self@.orphans[q]).hash
                            != root_hash@ by {
                        assert(self@.orphans[q].hash != orphan_chain@[0]@.hash);
                    }
                }
            },
            OrphanAction::Retain => {},
        }
        Some(action)
    }

    /// Scans every pooled orphan whose previous hash is a known block: builds
    /// its maximal chain, and adopts it when it would overtake the current
    /// tip, prunes it when it has fallen more than `MAX_ORPHAN_CHAIN_AGE`
    /// blocks behind, and keeps it otherwise. All orphans are scanned; the
    /// per-orphan decision and its effect on the pool are the contract of
    /// `scan_orphan_step`.
    pub fn check_orphans_for_longest_chain(&mut self, mgr: &mut ChainManager)
        requires
            old(self).wf(),
            node_chain_wf(&*old(self)),
        ensures
            final(self).wf(),
            node_chain_wf(&*final(self)),
            !final(mgr).is_locked() || old(mgr).is_locked(),
    {
        if !self.blockchain_exists() {
            return;
        }
        let roots = self.orphan_hashes();
        let mut i: usize = 0;
        while i < roots.len()
            invariant
                self.wf(),
                node_chain_wf(&*self),
                i <= roots@.len(),
                !mgr.is_locked() || old(mgr).is_locked(),
            decreases roots@.len() - i,
        {
            let _ = self.scan_orphan_step(mgr, &roots[i]);
            i = i + 1;
        }
    }

    /// Commits a received block: the state machine of block acceptance. The
    /// block is committed on the tip, pooled as an orphan, or discarded; a
    /// commit then drains the orphans that now sit on the tip, and any pooled
    /// or committed block triggers the longest-chain scan. The exact state
    /// effects of each outcome are the contract of `commit_block_once`; the
    /// drain and the scan that run afterwards carry their own contracts and
    /// may move the tip further.
    pub fn commit_block(&mut self, mgr: &mut ChainManager, block: &Block) -> (r: CommitOutcome)
        requires
            old(self).wf(),
            node_chain_wf(&*old(self)),
            block_wf(block@),
        ensures
            final(self).wf(),
            node_chain_wf(&*final(self)),
            r == CommitOutcome::Extended <==> crate::chain::extends_chain(old(self)@, block@),
            r == CommitOutcome::Orphaned <==> !crate::chain::extends_chain(old(self)@, block@)
                && crate::block::block_core_valid(block@),
            r == CommitOutcome::Discarded <==> !crate::chain::extends_chain(old(self)@, block@)
                && !crate::block::block_core_valid(block@),
            r == CommitOutcome::Discarded ==> final(self)@ == old(self)@,
    {
        let outcome = self.commit_block_once(block);
        match outcome {
            CommitOutcome::Extended => {
                self.check_for_valid_orphan_blocks();
                self.check_orphans_for_longest_chain(mgr);
            },
            CommitOutcome::Orphaned => {
                self.check_orphans_for_longest_chain(mgr);
            },
            CommitOutcome::Discarded => {},
        }
        outcome
    }
}

} // verus!
