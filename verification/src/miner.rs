//! The miner's decision kernel: one tick of the mining loop. The periodic
//! scheduling, the non-reentrant mining flag, and the broadcast of the mined
//! block's hash belong to the shell around the library.

use vstd::prelude::*;

use crate::block::Block;
use crate::chain::{CommitOutcome, node_chain_wf};
use crate::errors::ChainError;
use crate::mempool::tx_refs;
use crate::reorg::ChainManager;
use crate::store::NodeState;
use crate::tx::{TxVerdict, TxVerify, is_coinbase_v};
use crate::wallet::Wallet;

verus! {

/// Whether some input of a non-coinbase candidate transaction is spent by a
/// pending transaction with a different id.
pub open spec fn candidate_mempool_conflict(b: crate::block::BlockV, mem: Seq<crate::tx::TxV>) -> bool {
    exists|i: int, p: int, m: int|
        0 <= i < b.txs.len() && !is_coinbase_v(b.txs[i]) && 0 <= p < b.txs[i].inputs.len() && 0
            <= m < mem.len() && mem[m].id != b.txs[i].id && tx_refs(
            #[trigger] mem[m],
            (#[trigger] b.txs[i].inputs[p]).prev_tx_id,
            b.txs[i].inputs[p].out,
        )
}

/// Decides `candidate_mempool_conflict`.
fn candidate_conflicts(block: &Block, st: &NodeState) -> (r: bool)
    ensures
        r == candidate_mempool_conflict(block@, st@.mempool),
{
    let mut i: usize = 0;
    while i < block.txs.len()
        invariant
            i <= block.txs@.len(),
            block@.txs.len() == block.txs@.len(),
            forall|q: int, p: int, m: int|
                0 <= q < i && !is_coinbase_v(block@.txs[q]) && 0 <= p < block@.txs[q].inputs.len()
                    && 0 <= m < st@.mempool.len() && st@.mempool[m].id != block@.txs[q].id
                    ==> !tx_refs(
                    #[trigger] st@.mempool[m],
                    (#[trigger] block@.txs[q].inputs[p]).prev_tx_id,
                    block@.txs[q].inputs[p].out,
                ),
        decreases block.txs@.len() - i,
    {
        let tx = &block.txs[i];
        proof {
            assert(tx@ == block@.txs[i as int]);
        }
        if !tx.is_coinbase() {
            let mut p: usize = 0;
            while p < tx.inputs.len()
                invariant
                    i < block.txs@.len(),
                    block@.txs.len() == block.txs@.len(),
                    tx@ == block@.txs[i as int],
                    !is_coinbase_v(tx@),
                    p <= tx.inputs@.len(),
                    tx@.inputs.len() == tx.inputs@.len(),
                    forall|q: int, m: int|
                        0 <= q < p && 0 <= m < st@.mempool.len() && st@.mempool[m].id != tx@.id
                            ==> !tx_refs(
                            #[trigger] st@.mempool[m],
                            (#[trigger] tx@.inputs[q]).prev_tx_id,
                            tx@.inputs[q].out,
                        ),
                decreases tx.inputs@.len() - p,
            {
                let inp = &tx.inputs[p];
                proof {
                    assert(inp@ == tx@.inputs[p as int]);
                }
                let mut m: usize = 0;
                while m < st.mempool.len()
                    invariant
                        i < block.txs@.len(),
                        tx@ == block@.txs[i as int],
                        !is_coinbase_v(tx@),
                        p < tx.inputs@.len(),
                        tx@.inputs.len() == tx.inputs@.len(),
                        inp@ == tx@.inputs[p as int],
                        m <= st@.mempool.len(),
                        forall|w: int|
                            0 <= w < m && st@.mempool[w].id != tx@.id ==> !tx_refs(
                                #[trigger] st@.mempool[w],
                                inp@.prev_tx_id,
                                inp@.out,
                            ),
                    decreases st@.mempool.len() - m,
                {
                    let mtx = st.mempool.tx_at(m);
                    let same_id = crate::bytes::bytes_eq(&mtx.id, &tx.id);
                    if !same_id {
                        let mut w: usize = 0;
                        let mut hit = false;
                        while w < mtx.inputs.len()
                            invariant
                                mtx@.inputs.len() == mtx.inputs@.len(),
                                w <= mtx.inputs@.len(),
                                hit == exists|q: int|
                                    0 <= q < w && (#[trigger] mtx@.inputs[q]).prev_tx_id
                                        == inp@.prev_tx_id && mtx@.inputs[q].out == inp@.out,
                            decreases mtx.inputs@.len() - w,
                        {
                            let mi = &mtx.inputs[w];
                            if mi.out == inp.out && crate::bytes::bytes_eq(
                                &mi.prev_tx_id,
                                &inp.prev_tx_id,
                            ) {
                                proof {
                                    assert(mtx@.inputs[w as int].prev_tx_id == inp@.prev_tx_id);
                                }
                                hit = true;
                            }
                            w = w + 1;
                        }
                        if hit {
                            proof {
                                assert(tx_refs(st@.mempool[m as int], inp@.prev_tx_id, inp@.out));
                                assert(candidate_mempool_conflict(block@, st@.mempool));
                            }
                            return true;
                        }
                    }
                    m = m + 1;
                }
                p = p + 1;
            }
        }
        i = i + 1;
    }
    proof {
        if candidate_mempool_conflict(block@, st@.mempool) {
            let (i0, p0, m0) = choose|i0: int, p0: int, m0: int|
                0 <= i0 < block@.txs.len() && !is_coinbase_v(block@.txs[i0]) && 0 <= p0
                    < block@.txs[i0].inputs.len() && 0 <= m0 < st@.mempool.len()
                    && st@.mempool[m0].id != block@.txs[i0].id && tx_refs(
                    #[trigger] st@.mempool[m0],
                    (#[trigger] block@.txs[i0].inputs[p0]).prev_tx_id,
                    block@.txs[i0].inputs[p0].out,
                );
            assert(false);
        }
    }
    false
}

/// One mining tick: with an empty mempool it is a no-op and changes nothing.
/// Otherwise it builds a candidate block of the whole mempool on top of the
/// tip, paying the reward to the given wallet, rejects it on any invalid
/// transaction or a mempool double spend, searches for the proof-of-work
/// nonce, and commits the block (then drains orphans and runs the
/// longest-chain scan). Every failure leaves the state untouched.
pub fn handle_mine(
    st: &mut NodeState,
    mgr: &mut ChainManager,
    reward_wallet: &Wallet,
    timestamp: u64,
) -> (r: Result<Option<Block>, ChainError>)
    requires
        old(st).wf(),
        node_chain_wf(&*old(st)),
    ensures
        final(st).wf(),
        node_chain_wf(&*final(st)),
        old(st)@.mempool.len() == 0 ==> r is Ok && r->Ok_0 is None && final(st)@ == old(st)@,
        r is Err ==> final(st)@ == old(st)@,
        old(st)@.mempool.len() > 0 && !(old(st)@.last_hash is Some && old(st).bmap().contains_key(
            old(st)@.last_hash.unwrap(),
        )) ==> r is Err && r->Err_0 == ChainError::StoreError,
        r is Err && (r->Err_0 == ChainError::UnknownInput || r->Err_0 == ChainError::WrongKey
            || r->Err_0 == ChainError::BadSignature) ==> exists|i: int|
            0 <= i < old(st)@.mempool.len() && crate::tx::tx_verdict(
                #[trigger] old(st)@.mempool[i],
                old(st).umap(),
            ) != TxVerdict::Valid,
        old(st)@.mempool.len() > 0 && old(st)@.last_hash is Some && old(st).bmap().contains_key(
            old(st)@.last_hash.unwrap(),
        ) && old(st).bmap()[old(st)@.last_hash.unwrap()].height < u32::MAX && (exists|i: int|
            0 <= i < old(st)@.mempool.len() && crate::tx::tx_verdict(
                #[trigger] old(st)@.mempool[i],
                old(st).umap(),
            ) != TxVerdict::Valid) ==> r is Err,
        r is Ok && r->Ok_0 is Some ==> {
            let b = r->Ok_0.unwrap()@;
            &&& crate::chain::extends_chain(old(st)@, b)
            &&& crate::bytes::lex_lt(b.hash, crate::block::target_spec())
            &&& b.hash == crate::block::block_hash_of(b)
            &&& b.txs.len() == old(st)@.mempool.len() + 1
            &&& b.txs.skip(1) == old(st)@.mempool
        },
{
    if st.mempool.len() == 0 {
        return Ok(None);
    }
    let reward_addr = reward_wallet.get_wallet_address();
    let tip_block = match st.get_last_block() {
        Ok(b) => b,
        Err(e) => {
            return Err(e);
        },
    };
    if tip_block.height >= u32::MAX {
        return Err(ChainError::StaleBlock);
    }
    let mut candidate = Block::new(&reward_addr, &tip_block.hash, tip_block.height, &st.mempool, timestamp);
    proof {
        crate::chain::lemma_bmap_wf(st@.blocks, st@.last_hash.unwrap());
        assert(tip_block@.hash == st@.last_hash.unwrap());
    }
    let ghost cand0 = candidate@;
    // Validate the candidate before searching: every non-coinbase transaction
    // must verify, and none of its inputs may be spent by a different
    // pending transaction.
    let mut i: usize = 0;
    while i < candidate.txs.len()
        invariant
            st.wf(),
            node_chain_wf(&*st),
            st@ == old(st)@,
            old(st)@.mempool.len() > 0,
            old(st)@.last_hash is Some,
            old(st).bmap().contains_key(old(st)@.last_hash.unwrap()),
            cand0 == candidate@,
            candidate@.txs.len() == candidate.txs@.len(),
            candidate@.txs.skip(1) == old(st)@.mempool,
            candidate@.txs.len() == old(st)@.mempool.len() + 1,
            crate::tx::is_coinbase_v(candidate@.txs[0]),
            i <= candidate.txs@.len(),
            forall|q: int|
                0 <= q < i ==> crate::tx::tx_verdict(#[trigger] candidate@.txs[q], st.umap())
                    == TxVerdict::Valid,
        decreases candidate.txs@.len() - i,
    {
        let verdict = candidate.txs[i].verify(&st.utxos);
        let cb = candidate.txs[i].is_coinbase();
        if !cb && !matches!(verdict, TxVerdict::Valid) {
            proof {
                assert(candidate@.txs.skip(1)[i - 1] == candidate@.txs[i as int]);
                assert(old(st)@.mempool[i - 1] == candidate@.txs[i as int]);
                assert(crate::tx::tx_verdict(old(st)@.mempool[i - 1], old(st).umap())
                    != TxVerdict::Valid);
            }
            return Err(match verdict {
                TxVerdict::UnknownInput => ChainError::UnknownInput,
                TxVerdict::WrongKey => ChainError::WrongKey,
                _ => ChainError::BadSignature,
            });
        }
        i = i + 1;
    }
    proof {
        assert forall|q: int| 0 <= q < old(st)@.mempool.len() implies crate::tx::tx_verdict(
            #[trigger] old(st)@.mempool[q],
            old(st).umap(),
        ) == TxVerdict::Valid by {
            assert(candidate@.txs.skip(1)[q] == candidate@.txs[q + 1]);
            assert(old(st)@.mempool[q] == candidate@.txs[q + 1]);
        }
    }
    if candidate_conflicts(&candidate, st) {
        return Err(ChainError::DoubleSpend);
    }
    match candidate.mine() {
        Ok(_) => {},
        Err(e) => {
            return Err(e);
        },
    }
    if st.get_block(&candidate.hash).is_some() {
        return Err(ChainError::StaleBlock);
    }
    proof {
        assert(crate::block::block_wf(candidate@)) by {
            assert forall|q: int| 0 <= q < candidate@.txs.len() implies crate::tx::tx_wf(
                #[trigger] candidate@.txs[q],
            ) by {
                if q == 0 {
                } else {
                    assert(candidate@.txs.skip(1)[q - 1] == candidate@.txs[q]);
                    assert(crate::mempool::mempool_wf(old(st)@.mempool));
                }
            }
        }
        assert(crate::block::block_valid(candidate@, st.umap())) by {
            assert(candidate@.txs[0] == cand0.txs[0]);
            assert forall|q: int| 0 <= q < candidate@.txs.len() implies crate::tx::tx_valid(
                #[trigger] candidate@.txs[q],
                st.umap(),
            ) by {
                assert(candidate@.txs[q] == cand0.txs[q]);
                assert(crate::tx::tx_verdict(cand0.txs[q], st.umap()) == TxVerdict::Valid);
            }
        }
        assert(crate::chain::extends_chain(st@, candidate@));
    }
    let outcome = st.commit_block_once(&candidate);
    proof {
        assert(outcome == crate::chain::CommitOutcome::Extended);
    }
    st.check_for_valid_orphan_blocks();
    st.check_orphans_for_longest_chain(mgr);
    Ok(Some(candidate))
}

} // verus!
