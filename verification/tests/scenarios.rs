//! End-to-end scenarios: genesis and balances, a simple payment, double
//! spends, bad keys, an out-of-order reorganization, and recovery from a
//! failure in the middle of one.

use dcoin::block::Block;
use dcoin::p2p::{Inventory, NewInventory};
use dcoin::errors::ChainError;
use dcoin::chain::CommitOutcome;
use dcoin::miner::handle_mine;
use dcoin::reorg::ChainManager;
use dcoin::store::NodeState;
use dcoin::tx::{Tx, TxInput, TxOutput, COINBASE_REWARD};
use dcoin::wallet::Wallet;

/// Mines one block of the current mempool (possibly empty) directly on the
/// tip and commits it.
fn mine_on_tip(st: &mut NodeState, mgr: &mut ChainManager, w: &Wallet, ts: u64) -> Block {
    let tip = st.get_last_block().unwrap();
    let mut b = Block::new(&w.get_wallet_address(), &tip.hash, tip.height, &st.mempool, ts);
    b.mine().unwrap();
    let outcome = st.commit_block(mgr, &b);
    assert!(matches!(outcome, CommitOutcome::Extended));
    b
}

#[test]
fn genesis_and_balance() {
    let mut st = NodeState::new();
    let a = Wallet::new();
    let a_addr = a.get_wallet_address();
    st.create_blockchain(&a_addr, 1_700_000_000).unwrap();

    assert_eq!(st.get_chain_height().unwrap(), 0);
    let tip = st.get_last_block().unwrap();
    assert_eq!(tip.txs.len(), 1);
    assert!(tip.txs[0].is_coinbase());
    assert_eq!(tip.txs[0].outputs[0].value, 100);
    assert_eq!(&tip.txs[0].outputs[0].pub_key_hash, a_addr.pub_key_hash());

    let addr_str = a_addr.get_full_address();
    assert_eq!(st.handle_get_balance(addr_str.as_str()).unwrap(), 100);
}

#[test]
fn simple_send() {
    let mut st = NodeState::new();
    let mut mgr = ChainManager::new();
    let a = Wallet::new();
    let b = Wallet::new();
    let a_addr = a.get_wallet_address();
    let b_addr = b.get_wallet_address();
    st.create_blockchain(&a_addr, 1_700_000_000).unwrap();

    // A sends 30 to B.
    st.reindex_utxos().unwrap();
    let spendable = st
        .utxos
        .find_spendable_utxos(a_addr.pub_key_hash(), 30, &st.mempool)
        .unwrap();
    let tx = Tx::new(&a, &b_addr, 30, &spendable).unwrap();
    st.handle_inventory_res_tx(&tx).unwrap();
    assert_eq!(st.mempool.len(), 1);

    // Mine once, rewarding A.
    let mined = handle_mine(&mut st, &mut mgr, &a, 1_700_000_020).unwrap();
    assert!(mined.is_some());
    assert_eq!(st.get_chain_height().unwrap(), 1);
    assert_eq!(st.mempool.len(), 0);

    let a_str = a_addr.get_full_address();
    let b_str = b_addr.get_full_address();
    assert_eq!(st.handle_get_balance(a_str.as_str()).unwrap(), 170);
    assert_eq!(st.handle_get_balance(b_str.as_str()).unwrap(), 30);
    // The first coinbase is spent: exactly A's 70 change, B's 30, and the
    // second coinbase of 100 remain.
    assert_eq!(st.utxos.len(), 3);
}

#[test]
fn double_spend_rejection() {
    let mut st = NodeState::new();
    let mut mgr = ChainManager::new();
    let a = Wallet::new();
    let b = Wallet::new();
    let c = Wallet::new();
    let a_addr = a.get_wallet_address();
    st.create_blockchain(&a_addr, 1_700_000_000).unwrap();
    st.reindex_utxos().unwrap();

    let spendable = st
        .utxos
        .find_spendable_utxos(a_addr.pub_key_hash(), 100, &st.mempool)
        .unwrap();
    let tx1 = Tx::new(&a, &b.get_wallet_address(), 100, &spendable).unwrap();
    let tx2 = Tx::new(&a, &c.get_wallet_address(), 100, &spendable).unwrap();

    st.handle_inventory_res_tx(&tx1).unwrap();
    assert_eq!(
        st.handle_inventory_res_tx(&tx2).unwrap_err(),
        ChainError::DoubleSpend
    );
    assert_eq!(st.mempool.len(), 1);

    let mined = handle_mine(&mut st, &mut mgr, &a, 1_700_000_030).unwrap().unwrap();
    // Only the first transaction was mined, beside the coinbase.
    assert_eq!(mined.txs.len(), 2);
    assert_eq!(mined.txs[1].id, tx1.id);
}

#[test]
fn bad_signature_rejection() {
    let mut st = NodeState::new();
    let a = Wallet::new();
    let intruder = Wallet::new();
    let a_addr = a.get_wallet_address();
    st.create_blockchain(&a_addr, 1_700_000_000).unwrap();
    st.reindex_utxos().unwrap();

    // Craft a transaction whose input's public key does not match the
    // referenced output's lock.
    let genesis = st.get_last_block().unwrap();
    let cb_id = genesis.txs[0].id.clone();
    let mut tx = Tx {
        id: vec![0u8; 32],
        inputs: vec![TxInput::new(
            cb_id,
            0,
            vec![0u8; 64],
            intruder.pub_key().clone(),
        )],
        outputs: vec![TxOutput {
            value: COINBASE_REWARD,
            pub_key_hash: intruder.get_wallet_address().pub_key_hash().clone(),
        }],
    };
    tx.id = tx.hash();
    tx.sign(intruder.private_key()).unwrap();

    // Verification fails with WrongKey, so peers and handlers both refuse it.
    assert_eq!(
        st.handle_inventory_res_tx(&tx).unwrap_err(),
        ChainError::WrongKey
    );
    assert_eq!(st.mempool.len(), 0);
}

#[test]
fn reorg_adopts_longer_chain_out_of_order() {
    // Node one holds [G, A1, A2]; a peer mines [G, B1, B2, B3]; node one
    // receives the B blocks out of order and adopts the longer chain.
    let mut st1 = NodeState::new();
    let mut mgr1 = ChainManager::new();
    let a = Wallet::new();
    st1.create_blockchain(&a.get_wallet_address(), 1_700_000_000).unwrap();
    let genesis = st1.get_last_block().unwrap();

    // The peer starts from the same genesis block.
    let mut st2 = NodeState::new();
    let mut mgr2 = ChainManager::new();
    let peer = Wallet::new();
    st2.put_block(genesis.duplicate());
    st2.put_last_hash(&genesis.hash);
    st2.update_utxos(&genesis);

    let a1 = mine_on_tip(&mut st1, &mut mgr1, &a, 1_700_000_100);
    let a2 = mine_on_tip(&mut st1, &mut mgr1, &a, 1_700_000_200);
    assert_eq!(st1.get_chain_height().unwrap(), 2);

    let b1 = mine_on_tip(&mut st2, &mut mgr2, &peer, 1_700_001_100);
    let b2 = mine_on_tip(&mut st2, &mut mgr2, &peer, 1_700_001_200);
    let b3 = mine_on_tip(&mut st2, &mut mgr2, &peer, 1_700_001_300);

    // Out-of-order delivery: B2 and B3 become orphans, B1 completes the
    // chain and triggers adoption over the shorter lineage.
    assert!(matches!(st1.commit_block(&mut mgr1, &b2), CommitOutcome::Orphaned));
    assert!(matches!(st1.commit_block(&mut mgr1, &b3), CommitOutcome::Orphaned));
    assert!(matches!(st1.commit_block(&mut mgr1, &b1), CommitOutcome::Orphaned));

    assert_eq!(st1.get_last_hash().unwrap(), b3.hash);
    assert_eq!(st1.get_chain_height().unwrap(), 3);
    // The rolled-back block records are gone; the adopted ones are stored.
    assert!(st1.get_block(&a1.hash).is_none());
    assert!(st1.get_block(&a2.hash).is_none());
    assert!(st1.get_block(&b1.hash).is_some());
    assert!(st1.get_block(&b2.hash).is_some());
    // Only coinbase transactions were rolled back, so nothing returns to
    // the mempool.
    assert_eq!(st1.mempool.len(), 0);
}

#[test]
fn reorg_failure_restores_snapshot() {
    // Like the adoption scenario, but the last orphan block fails full
    // verification while it is applied: the snapshot restore must return
    // the UTXO set and the tip exactly to their pre-reorg state.
    let mut st1 = NodeState::new();
    let mut mgr1 = ChainManager::new();
    let a = Wallet::new();
    st1.create_blockchain(&a.get_wallet_address(), 1_700_000_000).unwrap();
    let genesis = st1.get_last_block().unwrap();

    let mut st2 = NodeState::new();
    let mut mgr2 = ChainManager::new();
    let peer = Wallet::new();
    st2.put_block(genesis.duplicate());
    st2.put_last_hash(&genesis.hash);
    st2.update_utxos(&genesis);

    let _a1 = mine_on_tip(&mut st1, &mut mgr1, &a, 1_700_000_100);
    let a2 = mine_on_tip(&mut st1, &mut mgr1, &a, 1_700_000_200);

    let b1 = mine_on_tip(&mut st2, &mut mgr2, &peer, 1_700_001_100);
    let b2 = mine_on_tip(&mut st2, &mut mgr2, &peer, 1_700_001_200);

    // B3 carries a transaction spending an unknown output: it passes the
    // orphan checks (coinbase and proof of work) but cannot survive full
    // verification during adoption.
    let intruder = Wallet::new();
    let mut phantom = Tx {
        id: vec![0u8; 32],
        inputs: vec![TxInput::new(
            vec![0x42u8; 32],
            0,
            vec![0u8; 64],
            intruder.pub_key().clone(),
        )],
        outputs: vec![TxOutput { value: 5, pub_key_hash: vec![0u8; 20] }],
    };
    phantom.id = phantom.hash();
    phantom.sign(intruder.private_key()).unwrap();
    let tip2 = st2.get_last_block().unwrap();
    let mut b3_bad = Block {
        txs: vec![dcoin::tx::coinbase_tx(&peer.get_wallet_address()), phantom],
        prev_hash: tip2.hash.clone(),
        hash: vec![0u8; 32],
        nonce: 0,
        height: tip2.height + 1,
        timestamp: 1_700_001_300,
    };
    b3_bad.mine().unwrap();
    assert!(b3_bad.verify_orphan());

    // Remember the pre-reorg state of node one.
    let tip_before = st1.get_last_hash().unwrap();
    assert_eq!(tip_before, a2.hash);
    st1.reindex_utxos().unwrap();
    let utxo_count_before = st1.utxos.len();
    let a_str = a.get_wallet_address().get_full_address();
    let balance_before = st1.handle_get_balance(a_str.as_str()).unwrap();

    // Deliver the competing chain; adoption starts, rolls back, applies B1
    // and B2, fails on the bad B3, and restores.
    assert!(matches!(st1.commit_block(&mut mgr1, &b1), CommitOutcome::Orphaned));
    assert!(matches!(st1.commit_block(&mut mgr1, &b2), CommitOutcome::Orphaned));
    assert!(matches!(st1.commit_block(&mut mgr1, &b3_bad), CommitOutcome::Orphaned));

    assert_eq!(st1.get_last_hash().unwrap(), tip_before);
    assert_eq!(st1.get_chain_height().unwrap(), 2);
    assert_eq!(st1.utxos.len(), utxo_count_before);
    assert_eq!(st1.handle_get_balance(a_str.as_str()).unwrap(), balance_before);
    // The unadopted orphans are still pooled.
    assert!(st1.orphan_count() >= 3);
}

#[test]
fn orphan_drain_commits_children_after_parent() {
    // The tip's child arrives before its parent: the child waits as an
    // orphan, and committing the parent drains it onto the chain.
    let mut st1 = NodeState::new();
    let mut mgr1 = ChainManager::new();
    let a = Wallet::new();
    st1.create_blockchain(&a.get_wallet_address(), 1_700_000_000).unwrap();
    let genesis = st1.get_last_block().unwrap();

    let mut st2 = NodeState::new();
    let mut mgr2 = ChainManager::new();
    let peer = Wallet::new();
    st2.put_block(genesis.duplicate());
    st2.put_last_hash(&genesis.hash);
    st2.update_utxos(&genesis);
    let b1 = mine_on_tip(&mut st2, &mut mgr2, &peer, 1_700_001_100);
    let b2 = mine_on_tip(&mut st2, &mut mgr2, &peer, 1_700_001_200);

    assert!(matches!(st1.commit_block(&mut mgr1, &b2), CommitOutcome::Orphaned));
    assert_eq!(st1.orphan_count(), 1);
    // B1 sits directly on the tip, so it extends; the drain then commits B2.
    assert!(matches!(st1.commit_block(&mut mgr1, &b1), CommitOutcome::Extended));
    assert_eq!(st1.get_last_hash().unwrap(), b2.hash);
    assert_eq!(st1.get_chain_height().unwrap(), 2);
    assert_eq!(st1.orphan_count(), 0);
}

#[test]
fn orphan_chain_at_age_boundary_is_retained_then_pruned() {
    // An orphan chain exactly MAX_ORPHAN_CHAIN_AGE behind the tip stays
    // pooled; one block further behind it is pruned.
    let mut st = NodeState::new();
    let mut mgr = ChainManager::new();
    let a = Wallet::new();
    st.create_blockchain(&a.get_wallet_address(), 1_700_000_000).unwrap();
    let genesis = st.get_last_block().unwrap();

    // A competing block on genesis, from another miner.
    let peer = Wallet::new();
    let mut st2 = NodeState::new();
    let mut mgr2 = ChainManager::new();
    st2.put_block(genesis.duplicate());
    st2.put_last_hash(&genesis.hash);
    st2.update_utxos(&genesis);
    let stale = mine_on_tip(&mut st2, &mut mgr2, &peer, 1_700_005_000);

    // Grow the main chain to height 11: the orphan chain reaches height 1,
    // 10 behind the tip, exactly at the boundary.
    for k in 0..11u64 {
        mine_on_tip(&mut st, &mut mgr, &a, 1_700_000_100 + 100 * k);
    }
    assert_eq!(st.get_chain_height().unwrap(), 11);
    assert!(matches!(st.commit_block(&mut mgr, &stale), CommitOutcome::Orphaned));
    assert_eq!(st.orphan_count(), 1);

    // One more block on the main chain pushes it past the age bound; the
    // next scan prunes it.
    mine_on_tip(&mut st, &mut mgr, &a, 1_700_002_000);
    st.check_orphans_for_longest_chain(&mut mgr);
    assert_eq!(st.orphan_count(), 0);
}

#[test]
fn p2p_inventory_and_chainsync_decisions() {
    let mut st = NodeState::new();
    let mut mgr = ChainManager::new();
    let a = Wallet::new();
    st.create_blockchain(&a.get_wallet_address(), 1_700_000_000).unwrap();
    let g = st.get_last_block().unwrap();
    let b1 = mine_on_tip(&mut st, &mut mgr, &a, 1_700_000_100);

    // Announcements: known items are not requested, unknown ones are.
    assert!(!st.handle_new_inventory(&NewInventory::Block(g.hash.clone())));
    assert!(st.handle_new_inventory(&NewInventory::Block(vec![5u8; 32])));
    st.reindex_utxos().unwrap();
    assert!(!st.handle_new_inventory(&NewInventory::Transaction(g.txs[0].id.clone())));
    assert!(st.handle_new_inventory(&NewInventory::Transaction(vec![6u8; 32])));

    // Requests: a stored block is served in full.
    match st.handle_inventory_req(&NewInventory::Block(b1.hash.clone())) {
        Some(Inventory::Block(b)) => assert_eq!(b.hash, b1.hash),
        _ => panic!("a stored block must be served"),
    }
    assert!(st.handle_inventory_req(&NewInventory::Block(vec![5u8; 32])).is_none());

    // Chain sync: a peer at height 0 is sent the hashes above genesis.
    let hashes = st.handle_chainsync_req(1).unwrap();
    assert_eq!(hashes.len(), 0);
    let hashes0 = st.handle_chainsync_req(0).unwrap();
    assert_eq!(hashes0.len(), 2);
    assert_eq!(hashes0[0], b1.hash);
    assert_eq!(hashes0[1], g.hash);

    // The receiver requests only what it does not hold.
    let unknown = st.handle_chainsync_res(&vec![g.hash.clone(), vec![7u8; 32]]);
    assert_eq!(unknown, vec![vec![7u8; 32]]);

    assert_eq!(st.publish_chainsync_height(), 1);
}
