//! Unit tests of the kernel's pieces: hashing, addresses, wallets,
//! transactions, the Merkle tree, the mempool guard, the spendable-output
//! search, and the orphan-age rule.

use dcoin::address::{hash_pub_key, Address};
use dcoin::block::{get_target_difficulty, Block, DIFFICULTY};
use dcoin::errors::ChainError;
use dcoin::mempool::Mempool;
use dcoin::merkle::MerkleTree;
use dcoin::miner::handle_mine;
use dcoin::reorg::{orphan_chain_action, ChainManager, OrphanAction, MAX_ORPHAN_CHAIN_AGE};
use dcoin::store::NodeState;
use dcoin::tx::{coinbase_tx, Tx, TxInput, TxOutput, TxVerdict, TxVerify, COINBASE_REWARD};
use dcoin::utxo::UtxoSet;
use dcoin::wallet::{Wallet, WalletStore};

use sha2::{Digest, Sha256};
use dcoin::topics::{parse_direct_topic, GossipTopic};
use dcoin::jsonrep::{TxInputJson, TxJson, TxOutputJson};

fn sha256(data: &[u8]) -> Vec<u8> {
    Sha256::digest(data).to_vec()
}

#[test]
fn address_round_trip() {
    let w = Wallet::new();
    let addr = w.get_wallet_address();
    let s = addr.get_full_address();
    let back = Address::new_from_str(s.as_str()).expect("a freshly built address must decode");
    assert_eq!(back.pub_key_hash(), addr.pub_key_hash());
    assert_eq!(back.get_full_address(), s);
    assert_eq!(addr.get_address(), s);
}

#[test]
fn address_rejects_garbage() {
    // '0', 'O', 'I' and 'l' are not base58 digits.
    assert_eq!(
        Address::new_from_str("0OIl").unwrap_err(),
        ChainError::InvalidAddress
    );
    // Valid base58 but not 25 bytes once decoded.
    assert_eq!(
        Address::new_from_str("abc").unwrap_err(),
        ChainError::InvalidAddress
    );
}

#[test]
fn address_rejects_bad_checksum() {
    let w = Wallet::new();
    let s = w.get_wallet_address().get_full_address();
    // Flip one character somewhere in the middle; the checksum must catch it.
    let mut chars: Vec<char> = s.chars().collect();
    let mid = chars.len() / 2;
    chars[mid] = if chars[mid] == '2' { '3' } else { '2' };
    let tampered: String = chars.into_iter().collect();
    assert!(Address::new_from_str(tampered.as_str()).is_err());
}

#[test]
fn hash_pub_key_is_sha256_then_ripemd160() {
    let w = Wallet::new();
    let h = hash_pub_key(w.pub_key());
    let expected = ripemd::Ripemd160::digest(Sha256::digest(w.pub_key().as_slice())).to_vec();
    assert_eq!(h, expected);
    assert_eq!(h.len(), 20);
}

#[test]
fn wallet_from_keys_round_trip() {
    let w = Wallet::new();
    let sk = hex::encode(w.private_key());
    let pk = hex::encode(w.pub_key());
    let back = Wallet::from_keys(pk.as_str(), sk.as_str()).expect("hex keys must parse");
    assert_eq!(back.pub_key(), w.pub_key());
    assert_eq!(back.private_key(), w.private_key());
    assert!(Wallet::from_keys("zz", "zz").is_err());
}

#[test]
fn merkle_single_datum_is_its_leaf_hash() {
    // The leaf rule: a leaf's hash is SHA-256 of its input datum; with one
    // datum the root is that leaf hash.
    let data = b"one transaction's bytes".to_vec();
    let tree = MerkleTree::new(vec![data.clone()]);
    assert_eq!(tree.root.hash, sha256(&data));
}

#[test]
fn merkle_single_tx_root_is_double_sha_of_tx_bytes() {
    // A block feeds the Merkle tree the transactions' ids, themselves
    // SHA-256 of the transaction bytes; with one transaction the root is
    // SHA-256(SHA-256(tx_bytes)).
    let tx_bytes = b"canonical transaction bytes".to_vec();
    let tx_hash = sha256(&tx_bytes);
    let tree = MerkleTree::new(vec![tx_hash.clone()]);
    assert_eq!(tree.root.hash, sha256(&tx_hash));
}

#[test]
fn merkle_pairs_and_odd_duplication() {
    let a = b"a".to_vec();
    let b = b"b".to_vec();
    let c = b"c".to_vec();
    // Two leaves: root = H(H(a) || H(b)).
    let t2 = MerkleTree::new(vec![a.clone(), b.clone()]);
    let mut ab = sha256(&a);
    ab.extend_from_slice(&sha256(&b));
    assert_eq!(t2.root.hash, sha256(&ab));
    // Three leaves: the last is duplicated to pair up.
    let t3 = MerkleTree::new(vec![a.clone(), b.clone(), c.clone()]);
    let mut cc = sha256(&c);
    cc.extend_from_slice(&sha256(&c));
    let mut level2 = sha256(&ab);
    level2.extend_from_slice(&sha256(&cc));
    assert_eq!(t3.root.hash, sha256(&level2));
}

#[test]
fn target_has_sixteen_leading_zero_bits() {
    let t = get_target_difficulty();
    assert_eq!(DIFFICULTY, 16);
    assert_eq!(t.len(), 32);
    assert_eq!(t[0], 0);
    assert_eq!(t[1], 0);
    assert_eq!(t[2], 0x80);
    assert!(t[3..].iter().all(|&b| b == 0));
}

#[test]
fn coinbase_tx_shape() {
    let w = Wallet::new();
    let addr = w.get_wallet_address();
    let cb = coinbase_tx(&addr);
    assert!(cb.is_coinbase());
    assert_eq!(cb.outputs.len(), 1);
    assert_eq!(cb.outputs[0].value, COINBASE_REWARD);
    assert_eq!(&cb.outputs[0].pub_key_hash, addr.pub_key_hash());
    assert_eq!(cb.id, cb.hash());
}

fn single_utxo_set(tx_id: Vec<u8>, out: u32, value: u32, pkh: Vec<u8>) -> UtxoSet {
    let mut set = UtxoSet::new();
    set.put_utxo(&tx_id, out, TxOutput { value, pub_key_hash: pkh });
    set
}

#[test]
fn tx_new_exact_sum_has_no_change_output() {
    let a = Wallet::new();
    let b = Wallet::new();
    let spendable = single_utxo_set(vec![7u8; 32], 0, 100, hash_pub_key(a.pub_key()));
    let tx = Tx::new(&a, &b.get_wallet_address(), 100, &spendable).unwrap();
    assert_eq!(tx.outputs.len(), 1);
    assert_eq!(tx.outputs[0].value, 100);
    assert_eq!(&tx.outputs[0].pub_key_hash, b.get_wallet_address().pub_key_hash());
}

#[test]
fn tx_new_change_output_returns_leftover() {
    let a = Wallet::new();
    let b = Wallet::new();
    let spendable = single_utxo_set(vec![7u8; 32], 0, 100, hash_pub_key(a.pub_key()));
    let tx = Tx::new(&a, &b.get_wallet_address(), 30, &spendable).unwrap();
    assert_eq!(tx.outputs.len(), 2);
    assert_eq!(tx.outputs[0].value, 30);
    assert_eq!(tx.outputs[1].value, 70);
    assert_eq!(&tx.outputs[1].pub_key_hash, a.get_wallet_address().pub_key_hash());
}

#[test]
fn tx_new_insufficient_funds() {
    let a = Wallet::new();
    let b = Wallet::new();
    let spendable = single_utxo_set(vec![7u8; 32], 0, 10, hash_pub_key(a.pub_key()));
    assert_eq!(
        Tx::new(&a, &b.get_wallet_address(), 11, &spendable).unwrap_err(),
        ChainError::InsufficientFunds
    );
}

#[test]
fn tx_sign_then_verify_is_valid() {
    let a = Wallet::new();
    let b = Wallet::new();
    let utxos = single_utxo_set(vec![9u8; 32], 1, 50, hash_pub_key(a.pub_key()));
    let mut tx = Tx {
        id: vec![0u8; 32],
        inputs: vec![TxInput::new(
            vec![9u8; 32],
            1,
            vec![0u8; 64],
            a.pub_key().clone(),
        )],
        outputs: vec![TxOutput { value: 50, pub_key_hash: hash_pub_key(b.pub_key()) }],
    };
    tx.id = tx.hash();
    tx.sign(a.private_key()).unwrap();
    assert!(matches!(tx.verify(&utxos), TxVerdict::Valid));
}

#[test]
fn tx_verify_unknown_input() {
    let a = Wallet::new();
    let utxos = UtxoSet::new();
    let mut tx = Tx {
        id: vec![0u8; 32],
        inputs: vec![TxInput::new(
            vec![9u8; 32],
            1,
            vec![0u8; 64],
            a.pub_key().clone(),
        )],
        outputs: vec![TxOutput { value: 1, pub_key_hash: vec![0u8; 20] }],
    };
    tx.id = tx.hash();
    tx.sign(a.private_key()).unwrap();
    assert!(matches!(tx.verify(&utxos), TxVerdict::UnknownInput));
}

#[test]
fn tx_verify_wrong_key() {
    let a = Wallet::new();
    let intruder = Wallet::new();
    // The output is locked to a's key hash, but the input carries the
    // intruder's public key.
    let utxos = single_utxo_set(vec![9u8; 32], 0, 50, hash_pub_key(a.pub_key()));
    let mut tx = Tx {
        id: vec![0u8; 32],
        inputs: vec![TxInput::new(
            vec![9u8; 32],
            0,
            vec![0u8; 64],
            intruder.pub_key().clone(),
        )],
        outputs: vec![TxOutput { value: 50, pub_key_hash: vec![0u8; 20] }],
    };
    tx.id = tx.hash();
    tx.sign(intruder.private_key()).unwrap();
    assert!(matches!(tx.verify(&utxos), TxVerdict::WrongKey));
}

#[test]
fn tx_verify_bad_signature() {
    let a = Wallet::new();
    let utxos = single_utxo_set(vec![9u8; 32], 0, 50, hash_pub_key(a.pub_key()));
    let mut tx = Tx {
        id: vec![0u8; 32],
        inputs: vec![TxInput::new(
            vec![9u8; 32],
            0,
            vec![0u8; 64],
            a.pub_key().clone(),
        )],
        outputs: vec![TxOutput { value: 50, pub_key_hash: vec![0u8; 20] }],
    };
    tx.id = tx.hash();
    tx.sign(a.private_key()).unwrap();
    // Corrupt the signature.
    tx.inputs[0].signature[10] ^= 0xff;
    assert!(matches!(tx.verify(&utxos), TxVerdict::BadSignature));
}

#[test]
fn mempool_double_spend_guard() {
    let a = Wallet::new();
    let b = Wallet::new();
    let c = Wallet::new();
    let spendable = single_utxo_set(vec![7u8; 32], 0, 100, hash_pub_key(a.pub_key()));
    let tx1 = Tx::new(&a, &b.get_wallet_address(), 100, &spendable).unwrap();
    let tx2 = Tx::new(&a, &c.get_wallet_address(), 100, &spendable).unwrap();
    let mut pool = Mempool::new();
    pool.add_tx_to_mempool(&tx1).unwrap();
    assert_eq!(
        pool.add_tx_to_mempool(&tx2).unwrap_err(),
        ChainError::DoubleSpend
    );
    assert_eq!(pool.len(), 1);
}

#[test]
fn find_spendable_stops_at_target_and_reports_shortfall() {
    let a = Wallet::new();
    let pkh = hash_pub_key(a.pub_key());
    let mut set = UtxoSet::new();
    set.put_utxo(&vec![1u8; 32], 0, TxOutput { value: 40, pub_key_hash: pkh.clone() });
    set.put_utxo(&vec![2u8; 32], 0, TxOutput { value: 40, pub_key_hash: pkh.clone() });
    set.put_utxo(&vec![3u8; 32], 0, TxOutput { value: 40, pub_key_hash: pkh.clone() });
    let pool = Mempool::new();
    let picked = set.find_spendable_utxos(&pkh, 50, &pool).unwrap();
    // 40 + 40 covers the target; the search stops there.
    assert_eq!(picked.len(), 2);
    assert_eq!(
        set.find_spendable_utxos(&pkh, 121, &pool).unwrap_err(),
        ChainError::InsufficientFunds
    );
}

#[test]
fn orphan_age_boundary() {
    assert_eq!(MAX_ORPHAN_CHAIN_AGE, 10);
    // An orphan chain reaching exactly MAX_ORPHAN_CHAIN_AGE behind the tip
    // is retained; one block further behind is pruned.
    assert!(matches!(orphan_chain_action(0, 1, 11), OrphanAction::Retain));
    assert!(matches!(orphan_chain_action(0, 1, 12), OrphanAction::Prune));
    assert!(matches!(orphan_chain_action(0, 3, 2), OrphanAction::Adopt));
}

#[test]
fn mining_with_empty_mempool_is_a_noop() {
    let mut st = NodeState::new();
    let mut mgr = ChainManager::new();
    let w = Wallet::new();
    st.create_blockchain(&w.get_wallet_address(), 1_700_000_000).unwrap();
    let tip_before = st.get_last_hash().unwrap();
    let mined = handle_mine(&mut st, &mut mgr, &w, 1_700_000_010).unwrap();
    assert!(mined.is_none());
    assert_eq!(st.get_last_hash().unwrap(), tip_before);
    assert_eq!(st.get_chain_height().unwrap(), 0);
}

#[test]
fn block_verify_levels() {
    let mut st = NodeState::new();
    let w = Wallet::new();
    st.create_blockchain(&w.get_wallet_address(), 1_700_000_000).unwrap();
    let g = st.get_last_block().unwrap();
    assert!(g.verify(&st.utxos));
    assert!(g.verify_orphan());
    assert!(g.is_genesis());
    // Tamper with the nonce: the recomputed hash no longer matches.
    let mut bad = g.duplicate();
    bad.nonce = bad.nonce.wrapping_add(1);
    assert!(!bad.verify_orphan());
    assert!(!bad.verify(&st.utxos));
}

#[test]
fn wallet_store_files_wallets_under_their_addresses() {
    let mut store = WalletStore::init_wallet_store();
    let a1 = store.add_wallet();
    let a2 = store.add_wallet();
    let names = store.get_wallets();
    assert_eq!(names.len(), 2);
    assert_eq!(names[0], a1.get_full_address());
    assert_eq!(names[1], a2.get_full_address());
    assert!(store.get_local_wallet(&a1.get_full_address()).is_some());
    assert!(store.get_local_wallet(&String::from("nope")).is_none());
}

#[test]
fn stale_commit_is_discarded_or_orphaned() {
    let mut st = NodeState::new();
    let mut mgr = ChainManager::new();
    let w = Wallet::new();
    st.create_blockchain(&w.get_wallet_address(), 1_700_000_000).unwrap();
    // A random unmined block fails even the orphan checks and is discarded.
    let junk = Block {
        txs: vec![coinbase_tx(&w.get_wallet_address())],
        prev_hash: vec![1u8; 32],
        hash: vec![2u8; 32],
        nonce: 0,
        height: 9,
        timestamp: 0,
    };
    let outcome = st.commit_block(&mut mgr, &junk);
    assert!(matches!(outcome, dcoin::chain::CommitOutcome::Discarded));
}

#[test]
fn gossip_topics_and_direct_parsing() {
    let peer = b"12D3KooWExample".to_vec();
    assert_eq!(GossipTopic::NewInv.to_topic_bytes(), b"new_inv".to_vec());
    assert_eq!(
        GossipTopic::ChainSyncReq.to_topic_bytes(),
        b"chain_sync_req".to_vec()
    );
    let t = GossipTopic::InvReq(peer.clone()).to_topic_bytes();
    assert_eq!(t, b"direct:12D3KooWExample:inv_req".to_vec());
    let (p, k) = parse_direct_topic(&t).expect("a built direct topic must parse");
    assert_eq!(p, peer);
    assert_eq!(k, b"inv_req".to_vec());
    let t2 = GossipTopic::ChainSyncRes(peer.clone()).to_topic_bytes();
    let (_, k2) = parse_direct_topic(&t2).unwrap();
    assert_eq!(k2, b"chain_sync_res".to_vec());
    // A broadcast topic is not a direct topic.
    assert!(parse_direct_topic(&b"new_inv".to_vec()).is_none());
    assert!(parse_direct_topic(&b"direct-ish".to_vec()).is_none());
}

#[test]
fn chain_json_lists_tip_to_genesis_in_hex() {
    let mut st = NodeState::new();
    let mut mgr = ChainManager::new();
    let w = Wallet::new();
    st.create_blockchain(&w.get_wallet_address(), 1_700_000_000).unwrap();
    // One extra empty block on top.
    let tip = st.get_last_block().unwrap();
    let mut b = Block::new(&w.get_wallet_address(), &tip.hash, tip.height, &st.mempool, 1_700_000_050);
    b.mine().unwrap();
    assert!(matches!(
        st.commit_block(&mut mgr, &b),
        dcoin::chain::CommitOutcome::Extended
    ));
    let json = st.get_blockchain_json(true).unwrap();
    assert_eq!(json.len(), 2);
    assert_eq!(json[0].height, 1);
    assert_eq!(json[0].hash, hex::encode(&b.hash));
    assert_eq!(json[1].height, 0);
    assert_eq!(json[0].prev_hash, json[1].hash);
    let txs = json[0].txs.as_ref().unwrap();
    assert_eq!(txs.len(), 1);
    assert_eq!(txs[0].id, hex::encode(&b.txs[0].id));
}

#[test]
fn tx_json_round_trip_preserves_the_transaction() {
    let a = Wallet::new();
    let b = Wallet::new();
    let spendable = single_utxo_set(vec![7u8; 32], 0, 100, hash_pub_key(a.pub_key()));
    let tx = Tx::new(&a, &b.get_wallet_address(), 60, &spendable).unwrap();
    // The wire form carries DER signatures; rebuild it from the compact one.
    let der = secp256k1::ecdsa::Signature::from_compact(&tx.inputs[0].signature)
        .unwrap()
        .serialize_der()
        .to_vec();
    let json = TxJson {
        id: hex::encode(&tx.id),
        inputs: vec![TxInputJson {
            prev_tx_id: hex::encode(&tx.inputs[0].prev_tx_id),
            out: tx.inputs[0].out,
            signature: hex::encode(&der),
            pub_key: hex::encode(&tx.inputs[0].pub_key),
        }],
        outputs: tx
            .outputs
            .iter()
            .map(|o| TxOutputJson { value: o.value, pub_key_hash: hex::encode(&o.pub_key_hash) })
            .collect(),
    };
    let back = json.to_tx().expect("a well-formed payload must decode");
    assert_eq!(back.id, tx.id);
    assert_eq!(back.inputs[0].prev_tx_id, tx.inputs[0].prev_tx_id);
    assert_eq!(back.inputs[0].signature, tx.inputs[0].signature);
    assert_eq!(back.inputs[0].pub_key, tx.inputs[0].pub_key);
    assert_eq!(back.outputs.len(), tx.outputs.len());
    assert_eq!(back.outputs[1].value, 40);
    // Garbage hex is refused.
    let bad = TxJson { id: String::from("zz"), inputs: vec![], outputs: vec![] };
    assert_eq!(bad.to_tx().unwrap_err(), ChainError::BadSignature);
}

#[test]
fn oversized_address_strings_are_refused() {
    // The base58 decoder works in a fixed buffer; the library refuses
    // anything longer than the buffer holds before calling it, so a string
    // of many leading base58 zeros is an invalid address, not a crash.
    let long_ones = "1".repeat(200);
    assert_eq!(
        Address::new_from_str(long_ones.as_str()).unwrap_err(),
        ChainError::InvalidAddress
    );
    let long_mixed = "2".repeat(500);
    assert_eq!(
        Address::new_from_str(long_mixed.as_str()).unwrap_err(),
        ChainError::InvalidAddress
    );
}
