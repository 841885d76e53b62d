use chain_node::chain::ChainStore;
use chain_node::ledger::Ledger;
use chain_node::mempool::Mempool;
use chain_node::peers::{parse_net_addr, NetAddr, PeerRegistry};
use chain_node::types::{Block, SignedTx, ChainError, GENESIS_PARENT};

#[test]
fn parser_accepts_well_formed_addresses() {
    assert_eq!(
        parse_net_addr("1.2.3.4:8080"),
        Some(NetAddr { a: 1, b: 2, c: 3, d: 4, port: 8080 })
    );
    assert_eq!(
        parse_net_addr("255.255.255.255:65535"),
        Some(NetAddr { a: 255, b: 255, c: 255, d: 255, port: 65535 })
    );
    assert_eq!(
        parse_net_addr("0.0.0.0:0"),
        Some(NetAddr { a: 0, b: 0, c: 0, d: 0, port: 0 })
    );
    // Leading zeros are accepted.
    assert_eq!(
        parse_net_addr("001.2.3.4:008"),
        Some(NetAddr { a: 1, b: 2, c: 3, d: 4, port: 8 })
    );
}

#[test]
fn parser_rejects_malformed_addresses() {
    assert_eq!(parse_net_addr(""), None);
    assert_eq!(parse_net_addr("1.2.3.4"), None);
    assert_eq!(parse_net_addr("1.2.3:80"), None);
    assert_eq!(parse_net_addr("1.2.3.4.5:80"), None);
    assert_eq!(parse_net_addr("256.1.1.1:80"), None);
    assert_eq!(parse_net_addr("1.2.3.4:65536"), None);
    assert_eq!(parse_net_addr("a.b.c.d:80"), None);
    assert_eq!(parse_net_addr("1.2.3.4:"), None);
    assert_eq!(parse_net_addr(".2.3.4:80"), None);
    assert_eq!(parse_net_addr("1.2.3.4:80:81"), None);
}

fn seeded(pairs: Vec<(&str, u64)>) -> Ledger {
    Ledger::from_seed(pairs.into_iter().map(|(k, v)| (k.to_string(), v)).collect()).unwrap()
}

#[test]
fn ledger_applies_transfers_atomically() {
    let mut l = seeded(vec![("alice", 50)]);
    let tx = SignedTx::new("alice".to_string(), "bob".to_string(), 20);
    l.apply(&tx).unwrap();
    assert_eq!(l.balance_of(&"alice".to_string()), 30);
    assert_eq!(l.balance_of(&"bob".to_string()), 20);
    assert_eq!(l.balance_of(&"nobody".to_string()), 0);

    let snapshot_before = l.snapshot();
    let overdraw = SignedTx::new("alice".to_string(), "bob".to_string(), 31);
    assert_eq!(l.apply(&overdraw), Err(ChainError::InsufficientFunds));
    assert_eq!(l.snapshot(), snapshot_before);

    let unknown = SignedTx::new("mallory".to_string(), "bob".to_string(), 1);
    assert_eq!(l.apply(&unknown), Err(ChainError::UnknownAccount));
    assert_eq!(l.snapshot(), snapshot_before);
}

#[test]
fn ledger_self_transfer_is_a_consistent_no_op() {
    let mut l = seeded(vec![("alice", 50)]);
    let tx = SignedTx::new("alice".to_string(), "alice".to_string(), 20);
    l.apply(&tx).unwrap();
    assert_eq!(l.balance_of(&"alice".to_string()), 50);
    let too_much = SignedTx::new("alice".to_string(), "alice".to_string(), 51);
    assert_eq!(l.apply(&too_much), Err(ChainError::InsufficientFunds));
}

#[test]
fn ledger_seed_is_validated() {
    assert!(Ledger::from_seed(vec![("a".to_string(), 1), ("a".to_string(), 2)]).is_none());
    assert!(Ledger::from_seed(vec![("a".to_string(), u64::MAX), ("b".to_string(), 1)]).is_none());
    assert!(Ledger::from_seed(vec![("a".to_string(), u64::MAX)]).is_some());
}

#[test]
fn mempool_rejects_tampered_signature() {
    let ledger = seeded(vec![("alice", 50)]);
    let mut pool = Mempool::new();
    let mut tx = SignedTx::new("alice".to_string(), "bob".to_string(), 1);
    tx.signature = tx.signature.wrapping_add(1);
    assert_eq!(pool.submit(tx, &ledger), Err(ChainError::InvalidSignature));
    assert_eq!(pool.len(), 0);
}

#[test]
fn mempool_drain_keeps_transactions_until_commit() {
    let ledger = seeded(vec![("alice", 50)]);
    let mut pool = Mempool::new();
    pool.submit(SignedTx::new("alice".to_string(), "bob".to_string(), 1), &ledger).unwrap();
    pool.submit(SignedTx::new("alice".to_string(), "bob".to_string(), 2), &ledger).unwrap();
    let drained = pool.drain_for_block(5);
    assert_eq!(drained.len(), 2);
    assert_eq!(drained[0].value, 1);
    assert_eq!(drained[1].value, 2);
    assert_eq!(pool.len(), 2);
    let capped = pool.drain_for_block(1);
    assert_eq!(capped.len(), 1);
}

#[test]
fn mempool_evict_removes_one_pending_transaction() {
    let ledger = seeded(vec![("alice", 50)]);
    let mut pool = Mempool::new();
    let tx = SignedTx::new("alice".to_string(), "bob".to_string(), 1);
    let id = tx.id();
    pool.submit(tx, &ledger).unwrap();
    assert!(pool.evict(id));
    assert_eq!(pool.len(), 0);
    assert!(!pool.evict(id));
}

#[test]
fn append_validates_all_five_checks() {
    let mut chain = ChainStore::new(1700000000);
    let mut ledger = seeded(vec![("alice", 50)]);
    let head_hash = chain.head().hash;
    let snapshot_before = ledger.snapshot();

    // Wrong parent linkage.
    let bad_parent = Block::new(1, head_hash.wrapping_add(1), 1, Vec::new());
    assert_eq!(chain.append(bad_parent, &mut ledger), Err(ChainError::InvalidBlock));

    // Wrong number.
    let bad_number = Block::new(2, head_hash, 1, Vec::new());
    assert_eq!(chain.append(bad_number, &mut ledger), Err(ChainError::InvalidBlock));

    // Tampered content hash.
    let mut bad_hash = Block::new(1, head_hash, 1, Vec::new());
    bad_hash.hash = bad_hash.hash.wrapping_add(1);
    assert_eq!(chain.append(bad_hash, &mut ledger), Err(ChainError::InvalidBlock));

    // Invalid transaction signature.
    let mut forged = SignedTx::new("alice".to_string(), "bob".to_string(), 1);
    forged.signature = forged.signature.wrapping_add(1);
    let bad_sig = Block::new(1, head_hash, 1, vec![forged]);
    assert_eq!(chain.append(bad_sig, &mut ledger), Err(ChainError::InvalidBlock));

    // Failing replay: alice cannot cover 99.
    let overdraw = SignedTx::new("alice".to_string(), "bob".to_string(), 99);
    let bad_replay = Block::new(1, head_hash, 1, vec![overdraw]);
    assert_eq!(chain.append(bad_replay, &mut ledger), Err(ChainError::InvalidBlock));

    // The ledger and the chain never moved.
    assert_eq!(ledger.snapshot(), snapshot_before);
    assert_eq!(chain.head().number, 0);

    // A valid block commits and updates the ledger.
    let ok_tx = SignedTx::new("alice".to_string(), "bob".to_string(), 20);
    let good = Block::new(1, head_hash, 1, vec![ok_tx]);
    chain.append(good, &mut ledger).unwrap();
    assert_eq!(chain.head().number, 1);
    assert_eq!(ledger.balance_of(&"bob".to_string()), 20);
}

#[test]
fn block_hash_is_deterministic_over_content() {
    let tx = SignedTx::new("alice".to_string(), "bob".to_string(), 20);
    let tx_copy = tx.duplicate();
    let b1 = Block::new(1, GENESIS_PARENT, 42, vec![tx]);
    let b2 = Block::new(1, GENESIS_PARENT, 42, vec![tx_copy]);
    assert_eq!(b1.hash, b2.hash);
    let b3 = Block::new(1, GENESIS_PARENT, 43, Vec::new());
    assert_ne!(b1.hash, b3.hash);
}

#[test]
fn registry_tracks_liveness_and_drops_after_threshold() {
    let me = NetAddr { a: 127, b: 0, c: 0, d: 1, port: 8000 };
    let other = NetAddr { a: 10, b: 0, c: 0, d: 2, port: 9000 };
    let mut reg = PeerRegistry::new(me, 2, 16);
    reg.add(other).unwrap();
    reg.mark_unreachable(other);
    assert_eq!(reg.peers.len(), 1);
    assert_eq!(reg.peers[0].failures, 1);
    reg.mark_reachable(other);
    assert_eq!(reg.peers[0].failures, 0);
    reg.mark_unreachable(other);
    reg.mark_unreachable(other);
    assert_eq!(reg.peers.len(), 0);
}

#[test]
fn registry_discovery_respects_cap() {
    let me = NetAddr { a: 127, b: 0, c: 0, d: 1, port: 8000 };
    let mut reg = PeerRegistry::new(me, 2, 2);
    let reported = vec![
        NetAddr { a: 10, b: 0, c: 0, d: 1, port: 1 },
        me,
        NetAddr { a: 10, b: 0, c: 0, d: 2, port: 2 },
        NetAddr { a: 10, b: 0, c: 0, d: 3, port: 3 },
        NetAddr { a: 10, b: 0, c: 0, d: 1, port: 1 },
    ];
    reg.merge_peers(&reported);
    assert_eq!(reg.peers.len(), 2);
    let known = reg.all();
    assert!(known.contains(&NetAddr { a: 10, b: 0, c: 0, d: 1, port: 1 }));
    assert!(known.contains(&NetAddr { a: 10, b: 0, c: 0, d: 2, port: 2 }));
}
