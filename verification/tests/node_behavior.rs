use chain_node::node::Node;
use chain_node::peers::NetAddr;
use chain_node::types::{Block, SignedTx, ChainError};

fn addr(a: u8, b: u8, c: u8, d: u8, port: u16) -> NetAddr {
    NetAddr { a, b, c, d, port }
}

fn test_node(seed: Vec<(String, u64)>) -> Node {
    Node::new(seed, 1700000000, addr(127, 0, 0, 1, 8000), 3, 16).expect("valid seed")
}

fn balance(node: &Node, account: &str) -> u64 {
    node.get_balances()
        .into_iter()
        .find(|(id, _)| id.as_str() == account)
        .map(|(_, v)| v)
        .unwrap_or(0)
}

#[test]
fn replay_reproduces_ledger_after_commits() {
    let mut node = test_node(vec![("alice".to_string(), 100), ("bob".to_string(), 50)]);
    node.add_tx(&"alice".to_string(), &"bob".to_string(), 30).unwrap();
    node.add_tx(&"bob".to_string(), &"carol".to_string(), 10).unwrap();
    node.produce_block(10, 1700000100).unwrap();
    node.add_tx(&"alice".to_string(), &"carol".to_string(), 5).unwrap();
    node.produce_block(10, 1700000200).unwrap();

    let rebuilt_once = node.rebuild_ledger();
    let rebuilt_twice = node.rebuild_ledger();
    assert_eq!(rebuilt_once.entries, rebuilt_twice.entries);
    assert_eq!(rebuilt_once.entries, node.get_balances());
    assert_eq!(balance(&node, "alice"), 65);
    assert_eq!(balance(&node, "bob"), 70);
    assert_eq!(balance(&node, "carol"), 15);
}

#[test]
fn duplicate_submission_fails_and_pool_unchanged() {
    let mut node = test_node(vec![("alice".to_string(), 100)]);
    node.add_tx(&"alice".to_string(), &"bob".to_string(), 10).unwrap();
    let size_before = node.get_pending_txs().len();
    let second = node.add_tx(&"alice".to_string(), &"bob".to_string(), 10);
    assert_eq!(second, Err(ChainError::DuplicateTx));
    assert_eq!(node.get_pending_txs().len(), size_before);
}

#[test]
fn insufficient_funds_leaves_everything_unchanged() {
    let mut node = test_node(vec![("A".to_string(), 5), ("B".to_string(), 0)]);
    let balances_before = node.get_balances();
    let r = node.add_tx(&"A".to_string(), &"B".to_string(), 10);
    assert_eq!(r, Err(ChainError::InsufficientFunds));
    assert_eq!(node.get_pending_txs().len(), 0);
    assert_eq!(node.get_balances(), balances_before);
}

#[test]
fn pending_debits_count_against_balance() {
    let mut node = test_node(vec![("alice".to_string(), 100)]);
    node.add_tx(&"alice".to_string(), &"bob".to_string(), 80).unwrap();
    let r = node.add_tx(&"alice".to_string(), &"bob".to_string(), 30);
    assert_eq!(r, Err(ChainError::InsufficientFunds));
    node.add_tx(&"alice".to_string(), &"bob".to_string(), 20).unwrap();
}

#[test]
fn blocks_from_past_head_is_empty_not_error() {
    let node = test_node(vec![("alice".to_string(), 100)]);
    let blocks = node.get_blocks(5).unwrap();
    assert_eq!(blocks.len(), 0);
}

#[test]
fn blocks_from_offset_returns_suffix() {
    let mut node = test_node(vec![("alice".to_string(), 100)]);
    node.add_tx(&"alice".to_string(), &"bob".to_string(), 10).unwrap();
    node.produce_block(10, 1700000100).unwrap();
    let all = node.get_blocks(0).unwrap();
    assert_eq!(all.len(), 2);
    let tail = node.get_blocks(1).unwrap();
    assert_eq!(tail.len(), 1);
    assert_eq!(tail[0].number, 1);
    assert_eq!(tail[0].parent_hash, all[0].hash);
}

#[test]
fn get_block_past_head_is_not_found() {
    let node = test_node(vec![("alice".to_string(), 100)]);
    match node.get_block(7) {
        Err(e) => assert_eq!(e, ChainError::NotFound),
        Ok(_) => panic!("expected NotFound"),
    }
    assert_eq!(node.get_block(0).unwrap().number, 0);
}

#[test]
fn own_address_is_rejected_as_peer() {
    let mut node = test_node(vec![("alice".to_string(), 100)]);
    let r = node.add_peer("127.0.0.1:8000");
    assert_eq!(r, Err(ChainError::SelfAddress));
    assert_eq!(node.peers.peers.len(), 0);
}

#[test]
fn peer_registration_errors() {
    let mut node = test_node(vec![("alice".to_string(), 100)]);
    assert_eq!(node.add_peer("10.0.0.2:9000"), Ok(()));
    assert_eq!(node.add_peer("10.0.0.2:9000"), Err(ChainError::AlreadyKnown));
    assert_eq!(node.add_peer("not an address"), Err(ChainError::InvalidAddress));
    assert_eq!(node.peers.peers.len(), 1);
}

#[test]
fn fork_adoption_adopts_longer_chain_and_requeues() {
    let mut node = test_node(vec![("alice".to_string(), 100)]);

    // B1 commits alice -> bob 30.
    node.add_tx(&"alice".to_string(), &"bob".to_string(), 30).unwrap();
    node.produce_block(10, 1700000100).unwrap();
    // B2 commits alice -> carol 5; this block will be abandoned.
    node.add_tx(&"alice".to_string(), &"carol".to_string(), 5).unwrap();
    node.produce_block(10, 1700000200).unwrap();
    assert_eq!(node.latest_block_number(), 2);

    // Peer chain: same G and B1, then a different B2' and a B3'.
    let local = node.get_blocks(0).unwrap();
    let g = local[0].duplicate();
    let b1 = local[1].duplicate();
    let tx_d = SignedTx::new("alice".to_string(), "dave".to_string(), 7);
    let b2_alt = Block::new(2, b1.hash, 1700000250, vec![tx_d]);
    let b3_alt = Block::new(3, b2_alt.hash, 1700000300, Vec::new());
    let b3_hash = b3_alt.hash;
    let peer_chain = vec![g, b1, b2_alt, b3_alt];

    node.adopt_chain(peer_chain).unwrap();
    assert_eq!(node.latest_block_number(), 3);
    assert_eq!(node.latest_block_hash(), b3_hash);
    // The replayed ledger reflects the adopted chain.
    assert_eq!(balance(&node, "alice"), 63);
    assert_eq!(balance(&node, "bob"), 30);
    assert_eq!(balance(&node, "dave"), 7);
    assert_eq!(balance(&node, "carol"), 0);
    // The transaction unique to the abandoned block is pending again.
    let pending = node.get_pending_txs();
    assert_eq!(pending.len(), 1);
    assert_eq!(pending[0].from, "alice");
    assert_eq!(pending[0].to, "carol");
    assert_eq!(pending[0].value, 5);
}

#[test]
fn fork_adoption_rejects_shorter_or_equal_chains() {
    let mut node = test_node(vec![("alice".to_string(), 100)]);
    node.add_tx(&"alice".to_string(), &"bob".to_string(), 30).unwrap();
    node.produce_block(10, 1700000100).unwrap();

    let same_length = node.get_blocks(0).unwrap();
    let before = node.latest_block_hash();
    assert_eq!(node.adopt_chain(same_length), Err(ChainError::InvalidBlock));
    assert_eq!(node.latest_block_hash(), before);
    assert_eq!(node.latest_block_number(), 1);
}

#[test]
fn fork_adoption_rejects_invalid_replay() {
    let mut node = test_node(vec![("alice".to_string(), 10)]);
    let local = node.get_blocks(0).unwrap();
    let g = local[0].duplicate();
    // A longer chain whose transaction overdraws alice.
    let overdraw = SignedTx::new("alice".to_string(), "bob".to_string(), 99);
    let b1 = Block::new(1, g.hash, 1700000100, vec![overdraw]);
    let b2 = Block::new(2, b1.hash, 1700000200, Vec::new());
    let r = node.adopt_chain(vec![g, b1, b2]);
    assert_eq!(r, Err(ChainError::InvalidBlock));
    assert_eq!(node.latest_block_number(), 0);
}

#[test]
fn adoption_keeps_unrelated_pending_transactions() {
    let mut node = test_node(vec![("alice".to_string(), 100)]);
    node.add_tx(&"alice".to_string(), &"bob".to_string(), 10).unwrap();

    let local = node.get_blocks(0).unwrap();
    let g = local[0].duplicate();
    let b1 = Block::new(1, g.hash, 1700000100, Vec::new());
    let b2 = Block::new(2, b1.hash, 1700000200, Vec::new());
    node.adopt_chain(vec![g, b1, b2]).unwrap();

    // The pending transfer was committed nowhere, so it is still pending.
    let pending = node.get_pending_txs();
    assert_eq!(pending.len(), 1);
    assert_eq!(pending[0].to, "bob");
    assert_eq!(pending[0].value, 10);
}

#[test]
fn genesis_block_is_empty_and_timestamped() {
    let node = test_node(vec![("alice".to_string(), 100)]);
    let genesis = node.get_block(0).unwrap();
    assert_eq!(genesis.number, 0);
    assert_eq!(genesis.timestamp, 1700000000);
    assert_eq!(genesis.transactions.len(), 0);
}

#[test]
fn produce_block_commits_fifo_and_clears_pool() {
    let mut node = test_node(vec![("alice".to_string(), 100)]);
    node.add_tx(&"alice".to_string(), &"bob".to_string(), 1).unwrap();
    node.add_tx(&"alice".to_string(), &"bob".to_string(), 2).unwrap();
    node.add_tx(&"alice".to_string(), &"bob".to_string(), 3).unwrap();
    // Only the two oldest fit in the block.
    node.produce_block(2, 1700000100).unwrap();
    let head = node.get_block(1).unwrap();
    assert_eq!(head.transactions.len(), 2);
    assert_eq!(head.transactions[0].value, 1);
    assert_eq!(head.transactions[1].value, 2);
    let pending = node.get_pending_txs();
    assert_eq!(pending.len(), 1);
    assert_eq!(pending[0].value, 3);
    assert_eq!(balance(&node, "bob"), 3);
}

#[test]
fn rejected_seed_yields_no_node() {
    let dup = vec![("alice".to_string(), 1), ("alice".to_string(), 2)];
    assert!(Node::new(dup, 0, addr(127, 0, 0, 1, 8000), 3, 16).is_none());
    let overflow = vec![("a".to_string(), u64::MAX), ("b".to_string(), 1)];
    assert!(Node::new(overflow, 0, addr(127, 0, 0, 1, 8000), 3, 16).is_none());
}

#[test]
fn committed_transaction_cannot_be_resubmitted() {
    let mut node = test_node(vec![("alice".to_string(), 100)]);
    node.add_tx(&"alice".to_string(), &"bob".to_string(), 10).unwrap();
    node.produce_block(10, 1700000100).unwrap();
    assert_eq!(node.get_pending_txs().len(), 0);
    let again = node.add_tx(&"alice".to_string(), &"bob".to_string(), 10);
    assert_eq!(again, Err(ChainError::DuplicateTx));
}

#[test]
fn sync_fetches_only_strictly_taller_peers() {
    assert!(chain_node::node::sync_should_fetch(2, 3));
    assert!(!chain_node::node::sync_should_fetch(3, 3));
    assert!(!chain_node::node::sync_should_fetch(3, 2));
}

#[test]
fn ok_resp_reports_success() {
    let r = chain_node::OkResp::new();
    assert!(r.success);
}
