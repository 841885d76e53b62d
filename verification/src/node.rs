//! The node: chain store, ledger, mempool and peer registry composed as one
//! unit of state. Callers serialize access to it (readers may share, writers
//! are exclusive); every method here works on a single such exclusive or
//! shared borrow, so each observes and produces one consistent state.
//!
//! The node's central invariant ties the pieces together: the ledger is
//! exactly the replay of every committed transaction, in block order and
//! intra-block order, from the genesis seed.

use vstd::prelude::*;
use vstd::string::StringSliceAdditionalSpecFns;
use crate::types::{
    Block, SignedTx, ChainError, tx_views, block_views, tx_id, tx_sig_valid, signed_tx_view,
    ids_of, tx_ids_of,
};
use crate::ledger::{Ledger, map_of, bal_or_zero, entries_unique, total_of};
use crate::chain::{
    ChainStore, replay, apply_txs, chain_linked, chain_has_tx, is_linked_chain, blocks_contain_tx,
    collect_tx_ids, replay_blocks,
};
use crate::mempool::{Mempool, pool_has_id, pending_debit, without_ids};
use crate::peers::{PeerRegistry, NetAddr, parse_net_addr, parse_addr, has_addr, Peer};

verus! {

/// A blockchain node's entire mutable state.
pub struct Node {
    pub chain: ChainStore,
    pub ledger: Ledger,
    /// The genesis balances, fixed at construction; replay starts here.
    pub genesis: Ledger,
    pub mempool: Mempool,
    pub peers: PeerRegistry,
}

impl Node {
    /// Every component well-formed, the ledger equal to the replay of the
    /// committed chain from the genesis seed, and nothing pending that is
    /// already committed.
    pub open spec fn wf(&self) -> bool {
        &&& self.chain.linked()
        &&& self.genesis.wf()
        &&& self.ledger.wf()
        &&& self.mempool.wf()
        &&& self.peers.wf()
        &&& replay(self.genesis@, self.chain@) == Some(self.ledger@)
        &&& forall|i: int|
            0 <= i < self.mempool@.len() ==> !chain_has_tx(
                self.chain@,
                tx_id(#[trigger] self.mempool@[i]),
            )
    }

    /// A fresh node: genesis block committed, ledger seeded, nothing
    /// pending, no peers. The seed is rejected when it names an account
    /// twice or its total overflows a balance word.
    pub fn new(
        seed: Vec<(String, u64)>,
        genesis_timestamp: u64,
        self_addr: NetAddr,
        fail_threshold: u64,
        discovery_cap: usize,
    ) -> (r: Option<Node>)
        ensures
            r is Some <==> (entries_unique(seed@) && total_of(seed@) <= u64::MAX),
            r matches Some(n) ==> n.wf() && n.ledger.entries@ == seed@ && n.chain@.len() == 1
                && n.chain@[0].transactions.len() == 0 && n.chain@[0].timestamp
                == genesis_timestamp && n.mempool@.len() == 0 && n.peers.self_addr == self_addr
                && n.peers.peers@.len() == 0,
    {
        let genesis = match Ledger::from_seed(seed) {
            None => {
                return None;
            },
            Some(l) => l,
        };
        let ledger = Ledger { entries: genesis.snapshot() };
        let chain = ChainStore::new(genesis_timestamp);
        proof {
            assert(chain@.drop_last() =~= Seq::<crate::types::BlockView>::empty());
            assert(replay(genesis@, chain@.drop_last()) == Some(genesis@));
            assert(apply_txs(genesis@, chain@.last().transactions) == Some(genesis@));
        }
        Some(
            Node {
                chain,
                ledger,
                genesis,
                mempool: Mempool::new(),
                peers: PeerRegistry::new(self_addr, fail_threshold, discovery_cap),
            },
        )
    }

    /// Hash of the highest-numbered block.
    pub fn latest_block_hash(&self) -> (r: u64)
        requires
            self.wf(),
        ensures
            r == self.chain@.last().hash,
    {
        self.chain.head().hash
    }

    /// Number of the highest-numbered block.
    pub fn latest_block_number(&self) -> (r: u64)
        requires
            self.wf(),
        ensures
            r == self.chain@.last().number,
    {
        self.chain.head().number
    }

    /// Every block with number at least `offset`. An offset past the head
    /// yields an empty sequence, not an error.
    pub fn get_blocks(&self, offset: usize) -> (r: Result<Vec<Block>, ChainError>)
        requires
            self.wf(),
        ensures
            r is Ok,
            r matches Ok(blocks) ==> block_views(blocks@) == self.chain@.skip(
                if offset as int <= self.chain@.len() {
                    offset as int
                } else {
                    self.chain@.len() as int
                },
            ),
            r matches Ok(blocks) ==> (offset as int >= self.chain@.len() ==> blocks@.len() == 0),
    {
        Ok(self.chain.blocks_from(offset))
    }

    /// The block with the given number; `NotFound` past the head.
    pub fn get_block(&self, number: u64) -> (r: Result<Block, ChainError>)
        requires
            self.wf(),
        ensures
            r is Ok <==> (number as int) < self.chain@.len(),
            r matches Ok(b) ==> b@ == self.chain@[number as int] && b@.number == number,
            r is Err ==> r == Err::<Block, ChainError>(ChainError::NotFound),
    {
        match self.chain.block_at(number) {
            Some(b) => Ok(b.duplicate()),
            None => Err(ChainError::NotFound),
        }
    }

    /// Every account and its balance.
    pub fn get_balances(&self) -> (r: Vec<(String, u64)>)
        requires
            self.wf(),
        ensures
            map_of(r@) == self.ledger@,
            r@ == self.ledger.entries@,
    {
        self.ledger.snapshot()
    }

    /// Every pending transaction, oldest first.
    pub fn get_pending_txs(&self) -> (r: Vec<SignedTx>)
        requires
            self.wf(),
        ensures
            tx_views(r@) == self.mempool@,
    {
        self.mempool.all()
    }

    /// Build, sign and admit a transfer to the mempool. The submission
    /// interface carries no signature, so the node signs on the sender's
    /// behalf. Success is owed exactly when the transaction is not already
    /// committed or pending and the sender's balance, less pending debits,
    /// covers the value; on failure nothing changes.
    pub fn add_tx(&mut self, from: &String, to: &String, value: u64) -> (r: Result<(), ChainError>)
        requires
            old(self).wf(),
        ensures
            final(self).wf(),
            final(self).chain.blocks@ == old(self).chain.blocks@,
            final(self).ledger.entries@ == old(self).ledger.entries@,
            final(self).genesis == old(self).genesis,
            final(self).peers == old(self).peers,
            r is Ok <==> (!chain_has_tx(old(self).chain@, tx_id(signed_tx_view(from@, to@, value)))
                && !pool_has_id(old(self).mempool@, tx_id(signed_tx_view(from@, to@, value)))
                && bal_or_zero(old(self).ledger@, from@) - pending_debit(
                old(self).mempool@,
                from@,
            ) >= value),
            r is Ok ==> final(self).mempool@ == old(self).mempool@.push(
                signed_tx_view(from@, to@, value),
            ),
            r is Err ==> final(self).mempool.txs@ == old(self).mempool.txs@,
            r == Err::<(), ChainError>(ChainError::DuplicateTx) <==> (chain_has_tx(
                old(self).chain@,
                tx_id(signed_tx_view(from@, to@, value)),
            ) || pool_has_id(old(self).mempool@, tx_id(signed_tx_view(from@, to@, value)))),
            r is Err ==> (r == Err::<(), ChainError>(ChainError::DuplicateTx) || r == Err::<
                (),
                ChainError,
            >(ChainError::InsufficientFunds)),
    {
        let tx = SignedTx::new(from.clone(), to.clone(), value);
        proof {
            assert(tx@ == signed_tx_view(from@, to@, value));
        }
        let ghost tv = tx@;
        let id = tx.id();
        if self.chain.contains_tx(id) {
            return Err(ChainError::DuplicateTx);
        }
        match self.mempool.submit(tx, &self.ledger) {
            Ok(_) => {
                proof {
                    assert forall|i: int|
                        0 <= i < self.mempool@.len() implies !chain_has_tx(
                        self.chain@,
                        tx_id(#[trigger] self.mempool@[i]),
                    ) by {
                        if i < old(self).mempool@.len() {
                            assert(self.mempool@[i] == old(self).mempool@[i]);
                        } else {
                            assert(self.mempool@[i] == tv);
                        }
                    }
                }
                Ok(())
            },
            Err(e) => Err(e),
        }
    }

    /// Parse and register a peer address. `InvalidAddress` exactly on
    /// strings that are not `a.b.c.d:port`; `SelfAddress` exactly on the
    /// node's own listening address; `AlreadyKnown` on a repeat.
    pub fn add_peer(&mut self, addr: &str) -> (r: Result<(), ChainError>)
        requires
            old(self).wf(),
        ensures
            final(self).wf(),
            final(self).chain.blocks@ == old(self).chain.blocks@,
            final(self).ledger.entries@ == old(self).ledger.entries@,
            final(self).genesis == old(self).genesis,
            final(self).mempool.txs@ == old(self).mempool.txs@,
            final(self).peers.self_addr == old(self).peers.self_addr,
            match parse_addr(addr.spec_bytes()) {
                None => r == Err::<(), ChainError>(ChainError::InvalidAddress) && final(self).peers.peers@ == old(self).peers.peers@,
                Some(a) => {
                    &&& (r is Ok <==> (a != old(self).peers.self_addr && !has_addr(
                        old(self).peers.peers@,
                        a,
                    )))
                    &&& (r is Ok ==> final(self).peers.peers@ == old(self).peers.peers@.push(
                        Peer { addr: a, failures: 0 },
                    ))
                    &&& (r is Err ==> final(self).peers.peers@ == old(self).peers.peers@)
                    &&& (r == Err::<(), ChainError>(ChainError::SelfAddress) <==> a == old(self).peers.self_addr)
                    &&& (r is Err ==> (r == Err::<(), ChainError>(ChainError::SelfAddress) || r
                        == Err::<(), ChainError>(ChainError::AlreadyKnown)))
                },
            },
    {
        match parse_net_addr(addr) {
            None => Err(ChainError::InvalidAddress),
            Some(a) => self.peers.add(a),
        }
    }

    /// Build a block from the oldest pending transactions and commit it:
    /// validated, appended, ledger updated, committed transactions removed
    /// from the mempool — or nothing at all changes.
    pub fn produce_block(&mut self, max_txs: usize, timestamp: u64) -> (r: Result<
        (),
        ChainError,
    >)
        requires
            old(self).wf(),
        ensures
            final(self).wf(),
            final(self).genesis == old(self).genesis,
            final(self).peers == old(self).peers,
            r is Ok <==> apply_txs(
                old(self).ledger@,
                old(self).mempool@.take(
                    if max_txs as int <= old(self).mempool@.len() {
                        max_txs as int
                    } else {
                        old(self).mempool@.len() as int
                    },
                ),
            ) is Some,
            r is Ok ==> {
                let drained = old(self).mempool@.take(
                    if max_txs as int <= old(self).mempool@.len() {
                        max_txs as int
                    } else {
                        old(self).mempool@.len() as int
                    },
                );
                &&& final(self).chain@.len() == old(self).chain@.len() + 1
                &&& final(self).chain@.take(old(self).chain@.len() as int) == old(self).chain@
                &&& final(self).chain@.last().transactions == drained
                &&& final(self).chain@.last().timestamp == timestamp
                &&& final(self).chain@.last().number == old(self).chain@.last().number + 1
                &&& final(self).chain@.last().parent_hash == old(self).chain@.last().hash
                &&& Some(final(self).ledger@) == apply_txs(old(self).ledger@, drained)
                &&& final(self).mempool@ == without_ids(old(self).mempool@, ids_of(drained))
            },
            r is Err ==> final(self).chain.blocks@ == old(self).chain.blocks@ && final(self).ledger.entries@ == old(self).ledger.entries@ && final(self).mempool.txs@ == old(self).mempool.txs@ && r == Err::<(), ChainError>(ChainError::InvalidBlock),
    {
        let txs = self.mempool.drain_for_block(max_txs);
        let ghost drained = tx_views(txs@);
        let ids = tx_ids_of(&txs);
        let n = self.chain.blocks.len();
        let head_number = self.chain.head().number;
        let head_hash = self.chain.head().hash;
        proof {
            assert(self.chain@[n - 1] == self.chain@.last());
            assert(head_number as int == n - 1);
        }
        let block = Block::new(head_number + 1, head_hash, timestamp, txs);
        proof {
            assert(crate::types::block_sigs_valid(block@)) by {
                assert forall|t: int|
                    0 <= t < block@.transactions.len() implies tx_sig_valid(
                    #[trigger] block@.transactions[t],
                ) by {
                    assert(block@.transactions[t] == drained[t]);
                    assert(drained[t] == old(self).mempool@[t]);
                }
            }
        }
        let ghost chain0 = self.chain@;
        let ghost ledger0 = self.ledger@;
        let ghost bv = block@;
        match self.chain.append(block, &mut self.ledger) {
            Ok(_) => {
                self.mempool.remove_committed(&ids);
                proof {
                    assert(self.chain@.drop_last() =~= chain0);
                    assert(self.chain@.take(chain0.len() as int) =~= chain0);
                    assert(replay(self.genesis@, self.chain@) == Some(self.ledger@));
                    crate::mempool::lemma_without_ids_contains(old(self).mempool@, ids@);
                    assert forall|i: int|
                        0 <= i < self.mempool@.len() implies !chain_has_tx(
                        self.chain@,
                        tx_id(#[trigger] self.mempool@[i]),
                    ) by {
                        let x = self.mempool@[i];
                        assert(self.mempool@.contains(x));
                        assert(old(self).mempool@.contains(x));
                        assert(!ids@.contains(tx_id(x)));
                        if chain_has_tx(self.chain@, tx_id(x)) {
                            let j = choose|j: int|
                                0 <= j < self.chain@.len() && crate::chain::block_has_tx(
                                    #[trigger] self.chain@[j],
                                    tx_id(x),
                                );
                            if j < chain0.len() {
                                assert(self.chain@[j] == chain0[j]);
                                assert(chain_has_tx(chain0, tx_id(x)));
                                let b = choose|b: int|
                                    0 <= b < old(self).mempool@.len() && #[trigger] old(
                                        self).mempool@[b] == x;
                                assert(!chain_has_tx(
                                    old(self).chain@,
                                    tx_id(old(self).mempool@[b]),
                                ));
                            } else {
                                assert(self.chain@[j] == bv);
                                let t = choose|t: int|
                                    0 <= t < bv.transactions.len() && tx_id(
                                        #[trigger] bv.transactions[t],
                                    ) == tx_id(x);
                                assert(ids_of(drained)[t] == tx_id(x));
                                assert(ids_of(drained).contains(tx_id(x)));
                            }
                        }
                    }
                }
                Ok(())
            },
            Err(e) => {
                proof {
                    assert(!crate::chain::valid_extension(chain0, ledger0, block@));
                }
                Err(e)
            },
        }
    }

    /// Fork choice: adopt a peer's chain when it shares our genesis block,
    /// is strictly longer, and is valid in full — linkage, numbering,
    /// hashes, signatures, and a replay of every transaction from the
    /// genesis seed. On adoption the ledger is rebuilt by that replay,
    /// transactions committed in the adopted chain leave the mempool, and
    /// every transaction of the abandoned chain that the adopted chain does
    /// not carry is re-queued rather than silently dropped. Otherwise the
    /// candidate is discarded and nothing changes.
    #[verifier::rlimit(100)]
    pub fn adopt_chain(&mut self, candidate: Vec<Block>) -> (r: Result<(), ChainError>)
        requires
            old(self).wf(),
        ensures
            final(self).wf(),
            final(self).genesis == old(self).genesis,
            final(self).peers == old(self).peers,
            r is Ok <==> (chain_linked(block_views(candidate@)) && block_views(
                candidate@,
            )[0].hash == old(self).chain@[0].hash && candidate@.len() > old(self).chain@.len()
                && replay(old(self).genesis@, block_views(candidate@)) is Some),
            r is Ok ==> final(self).chain@ == block_views(candidate@) && Some(final(self).ledger@)
                == replay(old(self).genesis@, block_views(candidate@)),
            r is Ok ==> forall|id: u64|
                chain_has_tx(old(self).chain@, id) && !chain_has_tx(block_views(candidate@), id)
                    ==> pool_has_id(final(self).mempool@, id),
            r is Ok ==> forall|id: u64|
                chain_has_tx(block_views(candidate@), id) ==> !pool_has_id(
                    final(self).mempool@,
                    id,
                ),
            r is Ok ==> forall|id: u64|
                pool_has_id(old(self).mempool@, id) && !chain_has_tx(block_views(candidate@), id)
                    ==> pool_has_id(final(self).mempool@, id),
            r is Err ==> final(self).chain.blocks@ == old(self).chain.blocks@ && final(self).ledger.entries@ == old(self).ledger.entries@ && final(self).mempool.txs@ == old(self).mempool.txs@ && r == Err::<(), ChainError>(ChainError::InvalidBlock),
    {
        let ghost cand_v = block_views(candidate@);
        if !is_linked_chain(&candidate) {
            return Err(ChainError::InvalidBlock);
        }
        proof {
            assert(cand_v.len() >= 1);
            assert(cand_v[0] == candidate@[0]@);
            assert(self.chain@[0] == self.chain.blocks@[0]@);
        }
        if candidate[0].hash != self.chain.blocks[0].hash {
            return Err(ChainError::InvalidBlock);
        }
        if candidate.len() <= self.chain.blocks.len() {
            return Err(ChainError::InvalidBlock);
        }
        let new_ledger = match replay_blocks(&self.genesis, &candidate) {
            None => {
                return Err(ChainError::InvalidBlock);
            },
            Some(l) => l,
        };
        // Committed transactions leave the pool.
        let cand_ids = collect_tx_ids(&candidate);
        self.mempool.remove_committed(&cand_ids);
        proof {
            crate::mempool::lemma_without_ids_contains(old(self).mempool@, cand_ids@);
            assert forall|id: u64|
                chain_has_tx(cand_v, id) implies !pool_has_id(self.mempool@, id) by {
                if pool_has_id(self.mempool@, id) {
                    let b = choose|b: int|
                        0 <= b < self.mempool@.len() && tx_id(#[trigger] self.mempool@[b]) == id;
                    assert(self.mempool@.contains(self.mempool@[b]));
                    assert(!cand_ids@.contains(tx_id(self.mempool@[b])));
                }
            }
        }
        // Pending transactions that the adopted chain does not commit stay
        // pending.
        let ghost mid_pool = self.mempool@;
        proof {
            crate::mempool::lemma_without_ids_keeps(old(self).mempool@, cand_ids@);
            assert forall|id: u64|
                pool_has_id(old(self).mempool@, id) && !chain_has_tx(
                    cand_v,
                    id,
                ) implies pool_has_id(mid_pool, id) by {
                let b = choose|b: int|
                    0 <= b < old(self).mempool@.len() && tx_id(
                        #[trigger] old(self).mempool@[b],
                    ) == id;
                let x = old(self).mempool@[b];
                assert(old(self).mempool@.contains(x));
                assert(!cand_ids@.contains(tx_id(x))) by {
                    if cand_ids@.contains(tx_id(x)) {
                        assert(chain_has_tx(cand_v, tx_id(x)));
                    }
                }
                assert(mid_pool.contains(x));
                let c = choose|c: int| 0 <= c < mid_pool.len() && #[trigger] mid_pool[c] == x;
                assert(tx_id(mid_pool[c]) == id);
            }
        }
        // Transactions of the abandoned chain that the adopted chain does
        // not carry go back in the pool.
        proof {
            assert(forall|j: int|
                0 <= j < block_views(self.chain.blocks@).len()
                    ==> crate::types::block_sigs_valid(
                    #[trigger] block_views(self.chain.blocks@)[j],
                ));
        }
        requeue_abandoned(&mut self.mempool, &self.chain.blocks, &candidate);
        self.chain = ChainStore { blocks: candidate };
        self.ledger = new_ledger;
        proof {
            assert forall|id: u64|
                pool_has_id(old(self).mempool@, id) && !chain_has_tx(
                    cand_v,
                    id,
                ) implies pool_has_id(self.mempool@, id) by {
                assert(pool_has_id(mid_pool, id));
            }
            assert forall|i: int|
                0 <= i < self.mempool@.len() implies !chain_has_tx(
                self.chain@,
                tx_id(#[trigger] self.mempool@[i]),
            ) by {
                if chain_has_tx(self.chain@, tx_id(self.mempool@[i])) {
                    assert(chain_has_tx(cand_v, tx_id(self.mempool@[i])));
                    assert(!pool_has_id(self.mempool@, tx_id(self.mempool@[i])));
                }
            }
        }
        Ok(())
    }

    /// Rebuild the ledger from the chain store: by the node invariant the
    /// result is exactly the current ledger state, so the reconstruction is
    /// deterministic and replaying the same chain twice yields the same
    /// mapping.
    pub fn rebuild_ledger(&self) -> (r: Ledger)
        requires
            self.wf(),
        ensures
            r.wf(),
            r@ == self.ledger@,
    {
        match replay_blocks(&self.genesis, &self.chain.blocks) {
            Some(l) => l,
            None => {
                proof {
                    assert(replay(self.genesis@, self.chain@) is Some);
                }
                vstd::pervasive::unreached()
            },
        }
    }
}

/// Sync comparison: fetch a peer's chain exactly when the peer reports a
/// strictly greater height. At equal or lower height the local chain stands,
/// whatever the peer's head hash: the longest valid chain wins.
pub fn sync_should_fetch(local_number: u64, peer_number: u64) -> (r: bool)
    ensures
        r == (peer_number > local_number),
{
    peer_number > local_number
}

/// Re-queue into the pool every transaction of one abandoned block that the
/// adopted blocks do not carry. The pool only grows, and transactions
/// committed in the adopted blocks never (re-)enter it.
#[verifier::rlimit(100)]
fn requeue_block(mempool: &mut Mempool, block: &Block, candidate: &Vec<Block>)
    requires
        old(mempool).wf(),
        crate::types::block_sigs_valid(block@),
        forall|id: u64|
            chain_has_tx(block_views(candidate@), id) ==> !pool_has_id(old(mempool)@, id),
    ensures
        final(mempool).wf(),
        forall|t: int|
            0 <= t < block@.transactions.len() && !chain_has_tx(
                block_views(candidate@),
                tx_id(#[trigger] block@.transactions[t]),
            ) ==> pool_has_id(final(mempool)@, tx_id(block@.transactions[t])),
        forall|id: u64|
            chain_has_tx(block_views(candidate@), id) ==> !pool_has_id(final(mempool)@, id),
        forall|id: u64| pool_has_id(old(mempool)@, id) ==> pool_has_id(final(mempool)@, id),
{
    let ghost cand_v = block_views(candidate@);
    let ghost pool0 = mempool@;
    let mut k: usize = 0;
    while k < block.transactions.len()
        invariant
            0 <= k <= block@.transactions.len(),
            mempool.wf(),
            cand_v == block_views(candidate@),
            forall|t: int|
                0 <= t < k && !chain_has_tx(
                    cand_v,
                    tx_id(#[trigger] block@.transactions[t]),
                ) ==> pool_has_id(mempool@, tx_id(block@.transactions[t])),
            forall|id: u64| chain_has_tx(cand_v, id) ==> !pool_has_id(mempool@, id),
            forall|id: u64| pool_has_id(pool0, id) ==> pool_has_id(mempool@, id),
        decreases block@.transactions.len() - k,
    {
        proof {
            assert(block@.transactions[k as int] == block.transactions@[k as int]@);
            assert(tx_sig_valid(block@.transactions[k as int]));
        }
        let tx = block.transactions[k].duplicate();
        if !blocks_contain_tx(candidate, tx.id()) {
            let ghost pool_before = mempool@;
            mempool.requeue(tx);
            proof {
                assert forall|id: u64|
                    pool_has_id(pool_before, id) implies pool_has_id(mempool@, id) by {
                    let b = choose|b: int|
                        0 <= b < pool_before.len() && tx_id(#[trigger] pool_before[b]) == id;
                    if mempool@ != pool_before {
                        assert(mempool@[b] == pool_before[b]);
                    }
                }
                assert forall|id: u64|
                    chain_has_tx(cand_v, id) implies !pool_has_id(mempool@, id) by {
                    if pool_has_id(mempool@, id) {
                        let b = choose|b: int|
                            0 <= b < mempool@.len() && tx_id(#[trigger] mempool@[b]) == id;
                        if mempool@ != pool_before {
                            if b < pool_before.len() {
                                assert(pool_before[b] == mempool@[b]);
                                assert(pool_has_id(pool_before, id));
                            } else {
                                assert(mempool@[b] == tx@);
                            }
                        } else {
                            assert(pool_has_id(pool_before, id));
                        }
                    }
                }
            }
        } else {
            proof {
                assert(chain_has_tx(cand_v, tx_id(tx@)));
            }
        }
        k = k + 1;
    }
}

/// Re-queue into the pool every transaction of the abandoned blocks that
/// the adopted blocks do not carry; transactions committed in the adopted
/// blocks never (re-)enter the pool.
#[verifier::rlimit(100)]
fn requeue_abandoned(mempool: &mut Mempool, old_blocks: &Vec<Block>, candidate: &Vec<Block>)
    requires
        old(mempool).wf(),
        forall|j: int|
            0 <= j < block_views(old_blocks@).len() ==> crate::types::block_sigs_valid(
                #[trigger] block_views(old_blocks@)[j],
            ),
        forall|id: u64|
            chain_has_tx(block_views(candidate@), id) ==> !pool_has_id(old(mempool)@, id),
    ensures
        final(mempool).wf(),
        forall|id: u64|
            chain_has_tx(block_views(old_blocks@), id) && !chain_has_tx(
                block_views(candidate@),
                id,
            ) ==> pool_has_id(final(mempool)@, id),
        forall|id: u64|
            chain_has_tx(block_views(candidate@), id) ==> !pool_has_id(final(mempool)@, id),
        forall|id: u64| pool_has_id(old(mempool)@, id) ==> pool_has_id(final(mempool)@, id),
{
    let ghost old_v = block_views(old_blocks@);
    let ghost cand_v = block_views(candidate@);
    let mut i: usize = 0;
    while i < old_blocks.len()
        invariant
            0 <= i <= old_blocks@.len(),
            mempool.wf(),
            old_v == block_views(old_blocks@),
            cand_v == block_views(candidate@),
            forall|j: int, t: int|
                0 <= j < i && 0 <= t < old_v[j].transactions.len() && !chain_has_tx(
                    cand_v,
                    tx_id(#[trigger] old_v[j].transactions[t]),
                ) ==> pool_has_id(mempool@, tx_id(old_v[j].transactions[t])),
            forall|id: u64| chain_has_tx(cand_v, id) ==> !pool_has_id(mempool@, id),
            forall|id: u64| pool_has_id(old(mempool)@, id) ==> pool_has_id(mempool@, id),
        decreases old_blocks@.len() - i,
    {
        proof {
            assert(old_v[i as int] == old_blocks@[i as int]@);
        }
        let ghost pool_before = mempool@;
        requeue_block(mempool, &old_blocks[i], candidate);
        proof {
            assert forall|j: int, t: int|
                0 <= j < i + 1 && 0 <= t < old_v[j].transactions.len() && !chain_has_tx(
                    cand_v,
                    tx_id(#[trigger] old_v[j].transactions[t]),
                ) implies pool_has_id(mempool@, tx_id(old_v[j].transactions[t])) by {
                if j < i {
                    assert(pool_has_id(pool_before, tx_id(old_v[j].transactions[t])));
                } else {
                    assert(old_v[j] == old_blocks@[i as int]@);
                }
            }
        }
        i = i + 1;
    }
    proof {
        assert forall|id: u64|
            chain_has_tx(old_v, id) && !chain_has_tx(cand_v, id) implies pool_has_id(
            mempool@,
            id,
        ) by {
            let j = choose|j: int|
                0 <= j < old_v.len() && crate::chain::block_has_tx(#[trigger] old_v[j], id);
            let t = choose|t: int|
                0 <= t < old_v[j].transactions.len() && tx_id(
                    #[trigger] old_v[j].transactions[t],
                ) == id;
        }
    }
}

/// Law: on a well-formed node, replaying every committed transaction in
/// block-then-intra-block order from the genesis seed reproduces exactly the
/// current ledger state.
pub proof fn lemma_ledger_is_replay(n: &Node)
    requires
        n.wf(),
    ensures
        replay(n.genesis@, n.chain@) == Some(n.ledger@),
{
}

/// Law: a transaction just admitted to a pool is pending in it, so a second
/// submission of the same transaction meets the pool-duplicate condition of
/// `Mempool::submit` and is refused with the pool unchanged.
pub proof fn lemma_submitted_is_pending(s: Seq<crate::types::TxView>, t: crate::types::TxView)
    ensures
        pool_has_id(s.push(t), tx_id(t)),
{
    assert(s.push(t)[s.len() as int] == t);
}

} // verus!
