//! The chain store: the authoritative, hash-linked sequence of committed
//! blocks, together with the validator that admits a candidate block and the
//! replay functions that derive the ledger from the chain.

use vstd::prelude::*;
use crate::types::{
    Block, BlockView, SignedTx, TxView, ChainError, tx_views, block_views, tx_id, block_hash_ok,
    block_sigs_valid, compute_block_hash, GENESIS_PARENT,
};
use crate::ledger::{Ledger, apply_tx};

verus! {

/// Effect of a transaction sequence on a balance mapping, applied in order;
/// `None` as soon as any transaction fails.
pub open spec fn apply_txs(m: Map<Seq<char>, u64>, txs: Seq<TxView>) -> Option<
    Map<Seq<char>, u64>,
>
    decreases txs.len(),
{
    if txs.len() == 0 {
        Some(m)
    } else {
        match apply_txs(m, txs.drop_last()) {
            Some(m1) => apply_tx(m1, txs.last()),
            None => None,
        }
    }
}

/// Effect of replaying a block sequence on a balance mapping, block by block,
/// transactions in intra-block order.
pub open spec fn replay(m: Map<Seq<char>, u64>, blocks: Seq<BlockView>) -> Option<
    Map<Seq<char>, u64>,
>
    decreases blocks.len(),
{
    if blocks.len() == 0 {
        Some(m)
    } else {
        match replay(m, blocks.drop_last()) {
            Some(m1) => apply_txs(m1, blocks.last().transactions),
            None => None,
        }
    }
}

/// Structural well-formedness of a chain: it starts at the genesis block,
/// numbers its blocks consecutively from 0, links each block to its
/// predecessor's hash, and every block's stored hash and signatures check.
pub open spec fn chain_linked(s: Seq<BlockView>) -> bool {
    &&& s.len() >= 1
    &&& s[0].number == 0
    &&& s[0].parent_hash == GENESIS_PARENT
    &&& forall|i: int| 0 <= i < s.len() ==> (#[trigger] s[i]).number as int == i
    &&& forall|i: int| 1 <= i < s.len() ==> (#[trigger] s[i]).parent_hash == s[i - 1].hash
    &&& forall|i: int| 0 <= i < s.len() ==> block_hash_ok(#[trigger] s[i])
    &&& forall|i: int| 0 <= i < s.len() ==> block_sigs_valid(#[trigger] s[i])
}

/// The five admission checks for a candidate block on top of chain `s` with
/// current balances `m`: strict extension of the head (linkage and number),
/// content hash recomputes, every signature valid, and the replay of its
/// transactions succeeds.
pub open spec fn valid_extension(s: Seq<BlockView>, m: Map<Seq<char>, u64>, b: BlockView) -> bool {
    &&& b.parent_hash == s.last().hash
    &&& b.number as int == s.last().number + 1
    &&& block_hash_ok(b)
    &&& block_sigs_valid(b)
    &&& apply_txs(m, b.transactions) is Some
}

/// A transaction with identity `id` stands in block `b`.
pub open spec fn block_has_tx(b: BlockView, id: u64) -> bool {
    exists|k: int| 0 <= k < b.transactions.len() && tx_id(#[trigger] b.transactions[k]) == id
}

/// A transaction with identity `id` is committed somewhere in the chain.
pub open spec fn chain_has_tx(s: Seq<BlockView>, id: u64) -> bool {
    exists|i: int| 0 <= i < s.len() && block_has_tx(#[trigger] s[i], id)
}

/// A successful replay of a whole transaction sequence succeeds on every
/// prefix of it.
pub proof fn lemma_apply_txs_prefix_some(m: Map<Seq<char>, u64>, s: Seq<TxView>, i: int)
    requires
        0 <= i <= s.len(),
        apply_txs(m, s) is Some,
    ensures
        apply_txs(m, s.take(i)) is Some,
    decreases s.len(),
{
    if i == s.len() {
        assert(s.take(i) =~= s);
    } else {
        let dl = s.drop_last();
        assert(s.take(i) =~= dl.take(i));
        lemma_apply_txs_prefix_some(m, dl, i);
    }
}

/// A successful replay of a whole chain succeeds on every prefix of it.
pub proof fn lemma_replay_prefix_some(m: Map<Seq<char>, u64>, s: Seq<BlockView>, i: int)
    requires
        0 <= i <= s.len(),
        replay(m, s) is Some,
    ensures
        replay(m, s.take(i)) is Some,
    decreases s.len(),
{
    if i == s.len() {
        assert(s.take(i) =~= s);
    } else {
        let dl = s.drop_last();
        assert(s.take(i) =~= dl.take(i));
        lemma_replay_prefix_some(m, dl, i);
    }
}

/// Apply a transaction sequence to the ledger in order. On failure the
/// ledger may hold a partial result; callers apply to a scratch copy and
/// discard it on failure.
pub fn apply_txs_exec(l: &mut Ledger, txs: &Vec<SignedTx>) -> (r: Result<(), ChainError>)
    requires
        old(l).wf(),
    ensures
        final(l).wf(),
        r is Ok <==> apply_txs(old(l)@, tx_views(txs@)) is Some,
        r is Ok ==> Some(final(l)@) == apply_txs(old(l)@, tx_views(txs@)),
{
    let ghost m0 = l@;
    let ghost tvs = tx_views(txs@);
    let mut i: usize = 0;
    while i < txs.len()
        invariant
            0 <= i <= txs@.len(),
            l.wf(),
            tvs == tx_views(txs@),
            tvs.len() == txs@.len(),
            apply_txs(m0, tvs.take(i as int)) == Some(l@),
        decreases txs@.len() - i,
    {
        proof {
            assert(tvs.take(i + 1).drop_last() =~= tvs.take(i as int));
            assert(tvs.take(i + 1).last() == tvs[i as int]);
            assert(tvs[i as int] == txs@[i as int]@);
        }
        let ghost m_before = l@;
        match l.apply(&txs[i]) {
            Ok(_) => {
                proof {
                    assert(apply_txs(m0, tvs.take(i + 1)) == Some(l@));
                }
            },
            Err(_) => {
                proof {
                    assert(apply_tx(m_before, tvs[i as int]) is None);
                    assert(apply_txs(m0, tvs.take(i + 1)) is None);
                    if apply_txs(m0, tvs) is Some {
                        lemma_apply_txs_prefix_some(m0, tvs, i + 1);
                    }
                }
                return Err(ChainError::InvalidBlock);
            },
        }
        i = i + 1;
    }
    proof {
        assert(tvs.take(tvs.len() as int) =~= tvs);
    }
    Ok(())
}

/// Rebuild the balance mapping by replaying `blocks` from the `genesis`
/// seed. Returns `None` exactly when some transaction in the sequence fails
/// to apply.
pub fn replay_blocks(genesis: &Ledger, blocks: &Vec<Block>) -> (r: Option<Ledger>)
    requires
        genesis.wf(),
    ensures
        r is Some <==> replay(genesis@, block_views(blocks@)) is Some,
        r matches Some(l) ==> l.wf() && Some(l@) == replay(genesis@, block_views(blocks@)),
{
    let ghost m0 = genesis@;
    let ghost bvs = block_views(blocks@);
    let mut l = Ledger { entries: genesis.snapshot() };
    let mut i: usize = 0;
    while i < blocks.len()
        invariant
            0 <= i <= blocks@.len(),
            l.wf(),
            bvs == block_views(blocks@),
            bvs.len() == blocks@.len(),
            replay(m0, bvs.take(i as int)) == Some(l@),
        decreases blocks@.len() - i,
    {
        proof {
            assert(bvs.take(i + 1).drop_last() =~= bvs.take(i as int));
            assert(bvs.take(i + 1).last() == bvs[i as int]);
            assert(bvs[i as int] == blocks@[i as int]@);
            assert(bvs[i as int].transactions == tx_views(blocks@[i as int].transactions@));
        }
        match apply_txs_exec(&mut l, &blocks[i].transactions) {
            Ok(_) => {
                proof {
                    assert(replay(m0, bvs.take(i + 1)) == Some(l@));
                }
            },
            Err(_) => {
                proof {
                    assert(replay(m0, bvs.take(i + 1)) is None);
                    if replay(m0, bvs) is Some {
                        lemma_replay_prefix_some(m0, bvs, i + 1);
                    }
                }
                return None;
            },
        }
        i = i + 1;
    }
    proof {
        assert(bvs.take(bvs.len() as int) =~= bvs);
    }
    Some(l)
}

/// Whether a block sequence is a well-formed chain on its own: the checks of
/// `chain_linked`, run on a candidate fetched from a peer.
pub fn is_linked_chain(blocks: &Vec<Block>) -> (r: bool)
    ensures
        r == chain_linked(block_views(blocks@)),
{
    let ghost bvs = block_views(blocks@);
    if blocks.len() == 0 {
        return false;
    }
    proof {
        assert(bvs[0] == blocks@[0]@);
    }
    if blocks[0].number != 0 || blocks[0].parent_hash != GENESIS_PARENT {
        return false;
    }
    let mut i: usize = 0;
    while i < blocks.len()
        invariant
            0 <= i <= blocks@.len(),
            bvs == block_views(blocks@),
            forall|j: int| 0 <= j < i ==> (#[trigger] bvs[j]).number as int == j,
            forall|j: int| 1 <= j < i ==> (#[trigger] bvs[j]).parent_hash == bvs[j - 1].hash,
            forall|j: int| 0 <= j < i ==> block_hash_ok(#[trigger] bvs[j]),
            forall|j: int| 0 <= j < i ==> block_sigs_valid(#[trigger] bvs[j]),
        decreases blocks@.len() - i,
    {
        proof {
            assert(bvs[i as int] == blocks@[i as int]@);
        }
        if blocks[i].number != i as u64 {
            return false;
        }
        if i >= 1 {
            proof {
                assert(bvs[i - 1] == blocks@[i - 1]@);
            }
            if blocks[i].parent_hash != blocks[i - 1].hash {
                return false;
            }
        }
        let expect = compute_block_hash(
            blocks[i].number,
            blocks[i].parent_hash,
            blocks[i].timestamp,
            &blocks[i].transactions,
        );
        if blocks[i].hash != expect {
            return false;
        }
        let mut k: usize = 0;
        while k < blocks[i].transactions.len()
            invariant
                0 <= k <= blocks@[i as int].transactions@.len(),
                0 <= i < blocks@.len(),
                bvs == block_views(blocks@),
                forall|t: int|
                    0 <= t < k ==> crate::types::tx_sig_valid(
                        #[trigger] bvs[i as int].transactions[t],
                    ),
            decreases blocks@[i as int].transactions@.len() - k,
        {
            proof {
                assert(bvs[i as int].transactions[k as int] == blocks@[i
                    as int].transactions@[k as int]@);
            }
            if !blocks[i].transactions[k].signature_valid() {
                return false;
            }
            k = k + 1;
        }
        proof {
            assert(block_sigs_valid(bvs[i as int]));
        }
        i = i + 1;
    }
    proof {
        assert(bvs[0] == blocks@[0]@);
    }
    true
}

/// Whether a transaction with identity `id` stands in any of `blocks`.
pub fn blocks_contain_tx(blocks: &Vec<Block>, id: u64) -> (r: bool)
    ensures
        r == chain_has_tx(block_views(blocks@), id),
{
    let ghost bvs = block_views(blocks@);
    let mut i: usize = 0;
    while i < blocks.len()
        invariant
            0 <= i <= blocks@.len(),
            bvs == block_views(blocks@),
            forall|j: int| 0 <= j < i ==> !block_has_tx(#[trigger] bvs[j], id),
        decreases blocks@.len() - i,
    {
        proof {
            assert(bvs[i as int] == blocks@[i as int]@);
        }
        let mut k: usize = 0;
        while k < blocks[i].transactions.len()
            invariant
                0 <= k <= blocks@[i as int].transactions@.len(),
                0 <= i < blocks@.len(),
                bvs == block_views(blocks@),
                bvs[i as int] == blocks@[i as int]@,
                forall|t: int| 0 <= t < k ==> tx_id(#[trigger] bvs[i as int].transactions[t]) != id,
            decreases blocks@[i as int].transactions@.len() - k,
        {
            proof {
                assert(bvs[i as int].transactions[k as int] == blocks@[i
                    as int].transactions@[k as int]@);
            }
            if blocks[i].transactions[k].id() == id {
                proof {
                    assert(block_has_tx(bvs[i as int], id));
                }
                return true;
            }
            k = k + 1;
        }
        proof {
            assert(!block_has_tx(bvs[i as int], id));
        }
        i = i + 1;
    }
    proof {
        if chain_has_tx(bvs, id) {
            let j = choose|j: int| 0 <= j < bvs.len() && block_has_tx(#[trigger] bvs[j], id);
        }
    }
    false
}

/// Identity of every transaction committed in `blocks`: the result lists an
/// identity exactly when some block commits a transaction carrying it.
pub fn collect_tx_ids(blocks: &Vec<Block>) -> (r: Vec<u64>)
    ensures
        forall|id: u64| chain_has_tx(block_views(blocks@), id) ==> r@.contains(id),
        forall|id: u64| #[trigger] r@.contains(id) ==> chain_has_tx(block_views(blocks@), id),
{
    let ghost bvs = block_views(blocks@);
    let mut out: Vec<u64> = Vec::new();
    let mut i: usize = 0;
    while i < blocks.len()
        invariant
            0 <= i <= blocks@.len(),
            bvs == block_views(blocks@),
            forall|j: int, t: int|
                0 <= j < i && 0 <= t < bvs[j].transactions.len() ==> out@.contains(
                    tx_id(#[trigger] bvs[j].transactions[t]),
                ),
            forall|a: int| 0 <= a < out@.len() ==> chain_has_tx(bvs, #[trigger] out@[a]),
        decreases blocks@.len() - i,
    {
        proof {
            assert(bvs[i as int] == blocks@[i as int]@);
        }
        let mut k: usize = 0;
        while k < blocks[i].transactions.len()
            invariant
                0 <= k <= blocks@[i as int].transactions@.len(),
                0 <= i < blocks@.len(),
                bvs == block_views(blocks@),
                bvs[i as int] == blocks@[i as int]@,
                forall|j: int, t: int|
                    0 <= j < i && 0 <= t < bvs[j].transactions.len() ==> out@.contains(
                        tx_id(#[trigger] bvs[j].transactions[t]),
                    ),
                forall|t: int|
                    0 <= t < k ==> out@.contains(tx_id(#[trigger] bvs[i as int].transactions[t])),
                forall|a: int| 0 <= a < out@.len() ==> chain_has_tx(bvs, #[trigger] out@[a]),
            decreases blocks@[i as int].transactions@.len() - k,
        {
            proof {
                assert(bvs[i as int].transactions[k as int] == blocks@[i
                    as int].transactions@[k as int]@);
            }
            let ghost before = out@;
            let id = blocks[i].transactions[k].id();
            out.push(id);
            proof {
                assert(block_has_tx(bvs[i as int], id)) by {
                    assert(tx_id(bvs[i as int].transactions[k as int]) == id);
                }
                assert(chain_has_tx(bvs, id));
                assert(out@[before.len() as int] == id);
                assert(forall|a: int| 0 <= a < before.len() ==> out@[a] == before[a]);
                assert(forall|x: u64| before.contains(x) ==> out@.contains(x)) by {
                    assert forall|x: u64| before.contains(x) implies out@.contains(x) by {
                        let a = choose|a: int| 0 <= a < before.len() && before[a] == x;
                        assert(out@[a] == x);
                    }
                }
                assert(out@.contains(id));
            }
            k = k + 1;
        }
        i = i + 1;
    }
    proof {
        assert forall|id: u64| chain_has_tx(bvs, id) implies out@.contains(id) by {
            let j = choose|j: int| 0 <= j < bvs.len() && block_has_tx(#[trigger] bvs[j], id);
            let t = choose|t: int|
                0 <= t < bvs[j].transactions.len() && tx_id(#[trigger] bvs[j].transactions[t])
                    == id;
        }
        assert forall|id: u64| #[trigger] out@.contains(id) implies chain_has_tx(bvs, id) by {
            let a = choose|a: int| 0 <= a < out@.len() && out@[a] == id;
        }
    }
    out
}

proof fn lemma_linked_push(s: Seq<BlockView>, b: BlockView)
    requires
        chain_linked(s),
        b.parent_hash == s.last().hash,
        b.number as int == s.last().number + 1,
        block_hash_ok(b),
        block_sigs_valid(b),
    ensures
        chain_linked(s.push(b)),
{
    let sp = s.push(b);
    assert(forall|i: int| 0 <= i < s.len() ==> sp[i] == s[i]);
    assert(sp[s.len() as int] == b);
    assert(b.number as int == s.len());
}

/// Ordered, hash-linked store of committed blocks.
pub struct ChainStore {
    pub blocks: Vec<Block>,
}

impl View for ChainStore {
    type V = Seq<BlockView>;

    open spec fn view(&self) -> Seq<BlockView> {
        block_views(self.blocks@)
    }
}

impl ChainStore {
    /// Structural well-formedness of the stored chain.
    pub open spec fn linked(&self) -> bool {
        chain_linked(self@)
    }

    /// A chain holding only the genesis block, which commits no
    /// transactions.
    pub fn new(genesis_timestamp: u64) -> (s: ChainStore)
        ensures
            s.linked(),
            s@.len() == 1,
            s@[0].transactions.len() == 0,
            s@[0].timestamp == genesis_timestamp,
    {
        let genesis = Block::new(0, GENESIS_PARENT, genesis_timestamp, Vec::new());
        let mut blocks: Vec<Block> = Vec::new();
        blocks.push(genesis);
        let s = ChainStore { blocks };
        proof {
            assert(s@[0] == s.blocks@[0]@);
            assert(s@.len() == 1);
        }
        s
    }

    /// Highest-numbered block.
    pub fn head(&self) -> (r: &Block)
        requires
            self.linked(),
        ensures
            r@ == self@.last(),
    {
        let n = self.blocks.len();
        proof {
            assert(self@[n - 1] == self.blocks@[n - 1]@);
        }
        &self.blocks[n - 1]
    }

    /// Block with the given number, if the chain reaches it.
    pub fn block_at(&self, number: u64) -> (r: Option<&Block>)
        requires
            self.linked(),
        ensures
            r is Some <==> (number as int) < self@.len(),
            r matches Some(b) ==> b@ == self@[number as int] && b@.number == number,
    {
        if number < self.blocks.len() as u64 {
            proof {
                assert(self@[number as int] == self.blocks@[number as int]@);
            }
            Some(&self.blocks[number as usize])
        } else {
            None
        }
    }

    /// Every block with number at least `offset`, in increasing order; empty
    /// — not an error — when `offset` exceeds the head's number.
    pub fn blocks_from(&self, offset: usize) -> (r: Vec<Block>)
        requires
            self.linked(),
        ensures
            block_views(r@) == self@.skip(
                if offset as int <= self@.len() {
                    offset as int
                } else {
                    self@.len() as int
                },
            ),
            offset as int >= self@.len() ==> r@.len() == 0,
    {
        let n = self.blocks.len();
        let start = if offset > n {
            n
        } else {
            offset
        };
        let mut out: Vec<Block> = Vec::new();
        let mut i: usize = start;
        while i < n
            invariant
                start <= i <= n,
                n == self.blocks@.len(),
                block_views(out@) =~= self@.subrange(start as int, i as int),
            decreases n - i,
        {
            let b = self.blocks[i].duplicate();
            out.push(b);
            proof {
                assert(block_views(out@).last() == self.blocks@[i as int]@);
                assert(self@[i as int] == self.blocks@[i as int]@);
                assert(block_views(out@) =~= self@.subrange(start as int, i + 1));
            }
            i = i + 1;
        }
        proof {
            assert(self@.subrange(start as int, n as int) =~= self@.skip(start as int));
        }
        out
    }

    /// Whether a transaction with identity `id` is already committed.
    pub fn contains_tx(&self, id: u64) -> (r: bool)
        ensures
            r == chain_has_tx(self@, id),
    {
        blocks_contain_tx(&self.blocks, id)
    }

    /// Admit a candidate block. The five checks run in order, failing fast:
    /// parent linkage, consecutive number, content hash, signatures, and a
    /// speculative replay against a copy of the ledger. Only when all five
    /// pass is the block appended and the ledger updated; on any failure
    /// both are left untouched.
    pub fn append(&mut self, candidate: Block, ledger: &mut Ledger) -> (r: Result<(), ChainError>)
        requires
            old(self).linked(),
            old(ledger).wf(),
        ensures
            final(self).linked(),
            final(ledger).wf(),
            r is Ok <==> valid_extension(old(self)@, old(ledger)@, candidate@),
            r is Ok ==> final(self)@ == old(self)@.push(candidate@),
            r is Ok ==> Some(final(ledger)@) == apply_txs(old(ledger)@, candidate@.transactions),
            r is Err ==> final(self).blocks@ == old(self).blocks@ && final(ledger).entries@ == old(
                ledger,
            ).entries@,
            r is Err ==> r == Err::<(), ChainError>(ChainError::InvalidBlock),
    {
        let n = self.blocks.len();
        proof {
            assert(self@[n - 1] == self.blocks@[n - 1]@);
            assert(self@.last() == self@[n - 1]);
        }
        let head_hash = self.blocks[n - 1].hash;
        let head_number = self.blocks[n - 1].number;
        if candidate.parent_hash != head_hash {
            return Err(ChainError::InvalidBlock);
        }
        if !(candidate.number > head_number && candidate.number - 1 == head_number) {
            return Err(ChainError::InvalidBlock);
        }
        let expect = compute_block_hash(
            candidate.number,
            candidate.parent_hash,
            candidate.timestamp,
            &candidate.transactions,
        );
        if candidate.hash != expect {
            return Err(ChainError::InvalidBlock);
        }
        let mut k: usize = 0;
        while k < candidate.transactions.len()
            invariant
                0 <= k <= candidate.transactions@.len(),
                forall|t: int|
                    0 <= t < k ==> crate::types::tx_sig_valid(
                        #[trigger] candidate@.transactions[t],
                    ),
            decreases candidate.transactions@.len() - k,
        {
            proof {
                assert(candidate@.transactions[k as int] == candidate.transactions@[k as int]@);
            }
            if !candidate.transactions[k].signature_valid() {
                return Err(ChainError::InvalidBlock);
            }
            k = k + 1;
        }
        assert(block_sigs_valid(candidate@));
        // Speculative replay against a scratch copy; the real ledger is
        // replaced only after the whole block applies.
        let mut scratch = Ledger { entries: ledger.snapshot() };
        match apply_txs_exec(&mut scratch, &candidate.transactions) {
            Ok(_) => {
                proof {
                    lemma_linked_push(self@, candidate@);
                    assert(block_views(self.blocks@.push(candidate)) =~= self@.push(candidate@));
                }
                *ledger = scratch;
                self.blocks.push(candidate);
                Ok(())
            },
            Err(_) => Err(ChainError::InvalidBlock),
        }
    }
}

} // verus!
