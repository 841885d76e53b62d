//! Core value types: signed transactions, blocks, and the error taxonomy
//! shared by every component of the node.
//!
//! A transaction is authorized by a signature over its transfer fields; the
//! signing scheme is the deterministic digest of `hashing`, computed by the
//! node itself when a transfer is submitted (the submission interface carries
//! no signature field, so the node signs on the sender's behalf).

use vstd::prelude::*;
use crate::hashing::{mix, hash_str, mix_word, hash_str_exec, HASH_SEED};

verus! {

/// Domain tag separating signature digests from other digests.
pub const TAG_SIG: u64 = 1;

/// Domain tag separating transaction identities from other digests.
pub const TAG_TX_ID: u64 = 2;

/// Domain tag separating block content digests from other digests.
pub const TAG_BLOCK: u64 = 3;

/// Sentinel parent hash of the genesis block.
pub const GENESIS_PARENT: u64 = 0;

/// A transfer of `value` from `from` to `to`, authorized by `signature`.
pub struct SignedTx {
    pub from: String,
    pub to: String,
    pub value: u64,
    pub signature: u64,
}

/// Mathematical content of a `SignedTx`.
pub ghost struct TxView {
    pub from: Seq<char>,
    pub to: Seq<char>,
    pub value: u64,
    pub signature: u64,
}

/// Views of a transaction sequence.
pub open spec fn tx_views(s: Seq<SignedTx>) -> Seq<TxView> {
    s.map_values(|t: SignedTx| t@)
}

/// Views of a block sequence.
pub open spec fn block_views(s: Seq<Block>) -> Seq<BlockView> {
    s.map_values(|b: Block| b@)
}

impl View for SignedTx {
    type V = TxView;

    open spec fn view(&self) -> TxView {
        TxView {
            from: self.from@,
            to: self.to@,
            value: self.value,
            signature: self.signature,
        }
    }
}

/// The signature a well-formed sender produces over `(from, to, value)`.
pub open spec fn sig_of(from: Seq<char>, to: Seq<char>, value: u64) -> u64 {
    mix(hash_str(hash_str(mix(HASH_SEED, TAG_SIG), from), to), value)
}

/// A transaction's signature is valid when it is exactly the digest of its
/// transfer fields.
pub open spec fn tx_sig_valid(t: TxView) -> bool {
    t.signature == sig_of(t.from, t.to, t.value)
}

/// Identity of a transaction: digest of the whole signed payload. The
/// mempool and the chain deduplicate by this value.
pub open spec fn tx_id(t: TxView) -> u64 {
    mix(mix(hash_str(hash_str(mix(HASH_SEED, TAG_TX_ID), t.from), t.to), t.value), t.signature)
}

/// Content of the transaction the node builds and signs for a submitted
/// transfer.
pub open spec fn signed_tx_view(from: Seq<char>, to: Seq<char>, value: u64) -> TxView {
    TxView { from, to, value, signature: sig_of(from, to, value) }
}

/// Identities of a transaction sequence.
pub open spec fn ids_of(s: Seq<TxView>) -> Seq<u64> {
    s.map_values(|t: TxView| tx_id(t))
}

/// Executable signature computation over the transfer fields.
pub fn compute_signature(from: &str, to: &str, value: u64) -> (r: u64)
    ensures
        r == sig_of(from@, to@, value),
{
    let h = mix_word(HASH_SEED, TAG_SIG);
    let h = hash_str_exec(h, from);
    let h = hash_str_exec(h, to);
    mix_word(h, value)
}

impl SignedTx {
    /// Build and sign a transfer.
    pub fn new(from: String, to: String, value: u64) -> (t: SignedTx)
        ensures
            t@.from == from@,
            t@.to == to@,
            t@.value == value,
            tx_sig_valid(t@),
    {
        let signature = compute_signature(from.as_str(), to.as_str(), value);
        SignedTx { from, to, value, signature }
    }

    /// Executable transaction identity.
    pub fn id(&self) -> (r: u64)
        ensures
            r == tx_id(self@),
    {
        let h = mix_word(HASH_SEED, TAG_TX_ID);
        let h = hash_str_exec(h, self.from.as_str());
        let h = hash_str_exec(h, self.to.as_str());
        let h = mix_word(h, self.value);
        mix_word(h, self.signature)
    }

    /// Executable signature check.
    pub fn signature_valid(&self) -> (r: bool)
        ensures
            r == tx_sig_valid(self@),
    {
        let expect = compute_signature(self.from.as_str(), self.to.as_str(), self.value);
        self.signature == expect
    }

    /// Copy of the transaction with identical content.
    pub fn duplicate(&self) -> (r: SignedTx)
        ensures
            r@ == self@,
    {
        SignedTx {
            from: self.from.clone(),
            to: self.to.clone(),
            value: self.value,
            signature: self.signature,
        }
    }
}

/// Identity of every transaction in the sequence, in order.
pub fn tx_ids_of(txs: &Vec<SignedTx>) -> (r: Vec<u64>)
    ensures
        r@ == ids_of(tx_views(txs@)),
{
    let ghost tvs = tx_views(txs@);
    let mut out: Vec<u64> = Vec::new();
    let mut i: usize = 0;
    while i < txs.len()
        invariant
            0 <= i <= txs@.len(),
            tvs == tx_views(txs@),
            out@ =~= ids_of(tvs).take(i as int),
        decreases txs@.len() - i,
    {
        proof {
            assert(tvs[i as int] == txs@[i as int]@);
            assert(ids_of(tvs)[i as int] == tx_id(tvs[i as int]));
        }
        out.push(txs[i].id());
        proof {
            assert(out@ =~= ids_of(tvs).take(i + 1));
        }
        i = i + 1;
    }
    proof {
        assert(ids_of(tvs).take(tvs.len() as int) =~= ids_of(tvs));
    }
    out
}

/// An immutable, hash-linked unit of committed transactions.
pub struct Block {
    pub number: u64,
    pub parent_hash: u64,
    pub hash: u64,
    pub transactions: Vec<SignedTx>,
    pub timestamp: u64,
}

/// Mathematical content of a `Block`.
pub ghost struct BlockView {
    pub number: u64,
    pub parent_hash: u64,
    pub hash: u64,
    pub transactions: Seq<TxView>,
    pub timestamp: u64,
}

impl View for Block {
    type V = BlockView;

    open spec fn view(&self) -> BlockView {
        BlockView {
            number: self.number,
            parent_hash: self.parent_hash,
            hash: self.hash,
            transactions: self.transactions@.map_values(|t: SignedTx| t@),
            timestamp: self.timestamp,
        }
    }
}

/// Digest of a transaction sequence, folded left to right onto `h`.
pub open spec fn txs_fold(h: u64, txs: Seq<TxView>) -> u64
    decreases txs.len(),
{
    if txs.len() == 0 {
        h
    } else {
        mix(txs_fold(h, txs.drop_last()), tx_id(txs.last()))
    }
}

/// Digest of a block's content: every field but the `hash` field itself.
pub open spec fn block_content_hash(
    number: u64,
    parent_hash: u64,
    timestamp: u64,
    txs: Seq<TxView>,
) -> u64 {
    mix(
        txs_fold(
            mix(mix(mix(mix(HASH_SEED, TAG_BLOCK), number), parent_hash), timestamp),
            txs,
        ),
        txs.len() as u64,
    )
}

/// The block's stored hash recomputes from its own content.
pub open spec fn block_hash_ok(b: BlockView) -> bool {
    b.hash == block_content_hash(b.number, b.parent_hash, b.timestamp, b.transactions)
}

/// Every transaction in the block carries a valid signature.
pub open spec fn block_sigs_valid(b: BlockView) -> bool {
    forall|i: int| 0 <= i < b.transactions.len() ==> tx_sig_valid(#[trigger] b.transactions[i])
}

/// Executable digest of a block's content.
pub fn compute_block_hash(
    number: u64,
    parent_hash: u64,
    timestamp: u64,
    txs: &Vec<SignedTx>,
) -> (r: u64)
    ensures
        r == block_content_hash(number, parent_hash, timestamp, txs@.map_values(|t: SignedTx| t@)),
{
    let ghost tvs = txs@.map_values(|t: SignedTx| t@);
    let h = mix_word(HASH_SEED, TAG_BLOCK);
    let h = mix_word(h, number);
    let h = mix_word(h, parent_hash);
    let mut h = mix_word(h, timestamp);
    let ghost h0 = h;
    let mut i: usize = 0;
    while i < txs.len()
        invariant
            0 <= i <= txs@.len(),
            tvs == txs@.map_values(|t: SignedTx| t@),
            tvs.len() == txs@.len(),
            h == txs_fold(h0, tvs.take(i as int)),
        decreases txs@.len() - i,
    {
        proof {
            assert(tvs.take(i + 1).drop_last() =~= tvs.take(i as int));
            assert(tvs.take(i + 1).last() == tvs[i as int]);
            assert(tvs[i as int] == txs@[i as int]@);
        }
        let id = txs[i].id();
        h = mix_word(h, id);
        i = i + 1;
    }
    proof {
        assert(tvs.take(tvs.len() as int) =~= tvs);
    }
    mix_word(h, txs.len() as u64)
}

impl Block {
    /// Build a block whose stored hash is the digest of its content.
    pub fn new(number: u64, parent_hash: u64, timestamp: u64, transactions: Vec<SignedTx>) -> (b:
        Block)
        ensures
            b@.number == number,
            b@.parent_hash == parent_hash,
            b@.timestamp == timestamp,
            b@.transactions == transactions@.map_values(|t: SignedTx| t@),
            block_hash_ok(b@),
    {
        let hash = compute_block_hash(number, parent_hash, timestamp, &transactions);
        Block { number, parent_hash, hash, transactions, timestamp }
    }

    /// Copy of the block with identical content.
    pub fn duplicate(&self) -> (r: Block)
        ensures
            r@ == self@,
    {
        let mut txs: Vec<SignedTx> = Vec::new();
        let mut i: usize = 0;
        while i < self.transactions.len()
            invariant
                0 <= i <= self.transactions@.len(),
                txs@.len() == i,
                forall|j: int| 0 <= j < i ==> txs@[j]@ == #[trigger] self.transactions@[j]@,
            decreases self.transactions@.len() - i,
        {
            txs.push(self.transactions[i].duplicate());
            i = i + 1;
        }
        proof {
            assert(txs@.map_values(|t: SignedTx| t@) =~= self.transactions@.map_values(
                |t: SignedTx| t@,
            ));
        }
        Block {
            number: self.number,
            parent_hash: self.parent_hash,
            hash: self.hash,
            transactions: txs,
            timestamp: self.timestamp,
        }
    }
}

/// Every failure a core operation can report.
#[derive(Debug, Clone, Copy, PartialEq, Eq, Structural)]
pub enum ChainError {
    /// A transaction's signature does not match its transfer fields.
    InvalidSignature,
    /// The sender's balance cannot cover the transfer.
    InsufficientFunds,
    /// The sender is not a known account.
    UnknownAccount,
    /// The same transaction is already pending.
    DuplicateTx,
    /// A candidate block failed linkage, hash, signature or replay checks.
    InvalidBlock,
    /// A peer address does not parse as `a.b.c.d:port`.
    InvalidAddress,
    /// The peer address is already registered.
    AlreadyKnown,
    /// The peer address is the node's own listening address.
    SelfAddress,
    /// No block with the requested number exists.
    NotFound,
}

} // verus!
