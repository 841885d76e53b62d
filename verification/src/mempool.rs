//! The mempool: pending, not-yet-committed signed transactions in admission
//! (FIFO) order, keyed by transaction identity to prevent duplicates.
//! Admission checks the signature and that the sender's ledger balance,
//! less debits already pending from the same account, covers the value —
//! an optimistic check, re-validated when a block is built and committed.

use vstd::prelude::*;
use crate::types::{SignedTx, TxView, ChainError, tx_views, tx_id, tx_sig_valid};
use crate::ledger::{Ledger, bal_or_zero};

verus! {

/// No two pending transactions share an identity.
pub open spec fn ids_unique(s: Seq<TxView>) -> bool {
    forall|i: int, j: int|
        0 <= i < j < s.len() ==> tx_id(#[trigger] s[i]) != tx_id(#[trigger] s[j])
}

/// A transaction with identity `id` is pending.
pub open spec fn pool_has_id(s: Seq<TxView>, id: u64) -> bool {
    exists|i: int| 0 <= i < s.len() && tx_id(#[trigger] s[i]) == id
}

/// Every pending transaction carries a valid signature.
pub open spec fn all_sigs_valid(s: Seq<TxView>) -> bool {
    forall|i: int| 0 <= i < s.len() ==> tx_sig_valid(#[trigger] s[i])
}

/// Sum of the values already pending from account `a`.
pub open spec fn pending_debit(s: Seq<TxView>, a: Seq<char>) -> int
    decreases s.len(),
{
    if s.len() == 0 {
        0
    } else {
        pending_debit(s.drop_last(), a) + if s.last().from == a {
            s.last().value as int
        } else {
            0
        }
    }
}

/// The pool with every transaction whose identity is listed in `ids`
/// removed, order otherwise kept.
pub open spec fn without_ids(s: Seq<TxView>, ids: Seq<u64>) -> Seq<TxView>
    decreases s.len(),
{
    if s.len() == 0 {
        Seq::empty()
    } else {
        let rest = without_ids(s.drop_last(), ids);
        if ids.contains(tx_id(s.last())) {
            rest
        } else {
            rest.push(s.last())
        }
    }
}

/// Removing identities keeps only transactions already in the pool, and
/// leaves nothing with a removed identity behind.
pub proof fn lemma_without_ids_contains(s: Seq<TxView>, ids: Seq<u64>)
    ensures
        forall|x: TxView| #[trigger] without_ids(s, ids).contains(x) ==> s.contains(x)
            && !ids.contains(tx_id(x)),
    decreases s.len(),
{
    if s.len() > 0 {
        let dl = s.drop_last();
        lemma_without_ids_contains(dl, ids);
        let w = without_ids(s, ids);
        let rest = without_ids(dl, ids);
        assert forall|x: TxView| #[trigger] w.contains(x) implies s.contains(x) && !ids.contains(
            tx_id(x),
        ) by {
            let a = choose|a: int| 0 <= a < w.len() && w[a] == x;
            if ids.contains(tx_id(s.last())) || a < rest.len() {
                assert(rest.contains(x)) by {
                    assert(rest[a] == x);
                }
                assert(dl.contains(x));
                let b = choose|b: int| 0 <= b < dl.len() && dl[b] == x;
                assert(s[b] == x);
            } else {
                assert(x == s.last());
                assert(s[s.len() - 1] == x);
            }
        }
    }
}

/// Removing identities keeps the remaining identities pairwise distinct.
pub proof fn lemma_without_ids_unique(s: Seq<TxView>, ids: Seq<u64>)
    requires
        ids_unique(s),
    ensures
        ids_unique(without_ids(s, ids)),
    decreases s.len(),
{
    if s.len() > 0 {
        let dl = s.drop_last();
        assert(ids_unique(dl)) by {
            assert(forall|i: int| 0 <= i < dl.len() ==> dl[i] == s[i]);
        }
        lemma_without_ids_unique(dl, ids);
        lemma_without_ids_contains(dl, ids);
        let w = without_ids(s, ids);
        let rest = without_ids(dl, ids);
        if !ids.contains(tx_id(s.last())) {
            assert forall|i: int, j: int| 0 <= i < j < w.len() implies tx_id(#[trigger] w[i])
                != tx_id(#[trigger] w[j]) by {
                if j == w.len() - 1 {
                    assert(w[j] == s.last());
                    assert(w[i] == rest[i]);
                    assert(rest.contains(rest[i]));
                    assert(dl.contains(rest[i]));
                    let k = choose|k: int| 0 <= k < dl.len() && dl[k] == rest[i];
                    assert(s[k] == rest[i]);
                    assert(tx_id(s[k]) != tx_id(s[s.len() - 1]));
                } else {
                    assert(w[i] == rest[i] && w[j] == rest[j]);
                }
            }
        }
    }
}

/// A transaction whose identity is not removed stays in the pool.
pub proof fn lemma_without_ids_keeps(s: Seq<TxView>, ids: Seq<u64>)
    ensures
        forall|x: TxView|
            s.contains(x) && !ids.contains(tx_id(x)) ==> #[trigger] without_ids(s, ids).contains(
                x,
            ),
    decreases s.len(),
{
    if s.len() > 0 {
        let dl = s.drop_last();
        lemma_without_ids_keeps(dl, ids);
        let w = without_ids(s, ids);
        let rest = without_ids(dl, ids);
        assert forall|x: TxView|
            s.contains(x) && !ids.contains(tx_id(x)) implies #[trigger] w.contains(x) by {
            let a = choose|a: int| 0 <= a < s.len() && s[a] == x;
            if a < s.len() - 1 {
                assert(dl[a] == x);
                assert(dl.contains(x));
                assert(rest.contains(x));
                let b = choose|b: int| 0 <= b < rest.len() && rest[b] == x;
                if ids.contains(tx_id(s.last())) {
                    assert(w[b] == x);
                } else {
                    assert(w[b] == x);
                }
            } else {
                assert(x == s.last());
                assert(!ids.contains(tx_id(s.last())));
                assert(w[w.len() - 1] == x);
            }
        }
    }
}

/// Removing identities never lengthens the pool, and shortens it exactly
/// when some pending transaction carries a removed identity.
pub proof fn lemma_without_ids_len(s: Seq<TxView>, ids: Seq<u64>)
    ensures
        without_ids(s, ids).len() <= s.len(),
        without_ids(s, ids).len() == s.len() <==> (forall|i: int|
            0 <= i < s.len() ==> !ids.contains(tx_id(#[trigger] s[i]))),
    decreases s.len(),
{
    if s.len() > 0 {
        let dl = s.drop_last();
        lemma_without_ids_len(dl, ids);
        assert(forall|i: int| 0 <= i < dl.len() ==> dl[i] == s[i]);
        if ids.contains(tx_id(s.last())) {
            assert(ids.contains(tx_id(s[s.len() - 1])));
        } else {
            if without_ids(dl, ids).len() == dl.len() {
                assert forall|i: int| 0 <= i < s.len() implies !ids.contains(
                    tx_id(#[trigger] s[i]),
                ) by {
                    if i < s.len() - 1 {
                        assert(dl[i] == s[i]);
                    }
                }
            } else {
                let k = choose|k: int| 0 <= k < dl.len() && ids.contains(tx_id(#[trigger] dl[k]));
                assert(ids.contains(tx_id(s[k])));
            }
        }
    }
}

/// Pool of pending signed transactions, oldest first.
pub struct Mempool {
    pub txs: Vec<SignedTx>,
}

impl View for Mempool {
    type V = Seq<TxView>;

    open spec fn view(&self) -> Seq<TxView> {
        tx_views(self.txs@)
    }
}

impl Mempool {
    /// Well-formedness: pairwise distinct transaction identities, every one
    /// validly signed.
    pub open spec fn wf(&self) -> bool {
        &&& ids_unique(self@)
        &&& all_sigs_valid(self@)
    }

    /// Empty pool.
    pub fn new() -> (p: Mempool)
        ensures
            p.wf(),
            p@.len() == 0,
    {
        Mempool { txs: Vec::new() }
    }

    /// Number of pending transactions.
    pub fn len(&self) -> (r: usize)
        ensures
            r == self@.len(),
    {
        self.txs.len()
    }

    /// Whether a transaction with identity `id` is pending.
    pub fn contains_id(&self, id: u64) -> (r: bool)
        ensures
            r == pool_has_id(self@, id),
    {
        let mut i: usize = 0;
        while i < self.txs.len()
            invariant
                0 <= i <= self.txs@.len(),
                forall|j: int| 0 <= j < i ==> tx_id(#[trigger] self@[j]) != id,
            decreases self.txs@.len() - i,
        {
            proof {
                assert(self@[i as int] == self.txs@[i as int]@);
            }
            if self.txs[i].id() == id {
                return true;
            }
            i = i + 1;
        }
        proof {
            if pool_has_id(self@, id) {
                let j = choose|j: int| 0 <= j < self@.len() && tx_id(#[trigger] self@[j]) == id;
            }
        }
        false
    }

    /// Pending debit of `account`: the flag reports that the true sum
    /// exceeds `u64::MAX` (and so exceeds any balance).
    fn pending_of(&self, account: &String) -> (r: (u64, bool))
        ensures
            !r.1 ==> r.0 as int == pending_debit(self@, account@),
            r.1 ==> pending_debit(self@, account@) > u64::MAX,
    {
        let mut acc: u64 = 0;
        let mut i: usize = 0;
        let mut over: bool = false;
        while i < self.txs.len()
            invariant
                0 <= i <= self.txs@.len(),
                !over ==> acc as int == pending_debit(self@.take(i as int), account@),
                over ==> pending_debit(self@.take(i as int), account@) > u64::MAX,
            decreases self.txs@.len() - i,
        {
            proof {
                assert(self@.take(i + 1).drop_last() =~= self@.take(i as int));
                assert(self@.take(i + 1).last() == self@[i as int]);
                assert(self@[i as int] == self.txs@[i as int]@);
            }
            if self.txs[i].from.eq(account) {
                if !over {
                    match acc.checked_add(self.txs[i].value) {
                        Some(v) => {
                            acc = v;
                        },
                        None => {
                            over = true;
                        },
                    }
                }
            }
            i = i + 1;
        }
        proof {
            assert(self@.take(self@.len() as int) =~= self@);
        }
        (acc, over)
    }

    /// Admit a pending transaction. Success is owed exactly when the
    /// signature is valid, no transaction with the same identity is already
    /// pending, and the sender's balance less already-pending debits covers
    /// the value; on any failure the pool is unchanged.
    pub fn submit(&mut self, tx: SignedTx, ledger: &Ledger) -> (r: Result<(), ChainError>)
        requires
            old(self).wf(),
            ledger.wf(),
        ensures
            final(self).wf(),
            r is Ok <==> (tx_sig_valid(tx@) && !pool_has_id(old(self)@, tx_id(tx@)) && bal_or_zero(
                ledger@,
                tx@.from,
            ) - pending_debit(old(self)@, tx@.from) >= tx@.value),
            r is Ok ==> final(self)@ == old(self)@.push(tx@),
            r is Err ==> final(self).txs@ == old(self).txs@,
            r == Err::<(), ChainError>(ChainError::InvalidSignature) <==> !tx_sig_valid(tx@),
            r == Err::<(), ChainError>(ChainError::DuplicateTx) <==> (tx_sig_valid(tx@)
                && pool_has_id(old(self)@, tx_id(tx@))),
            r is Err ==> (r == Err::<(), ChainError>(ChainError::InvalidSignature) || r == Err::<
                (),
                ChainError,
            >(ChainError::DuplicateTx) || r == Err::<(), ChainError>(ChainError::InsufficientFunds)),
    {
        if !tx.signature_valid() {
            return Err(ChainError::InvalidSignature);
        }
        let id = tx.id();
        if self.contains_id(id) {
            return Err(ChainError::DuplicateTx);
        }
        let bal = ledger.balance_of(&tx.from);
        let (pend, over) = self.pending_of(&tx.from);
        if over {
            return Err(ChainError::InsufficientFunds);
        }
        match pend.checked_add(tx.value) {
            Some(need) => {
                if bal < need {
                    return Err(ChainError::InsufficientFunds);
                }
            },
            None => {
                return Err(ChainError::InsufficientFunds);
            },
        }
        let ghost s0 = self@;
        self.txs.push(tx);
        proof {
            assert(self@ =~= s0.push(tx@));
            assert(ids_unique(self@)) by {
                assert(forall|k: int| 0 <= k < s0.len() ==> self@[k] == s0[k]);
                assert(self@[s0.len() as int] == tx@);
                assert(forall|k: int| 0 <= k < s0.len() ==> tx_id(#[trigger] self@[k]) != tx_id(
                    tx@,
                ));
            }
            assert(all_sigs_valid(self@)) by {
                assert(forall|k: int| 0 <= k < s0.len() ==> self@[k] == s0[k]);
                assert(self@[s0.len() as int] == tx@);
            }
        }
        Ok(())
    }

    /// Put a transaction invalidated by a chain reorganisation back in the
    /// pool, skipping the optimistic balance check: it was committed once,
    /// so it is signed, and it is re-queued rather than silently dropped.
    pub fn requeue(&mut self, tx: SignedTx) -> (added: bool)
        requires
            old(self).wf(),
            tx_sig_valid(tx@),
        ensures
            final(self).wf(),
            pool_has_id(final(self)@, tx_id(tx@)),
            added <==> !pool_has_id(old(self)@, tx_id(tx@)),
            added ==> final(self)@ == old(self)@.push(tx@),
            !added ==> final(self).txs@ == old(self).txs@,
    {
        let id = tx.id();
        if self.contains_id(id) {
            return false;
        }
        let ghost s0 = self@;
        self.txs.push(tx);
        proof {
            assert(self@ =~= s0.push(tx@));
            assert(ids_unique(self@) && all_sigs_valid(self@)) by {
                assert(forall|k: int| 0 <= k < s0.len() ==> self@[k] == s0[k]);
                assert(self@[s0.len() as int] == tx@);
                assert(forall|k: int| 0 <= k < s0.len() ==> tx_id(#[trigger] self@[k]) != tx_id(
                    tx@,
                ));
            }
            assert(tx_id(self@[s0.len() as int]) == tx_id(tx@));
        }
        true
    }

    /// The oldest `max_count` pending transactions (or all of them when
    /// fewer are pending), in admission order; they stay pending until the
    /// block holding them commits.
    pub fn drain_for_block(&self, max_count: usize) -> (r: Vec<SignedTx>)
        ensures
            tx_views(r@) == self@.take(
                if max_count as int <= self@.len() {
                    max_count as int
                } else {
                    self@.len() as int
                },
            ),
    {
        let n = self.txs.len();
        let count = if max_count > n {
            n
        } else {
            max_count
        };
        let mut out: Vec<SignedTx> = Vec::new();
        let mut i: usize = 0;
        while i < count
            invariant
                0 <= i <= count <= self.txs@.len(),
                tx_views(out@) =~= self@.take(i as int),
            decreases count - i,
        {
            out.push(self.txs[i].duplicate());
            proof {
                assert(tx_views(out@) =~= self@.take(i + 1));
            }
            i = i + 1;
        }
        proof {
            assert(tx_views(out@) =~= self@.take(count as int));
        }
        out
    }

    /// Copy of every pending transaction, oldest first.
    pub fn all(&self) -> (r: Vec<SignedTx>)
        ensures
            tx_views(r@) == self@,
    {
        let r = self.drain_for_block(self.txs.len());
        proof {
            assert(self@.take(self@.len() as int) =~= self@);
        }
        r
    }

    /// Drop the pending transaction with identity `id`, if any; reports
    /// whether one was pending.
    pub fn evict(&mut self, id: u64) -> (found: bool)
        requires
            old(self).wf(),
        ensures
            final(self).wf(),
            final(self)@ == without_ids(old(self)@, seq![id]),
            !pool_has_id(final(self)@, id),
            found <==> pool_has_id(old(self)@, id),
    {
        let mut ids: Vec<u64> = Vec::new();
        ids.push(id);
        proof {
            assert(ids@ =~= seq![id]);
        }
        let removed = self.remove_committed(&ids);
        proof {
            assert(ids@[0] == id);
            lemma_without_ids_len(old(self)@, ids@);
            if pool_has_id(old(self)@, id) {
                let j = choose|j: int|
                    0 <= j < old(self)@.len() && tx_id(#[trigger] old(self)@[j]) == id;
                assert(ids@.contains(tx_id(old(self)@[j]))) by {
                    assert(ids@[0] == tx_id(old(self)@[j]));
                }
            }
            if exists|i: int|
                0 <= i < old(self)@.len() && ids@.contains(tx_id(#[trigger] old(self)@[i])) {
                let j = choose|j: int|
                    0 <= j < old(self)@.len() && ids@.contains(tx_id(#[trigger] old(self)@[j]));
                let w = choose|w: int| 0 <= w < ids@.len() && #[trigger] ids@[w] == tx_id(
                    old(self)@[j],
                );
                assert(pool_has_id(old(self)@, id));
            }
        }
        removed > 0
    }

    /// Drop every pending transaction whose identity is listed in `ids`:
    /// they are committed now.
    pub fn remove_committed(&mut self, ids: &Vec<u64>) -> (removed: usize)
        requires
            old(self).wf(),
        ensures
            final(self).wf(),
            final(self)@ == without_ids(old(self)@, ids@),
            forall|j: int| 0 <= j < ids@.len() ==> !pool_has_id(final(self)@, #[trigger] ids@[j]),
            removed == old(self)@.len() - final(self)@.len(),
    {
        let ghost s0 = self@;
        let mut out: Vec<SignedTx> = Vec::new();
        let mut i: usize = 0;
        while i < self.txs.len()
            invariant
                0 <= i <= self.txs@.len(),
                out@.len() <= i,
                tx_views(out@) =~= without_ids(s0.take(i as int), ids@),
                s0 == self@,
            decreases self.txs@.len() - i,
        {
            proof {
                assert(s0.take(i + 1).drop_last() =~= s0.take(i as int));
                assert(s0.take(i + 1).last() == s0[i as int]);
                assert(s0[i as int] == self.txs@[i as int]@);
            }
            let id = self.txs[i].id();
            let mut keep = true;
            let mut k: usize = 0;
            while k < ids.len()
                invariant
                    0 <= k <= ids@.len(),
                    keep <==> !ids@.take(k as int).contains(tx_id(s0[i as int])),
                    0 <= i < self.txs@.len(),
                    id == tx_id(s0[i as int]),
                decreases ids@.len() - k,
            {
                proof {
                    assert(ids@.take(k + 1).drop_last() =~= ids@.take(k as int));
                    assert(ids@.take(k + 1).last() == ids@[k as int]);
                    if ids@.take(k + 1).contains(id) && !ids@.take(k as int).contains(id) && ids@[k
                        as int] != id {
                        let w = choose|w: int|
                            0 <= w < ids@.take(k + 1).len() && #[trigger] ids@.take(k + 1)[w]
                                == id;
                        assert(ids@.take(k as int)[w] == id);
                    }
                    if ids@[k as int] == id {
                        assert(ids@.take(k + 1)[k as int] == id);
                    }
                }
                if ids[k] == id {
                    keep = false;
                }
                k = k + 1;
            }
            proof {
                assert(ids@.take(ids@.len() as int) =~= ids@);
            }
            if keep {
                out.push(self.txs[i].duplicate());
                proof {
                    assert(tx_views(out@) =~= without_ids(s0.take(i + 1), ids@));
                }
            } else {
                proof {
                    assert(tx_views(out@) =~= without_ids(s0.take(i + 1), ids@));
                }
            }
            i = i + 1;
        }
        proof {
            assert(s0.take(s0.len() as int) =~= s0);
        }
        let removed = self.txs.len() - out.len();
        proof {
            lemma_without_ids_contains(s0, ids@);
            lemma_without_ids_unique(s0, ids@);
            assert(ids_unique(tx_views(out@)));
            assert(all_sigs_valid(tx_views(out@))) by {
                assert forall|k: int|
                    0 <= k < tx_views(out@).len() implies tx_sig_valid(
                    #[trigger] tx_views(out@)[k],
                ) by {
                    assert(tx_views(out@).contains(tx_views(out@)[k]));
                    assert(s0.contains(tx_views(out@)[k]));
                    let a = choose|a: int| 0 <= a < s0.len() && s0[a] == tx_views(out@)[k];
                }
            }
            assert forall|j: int|
                0 <= j < ids@.len() implies !pool_has_id(tx_views(out@), #[trigger] ids@[j]) by {
                if pool_has_id(tx_views(out@), ids@[j]) {
                    let b = choose|b: int|
                        0 <= b < tx_views(out@).len() && tx_id(#[trigger] tx_views(out@)[b])
                            == ids@[j];
                    assert(tx_views(out@).contains(tx_views(out@)[b]));
                    assert(!ids@.contains(tx_id(tx_views(out@)[b])));
                }
            }
        }
        self.txs = out;
        removed
    }
}

} // verus!
