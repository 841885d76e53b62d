//! The account ledger: a mapping from account identifier to non-negative
//! balance, derived from the committed chain. Applying a transaction debits
//! the sender and credits the recipient atomically — either both happen or
//! neither. The ledger keeps one entry per account and its total stock of
//! value never exceeds `u64::MAX`, so a credit can never overflow.

use vstd::prelude::*;
use crate::types::{SignedTx, TxView, ChainError};

verus! {

/// No two entries name the same account.
pub open spec fn entries_unique(s: Seq<(String, u64)>) -> bool {
    forall|i: int, j: int| 0 <= i < j < s.len() ==> (#[trigger] s[i]).0@ != (#[trigger] s[j]).0@
}

/// Total value held across all entries.
pub open spec fn total_of(s: Seq<(String, u64)>) -> int
    decreases s.len(),
{
    if s.len() == 0 {
        0
    } else {
        total_of(s.drop_last()) + s.last().1
    }
}

/// The balance mapping an entry list denotes.
pub open spec fn map_of(s: Seq<(String, u64)>) -> Map<Seq<char>, u64>
    decreases s.len(),
{
    if s.len() == 0 {
        Map::empty()
    } else {
        map_of(s.drop_last()).insert(s.last().0@, s.last().1)
    }
}

/// An account appears among the entries.
pub open spec fn has_key(s: Seq<(String, u64)>, a: Seq<char>) -> bool {
    exists|i: int| 0 <= i < s.len() && (#[trigger] s[i]).0@ == a
}

/// Balance of `a` under mapping `m`; an unknown account holds 0.
pub open spec fn bal_or_zero(m: Map<Seq<char>, u64>, a: Seq<char>) -> int {
    if m.contains_key(a) {
        m[a] as int
    } else {
        0
    }
}

/// Effect of one transaction on a balance mapping: `None` when the sender is
/// unknown, the sender's balance cannot cover the value, or the credit would
/// exceed `u64::MAX`; otherwise the mapping with the sender debited and the
/// recipient credited. A self-transfer debits and credits the same account
/// and leaves the mapping unchanged.
pub open spec fn apply_tx(m: Map<Seq<char>, u64>, t: TxView) -> Option<Map<Seq<char>, u64>> {
    if !m.contains_key(t.from) {
        None
    } else if m[t.from] < t.value {
        None
    } else {
        let m1 = m.insert(t.from, (m[t.from] - t.value) as u64);
        let prev: int = if m1.contains_key(t.to) {
            m1[t.to] as int
        } else {
            0
        };
        if prev + t.value > u64::MAX {
            None
        } else {
            Some(m1.insert(t.to, (prev + t.value) as u64))
        }
    }
}

proof fn lemma_map_of_props(s: Seq<(String, u64)>)
    requires
        entries_unique(s),
    ensures
        forall|a: Seq<char>| #[trigger] map_of(s).contains_key(a) <==> has_key(s, a),
        forall|i: int| 0 <= i < s.len() ==> map_of(s)[(#[trigger] s[i]).0@] == s[i].1,
    decreases s.len(),
{
    if s.len() > 0 {
        let dl = s.drop_last();
        assert(entries_unique(dl)) by {
            assert(forall|i: int, j: int|
                0 <= i < j < dl.len() ==> (#[trigger] dl[i]).0@ != (#[trigger] dl[j]).0@) by {
                assert(forall|i: int| 0 <= i < dl.len() ==> dl[i] == s[i]);
            }
        }
        lemma_map_of_props(dl);
        assert forall|a: Seq<char>| #[trigger] map_of(s).contains_key(a) <==> has_key(s, a) by {
            if map_of(s).contains_key(a) {
                if a == s.last().0@ {
                    assert(s[s.len() - 1].0@ == a);
                } else {
                    assert(map_of(dl).contains_key(a));
                    assert(has_key(dl, a));
                    let i = choose|i: int| 0 <= i < dl.len() && (#[trigger] dl[i]).0@ == a;
                    assert(s[i].0@ == a);
                }
            }
            if has_key(s, a) {
                let i = choose|i: int| 0 <= i < s.len() && (#[trigger] s[i]).0@ == a;
                if i < s.len() - 1 {
                    assert(dl[i].0@ == a);
                    assert(has_key(dl, a));
                }
            }
        }
        assert forall|i: int| 0 <= i < s.len() implies map_of(s)[(#[trigger] s[i]).0@] == s[i].1 by {
            if i < s.len() - 1 {
                assert(s[i].0@ != s.last().0@);
                assert(dl[i] == s[i]);
                assert(has_key(dl, s[i].0@));
            }
        }
    }
}

proof fn lemma_total_nonneg(s: Seq<(String, u64)>)
    ensures
        total_of(s) >= 0,
    decreases s.len(),
{
    if s.len() > 0 {
        lemma_total_nonneg(s.drop_last());
    }
}

proof fn lemma_total_prefix(s: Seq<(String, u64)>, k: int)
    requires
        0 <= k <= s.len(),
    ensures
        total_of(s) >= total_of(s.take(k)),
    decreases s.len(),
{
    if k == s.len() {
        assert(s.take(k) =~= s);
    } else {
        let dl = s.drop_last();
        assert(s.take(k) =~= dl.take(k));
        lemma_total_prefix(dl, k);
    }
}

proof fn lemma_total_index(s: Seq<(String, u64)>, i: int)
    requires
        0 <= i < s.len(),
    ensures
        s[i].1 <= total_of(s),
    decreases s.len(),
{
    lemma_total_nonneg(s.drop_last());
    if i < s.len() - 1 {
        lemma_total_index(s.drop_last(), i);
        assert(s.drop_last()[i] == s[i]);
    }
}

proof fn lemma_total_update(s: Seq<(String, u64)>, i: int, e: (String, u64))
    requires
        0 <= i < s.len(),
    ensures
        total_of(s.update(i, e)) == total_of(s) - s[i].1 + e.1,
    decreases s.len(),
{
    let su = s.update(i, e);
    if i == s.len() - 1 {
        assert(su.drop_last() =~= s.drop_last());
    } else {
        assert(su.drop_last() =~= s.drop_last().update(i, e));
        lemma_total_update(s.drop_last(), i, e);
        assert(su.last() == s.last());
    }
}

proof fn lemma_map_of_update(s: Seq<(String, u64)>, i: int, e: (String, u64))
    requires
        entries_unique(s),
        0 <= i < s.len(),
        e.0@ == s[i].0@,
    ensures
        map_of(s.update(i, e)) =~= map_of(s).insert(e.0@, e.1),
        entries_unique(s.update(i, e)),
    decreases s.len(),
{
    let su = s.update(i, e);
    assert(entries_unique(su)) by {
        assert(forall|k: int| 0 <= k < su.len() ==> (#[trigger] su[k]).0@ == s[k].0@);
    }
    let dl = s.drop_last();
    assert(entries_unique(dl)) by {
        assert(forall|k: int| 0 <= k < dl.len() ==> dl[k] == s[k]);
    }
    if i == s.len() - 1 {
        assert(su.drop_last() =~= dl);
    } else {
        assert(su.drop_last() =~= dl.update(i, e));
        lemma_map_of_update(dl, i, e);
        assert(su.last() == s.last());
        assert(s[i].0@ != s.last().0@);
    }
}

/// Account-balance state. `entries` holds one `(account, balance)` pair per
/// known account.
pub struct Ledger {
    pub entries: Vec<(String, u64)>,
}

impl View for Ledger {
    type V = Map<Seq<char>, u64>;

    open spec fn view(&self) -> Map<Seq<char>, u64> {
        map_of(self.entries@)
    }
}

impl Ledger {
    /// Well-formedness: one entry per account, and the total value in
    /// circulation fits in a balance word.
    pub open spec fn wf(&self) -> bool {
        &&& entries_unique(self.entries@)
        &&& total_of(self.entries@) <= u64::MAX
    }

    /// Empty ledger: no accounts.
    pub fn new() -> (l: Ledger)
        ensures
            l.wf(),
            l@ == Map::<Seq<char>, u64>::empty(),
            l.entries@.len() == 0,
    {
        Ledger { entries: Vec::new() }
    }

    /// Ledger seeded with the genesis balances. The seed is rejected exactly
    /// when it names an account twice or its total value overflows a balance
    /// word.
    pub fn from_seed(seed: Vec<(String, u64)>) -> (r: Option<Ledger>)
        ensures
            r is Some <==> (entries_unique(seed@) && total_of(seed@) <= u64::MAX),
            r matches Some(l) ==> l.wf() && l.entries@ == seed@,
    {
        let n = seed.len();
        let mut i: usize = 0;
        while i < n
            invariant
                0 <= i <= n == seed@.len(),
                forall|a: int, b: int|
                    0 <= a < b < i ==> (#[trigger] seed@[a]).0@ != (#[trigger] seed@[b]).0@,
            decreases n - i,
        {
            let mut j: usize = 0;
            while j < i
                invariant
                    0 <= j <= i < n == seed@.len(),
                    forall|a: int| 0 <= a < j ==> (#[trigger] seed@[a]).0@ != seed@[i as int].0@,
                decreases i - j,
            {
                if seed[j].0.eq(&seed[i].0) {
                    proof {
                        assert(!entries_unique(seed@));
                    }
                    return None;
                }
                j = j + 1;
            }
            i = i + 1;
        }
        assert(entries_unique(seed@));
        let mut acc: u64 = 0;
        let mut k: usize = 0;
        while k < n
            invariant
                0 <= k <= n == seed@.len(),
                acc as int == total_of(seed@.take(k as int)),
            decreases n - k,
        {
            proof {
                assert(seed@.take(k + 1).drop_last() =~= seed@.take(k as int));
                assert(seed@.take(k + 1).last() == seed@[k as int]);
            }
            match acc.checked_add(seed[k].1) {
                Some(v) => {
                    acc = v;
                },
                None => {
                    proof {
                        lemma_total_prefix(seed@, k + 1);
                    }
                    return None;
                },
            }
            k = k + 1;
        }
        proof {
            assert(seed@.take(n as int) =~= seed@);
        }
        Some(Ledger { entries: seed })
    }

    /// Index of the entry naming `account`, if any.
    fn find(&self, account: &String) -> (r: Option<usize>)
        ensures
            match r {
                Some(i) => i < self.entries@.len() && self.entries@[i as int].0@ == account@,
                None => forall|j: int|
                    0 <= j < self.entries@.len() ==> (#[trigger] self.entries@[j]).0@ != account@,
            },
    {
        let mut i: usize = 0;
        while i < self.entries.len()
            invariant
                0 <= i <= self.entries@.len(),
                forall|j: int| 0 <= j < i ==> (#[trigger] self.entries@[j]).0@ != account@,
            decreases self.entries@.len() - i,
        {
            if self.entries[i].0.eq(account) {
                return Some(i);
            }
            i = i + 1;
        }
        None
    }

    /// Balance of `account`; an unknown account holds 0 and is not an error.
    pub fn balance_of(&self, account: &String) -> (r: u64)
        requires
            self.wf(),
        ensures
            r as int == bal_or_zero(self@, account@),
            self@.contains_key(account@) ==> r == self@[account@],
            !self@.contains_key(account@) ==> r == 0,
    {
        proof {
            lemma_map_of_props(self.entries@);
        }
        match self.find(account) {
            Some(i) => {
                proof {
                    assert(has_key(self.entries@, account@));
                }
                self.entries[i].1
            },
            None => {
                proof {
                    assert(!has_key(self.entries@, account@));
                }
                0
            },
        }
    }

    /// Copy of every `(account, balance)` pair, for bulk reads.
    pub fn snapshot(&self) -> (r: Vec<(String, u64)>)
        ensures
            r@ == self.entries@,
            map_of(r@) == self@,
    {
        let mut out: Vec<(String, u64)> = Vec::new();
        let mut i: usize = 0;
        while i < self.entries.len()
            invariant
                0 <= i <= self.entries@.len(),
                out@ =~= self.entries@.take(i as int),
            decreases self.entries@.len() - i,
        {
            let e = (self.entries[i].0.clone(), self.entries[i].1);
            proof {
                assert(e == self.entries@[i as int]);
            }
            out.push(e);
            i = i + 1;
        }
        proof {
            assert(out@ =~= self.entries@);
        }
        out
    }

    /// Apply one transaction: debit the sender, credit the recipient, both or
    /// neither. Success is owed exactly when the sender is known and funded;
    /// on any failure the ledger is left untouched.
    pub fn apply(&mut self, tx: &SignedTx) -> (r: Result<(), ChainError>)
        requires
            old(self).wf(),
        ensures
            final(self).wf(),
            r is Ok <==> apply_tx(old(self)@, tx@) is Some,
            r is Ok <==> (old(self)@.contains_key(tx@.from) && old(self)@[tx@.from] >= tx@.value),
            r is Ok ==> final(self)@ == apply_tx(old(self)@, tx@)->Some_0,
            r is Err ==> final(self).entries@ == old(self).entries@,
            r matches Err(e) ==> (e == ChainError::UnknownAccount <==> !old(self)@.contains_key(
                tx@.from,
            )),
            r matches Err(e) ==> (e == ChainError::UnknownAccount || e
                == ChainError::InsufficientFunds),
    {
        proof {
            lemma_map_of_props(self.entries@);
        }
        let from_idx = match self.find(&tx.from) {
            Some(i) => i,
            None => {
                proof {
                    assert(!has_key(self.entries@, tx@.from));
                }
                return Err(ChainError::UnknownAccount);
            },
        };
        proof {
            assert(has_key(self.entries@, tx@.from));
        }
        let from_bal = self.entries[from_idx].1;
        if from_bal < tx.value {
            return Err(ChainError::InsufficientFunds);
        }
        let ghost m0 = self@;
        let ghost s0 = self.entries@;
        // Debit the sender.
        let debited = (self.entries[from_idx].0.clone(), from_bal - tx.value);
        proof {
            lemma_total_update(s0, from_idx as int, debited);
            lemma_map_of_update(s0, from_idx as int, debited);
            lemma_total_nonneg(s0);
        }
        self.entries[from_idx] = debited;
        let ghost s1 = self.entries@;
        let ghost m1 = self@;
        proof {
            assert(m1 =~= m0.insert(tx@.from, (m0[tx@.from] - tx@.value) as u64));
            lemma_map_of_props(s1);
        }
        // Credit the recipient.
        match self.find(&tx.to) {
            Some(j) => {
                proof {
                    assert(has_key(s1, tx@.to));
                    assert(m1.contains_key(tx@.to));
                    assert(m1[s1[j as int].0@] == s1[j as int].1);
                    lemma_total_index(s1, j as int);
                }
                let to_bal = self.entries[j].1;
                let credited = (self.entries[j].0.clone(), to_bal + tx.value);
                proof {
                    lemma_total_update(s1, j as int, credited);
                    lemma_map_of_update(s1, j as int, credited);
                }
                self.entries[j] = credited;
                proof {
                    assert(apply_tx(m0, tx@) is Some);
                    assert(self@ =~= apply_tx(m0, tx@)->Some_0);
                }
            },
            None => {
                proof {
                    assert(!has_key(s1, tx@.to));
                    assert(!m1.contains_key(tx@.to));
                }
                let entry = (tx.to.clone(), tx.value);
                self.entries.push(entry);
                proof {
                    assert(self.entries@.drop_last() =~= s1);
                    assert(entries_unique(self.entries@)) by {
                        assert(forall|k: int|
                            0 <= k < s1.len() ==> (#[trigger] self.entries@[k]) == s1[k]);
                    }
                    assert(apply_tx(m0, tx@) is Some);
                    assert(self@ =~= apply_tx(m0, tx@)->Some_0);
                }
            },
        }
        Ok(())
    }
}

} // verus!
