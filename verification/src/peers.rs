//! The peer registry: the set of known remote node addresses, keyed by
//! address, with liveness tracking. An address is written `a.b.c.d:port`;
//! the parser below is specified exactly, so `InvalidAddress` is reported
//! precisely on the strings that do not match that shape.

use vstd::prelude::*;
use vstd::slice::slice_to_vec;
use vstd::string::StringSliceAdditionalSpecFns;
use crate::types::ChainError;

verus! {

/// Byte value of the character `.`.
pub const DOT: u8 = 46;

/// Byte value of the character `:`.
pub const COLON: u8 = 58;

/// Byte value of the character `0`.
pub const DIGIT_ZERO: u8 = 48;

/// Byte value of the character `9`.
pub const DIGIT_NINE: u8 = 57;

/// A remote node's listening address: an IPv4 address and a port.
#[derive(Clone, Copy, PartialEq, Eq, Structural, Debug, Hash)]
pub struct NetAddr {
    pub a: u8,
    pub b: u8,
    pub c: u8,
    pub d: u8,
    pub port: u16,
}

/// An ASCII decimal digit.
pub open spec fn is_digit(c: u8) -> bool {
    DIGIT_ZERO <= c <= DIGIT_NINE
}

/// Every byte is a decimal digit.
pub open spec fn all_digits(s: Seq<u8>) -> bool {
    forall|i: int| 0 <= i < s.len() ==> is_digit(#[trigger] s[i])
}

/// Value of a decimal digit string.
pub open spec fn digits_val(s: Seq<u8>) -> int
    decreases s.len(),
{
    if s.len() == 0 {
        0
    } else {
        digits_val(s.drop_last()) * 10 + (s.last() - DIGIT_ZERO)
    }
}

/// A non-empty digit string whose value does not exceed `cap`. Leading
/// zeros are accepted.
pub open spec fn valid_decimal(s: Seq<u8>, cap: int) -> bool {
    &&& s.len() >= 1
    &&& all_digits(s)
    &&& digits_val(s) <= cap
}

/// Index of the first occurrence of `c`, if any.
pub open spec fn find_byte(s: Seq<u8>, c: u8) -> Option<int>
    decreases s.len(),
{
    if s.len() == 0 {
        None
    } else if s[0] == c {
        Some(0)
    } else {
        match find_byte(s.drop_first(), c) {
            Some(i) => Some(i + 1),
            None => None,
        }
    }
}

/// `find_byte` returns the first occurrence: the hit is `c` and nothing
/// before it is.
pub proof fn lemma_find_byte(s: Seq<u8>, c: u8)
    ensures
        match find_byte(s, c) {
            Some(i) => 0 <= i < s.len() && s[i] == c && forall|j: int| 0 <= j < i ==> s[j] != c,
            None => forall|j: int| 0 <= j < s.len() ==> s[j] != c,
        },
    decreases s.len(),
{
    if s.len() > 0 && s[0] != c {
        let df = s.drop_first();
        lemma_find_byte(df, c);
        assert(forall|j: int| 0 <= j < df.len() ==> #[trigger] df[j] == s[j + 1]);
        match find_byte(df, c) {
            Some(i) => {
                assert(find_byte(s, c) == Some(i + 1));
                assert(s[i + 1] == df[i]);
                assert forall|j: int| 0 <= j < i + 1 implies s[j] != c by {
                    if j > 0 {
                        assert(df[j - 1] == s[j]);
                        assert(df[j - 1] != c);
                    }
                }
            },
            None => {
                assert forall|j: int| 0 <= j < s.len() implies s[j] != c by {
                    if j > 0 {
                        assert(df[j - 1] == s[j]);
                        assert(df[j - 1] != c);
                    }
                }
            },
        }
    }
}

/// The result of parsing `a.b.c.d:port` from the bytes of an address
/// string: four decimal octets up to 255 separated by dots, then a colon,
/// then a decimal port up to 65535.
pub open spec fn parse_addr(s: Seq<u8>) -> Option<NetAddr> {
    match find_byte(s, COLON) {
        None => None,
        Some(cp) => {
            let ip = s.take(cp);
            let port = s.skip(cp + 1);
            match find_byte(ip, DOT) {
                None => None,
                Some(d1) => {
                    let o1 = ip.take(d1);
                    let r1 = ip.skip(d1 + 1);
                    match find_byte(r1, DOT) {
                        None => None,
                        Some(d2) => {
                            let o2 = r1.take(d2);
                            let r2 = r1.skip(d2 + 1);
                            match find_byte(r2, DOT) {
                                None => None,
                                Some(d3) => {
                                    let o3 = r2.take(d3);
                                    let o4 = r2.skip(d3 + 1);
                                    if find_byte(o4, DOT) is Some {
                                        None
                                    } else if valid_decimal(o1, 255) && valid_decimal(o2, 255)
                                        && valid_decimal(o3, 255) && valid_decimal(o4, 255)
                                        && valid_decimal(port, 65535) {
                                        Some(
                                            NetAddr {
                                                a: digits_val(o1) as u8,
                                                b: digits_val(o2) as u8,
                                                c: digits_val(o3) as u8,
                                                d: digits_val(o4) as u8,
                                                port: digits_val(port) as u16,
                                            },
                                        )
                                    } else {
                                        None
                                    }
                                },
                            }
                        },
                    }
                },
            }
        },
    }
}

/// A digit string's value only grows as digits are appended.
proof fn lemma_digits_val_prefix(s: Seq<u8>, k: int)
    requires
        0 <= k <= s.len(),
        all_digits(s),
    ensures
        digits_val(s) >= digits_val(s.take(k)),
        digits_val(s) >= 0,
    decreases s.len(),
{
    if s.len() == 0 {
        assert(s.take(k) =~= s);
    } else {
        let dl = s.drop_last();
        assert(all_digits(dl)) by {
            assert(forall|i: int| 0 <= i < dl.len() ==> dl[i] == s[i]);
        }
        lemma_digits_val_prefix(dl, if k <= dl.len() {
            k
        } else {
            dl.len() as int
        });
        assert(is_digit(s.last()));
        if k == s.len() {
            assert(s.take(k) =~= s);
        } else {
            assert(s.take(k) =~= dl.take(k));
        }
    }
}

/// Find the first occurrence of `c` within `v[lo..hi]`.
fn find_in(v: &Vec<u8>, lo: usize, hi: usize, c: u8) -> (r: Option<usize>)
    requires
        lo <= hi <= v@.len(),
    ensures
        match r {
            Some(i) => lo <= i < hi && find_byte(v@.subrange(lo as int, hi as int), c) == Some(
                i - lo,
            ),
            None => find_byte(v@.subrange(lo as int, hi as int), c) is None,
        },
{
    let ghost sub = v@.subrange(lo as int, hi as int);
    proof {
        lemma_find_byte(sub, c);
    }
    let mut i: usize = lo;
    while i < hi
        invariant
            lo <= i <= hi,
            forall|j: int| lo <= j < i ==> v@[j] != c,
        decreases hi - i,
    {
        if v[i] == c {
            proof {
                assert(sub[i - lo] == c);
                assert(forall|j: int| 0 <= j < i - lo ==> sub[j] != c);
                if find_byte(sub, c) is None {
                    assert(false);
                }
                let f = find_byte(sub, c)->Some_0;
                if f < i - lo {
                    assert(sub[f] == c);
                    assert(false);
                }
                if f > i - lo {
                    assert(sub[i - lo] != c);
                    assert(false);
                }
            }
            return Some(i);
        }
        i = i + 1;
    }
    proof {
        if find_byte(sub, c) is Some {
            let f = find_byte(sub, c)->Some_0;
            assert(sub[f] == c);
            assert(v@[lo + f] != c);
        }
    }
    None
}

/// Parse the decimal value of `v[lo..hi]`, rejecting empty or non-digit
/// input and any value above `cap`.
fn parse_dec(v: &Vec<u8>, lo: usize, hi: usize, cap: u64) -> (r: Option<u64>)
    requires
        lo <= hi <= v@.len(),
        cap <= 65535,
    ensures
        r is Some <==> valid_decimal(v@.subrange(lo as int, hi as int), cap as int),
        r matches Some(x) ==> x as int == digits_val(v@.subrange(lo as int, hi as int)) && x
            <= cap,
{
    let ghost sub = v@.subrange(lo as int, hi as int);
    if lo == hi {
        proof {
            assert(sub.len() == 0);
        }
        return None;
    }
    let mut acc: u64 = 0;
    let mut i: usize = lo;
    while i < hi
        invariant
            lo <= i <= hi,
            acc as int == digits_val(sub.take(i - lo)),
            acc <= cap,
            all_digits(sub.take(i - lo)),
        decreases hi - i,
    {
        proof {
            assert(sub.take(i - lo + 1).drop_last() =~= sub.take(i - lo));
            assert(sub.take(i - lo + 1).last() == sub[i - lo]);
            assert(sub[i - lo] == v@[i as int]);
        }
        let ch = v[i];
        if ch < DIGIT_ZERO || ch > DIGIT_NINE {
            proof {
                assert(!is_digit(sub[i - lo]));
                assert(!all_digits(sub));
            }
            return None;
        }
        let next = acc * 10 + (ch - DIGIT_ZERO) as u64;
        if next > cap {
            proof {
                assert(all_digits(sub.take(i - lo + 1)));
                assert(digits_val(sub.take(i - lo + 1)) > cap);
                if valid_decimal(sub, cap as int) {
                    lemma_digits_val_prefix(sub, i - lo + 1);
                    assert(digits_val(sub) >= digits_val(sub.take(i - lo + 1)));
                    assert(false);
                }
            }
            return None;
        }
        acc = next;
        i = i + 1;
    }
    proof {
        assert(sub.take(hi - lo) =~= sub);
        assert(sub.len() >= 1);
    }
    Some(acc)
}

/// Parse an `a.b.c.d:port` address string.
pub fn parse_net_addr(s: &str) -> (r: Option<NetAddr>)
    ensures
        r == parse_addr(s.spec_bytes()),
{
    let v: Vec<u8> = slice_to_vec(s.as_bytes());
    let ghost w = v@;
    let n = v.len();
    let cp = match find_in(&v, 0, n, COLON) {
        None => {
            proof {
                assert(w.subrange(0, n as int) =~= w);
            }
            return None;
        },
        Some(cp) => cp,
    };
    proof {
        assert(w.subrange(0, n as int) =~= w);
    }
    let ghost ip = w.take(cp as int);
    let ghost port_s = w.skip(cp as int + 1);
    let port = match parse_dec(&v, cp + 1, n, 65535) {
        None => {
            proof {
                assert(w.subrange(cp as int + 1, n as int) =~= port_s);
            }
            return None;
        },
        Some(x) => x,
    };
    proof {
        assert(w.subrange(cp as int + 1, n as int) =~= port_s);
    }
    let d1 = match find_in(&v, 0, cp, DOT) {
        None => {
            proof {
                assert(w.subrange(0, cp as int) =~= ip);
            }
            return None;
        },
        Some(i) => i,
    };
    proof {
        assert(w.subrange(0, cp as int) =~= ip);
        assert(find_byte(ip, DOT) == Some(d1 as int));
    }
    let ghost o1 = ip.take(d1 as int);
    let ghost r1 = ip.skip(d1 as int + 1);
    proof {
        assert(w.subrange(d1 as int + 1, cp as int) =~= r1);
        assert(w.subrange(0, d1 as int) =~= o1);
    }
    let d2 = match find_in(&v, d1 + 1, cp, DOT) {
        None => {
            return None;
        },
        Some(i) => i,
    };
    proof {
        assert(find_byte(r1, DOT) == Some(d2 - (d1 + 1)));
    }
    let ghost o2 = r1.take(d2 - (d1 + 1));
    let ghost r2 = r1.skip(d2 - (d1 + 1) + 1);
    proof {
        assert(w.subrange(d1 as int + 1, d2 as int) =~= o2);
        assert(w.subrange(d2 as int + 1, cp as int) =~= r2);
    }
    let d3 = match find_in(&v, d2 + 1, cp, DOT) {
        None => {
            return None;
        },
        Some(i) => i,
    };
    proof {
        assert(find_byte(r2, DOT) == Some(d3 - (d2 + 1)));
    }
    let ghost o3 = r2.take(d3 - (d2 + 1));
    let ghost o4 = r2.skip(d3 - (d2 + 1) + 1);
    proof {
        assert(w.subrange(d2 as int + 1, d3 as int) =~= o3);
        assert(w.subrange(d3 as int + 1, cp as int) =~= o4);
    }
    if let Some(_extra) = find_in(&v, d3 + 1, cp, DOT) {
        return None;
    }
    let a = match parse_dec(&v, 0, d1, 255) {
        None => {
            return None;
        },
        Some(x) => x,
    };
    let b = match parse_dec(&v, d1 + 1, d2, 255) {
        None => {
            return None;
        },
        Some(x) => x,
    };
    let c = match parse_dec(&v, d2 + 1, d3, 255) {
        None => {
            return None;
        },
        Some(x) => x,
    };
    let d = match parse_dec(&v, d3 + 1, cp, 255) {
        None => {
            return None;
        },
        Some(x) => x,
    };
    Some(
        NetAddr {
            a: a as u8,
            b: b as u8,
            c: c as u8,
            d: d as u8,
            port: port as u16,
        },
    )
}

/// A known peer and how many consecutive fetches from it have failed.
#[derive(Clone, Copy, PartialEq, Eq, Structural, Debug)]
pub struct Peer {
    pub addr: NetAddr,
    pub failures: u64,
}

/// No two peers share an address.
pub open spec fn addrs_unique(s: Seq<Peer>) -> bool {
    forall|i: int, j: int| 0 <= i < j < s.len() ==> (#[trigger] s[i]).addr != (#[trigger] s[j]).addr
}

/// A peer with the given address is registered.
pub open spec fn has_addr(s: Seq<Peer>, a: NetAddr) -> bool {
    exists|i: int| 0 <= i < s.len() && (#[trigger] s[i]).addr == a
}

/// Set of known remote peers, keyed by address, with the node's own
/// listening address excluded, plus the liveness and discovery policy
/// settings.
pub struct PeerRegistry {
    pub self_addr: NetAddr,
    pub peers: Vec<Peer>,
    /// Consecutive failures after which a peer is dropped.
    pub fail_threshold: u64,
    /// Most peers the registry will hold through discovery.
    pub discovery_cap: usize,
}

impl PeerRegistry {
    /// Well-formedness: addresses pairwise distinct and never the node's
    /// own.
    pub open spec fn wf(&self) -> bool {
        &&& addrs_unique(self.peers@)
        &&& forall|i: int|
            0 <= i < self.peers@.len() ==> (#[trigger] self.peers@[i]).addr != self.self_addr
    }

    /// Empty registry for a node listening on `self_addr`.
    pub fn new(self_addr: NetAddr, fail_threshold: u64, discovery_cap: usize) -> (r: PeerRegistry)
        ensures
            r.wf(),
            r.peers@.len() == 0,
            r.self_addr == self_addr,
            r.fail_threshold == fail_threshold,
            r.discovery_cap == discovery_cap,
    {
        PeerRegistry { self_addr, peers: Vec::new(), fail_threshold, discovery_cap }
    }

    /// Index of the peer with the given address, if registered.
    fn find(&self, addr: NetAddr) -> (r: Option<usize>)
        ensures
            match r {
                Some(i) => i < self.peers@.len() && self.peers@[i as int].addr == addr,
                None => !has_addr(self.peers@, addr),
            },
    {
        let mut i: usize = 0;
        while i < self.peers.len()
            invariant
                0 <= i <= self.peers@.len(),
                forall|j: int| 0 <= j < i ==> (#[trigger] self.peers@[j]).addr != addr,
            decreases self.peers@.len() - i,
        {
            if self.peers[i].addr == addr {
                return Some(i);
            }
            i = i + 1;
        }
        proof {
            if has_addr(self.peers@, addr) {
                let j = choose|j: int|
                    0 <= j < self.peers@.len() && (#[trigger] self.peers@[j]).addr == addr;
            }
        }
        None
    }

    /// Register a peer. Success is owed exactly when the address is neither
    /// the node's own nor already registered; on failure the registry is
    /// unchanged.
    pub fn add(&mut self, addr: NetAddr) -> (r: Result<(), ChainError>)
        requires
            old(self).wf(),
        ensures
            final(self).wf(),
            final(self).self_addr == old(self).self_addr,
            final(self).fail_threshold == old(self).fail_threshold,
            final(self).discovery_cap == old(self).discovery_cap,
            r is Ok <==> (addr != old(self).self_addr && !has_addr(old(self).peers@, addr)),
            r is Ok ==> final(self).peers@ == old(self).peers@.push(Peer { addr, failures: 0 }),
            r is Err ==> final(self).peers@ == old(self).peers@,
            r == Err::<(), ChainError>(ChainError::SelfAddress) <==> addr == old(self).self_addr,
            r is Err ==> (r == Err::<(), ChainError>(ChainError::SelfAddress) || r == Err::<
                (),
                ChainError,
            >(ChainError::AlreadyKnown)),
    {
        if addr == self.self_addr {
            return Err(ChainError::SelfAddress);
        }
        match self.find(addr) {
            Some(_) => {
                proof {
                    assert(has_addr(self.peers@, addr));
                }
                Err(ChainError::AlreadyKnown)
            },
            None => {
                let ghost s0 = self.peers@;
                self.peers.push(Peer { addr, failures: 0 });
                proof {
                    assert(forall|k: int| 0 <= k < s0.len() ==> self.peers@[k] == s0[k]);
                    assert(self.peers@[s0.len() as int] == Peer { addr, failures: 0 });
                }
                Ok(())
            },
        }
    }

    /// Every registered peer address.
    pub fn all(&self) -> (r: Vec<NetAddr>)
        ensures
            r@ == self.peers@.map_values(|p: Peer| p.addr),
    {
        let mut out: Vec<NetAddr> = Vec::new();
        let mut i: usize = 0;
        while i < self.peers.len()
            invariant
                0 <= i <= self.peers@.len(),
                out@ =~= self.peers@.map_values(|p: Peer| p.addr).take(i as int),
            decreases self.peers@.len() - i,
        {
            out.push(self.peers[i].addr);
            i = i + 1;
        }
        proof {
            assert(out@ =~= self.peers@.map_values(|p: Peer| p.addr));
        }
        out
    }

    /// A successful fetch: the peer's consecutive-failure count restarts.
    pub fn mark_reachable(&mut self, addr: NetAddr)
        requires
            old(self).wf(),
        ensures
            final(self).wf(),
            final(self).self_addr == old(self).self_addr,
            final(self).fail_threshold == old(self).fail_threshold,
            final(self).discovery_cap == old(self).discovery_cap,
            !has_addr(old(self).peers@, addr) ==> final(self).peers@ == old(self).peers@,
            has_addr(old(self).peers@, addr) ==> exists|i: int|
                0 <= i < old(self).peers@.len() && old(self).peers@[i].addr == addr && final(self).peers@ == old(self).peers@.update(i, Peer { addr, failures: 0 }),
    {
        match self.find(addr) {
            Some(i) => {
                proof {
                    assert(has_addr(self.peers@, addr));
                }
                let ghost s0 = self.peers@;
                self.peers[i] = Peer { addr, failures: 0 };
                proof {
                    assert(forall|k: int|
                        0 <= k < self.peers@.len() ==> (#[trigger] self.peers@[k]).addr
                            == s0[k].addr);
                }
            },
            None => {},
        }
    }

    /// A failed fetch: the peer's consecutive-failure count grows, and the
    /// peer is dropped once it reaches the configured threshold.
    pub fn mark_unreachable(&mut self, addr: NetAddr)
        requires
            old(self).wf(),
        ensures
            final(self).wf(),
            final(self).self_addr == old(self).self_addr,
            final(self).fail_threshold == old(self).fail_threshold,
            final(self).discovery_cap == old(self).discovery_cap,
            !has_addr(old(self).peers@, addr) ==> final(self).peers@ == old(self).peers@,
            has_addr(old(self).peers@, addr) ==> exists|i: int|
                0 <= i < old(self).peers@.len() && old(self).peers@[i].addr == addr && {
                    let f = if old(self).peers@[i].failures == u64::MAX {
                        u64::MAX as int
                    } else {
                        old(self).peers@[i].failures + 1
                    };
                    if f >= old(self).fail_threshold {
                        final(self).peers@ == old(self).peers@.remove(i)
                    } else {
                        final(self).peers@ == old(self).peers@.update(
                            i,
                            Peer { addr, failures: f as u64 },
                        )
                    }
                },
    {
        match self.find(addr) {
            Some(i) => {
                proof {
                    assert(has_addr(self.peers@, addr));
                }
                let ghost s0 = self.peers@;
                let f = if self.peers[i].failures == u64::MAX {
                    u64::MAX
                } else {
                    self.peers[i].failures + 1
                };
                if f >= self.fail_threshold {
                    let ghost t0 = self.peers@;
                    self.peers.remove(i);
                    proof {
                        t0.remove_ensures(i as int);
                        assert(addrs_unique(self.peers@)) by {
                            assert(forall|a: int|
                                0 <= a < self.peers@.len() ==> #[trigger] self.peers@[a] == if a
                                    < i {
                                    s0[a]
                                } else {
                                    s0[a + 1]
                                });
                        }
                        assert(forall|a: int|
                            0 <= a < self.peers@.len() ==> (#[trigger] self.peers@[a]).addr
                                != self.self_addr);
                    }
                } else {
                    self.peers[i] = Peer { addr, failures: f };
                    proof {
                        assert(forall|k: int|
                            0 <= k < self.peers@.len() ==> (#[trigger] self.peers@[k]).addr
                                == s0[k].addr);
                    }
                }
            },
            None => {},
        }
    }

    /// Merge a peer's reported peer list, skipping the node's own address
    /// and already-known peers, and never growing past the discovery cap.
    pub fn merge_peers(&mut self, addrs: &Vec<NetAddr>)
        requires
            old(self).wf(),
        ensures
            final(self).wf(),
            final(self).self_addr == old(self).self_addr,
            final(self).fail_threshold == old(self).fail_threshold,
            final(self).discovery_cap == old(self).discovery_cap,
            final(self).peers@.len() >= old(self).peers@.len() ==> old(self).peers@
                == final(self).peers@.take(old(self).peers@.len() as int),
            final(self).peers@.len() >= old(self).peers@.len(),
            final(self).peers@.len() <= old(self).peers@.len() || final(self).peers@.len() <= old(
                self).discovery_cap,
            forall|k: int|
                old(self).peers@.len() <= k < final(self).peers@.len() ==> addrs@.contains(
                    (#[trigger] final(self).peers@[k]).addr,
                ) && final(self).peers@[k].failures == 0,
            forall|j: int|
                0 <= j < addrs@.len() && #[trigger] addrs@[j] != old(self).self_addr && !has_addr(
                    final(self).peers@,
                    addrs@[j],
                ) ==> final(self).peers@.len() >= old(self).discovery_cap,
    {
        let ghost s0 = self.peers@;
        let mut i: usize = 0;
        while i < addrs.len()
            invariant
                0 <= i <= addrs@.len(),
                self.wf(),
                self.self_addr == old(self).self_addr,
                self.fail_threshold == old(self).fail_threshold,
                self.discovery_cap == old(self).discovery_cap,
                self.peers@.len() >= s0.len(),
                s0 == self.peers@.take(s0.len() as int),
                self.peers@.len() <= s0.len() || self.peers@.len() <= self.discovery_cap,
                forall|k: int|
                    s0.len() <= k < self.peers@.len() ==> addrs@.contains(
                        (#[trigger] self.peers@[k]).addr,
                    ) && self.peers@[k].failures == 0,
                forall|j: int|
                    0 <= j < i && #[trigger] addrs@[j] != self.self_addr && !has_addr(
                        self.peers@,
                        addrs@[j],
                    ) ==> self.peers@.len() >= self.discovery_cap,
            decreases addrs@.len() - i,
        {
            if self.peers.len() < self.discovery_cap {
                let ghost before = self.peers@;
                let a = addrs[i];
                let res = self.add(a);
                proof {
                    if res is Ok {
                        assert(self.peers@.take(s0.len() as int) =~= before.take(
                            s0.len() as int,
                        ));
                        assert(addrs@.contains(a)) by {
                            assert(addrs@[i as int] == a);
                        }
                    }
                    assert(forall|b: int|
                        0 <= b < before.len() ==> #[trigger] self.peers@[b] == before[b]);
                    assert forall|j: int|
                        0 <= j < i + 1 && #[trigger] addrs@[j] != self.self_addr && !has_addr(
                            self.peers@,
                            addrs@[j],
                        ) implies self.peers@.len() >= self.discovery_cap by {
                        if j == i as int {
                            if res is Ok {
                                assert(self.peers@[before.len() as int].addr == a);
                                assert(has_addr(self.peers@, a));
                            } else {
                                assert(a == self.self_addr || has_addr(before, a));
                                if has_addr(before, a) {
                                    let b = choose|b: int|
                                        0 <= b < before.len() && (#[trigger] before[b]).addr == a;
                                    assert(self.peers@[b].addr == a);
                                    assert(has_addr(self.peers@, a));
                                }
                            }
                        } else {
                            if has_addr(before, addrs@[j]) {
                                let b = choose|b: int|
                                    0 <= b < before.len() && (#[trigger] before[b]).addr
                                        == addrs@[j];
                                assert(self.peers@[b].addr == addrs@[j]);
                                assert(has_addr(self.peers@, addrs@[j]));
                            } else {
                                assert(before.len() >= self.discovery_cap);
                            }
                        }
                    }
                }
            }
            i = i + 1;
        }
    }
}

} // verus!
