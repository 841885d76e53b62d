//! Verified core of an account-based blockchain node: a hash-linked chain of
//! blocks, the account ledger derived from it, a pool of pending signed
//! transactions, a registry of known peers, and the fork-choice logic that
//! reconciles the local chain with a longer chain offered by a peer.
#![verifier::loop_isolation(false)]

use vstd::prelude::*;

pub mod chain;
pub mod hashing;
pub mod ledger;
pub mod mempool;
pub mod node;
pub mod peers;
pub mod types;

verus! {

/// Acknowledgement returned by write endpoints once the core has applied
/// the request.
pub struct OkResp {
    pub success: bool,
}

impl OkResp {
    pub fn new() -> (r: Self)
        ensures
            r.success,
    {
        Self { success: true }
    }
}

} // verus!
