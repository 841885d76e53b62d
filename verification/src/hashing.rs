//! Deterministic digests over the canonical content of transactions and
//! blocks. The digest is a 64-bit multiply-and-xor fold: it identifies a
//! block by its content, and two blocks with identical content always hash
//! identically, which is the invariant the chain relies on.

use vstd::prelude::*;

verus! {

/// Starting value of every digest.
pub const HASH_SEED: u64 = 0xcbf2_9ce4_8422_2325;

/// Multiplier of the mixing step.
pub const HASH_PRIME: u64 = 0x0000_0100_0000_01b3;

/// One mixing step: absorb the word `x` into the running digest `h`.
pub open spec fn mix(h: u64, x: u64) -> u64 {
    vstd::wrapping::u64_specs::wrapping_mul(h ^ x, HASH_PRIME)
}

/// Digest of a byte sequence, folded left to right onto `h0`.
pub open spec fn hash_bytes(h0: u64, s: Seq<u8>) -> u64
    decreases s.len(),
{
    if s.len() == 0 {
        h0
    } else {
        mix(hash_bytes(h0, s.drop_last()), s.last() as u64)
    }
}

/// Digest of a character sequence: its UTF-8 encoding, framed by the length
/// so that adjacent strings cannot run into one another.
pub open spec fn hash_str(h0: u64, s: Seq<char>) -> u64 {
    mix(hash_bytes(h0, vstd::utf8::encode_utf8(s)), vstd::utf8::encode_utf8(s).len() as u64)
}

/// Executable mixing step.
pub fn mix_word(h: u64, x: u64) -> (r: u64)
    ensures
        r == mix(h, x),
{
    (h ^ x).wrapping_mul(HASH_PRIME)
}

/// Executable digest of a byte slice.
pub fn hash_bytes_exec(h0: u64, bytes: &[u8]) -> (r: u64)
    ensures
        r == hash_bytes(h0, bytes@),
{
    let mut h: u64 = h0;
    let mut i: usize = 0;
    while i < bytes.len()
        invariant
            0 <= i <= bytes@.len(),
            h == hash_bytes(h0, bytes@.take(i as int)),
        decreases bytes@.len() - i,
    {
        proof {
            assert(bytes@.take(i + 1).drop_last() =~= bytes@.take(i as int));
            assert(bytes@.take(i + 1).last() == bytes@[i as int]);
        }
        h = mix_word(h, bytes[i] as u64);
        i = i + 1;
    }
    proof {
        assert(bytes@.take(bytes@.len() as int) =~= bytes@);
    }
    h
}

/// Executable digest of a string.
pub fn hash_str_exec(h0: u64, s: &str) -> (r: u64)
    ensures
        r == hash_str(h0, s@),
{
    let bytes = s.as_bytes();
    let h = hash_bytes_exec(h0, bytes);
    mix_word(h, bytes.len() as u64)
}

} // verus!
