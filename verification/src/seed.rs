//! The seed of the random source, derived from a text.

use sha2::{Digest, Sha256};
use vstd::prelude::*;
use vstd::string::StringSliceAdditionalSpecFns;

verus! {

/// The SHA-256 digest of a string of bytes: what `sha2` computes for it.
pub uninterp spec fn sha256(data: Seq<u8>) -> Seq<u8>;

/// `sha2::Digest::digest` for `Sha256`: the digest of `data`, 32 bytes that
/// depend on the bytes of `data` alone.
#[verifier::external_body]
fn sha256_digest(data: &[u8]) -> (digest: [u8; 32])
    ensures
        digest@ == sha256(data@),
{
    Sha256::digest(data).into()
}

/// The number that the first eight bytes of `bytes` spell, the lowest byte
/// first.
pub open spec fn le_u64(bytes: Seq<u8>) -> nat {
    (bytes[0] + bytes[1] * 0x100 + bytes[2] * 0x1_0000 + bytes[3] * 0x100_0000 + bytes[4]
        * 0x1_0000_0000 + bytes[5] * 0x100_0000_0000 + bytes[6] * 0x1_0000_0000_0000 + bytes[7]
        * 0x100_0000_0000_0000) as nat
}

/// The seed that a digest gives: its first eight bytes, read as a number
/// with the lowest byte first.
pub fn seed_from_digest(digest: &[u8; 32]) -> (seed: u64)
    ensures
        seed == le_u64(digest@),
{
    let b0: u64 = digest[0] as u64;
    let b1: u64 = digest[1] as u64;
    let b2: u64 = digest[2] as u64;
    let b3: u64 = digest[3] as u64;
    let b4: u64 = digest[4] as u64;
    let b5: u64 = digest[5] as u64;
    let b6: u64 = digest[6] as u64;
    let b7: u64 = digest[7] as u64;
    b0 + b1 * 0x100 + b2 * 0x1_0000 + b3 * 0x100_0000 + b4 * 0x1_0000_0000 + b5 * 0x100_0000_0000
        + b6 * 0x1_0000_0000_0000 + b7 * 0x100_0000_0000_0000
}

/// The seed that a text gives: that of the SHA-256 digest of its bytes. The
/// same text gives the same seed, always.
pub fn seed_from_text(text: &str) -> (seed: u64)
    ensures
        seed == le_u64(sha256(text.spec_bytes())),
{
    let digest = sha256_digest(text.as_bytes());
    seed_from_digest(&digest)
}

} // verus!
