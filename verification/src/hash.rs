//! Blake2b with 256 bits of output, keyed and unkeyed.

use vstd::prelude::*;

verus! {

/// The 32-byte Blake2b digest of `input`, with no key.
pub uninterp spec fn blake2b256(input: Seq<u8>) -> Seq<u8>;

/// The 32-byte Blake2b digest of `input` under `key`.
pub uninterp spec fn blake2b256_keyed(input: Seq<u8>, key: Seq<u8>) -> Seq<u8>;

/// Runs `blake2b_simd::Params::new().hash_length(32).to_state()` over
/// `input` and copies the finished digest out. The digest is taken to be a
/// function of the input bytes alone; nothing is claimed of its value.
#[verifier::external_body]
fn digest_plain(input: &[u8]) -> (digest: [u8; 32])
    ensures
        digest@ == blake2b256(input@),
{
    let mut hasher = blake2b_simd::Params::new().hash_length(32).to_state();
    hasher.update(input);
    let mut digest = [0u8; 32];
    digest.copy_from_slice(hasher.finalize().as_bytes());
    digest
}

/// Runs `blake2b_simd::Params::new().hash_length(32).key(key).to_state()`
/// over `input` and copies the finished digest out. `key` may hold at most
/// 64 bytes, the longest key that `Params::key` takes. The digest is taken
/// to be a function of the input and key bytes alone.
#[verifier::external_body]
fn digest_keyed(input: &[u8], key: &[u8]) -> (digest: [u8; 32])
    requires
        key@.len() <= 64,
    ensures
        digest@ == blake2b256_keyed(input@, key@),
{
    let mut hasher = blake2b_simd::Params::new().hash_length(32).key(key).to_state();
    hasher.update(input);
    let mut digest = [0u8; 32];
    digest.copy_from_slice(hasher.finalize().as_bytes());
    digest
}

/// The digest that `blake2b256_hash` computes for an optional key.
pub open spec fn digest_of(input: Seq<u8>, key: Option<Seq<u8>>) -> Seq<u8> {
    match key {
        Some(k) => blake2b256_keyed(input, k),
        None => blake2b256(input),
    }
}

/// 256-bit Blake2b of `input`: keyed when a key is given, a plain content
/// hash otherwise.
pub fn blake2b256_hash(input: &[u8], key: Option<&[u8]>) -> (digest: [u8; 32])
    requires
        key matches Some(k) ==> k@.len() <= 64,
    ensures
        digest@ == digest_of(
            input@,
            match key {
                Some(k) => Some(k@),
                None => None,
            },
        ),
{
    match key {
        Some(k) => digest_keyed(input, k),
        None => digest_plain(input),
    }
}

/// Whether `block` is the block that `reference` names, that is whether its
/// unkeyed digest equals the reference.
pub fn block_matches(reference: &[u8; 32], block: &[u8]) -> (ok: bool)
    ensures
        ok == (blake2b256(block@) == reference@),
{
    let digest = digest_plain(block);
    crate::types::bytes_equal(digest.as_slice(), reference.as_slice())
}

} // verus!
