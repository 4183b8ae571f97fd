//! ChaCha20 under the all-zero nonce.

use chacha20::cipher::KeyIvInit;
use chacha20::cipher::StreamCipher;
use vstd::prelude::*;

verus! {

/// `data` combined with the ChaCha20 keystream of `key` under the all-zero
/// nonce.
pub uninterp spec fn chacha20_zero_nonce(key: Seq<u8>, data: Seq<u8>) -> Seq<u8>;

/// Builds `chacha20::ChaCha20` from `key` and a nonce of twelve zero bytes
/// and runs `apply_keystream` over a copy of `data`. The keystream depends
/// on key and nonce alone and is combined with the data byte by byte with
/// exclusive or, so the output is as long as the input and applying the
/// cipher to the output gives the input back. Inputs are limited to one
/// block, far below the length at which the keystream runs out.
#[verifier::external_body]
pub(crate) fn apply_cipher(key: &[u8; 32], data: &[u8]) -> (out: Vec<u8>)
    requires
        data@.len() <= 32768,
    ensures
        out@ == chacha20_zero_nonce(key@, data@),
        out@.len() == data@.len(),
        chacha20_zero_nonce(key@, out@) == data@,
{
    let mut out = Vec::from(data);
    let nonce = [0u8; 12];
    let mut cipher = chacha20::ChaCha20::new(
        chacha20::Key::from_slice(key),
        chacha20::Nonce::from_slice(&nonce),
    );
    cipher.apply_keystream(&mut out);
    out
}

} // verus!
