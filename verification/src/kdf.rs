//! Keys, nonces and authenticated encryption.
//!
//! Header keys come from an X25519 secret, traffic keys from an X25519 and an
//! ML-KEM secret together. Every nonce follows from the circuit's tag and a
//! position or a direction and a sequence number, so that a key and a nonce
//! never meet twice.

use crate::bytes::{
    append, copy_arr, le_bytes, lemma_le_value_of_bytes, lemma_pow256, put_u32,
};
use crate::primitives::{
    aead_open, aead_seal, chacha_decrypt, chacha_encrypt, hkdf, hkdf_sha256, sha256, sha256_digest,
    AEAD_MAX, AEAD_TAG,
};
use crate::{CryptoError, DIR_BWD, DIR_FWD};
use vstd::prelude::*;
use vstd::slice::slice_subrange;

verus! {

/// The context of a header key: `nbf/hdr/v1`.
pub open spec fn info_hdr() -> Seq<u8> {
    seq![110u8, 98, 102, 47, 104, 100, 114, 47, 118, 49]
}

/// The context of the traffic keys: `nbf/traffic/v1`.
pub open spec fn info_traffic() -> Seq<u8> {
    seq![110u8, 98, 102, 47, 116, 114, 97, 102, 102, 105, 99, 47, 118, 49]
}

/// The data that every ciphertext is bound to: `nbf`.
pub open spec fn aad() -> Seq<u8> {
    seq![110u8, 98, 102]
}

/// The key of one header layer.
pub open spec fn hdr_key(ss_x: Seq<u8>, tag: Seq<u8>) -> Seq<u8> {
    hkdf_sha256(ss_x, tag, info_hdr(), 32)
}

/// The forward key of a hop.
pub open spec fn fwd_key(ss_x: Seq<u8>, ss_kem: Seq<u8>, tag: Seq<u8>) -> Seq<u8> {
    hkdf_sha256(ss_x + ss_kem, tag, info_traffic(), 64).subrange(0, 32)
}

/// The backward key of a hop.
pub open spec fn bwd_key(ss_x: Seq<u8>, ss_kem: Seq<u8>, tag: Seq<u8>) -> Seq<u8> {
    hkdf_sha256(ss_x + ss_kem, tag, info_traffic(), 64).subrange(32, 64)
}

/// What the nonce of a header layer is a hash of.
pub open spec fn hdr_nonce_input(tag: Seq<u8>, n: u8) -> Seq<u8> {
    tag + seq![104u8, 100, 114] + seq![n]
}

/// The nonce of the header layer that a hop sees with `n` hops to go.
pub open spec fn hdr_nonce_spec(tag: Seq<u8>, n: u8) -> Seq<u8> {
    sha256(hdr_nonce_input(tag, n)).subrange(0, 12)
}

/// What the nonce of a relay cell is a hash of.
pub open spec fn relay_nonce_input(tag: Seq<u8>, dir: u8, seq: u32) -> Seq<u8> {
    tag + seq![dir] + le_bytes(seq as nat, 4)
}

/// The nonce of a relay cell.
pub open spec fn relay_nonce_spec(tag: Seq<u8>, dir: u8, seq: u32) -> Seq<u8> {
    sha256(relay_nonce_input(tag, dir, seq)).subrange(0, 12)
}

/// No two nonces of a circuit are hashes of the same input: the inputs of relay
/// cells differ in direction or number, those of header layers in the number of
/// hops to go, and no input of one kind is one of the other.
pub proof fn law_nonce_inputs_differ(
    tag: Seq<u8>,
    dir: u8,
    seq: u32,
    other_dir: u8,
    other_seq: u32,
    n: u8,
    other_n: u8,
)
    ensures
        relay_nonce_input(tag, dir, seq) == relay_nonce_input(tag, other_dir, other_seq) ==> dir
            == other_dir && seq == other_seq,
        hdr_nonce_input(tag, n) == hdr_nonce_input(tag, other_n) ==> n == other_n,
        hdr_nonce_input(tag, n) != relay_nonce_input(tag, dir, seq),
{
    let k = tag.len() as int;
    let (a, b) = (relay_nonce_input(tag, dir, seq), relay_nonce_input(tag, other_dir, other_seq));
    lemma_pow256();
    lemma_le_value_of_bytes(seq as nat, 4);
    lemma_le_value_of_bytes(other_seq as nat, 4);
    assert(a[k] == dir && b[k] == other_dir);
    assert(a.subrange(k + 1, k + 5) =~= le_bytes(seq as nat, 4));
    assert(b.subrange(k + 1, k + 5) =~= le_bytes(other_seq as nat, 4));
    assert(hdr_nonce_input(tag, n)[k + 3] == n);
    assert(hdr_nonce_input(tag, other_n)[k + 3] == other_n);
    assert(hdr_nonce_input(tag, n).len() != a.len());
}

/// The ciphertext of a plaintext.
pub open spec fn sealed(key: Seq<u8>, nonce: Seq<u8>, plaintext: Seq<u8>) -> Seq<u8> {
    aead_seal(key, nonce, aad(), plaintext)
}

/// The plaintext of a ciphertext, where it opens.
pub open spec fn opened(key: Seq<u8>, nonce: Seq<u8>, ciphertext: Seq<u8>) -> Option<Seq<u8>> {
    if ciphertext.len() > AEAD_MAX + AEAD_TAG {
        None
    } else {
        aead_open(key, nonce, aad(), ciphertext)
    }
}

/// The key of one header layer. It rests on the X25519 secret alone, for the
/// KEM ciphertext lies inside the layer.
pub fn derive_hdr_key(ss_x: &[u8; 32], tag: &[u8; 16]) -> (key: [u8; 32])
    ensures
        key@ == hdr_key(ss_x@, tag@),
{
    let info: [u8; 10] = [110, 98, 102, 47, 104, 100, 114, 47, 118, 49];
    assert(info@ =~= info_hdr());
    let okm = hkdf(ss_x, tag, &info, 32);
    copy_arr(okm.as_slice())
}

/// The forward and the backward key of a hop, from both of its secrets.
pub fn derive_traffic_keys(ss_x: &[u8; 32], ss_kem: &[u8; 32], tag: &[u8; 16]) -> (keys: (
    [u8; 32],
    [u8; 32],
))
    ensures
        keys.0@ == fwd_key(ss_x@, ss_kem@, tag@),
        keys.1@ == bwd_key(ss_x@, ss_kem@, tag@),
{
    let info: [u8; 14] = [110, 98, 102, 47, 116, 114, 97, 102, 102, 105, 99, 47, 118, 49];
    assert(info@ =~= info_traffic());
    let mut ikm: Vec<u8> = Vec::new();
    append(&mut ikm, ss_x);
    append(&mut ikm, ss_kem);
    assert(ikm@ =~= ss_x@ + ss_kem@);
    let okm = hkdf(ikm.as_slice(), tag, &info, 64);
    let fwd: [u8; 32] = copy_arr(slice_subrange(okm.as_slice(), 0, 32));
    let bwd: [u8; 32] = copy_arr(slice_subrange(okm.as_slice(), 32, 64));
    (fwd, bwd)
}

/// The nonce of a header layer: `n_field` is the number of hops to go that the
/// hop sees.
pub fn hdr_nonce(tag: &[u8; 16], n_field: u8) -> (nonce: [u8; 12])
    ensures
        nonce@ == hdr_nonce_spec(tag@, n_field),
{
    let mut data: Vec<u8> = Vec::new();
    append(&mut data, tag);
    data.push(104);
    data.push(100);
    data.push(114);
    data.push(n_field);
    assert(data@ =~= tag@ + seq![104u8, 100, 114] + seq![n_field]);
    let digest = sha256_digest(data.as_slice());
    copy_arr(slice_subrange(&digest, 0, 12))
}

/// The nonce of a relay cell, from its direction and its number in that
/// direction.
pub fn relay_nonce(tag: &[u8; 16], dir: u8, seq: u32) -> (nonce: [u8; 12])
    requires
        dir == DIR_FWD || dir == DIR_BWD,
    ensures
        nonce@ == relay_nonce_spec(tag@, dir, seq),
{
    let mut data: Vec<u8> = Vec::new();
    append(&mut data, tag);
    data.push(dir);
    put_u32(&mut data, seq);
    assert(data@ =~= tag@ + seq![dir] + le_bytes(seq as nat, 4));
    let digest = sha256_digest(data.as_slice());
    copy_arr(slice_subrange(&digest, 0, 12))
}

/// Encrypts a plaintext. What comes out opens to it under the same key and
/// nonce.
pub fn seal(key: &[u8; 32], nonce: &[u8; 12], plaintext: &[u8]) -> (ciphertext: Vec<u8>)
    requires
        plaintext@.len() <= AEAD_MAX,
    ensures
        ciphertext@ == sealed(key@, nonce@, plaintext@),
        ciphertext@.len() == plaintext@.len() + AEAD_TAG,
        opened(key@, nonce@, ciphertext@) == Some(plaintext@),
{
    let data: [u8; 3] = [110, 98, 102];
    assert(data@ =~= aad());
    chacha_encrypt(key, nonce, &data, plaintext)
}

/// Decrypts a ciphertext. One that was changed, or sealed under another key or
/// nonce, is refused as its tag decides: what is accepted is what sealing the
/// plaintext gives, and what is refused is what sealing no plaintext gives.
pub fn open(key: &[u8; 32], nonce: &[u8; 12], ciphertext: &[u8]) -> (r: Result<
    Vec<u8>,
    CryptoError,
>)
    ensures
        match r {
            Ok(plaintext) => {
                &&& opened(key@, nonce@, ciphertext@) == Some(plaintext@)
                &&& plaintext@.len() + AEAD_TAG == ciphertext@.len()
                &&& sealed(key@, nonce@, plaintext@) == ciphertext@
                &&& forall|m: Seq<u8>|
                    m.len() <= AEAD_MAX && #[trigger] sealed(key@, nonce@, m) == ciphertext@ ==> m
                        == plaintext@
            },
            Err(e) => {
                &&& opened(key@, nonce@, ciphertext@) is None
                &&& e == CryptoError::Aead
                &&& forall|m: Seq<u8>|
                    m.len() <= AEAD_MAX && ciphertext@.len() <= AEAD_MAX + AEAD_TAG
                        ==> #[trigger] sealed(key@, nonce@, m) != ciphertext@
            },
        },
{
    if ciphertext.len() as u64 > AEAD_MAX + AEAD_TAG as u64 {
        return Err(CryptoError::Aead);
    }
    let data: [u8; 3] = [110, 98, 102];
    assert(data@ =~= aad());
    match chacha_decrypt(key, nonce, &data, ciphertext) {
        Ok(plaintext) => Ok(plaintext),
        Err(_) => Err(CryptoError::Aead),
    }
}

} // verus!
