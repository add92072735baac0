//! ML-KEM-768 over encoded keys.

use crate::primitives::{
    draw, kem_decapsulate, kem_encapsulate, kem_keypair, mlkem_decapsulate, mlkem_encapsulate,
    mlkem_keypair,
};
use crate::{CryptoError, CT_LEN, KEM_PK_LEN, KEM_SK_LEN};
use rand::rngs::StdRng;
use vstd::prelude::*;

verus! {

/// A decapsulation key.
pub type DecapsKey = [u8; KEM_SK_LEN];

/// Encapsulates a fresh secret to a public key: the ciphertext and the secret.
/// It never fails.
pub fn kem_encap(pk: &[u8; KEM_PK_LEN], rng: &mut StdRng) -> (r: Result<
    ([u8; CT_LEN], [u8; 32]),
    CryptoError,
>)
    ensures
        match r {
            Ok(p) => exists|seed: [u8; 32]|
                (p.0@, p.1@) == #[trigger] mlkem_encapsulate(pk@, seed@),
            Err(_) => false,
        },
{
    let seed: [u8; 32] = draw(rng);
    match kem_encapsulate(pk, &seed) {
        Ok(p) => Ok(p),
        Err(_) => Err(CryptoError::Kem),
    }
}

/// The secret that a ciphertext holds for a decapsulation key. It never fails.
pub fn kem_decap(sk: &DecapsKey, ct: &[u8; CT_LEN]) -> (r: Result<[u8; 32], CryptoError>)
    ensures
        match r {
            Ok(ss) => ss@ == mlkem_decapsulate(sk@, ct@),
            Err(_) => false,
        },
{
    match kem_decapsulate(sk, ct) {
        Ok(ss) => Ok(ss),
        Err(_) => Err(CryptoError::Kem),
    }
}

/// A fresh key pair: the decapsulation key and the public key.
pub fn kem_generate(rng: &mut StdRng) -> (keys: (DecapsKey, [u8; KEM_PK_LEN]))
    ensures
        exists|d: [u8; 32], z: [u8; 32]|
            (keys.0@, keys.1@) == #[trigger] mlkem_keypair(d@, z@),
{
    let d: [u8; 32] = draw(rng);
    let z: [u8; 32] = draw(rng);
    kem_keypair(&d, &z)
}

} // verus!
