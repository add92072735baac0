//! The cryptographic functions of outside crates, over byte strings.
//!
//! Nothing here is proved: each function states what its outside function
//! does. A result that takes pages to define has a name, which the contracts
//! of the library speak of.

use crate::bytes::{le_bytes, le_value};
use crate::error::HexError;
use crate::{CT_LEN, KEM_PK_LEN, KEM_SK_LEN};
use chacha20poly1305::aead::{Aead, KeyInit, Payload};
use chacha20poly1305::{ChaCha20Poly1305, Key, Nonce};
use curve25519_dalek::montgomery::MontgomeryPoint;
use curve25519_dalek::Scalar;
use ed25519_dalek::{Signature, Signer, SigningKey, Verifier, VerifyingKey};
use hkdf::Hkdf;
use ml_kem::kem::Decapsulate;
use ml_kem::{EncapsulateDeterministic, EncodedSizeUser, KemCore, MlKem768};
use rand::rngs::StdRng;
use rand::{Rng, RngCore, SeedableRng};
use sha2::{Digest, Sha256};
use vstd::prelude::*;

verus! {

/// The generator that every random choice of the library draws from.
#[verifier::external_type_specification]
#[verifier::external_body]
pub struct ExStdRng(StdRng);

/// The error of the authenticated cipher.
#[verifier::external_type_specification]
#[verifier::external_body]
pub struct ExAeadError(chacha20poly1305::Error);

/// The state of a Noise session.
#[verifier::external_type_specification]
#[verifier::external_body]
pub struct ExTransportState(snow::TransportState);

/// The error of a Noise session.
#[verifier::external_type_specification]
#[verifier::external_body]
pub struct ExNoiseError(snow::Error);

/// The longest plaintext that ChaCha20-Poly1305 takes: one block of 64 bytes
/// for each value that its 32-bit block counter can still take after the first.
pub const AEAD_MAX: u64 = 274877906816;

/// The bytes that the authentication tag adds.
pub const AEAD_TAG: usize = 16;

/// SHA-256 of a byte string.
pub uninterp spec fn sha256(data: Seq<u8>) -> Seq<u8>;

/// `sha2::Sha256::digest`: the result is the SHA-256 of the data.
#[verifier::external_body]
pub(crate) fn sha256_digest(data: &[u8]) -> (digest: [u8; 32])
    ensures
        digest@ == sha256(data@),
{
    Sha256::digest(data).into()
}

/// HKDF-SHA-256: `len` bytes derived from key material, a salt and a context.
pub uninterp spec fn hkdf_sha256(ikm: Seq<u8>, salt: Seq<u8>, info: Seq<u8>, len: nat) -> Seq<u8>;

/// `hkdf::Hkdf::<Sha256>::new` followed by `expand`: the output has the length
/// that was asked for, at most 255 blocks of 32 bytes.
#[verifier::external_body]
pub(crate) fn hkdf(ikm: &[u8], salt: &[u8], info: &[u8], out_len: usize) -> (okm: Vec<u8>)
    requires
        out_len <= 8160,
    ensures
        okm@ == hkdf_sha256(ikm@, salt@, info@, out_len as nat),
        okm@.len() == out_len,
{
    let mut okm = vec![0u8; out_len];
    Hkdf::<Sha256>::new(Some(salt), ikm).expand(info, &mut okm).expect("OKM length");
    okm
}

/// ChaCha20-Poly1305 encryption: the ciphertext with its tag at the end.
pub uninterp spec fn aead_seal(key: Seq<u8>, nonce: Seq<u8>, aad: Seq<u8>, msg: Seq<u8>) -> Seq<u8>;

/// ChaCha20-Poly1305 decryption: the plaintext, where the tag is right.
pub uninterp spec fn aead_open(key: Seq<u8>, nonce: Seq<u8>, aad: Seq<u8>, ct: Seq<u8>) -> Option<
    Seq<u8>,
>;

/// `ChaCha20Poly1305::encrypt`: the ciphertext is sixteen bytes longer than
/// the message, and decrypting it under the same key, nonce and associated
/// data gives the message back.
#[verifier::external_body]
pub(crate) fn chacha_encrypt(key: &[u8; 32], nonce: &[u8; 12], aad: &[u8], msg: &[u8]) -> (ct: Vec<
    u8,
>)
    requires
        msg@.len() <= AEAD_MAX,
    ensures
        ct@ == aead_seal(key@, nonce@, aad@, msg@),
        ct@.len() == msg@.len() + AEAD_TAG,
        aead_open(key@, nonce@, aad@, ct@) == Some(msg@),
{
    ChaCha20Poly1305::new(Key::from_slice(key))
        .encrypt(Nonce::from_slice(nonce), Payload { msg, aad })
        .expect("encryption")
}

/// `ChaCha20Poly1305::decrypt`: the plaintext where the tag is right, else an
/// error. A plaintext is sixteen bytes shorter than its ciphertext. Encrypting it
/// gives the ciphertext back, which is that of no other message; what is refused
/// is the ciphertext of no message.
#[verifier::external_body]
pub(crate) fn chacha_decrypt(
    key: &[u8; 32],
    nonce: &[u8; 12],
    aad: &[u8],
    ct: &[u8],
) -> (r: Result<Vec<u8>, chacha20poly1305::Error>)
    requires
        ct@.len() <= AEAD_MAX + AEAD_TAG,
    ensures
        match r {
            Ok(msg) => {
                &&& aead_open(key@, nonce@, aad@, ct@) == Some(msg@)
                &&& msg@.len() + AEAD_TAG == ct@.len()
                &&& aead_seal(key@, nonce@, aad@, msg@) == ct@
                &&& forall|m: Seq<u8>|
                    m.len() <= AEAD_MAX && #[trigger] aead_seal(key@, nonce@, aad@, m) == ct@ ==> m
                        == msg@
            },
            Err(_) => {
                &&& aead_open(key@, nonce@, aad@, ct@) is None
                &&& forall|m: Seq<u8>|
                    m.len() <= AEAD_MAX ==> #[trigger] aead_seal(key@, nonce@, aad@, m) != ct@
            },
        },
{
    ChaCha20Poly1305::new(Key::from_slice(key)).decrypt(
        Nonce::from_slice(nonce),
        Payload { msg: ct, aad },
    )
}

/// The order of the group that the scalars act on:
/// 2^252 + 27742317777372353535851937790883648493.
pub open spec fn scalar_order() -> nat {
    7237005577332262213973186563042994240857116359379907606001950938285454250989nat
}

/// The 32 bytes of a number reduced modulo the group order.
pub open spec fn scalar_bytes(n: nat) -> Seq<u8> {
    le_bytes(n % scalar_order(), 32)
}

/// `curve25519_dalek::Scalar` multiplication: the product of two numbers of
/// 32 bytes, modulo the group order.
#[verifier::external_body]
pub(crate) fn scalar_mul(a: &[u8; 32], b: &[u8; 32]) -> (product: [u8; 32])
    ensures
        product@ == scalar_bytes(le_value(a@) * le_value(b@)),
{
    (Scalar::from_bytes_mod_order(*a) * Scalar::from_bytes_mod_order(*b)).to_bytes()
}

/// `curve25519_dalek::Scalar::from_bytes_mod_order`: a number of 32 bytes, modulo
/// the group order.
#[verifier::external_body]
pub(crate) fn scalar_reduce(bytes: &[u8; 32]) -> (scalar: [u8; 32])
    ensures
        scalar@ == scalar_bytes(le_value(bytes@)),
{
    Scalar::from_bytes_mod_order(*bytes).to_bytes()
}

/// `curve25519_dalek::Scalar::random`: some number below the group order.
#[verifier::external_body]
pub(crate) fn scalar_random(rng: &mut StdRng) -> (scalar: [u8; 32])
    ensures
        le_value(scalar@) < scalar_order(),
{
    Scalar::random(rng).to_bytes()
}

/// A Montgomery point times a scalar, given as 32 bytes that are reduced
/// modulo the group order.
pub uninterp spec fn montgomery_mul(point: Seq<u8>, scalar: Seq<u8>) -> Seq<u8>;

/// `MontgomeryPoint * Scalar` of `curve25519_dalek`.
#[verifier::external_body]
pub(crate) fn point_mul(point: &[u8; 32], scalar: &[u8; 32]) -> (product: [u8; 32])
    ensures
        product@ == montgomery_mul(point@, scalar@),
{
    (MontgomeryPoint(*point) * Scalar::from_bytes_mod_order(*scalar)).to_bytes()
}

/// The Montgomery base point times a scalar, given as 32 bytes that are
/// reduced modulo the group order.
pub uninterp spec fn montgomery_mul_base(scalar: Seq<u8>) -> Seq<u8>;

/// A point multiplies as the multiple of the base point by a scalar does: its own
/// multiples are points, the multiples of the base point by the product of the
/// scalars, and multiplying it by two scalars one after the other is multiplying
/// it by their product.
pub open spec fn base_multiple(point: Seq<u8>, scalar: Seq<u8>) -> bool {
    &&& forall|t: Seq<u8>|
        t.len() == 32 ==> {
            &&& #[trigger] montgomery_mul(point, t) == montgomery_mul_base(
                scalar_bytes(le_value(scalar) * le_value(t)),
            )
            &&& montgomery_mul(point, t).len() == 32
        }
    &&& forall|t: Seq<u8>, u: Seq<u8>|
        t.len() == 32 && u.len() == 32 ==> #[trigger] montgomery_mul(montgomery_mul(point, t), u)
            == montgomery_mul(point, scalar_bytes(le_value(t) * le_value(u)))
}

/// `MontgomeryPoint::mul_base` of `curve25519_dalek`. The product lies in the
/// group that the base point generates, where the order of multiplications does
/// not matter. A multiple by zero is encoded as zero, and so are its multiples.
#[verifier::external_body]
pub(crate) fn point_mul_base(scalar: &[u8; 32]) -> (product: [u8; 32])
    ensures
        product@ == montgomery_mul_base(scalar@),
        base_multiple(product@, scalar@),
{
    MontgomeryPoint::mul_base(&Scalar::from_bytes_mod_order(*scalar)).to_bytes()
}

/// The Ed25519 public key of a secret key.
pub uninterp spec fn ed25519_public(secret: Seq<u8>) -> Seq<u8>;

/// The Ed25519 signature of a message.
pub uninterp spec fn ed25519_sign(secret: Seq<u8>, msg: Seq<u8>) -> Seq<u8>;

/// Whether a byte string is a public key under which a signature of a message
/// verifies.
pub uninterp spec fn ed25519_verify(public: Seq<u8>, msg: Seq<u8>, sig: Seq<u8>) -> bool;

/// `ed25519_dalek::SigningKey::generate`: some secret key.
#[verifier::external_body]
pub(crate) fn ed_generate(rng: &mut StdRng) -> (secret: [u8; 32]) {
    SigningKey::generate(rng).to_bytes()
}

/// `ed25519_dalek::SigningKey::verifying_key`.
#[verifier::external_body]
pub(crate) fn ed_public(secret: &[u8; 32]) -> (public: [u8; 32])
    ensures
        public@ == ed25519_public(secret@),
{
    SigningKey::from_bytes(secret).verifying_key().to_bytes()
}

/// `ed25519_dalek::SigningKey::sign`: the signature verifies under the public
/// key of the secret key.
#[verifier::external_body]
pub(crate) fn ed_sign(secret: &[u8; 32], msg: &[u8]) -> (sig: [u8; 64])
    ensures
        sig@ == ed25519_sign(secret@, msg@),
        ed25519_verify(ed25519_public(secret@), msg@, sig@),
{
    SigningKey::from_bytes(secret).sign(msg).to_bytes()
}

/// `ed25519_dalek::VerifyingKey::verify`, on a key of 32 bytes: false too where
/// the bytes are no key.
#[verifier::external_body]
pub(crate) fn ed_verify(public: &[u8; 32], msg: &[u8], sig: &[u8; 64]) -> (ok: bool)
    ensures
        ok == ed25519_verify(public@, msg@, sig@),
{
    match VerifyingKey::from_bytes(public) {
        Ok(key) => key.verify(msg, &Signature::from_bytes(sig)).is_ok(),
        Err(_) => false,
    }
}

/// The ML-KEM-768 key pair of two seeds: the decapsulation key, then the
/// encapsulation key.
pub uninterp spec fn mlkem_keypair(d: Seq<u8>, z: Seq<u8>) -> (Seq<u8>, Seq<u8>);

/// The ML-KEM-768 encapsulation of a seed to an encapsulation key: the
/// ciphertext, then the shared secret.
pub uninterp spec fn mlkem_encapsulate(pk: Seq<u8>, seed: Seq<u8>) -> (Seq<u8>, Seq<u8>);

/// The ML-KEM-768 shared secret that a ciphertext holds for a decapsulation
/// key.
pub uninterp spec fn mlkem_decapsulate(sk: Seq<u8>, ct: Seq<u8>) -> Seq<u8>;

/// `MlKem768::generate_deterministic` of `ml_kem`, with both keys encoded.
#[verifier::external_body]
pub(crate) fn kem_keypair(d: &[u8; 32], z: &[u8; 32]) -> (keys: (
    [u8; KEM_SK_LEN],
    [u8; KEM_PK_LEN],
))
    ensures
        (keys.0@, keys.1@) == mlkem_keypair(d@, z@),
{
    let (dk, ek) = MlKem768::generate_deterministic(&(*d).into(), &(*z).into());
    (dk.as_bytes().into(), ek.as_bytes().into())
}

/// `encapsulate_deterministic` of `ml_kem` on an encoded encapsulation key. It
/// succeeds on every key of the right length.
#[verifier::external_body]
pub(crate) fn kem_encapsulate(pk: &[u8; KEM_PK_LEN], seed: &[u8; 32]) -> (r: Result<
    ([u8; CT_LEN], [u8; 32]),
    (),
>)
    ensures
        match r {
            Ok(p) => (p.0@, p.1@) == mlkem_encapsulate(pk@, seed@),
            Err(_) => false,
        },
{
    let ek = <MlKem768 as KemCore>::EncapsulationKey::from_bytes(&(*pk).into());
    let (ct, ss) = ek.encapsulate_deterministic(&(*seed).into())?;
    Ok((ct.into(), ss.into()))
}

/// `decapsulate` of `ml_kem` on an encoded decapsulation key. It succeeds on
/// every key and ciphertext of the right length. Whether the secret is the one
/// that was encapsulated is not stated: a decapsulation can fail, if with a
/// negligible probability.
#[verifier::external_body]
pub(crate) fn kem_decapsulate(sk: &[u8; KEM_SK_LEN], ct: &[u8; CT_LEN]) -> (r: Result<
    [u8; 32],
    (),
>)
    ensures
        match r {
            Ok(ss) => ss@ == mlkem_decapsulate(sk@, ct@),
            Err(_) => false,
        },
{
    let dk = <MlKem768 as KemCore>::DecapsulationKey::from_bytes(&(*sk).into());
    Ok(dk.decapsulate(&(*ct).into())?.into())
}

/// `rand::SeedableRng::seed_from_u64`: a generator. What it will draw is not
/// stated.
#[verifier::external_body]
pub(crate) fn seed_rng(seed: u64) -> (rng: StdRng) {
    StdRng::seed_from_u64(seed)
}

/// `rand::RngCore::fill_bytes`: some bytes.
#[verifier::external_body]
pub(crate) fn draw<const N: usize>(rng: &mut StdRng) -> (out: [u8; N]) {
    let mut out = [0u8; N];
    rng.fill_bytes(&mut out);
    out
}

/// `rand::Rng::gen_range`: some number in the range, both ends included.
#[verifier::external_body]
pub(crate) fn draw_range(rng: &mut StdRng, lo: u64, hi: u64) -> (x: u64)
    requires
        lo <= hi,
    ensures
        lo <= x <= hi,
{
    rng.gen_range(lo..=hi)
}

/// The message that a Noise session makes of a payload in the state that it is
/// in, if it makes one.
pub uninterp spec fn noise_message(session: snow::TransportState, payload: Seq<u8>) -> Option<
    Seq<u8>,
>;

/// The number that a Noise session gives the next message it sends, which
/// `snow::TransportState::sending_nonce` tells.
pub uninterp spec fn noise_counter(session: snow::TransportState) -> u64;

/// `snow::TransportState::write_message` into a buffer with room for the tag: the
/// message is sixteen bytes longer than the payload, and 65535 bytes long at
/// most. It follows from the payload and from the keys and the counter inside the
/// session. A session that makes none stays as it is; one that made a message
/// counts on by one.
#[verifier::external_body]
pub(crate) fn noise_write(session: &mut snow::TransportState, payload: &[u8]) -> (r: Result<
    Vec<u8>,
    snow::Error,
>)
    ensures
        match r {
            Ok(message) => {
                &&& noise_message(*old(session), payload@) == Some(message@)
                &&& message@.len() == payload@.len() + 16 <= 65535
                &&& noise_counter(*final(session)) == noise_counter(*old(session)) + 1
            },
            Err(_) => {
                &&& noise_message(*old(session), payload@) is None
                &&& *final(session) == *old(session)
            },
        },
{
    let mut message = vec![0u8; payload.len() + 16];
    let n = session.write_message(payload, &mut message)?;
    message.truncate(n);
    Ok(message)
}

/// The text of a `snow::Error`. What it says is not stated.
#[verifier::external_body]
pub(crate) fn noise_error_text(e: &snow::Error) -> (text: String) {
    e.to_string()
}

/// The value of a hexadecimal digit, upper or lower case.
pub open spec fn hex_value(c: u8) -> Option<u8> {
    if 48 <= c <= 57 {
        Some((c - 48) as u8)
    } else if 65 <= c <= 70 {
        Some((c - 55) as u8)
    } else if 97 <= c <= 102 {
        Some((c - 87) as u8)
    } else {
        None
    }
}

/// `hex::decode`: two digits for each byte, the higher one first. An odd number
/// of digits is refused, and else the first character that is no digit.
#[verifier::external_body]
pub(crate) fn hex_decode(text: &[u8]) -> (r: Result<Vec<u8>, HexError>)
    ensures
        match r {
            Ok(bytes) => {
                &&& text@.len() == 2 * bytes@.len()
                &&& forall|i: int|
                    0 <= i < bytes@.len() ==> hex_value(text@[2 * i]) is Some && hex_value(
                        text@[2 * i + 1],
                    ) is Some && #[trigger] bytes@[i] == 16 * hex_value(text@[2 * i])->0
                        + hex_value(text@[2 * i + 1])->0
            },
            Err(HexError::OddLength) => text@.len() % 2 == 1,
            Err(HexError::Character { c, index }) => {
                &&& text@.len() % 2 == 0
                &&& index < text@.len()
                &&& c == text@[index as int] as char
                &&& hex_value(text@[index as int]) is None
                &&& forall|i: int| 0 <= i < index ==> hex_value(#[trigger] text@[i]) is Some
            },
            Err(HexError::StringLength) => false,
        },
{
    match hex::decode(text) {
        Ok(bytes) => Ok(bytes),
        Err(hex::FromHexError::InvalidHexCharacter { c, index }) => {
            Err(HexError::Character { c, index })
        }
        Err(hex::FromHexError::OddLength) => Err(HexError::OddLength),
        Err(hex::FromHexError::InvalidStringLength) => Err(HexError::StringLength),
    }
}

/// A hexadecimal digit, in lower case.
pub open spec fn hex_digit(v: u8) -> char {
    if v < 10 {
        (48 + v) as char
    } else {
        (87 + v) as char
    }
}

/// `hex::encode`: two digits for each byte, the higher one first.
#[verifier::external_body]
pub(crate) fn hex_encode(bytes: &[u8]) -> (text: String)
    ensures
        text@ == Seq::new(
            2 * bytes@.len(),
            |i: int|
                if i % 2 == 0 {
                    hex_digit(bytes@[i / 2] / 16)
                } else {
                    hex_digit(bytes@[i / 2] % 16)
                },
        ),
{
    hex::encode(bytes)
}

} // verus!
