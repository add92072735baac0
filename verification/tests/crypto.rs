use chacha20poly1305::aead::{Aead, KeyInit, Payload};
use chacha20poly1305::{ChaCha20Poly1305, Key, Nonce};
use hkdf::Hkdf;
use nbf::replay::MonotonicCheck;
use nbf::{
    derive_hdr_key, derive_traffic_keys, hdr_nonce, open, relay_nonce, seal, CryptoError, DIR_BWD,
    DIR_FWD,
};
use sha2::{Digest, Sha256};

#[test]
fn kdf_xac_dinh_nhau_cung_input() {
    let a = derive_hdr_key(&[1u8; 32], &[9u8; 16]);
    let b = derive_hdr_key(&[1u8; 32], &[9u8; 16]);
    assert_eq!(a, b);
}

#[test]
fn doi_tag_hay_ss_thi_khoa_doi() {
    assert_ne!(derive_hdr_key(&[1; 32], &[9; 16]), derive_hdr_key(&[1; 32], &[8; 16]));
    assert_ne!(derive_hdr_key(&[1; 32], &[9; 16]), derive_hdr_key(&[2; 32], &[9; 16]));
}

#[test]
fn khoa_traffic_hop_le_va_fwd_khac_bwd() {
    let (f, b) = derive_traffic_keys(&[1; 32], &[2; 32], &[3; 16]);
    assert_ne!(f, b);
    assert_ne!(f, [0u8; 32]);
}

#[test]
fn nonce_doi_theo_dir_va_seq() {
    let t = [7u8; 16];
    assert_ne!(hdr_nonce(&t, 3), hdr_nonce(&t, 2));
    assert_ne!(relay_nonce(&t, DIR_FWD, 1), relay_nonce(&t, DIR_BWD, 1));
    assert_ne!(relay_nonce(&t, DIR_FWD, 1), relay_nonce(&t, DIR_FWD, 2));
}

#[test]
fn aead_roundtrip_va_sua_hong_loi() {
    let k = [5u8; 32];
    let n = [6u8; 12];
    let ct = seal(&k, &n, b"hello from the void");
    assert_eq!(open(&k, &n, &ct).unwrap(), b"hello from the void");
    let mut bad = ct.clone();
    bad[0] ^= 1;
    assert!(open(&k, &n, &bad).is_err());
    assert_eq!(ct.len(), 19 + 16);
}

#[test]
fn chong_replay() {
    let mut m = MonotonicCheck::new();
    assert!(m.check(7));
    assert!(!m.check(7));
    assert!(m.check(8));
    assert!(!m.check(0));
}

#[test]
fn replay_filter_don_dieu() {
    let mut m = MonotonicCheck::new();
    assert!(m.check(1));
    assert!(m.check(2));
    assert!(!m.check(2));
    assert!(!m.check(1));
    assert!(m.check(5));
}

#[test]
fn keys_are_hkdf_of_the_secrets() {
    let mut one = [0u8; 32];
    Hkdf::<Sha256>::new(Some(&[9u8; 16]), &[1u8; 32]).expand(b"nbf/hdr/v1", &mut one).unwrap();
    assert_eq!(derive_hdr_key(&[1; 32], &[9; 16]), one);
    let mut ikm = [1u8; 64];
    ikm[32..].copy_from_slice(&[2u8; 32]);
    let mut two = [0u8; 64];
    Hkdf::<Sha256>::new(Some(&[3u8; 16]), &ikm).expand(b"nbf/traffic/v1", &mut two).unwrap();
    let (f, b) = derive_traffic_keys(&[1; 32], &[2; 32], &[3; 16]);
    assert_eq!(f, two[..32]);
    assert_eq!(b, two[32..]);
}

#[test]
fn nonces_are_hashes() {
    let t = [7u8; 16];
    let h = Sha256::new().chain_update(t).chain_update(b"hdr").chain_update([3u8]).finalize();
    assert_eq!(hdr_nonce(&t, 3), h[..12]);
    let h = Sha256::new().chain_update(t).chain_update([1u8]).chain_update([4, 3, 2, 1]).finalize();
    assert_eq!(relay_nonce(&t, DIR_BWD, 0x0102_0304), h[..12]);
}

#[test]
fn ciphertexts_are_bound_to_the_protocol() {
    let cipher = ChaCha20Poly1305::new(Key::from_slice(&[5u8; 32]));
    let direct = cipher
        .encrypt(Nonce::from_slice(&[6u8; 12]), Payload { msg: b"abc", aad: b"nbf" })
        .unwrap();
    assert_eq!(seal(&[5u8; 32], &[6u8; 12], b"abc"), direct);
    let other = cipher
        .encrypt(Nonce::from_slice(&[6u8; 12]), Payload { msg: b"abc", aad: b"" })
        .unwrap();
    assert_eq!(open(&[5u8; 32], &[6u8; 12], &other), Err(CryptoError::Aead));
    assert_eq!(open(&[5u8; 32], &[6u8; 12], b"short"), Err(CryptoError::Aead));
    assert_eq!(open(&[5u8; 32], &[7u8; 12], &direct), Err(CryptoError::Aead));
}

#[test]
fn error_messages() {
    assert_eq!(CryptoError::BadLength(1384).message(), "độ dài dữ liệu không đúng: 1384");
    assert_eq!(CryptoError::BadLength(0).message(), "độ dài dữ liệu không đúng: 0");
    assert_eq!(CryptoError::Aead.message(), "AEAD mở thất bại (sai key hoặc dữ liệu hỏng)");
    assert_eq!(CryptoError::Kem.message(), "ML-KEM thất bại");
    assert_eq!(CryptoError::Noise("x".to_string()).message(), "Noise thất bại: x");
    assert_eq!(CryptoError::Sphinx.message(), "header Sphinx không hợp lệ");
    assert_eq!(CryptoError::Descriptor.message(), "descriptor không hợp lệ");
    assert_eq!(CryptoError::Ed25519.message(), "chữ ký Ed25519 sai");
}
