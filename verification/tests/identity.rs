use ed25519_dalek::{Signer, SigningKey};
use ml_kem::{EncodedSizeUser, KemCore, MlKem768};
use nbf::identity::node_id_from_ed_pub;
use nbf::kem::{kem_decap, kem_encap, kem_generate};
use nbf::{CryptoError, Descriptor, NodeAddr, NodeIdentity, CT_LEN, DESC_LEN, KEM_PK_LEN};
use rand::rngs::StdRng;
use rand::{RngCore, SeedableRng};
use sha2::{Digest, Sha256};

fn local(port: u16) -> NodeAddr {
    NodeAddr::V4 { ip: [127, 0, 0, 1], port }
}

#[test]
fn node_id_phai_la_sha256_cua_ed_pub() {
    let mut rng = StdRng::seed_from_u64(1);
    let id = NodeIdentity::random(&mut rng);
    let expect = Sha256::digest(SigningKey::from_bytes(&id.ed).verifying_key().as_bytes());
    assert_eq!(id.node_id(), expect[..20]);
}

#[test]
fn descriptor_roundtrip_va_verify() {
    let mut rng = StdRng::seed_from_u64(2);
    let id = NodeIdentity::random(&mut rng);
    let addr = local(9001);
    let d = Descriptor::sign(&id, addr, 9002, 1_700_000_000);
    let back = Descriptor::from_signed_bytes(&d.to_bytes()).unwrap();
    assert_eq!(back.node_id, id.node_id());
    assert_eq!(back.cell_addr, addr);
    assert_eq!(back.dht_port, 9002);
    assert_eq!(back.kem_pk.len(), KEM_PK_LEN);
    assert_eq!(back, d);
}

#[test]
fn descriptor_sua_1_byte_phai_loi() {
    let mut rng = StdRng::seed_from_u64(3);
    let id = NodeIdentity::random(&mut rng);
    let mut b = Descriptor::sign(&id, local(1), 2, 10).to_bytes();
    let n = b.len();
    b[n - 70] ^= 0x01;
    assert!(Descriptor::from_signed_bytes(&b).is_err());
}

#[test]
fn descriptor_ky_boi_nguoi_khac_phai_loi() {
    let mut rng = StdRng::seed_from_u64(4);
    let a = NodeIdentity::random(&mut rng);
    let b = NodeIdentity::random(&mut rng);
    let mut d = Descriptor::sign(&a, local(1), 2, 10);
    d.sig = b.sign_ed(&d.signing_bytes());
    assert!(Descriptor::from_signed_bytes(&d.to_bytes()).is_err());
}

#[test]
fn descriptor_layout() {
    let mut rng = StdRng::seed_from_u64(5);
    let id = NodeIdentity::random(&mut rng);
    let d = Descriptor::sign(&id, local(0x0102), 0x0304, 0x0506_0708);
    let b = d.to_bytes();
    assert_eq!(b.len(), DESC_LEN);
    assert_eq!(DESC_LEN, 1385);
    assert_eq!(&b[..5], &b"NBFD\x01"[..]);
    assert_eq!(&b[5..25], &d.node_id[..]);
    assert_eq!(&b[25..57], &d.ed_pub[..]);
    assert_eq!(&b[57..89], &d.link_pub[..]);
    assert_eq!(&b[89..121], &d.sphinx_pub[..]);
    assert_eq!(&b[121..1305], &d.kem_pk[..]);
    assert_eq!(&b[1305..1309], &[127, 0, 0, 1][..]);
    assert_eq!(&b[1309..1311], &[0x02, 0x01][..]);
    assert_eq!(&b[1311..1313], &[0x04, 0x03][..]);
    assert_eq!(&b[1313..1321], &[0x08, 0x07, 0x06, 0x05, 0, 0, 0, 0][..]);
    assert_eq!(&b[1321..], &d.sig[..]);
    assert_eq!(d.signing_bytes(), b[..1321].to_vec());
    let sig = SigningKey::from_bytes(&id.ed).sign(&b[..1321]);
    assert_eq!(d.sig, sig.to_bytes());
}

#[test]
fn descriptor_refusals() {
    let mut rng = StdRng::seed_from_u64(6);
    let id = NodeIdentity::random(&mut rng);
    let other = NodeIdentity::random(&mut rng);
    let good = Descriptor::sign(&id, local(1), 2, 10).to_bytes();
    assert_eq!(Descriptor::from_signed_bytes(&good[1..]), Err(CryptoError::BadLength(1384)));
    let mut magic = good.clone();
    magic[0] = b'X';
    assert_eq!(Descriptor::from_signed_bytes(&magic), Err(CryptoError::Descriptor));
    let mut version = good.clone();
    version[4] = 2;
    assert_eq!(Descriptor::from_signed_bytes(&version), Err(CryptoError::Descriptor));
    let mut body = good.clone();
    body[1313] ^= 1;
    assert_eq!(Descriptor::from_signed_bytes(&body), Err(CryptoError::Ed25519));
    // The signature is right, but the identifier is another node's.
    let mut d = Descriptor::sign(&id, local(1), 2, 10);
    d.node_id = other.node_id();
    d.sig = id.sign_ed(&d.signing_bytes());
    assert_eq!(Descriptor::from_signed_bytes(&d.to_bytes()), Err(CryptoError::Descriptor));
}

#[test]
fn dht_address_of_descriptor() {
    let mut rng = StdRng::seed_from_u64(7);
    let id = NodeIdentity::random(&mut rng);
    let mut d = Descriptor::sign(&id, NodeAddr::V4 { ip: [10, 0, 0, 7], port: 1 }, 4242, 10);
    assert_eq!(d.dht_addr(), NodeAddr::V4 { ip: [10, 0, 0, 7], port: 4242 });
    d.cell_addr = NodeAddr::V6 { ip6: [1; 16], port: 1, flow_info: 0, scope_id: 0 };
    assert_eq!(d.dht_addr(), NodeAddr::V4 { ip: [0, 0, 0, 0], port: 4242 });
}

#[test]
fn link_key_is_clamped_and_belongs_to_its_public_key() {
    let mut rng = StdRng::seed_from_u64(8);
    let id = NodeIdentity::random(&mut rng);
    assert_eq!(id.link_priv[0] & 7, 0);
    assert_eq!(id.link_priv[31] & 0xC0, 0x40);
    let scalar = curve25519_dalek::Scalar::from_bytes_mod_order(id.link_priv);
    let public = curve25519_dalek::MontgomeryPoint::mul_base(&scalar);
    assert_eq!(id.link_pub, public.to_bytes());
    assert_eq!(nbf::x25519_pub_from_clamped(&id.link_priv), public.to_bytes());
    assert_eq!(nbf::link::x25519_pub_from_local(&id.link_priv), public.to_bytes());
    // The public key of a clamped key is that of the X25519 function itself.
    let x = curve25519_dalek::MontgomeryPoint::mul_base_clamped(id.link_priv);
    assert_eq!(id.link_pub, x.to_bytes());
}

#[test]
fn identities_of_one_seed_are_the_same() {
    let a = NodeIdentity::random(&mut StdRng::seed_from_u64(9));
    let b = NodeIdentity::random(&mut StdRng::seed_from_u64(9));
    let c = NodeIdentity::random(&mut StdRng::seed_from_u64(10));
    assert_eq!(a.node_id(), b.node_id());
    assert_eq!(a.kem_pk, b.kem_pk);
    assert_ne!(a.node_id(), c.node_id());
}

#[test]
fn identifier_of_a_known_key() {
    // The SHA-256 of 32 zero bytes begins with 66687aadf862bd776c8fc18b8e9f8e2008971485.
    let id = node_id_from_ed_pub(&[0u8; 32]);
    assert_eq!(nbf::cli::id_text(&id), "66687aadf862bd776c8fc18b8e9f8e2008971485");
}

#[test]
fn kem_roundtrip() {
    let mut rng = StdRng::seed_from_u64(9);
    let (dk, pk) = kem_generate(&mut rng);
    let (ct, ss1) = kem_encap(&pk, &mut rng).unwrap();
    let ss2 = kem_decap(&dk, &ct).unwrap();
    assert_eq!(ss1, ss2);
    assert_ne!(ss1, [0u8; 32]);
}

#[test]
fn kem_ct_dung_do_dai() {
    let mut rng = StdRng::seed_from_u64(10);
    let (_, pk) = kem_generate(&mut rng);
    let (ct, _) = kem_encap(&pk, &mut rng).unwrap();
    assert_eq!(ct.len(), CT_LEN);
}

#[test]
fn kem_secret_of_another_key_differs() {
    let mut rng = StdRng::seed_from_u64(11);
    let (_, pk) = kem_generate(&mut rng);
    let (other, _) = kem_generate(&mut rng);
    let (ct, ss) = kem_encap(&pk, &mut rng).unwrap();
    assert_ne!(kem_decap(&other, &ct).unwrap(), ss);
}

#[test]
fn kem_draws_two_seeds_for_keys_and_one_for_a_secret() {
    let mut rng = StdRng::seed_from_u64(12);
    let (_, pk) = kem_generate(&mut rng);
    let mut drawn = StdRng::seed_from_u64(12);
    let (_, ek) = MlKem768::generate(&mut drawn);
    let encoded = ek.as_bytes();
    assert_eq!(pk[..], encoded[..]);
    assert_eq!(rng.next_u64(), drawn.next_u64());
}
