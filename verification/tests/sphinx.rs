use curve25519_dalek::{MontgomeryPoint, Scalar};
use nbf::kem::kem_encap;
use nbf::sphinx::{
    assemble_header, blinding_factor, build_header, process_header, ProcessOutcome, RouteNode,
};
use nbf::{
    derive_hdr_key, derive_traffic_keys, hdr_nonce, open, CryptoError, Descriptor, NodeAddr,
    NodeIdentity, LAYER_LEN, TERMINAL_ID,
};
use rand::rngs::StdRng;
use rand::SeedableRng;
use sha2::{Digest, Sha256};

fn fixture(n: usize) -> (Vec<NodeIdentity>, Vec<Descriptor>) {
    let mut rng = StdRng::seed_from_u64(42);
    let ids: Vec<NodeIdentity> = (0..n).map(|_| NodeIdentity::random(&mut rng)).collect();
    let descs: Vec<Descriptor> = ids
        .iter()
        .enumerate()
        .map(|(i, id)| {
            let cell = NodeAddr::V4 { ip: [127, 0, 0, 1], port: 9100 + i as u16 };
            Descriptor::sign(id, cell, 9200 + i as u16, 1_000)
        })
        .collect();
    (ids, descs)
}

#[test]
fn build_header_dung_do_dai_va_khoa() {
    let (_ids, descs) = fixture(3);
    let route: Vec<RouteNode> = descs.iter().map(|d| RouteNode { desc: d }).collect();
    let bh = build_header(&route, [7u8; 16], &mut StdRng::seed_from_u64(1)).unwrap();
    assert_eq!(bh.header.len(), 18 + 3 * 32 + 3 * 1168);
    assert_eq!(bh.fwd_keys.len(), 3);
    assert_eq!(bh.bwd_keys.len(), 3);
    assert_eq!(bh.first_addr, descs[0].cell_addr);
    assert_ne!(bh.fwd_keys[0], bh.fwd_keys[1]);
    assert_ne!(bh.fwd_keys[1], bh.fwd_keys[2]);
}

#[test]
fn route_qua_3_hop_moi_hop_nhin_dung_thong_tin_tiep() {
    let (ids, descs) = fixture(3);
    let route: Vec<RouteNode> = descs.iter().map(|d| RouteNode { desc: d }).collect();
    let bh = build_header(&route, [7u8; 16], &mut StdRng::seed_from_u64(2)).unwrap();

    let o0 = process_header(&ids[0], &bh.header).unwrap();
    let ProcessOutcome::Relay { next_id, next_addr, new_header, k_fwd, k_bwd, .. } = o0 else {
        panic!("hop 0 phải là relay")
    };
    assert_eq!(next_id, descs[1].node_id);
    assert_eq!(descs[1].cell_addr, NodeAddr::V4 { ip: [127, 0, 0, 1], port: 9101 });
    assert_eq!(next_addr, descs[1].cell_addr);
    assert_eq!(k_fwd, bh.fwd_keys[0]);
    assert_eq!(k_bwd, bh.bwd_keys[0]);

    let o1 = process_header(&ids[1], &new_header).unwrap();
    let ProcessOutcome::Relay { next_id, new_header: h2, k_fwd: k1, .. } = o1 else {
        panic!("hop 1 phải là relay")
    };
    assert_eq!(next_id, descs[2].node_id);
    assert_eq!(k1, bh.fwd_keys[1]);

    let o2 = process_header(&ids[2], &h2).unwrap();
    match o2 {
        ProcessOutcome::Terminal { k_fwd, k_bwd, .. } => {
            assert_eq!(k_fwd, bh.fwd_keys[2]);
            assert_eq!(k_bwd, bh.bwd_keys[2]);
        }
        _ => panic!("hop cuối phải là terminal"),
    }
}

#[test]
fn hop_sai_khong_the_mo_layer() {
    let (mut ids, descs) = fixture(3);
    let mut rng = StdRng::seed_from_u64(99);
    ids[1] = NodeIdentity::random(&mut rng);
    let route: Vec<RouteNode> = descs.iter().map(|d| RouteNode { desc: d }).collect();
    let bh = build_header(&route, [7u8; 16], &mut StdRng::seed_from_u64(3)).unwrap();
    assert!(process_header(&ids[1], &bh.header).is_err());
}

#[test]
fn routes_of_every_length() {
    let (ids, descs) = fixture(6);
    for n in 1..=5 {
        let route: Vec<RouteNode> = descs[..n].iter().map(|d| RouteNode { desc: d }).collect();
        let bh = build_header(&route, [3u8; 16], &mut StdRng::seed_from_u64(n as u64)).unwrap();
        let mut header = bh.header;
        for i in 0..n {
            assert_eq!(header.len(), 18 + (n - i) * (32 + LAYER_LEN));
            match process_header(&ids[i], &header).unwrap() {
                ProcessOutcome::Relay { tag, k_fwd, k_bwd, next_id, next_addr, new_header } => {
                    assert!(i + 1 < n);
                    assert_eq!((tag, k_fwd, k_bwd), (bh.tag, bh.fwd_keys[i], bh.bwd_keys[i]));
                    assert_eq!(next_id, descs[i + 1].node_id);
                    assert_eq!(next_addr, descs[i + 1].cell_addr);
                    header = new_header;
                }
                ProcessOutcome::Terminal { tag, k_fwd, k_bwd } => {
                    assert_eq!(i + 1, n);
                    assert_eq!((tag, k_fwd, k_bwd), (bh.tag, bh.fwd_keys[i], bh.bwd_keys[i]));
                }
            }
        }
    }
    let none: Vec<RouteNode> = Vec::new();
    let mut rng = StdRng::seed_from_u64(0);
    let r = build_header(&none, [3u8; 16], &mut rng);
    assert_eq!(r.err(), Some(CryptoError::BadLength(0)));
    assert_eq!(rng, StdRng::seed_from_u64(0));
    let six: Vec<RouteNode> = descs.iter().map(|d| RouteNode { desc: d }).collect();
    let r = build_header(&six, [3u8; 16], &mut StdRng::seed_from_u64(0));
    assert_eq!(r.err(), Some(CryptoError::BadLength(6)));
}

#[test]
fn header_of_one_hop_from_known_draws() {
    let (ids, descs) = fixture(1);
    let mut x = [0u8; 32];
    x[0] = 5;
    let cap = kem_encap(&descs[0].kem_pk, &mut StdRng::seed_from_u64(4)).unwrap();
    let route = [RouteNode { desc: &descs[0] }];
    let b = assemble_header(&route, [9u8; 16], &[x], &[cap]).unwrap();
    // The secret is the public key times the scalar, and for the hop its point
    // times its private key.
    let scalar = Scalar::from_bytes_mod_order(x);
    let point = MontgomeryPoint::mul_base(&scalar);
    let ss = (MontgomeryPoint(descs[0].sphinx_pub) * scalar).to_bytes();
    assert_eq!((point * Scalar::from_bytes_mod_order(ids[0].sphinx_priv)).to_bytes(), ss);
    assert_eq!((b.fwd_keys[0], b.bwd_keys[0]), derive_traffic_keys(&ss, &cap.1, &[9u8; 16]));
    assert_eq!(&b.header[..2], &[1, 1]);
    assert_eq!(&b.header[2..18], &[9u8; 16]);
    assert_eq!(b.header[18..50], point.to_bytes());
    let key = derive_hdr_key(&ss, &[9u8; 16]);
    let info = open(&key, &hdr_nonce(&[9u8; 16], 1), &b.header[50..]).unwrap();
    assert_eq!(&info[..20], &TERMINAL_ID);
    assert_eq!(&info[20..64], &[0u8; 44][..]);
    assert_eq!(&info[64..], &cap.0[..]);
    // The header and the public key alone do not give the secret.
    let outside = MontgomeryPoint(descs[0].sphinx_pub)
        * Scalar::from_bytes_mod_order(b.header[18..50].try_into().unwrap());
    let key = derive_hdr_key(&outside.to_bytes(), &[9u8; 16]);
    assert!(open(&key, &hdr_nonce(&[9u8; 16], 1), &b.header[50..]).is_err());
    // A scalar of zero gives a header that is understood as well.
    let zero = assemble_header(&route, [9u8; 16], &[[0u8; 32]], &[cap]).unwrap();
    assert_eq!(zero.header[18..50], [0u8; 32]);
    match process_header(&ids[0], &zero.header).unwrap() {
        ProcessOutcome::Terminal { k_fwd, k_bwd, .. } => {
            assert_eq!((k_fwd, k_bwd), (zero.fwd_keys[0], zero.bwd_keys[0]));
        }
        ProcessOutcome::Relay { .. } => panic!("the last hop was expected"),
    }
}

#[test]
fn blinding_multiplies_points_by_a_hash_of_secret_and_point() {
    let (ids, descs) = fixture(2);
    let route: Vec<RouteNode> = descs.iter().map(|d| RouteNode { desc: d }).collect();
    let bh = build_header(&route, [1u8; 16], &mut StdRng::seed_from_u64(5)).unwrap();
    let a0: [u8; 32] = bh.header[18..50].try_into().unwrap();
    let a1: [u8; 32] = bh.header[50..82].try_into().unwrap();
    let secret = Scalar::from_bytes_mod_order(ids[0].sphinx_priv);
    let ss = (MontgomeryPoint(a0) * secret).to_bytes();
    let digest: [u8; 32] = Sha256::new().chain_update(ss).chain_update(a0).finalize().into();
    let factor = Scalar::from_bytes_mod_order(digest);
    assert_eq!(blinding_factor(&ss, &a0), factor.to_bytes());
    // A hash is a number of 256 bits, a factor one below the order of the group.
    let hash_of = |k: u8| -> [u8; 32] { Sha256::digest([[k; 32], [k; 32]].concat()).into() };
    let k = (0..=255).find(|k| hash_of(*k)[31] > 0x10).unwrap();
    assert_ne!(blinding_factor(&[k; 32], &[k; 32]), hash_of(k));
    let expected = (MontgomeryPoint(a1) * factor).to_bytes();
    match process_header(&ids[0], &bh.header).unwrap() {
        ProcessOutcome::Relay { new_header, .. } => {
            assert_eq!(new_header[..2], [1, 1]);
            assert_eq!(new_header[18..50], expected);
        }
        ProcessOutcome::Terminal { .. } => panic!("a relay was expected"),
    }
}

#[test]
fn headers_that_are_refused() {
    let (ids, descs) = fixture(2);
    let route: Vec<RouteNode> = descs.iter().map(|d| RouteNode { desc: d }).collect();
    let good = build_header(&route, [7u8; 16], &mut StdRng::seed_from_u64(6)).unwrap().header;
    let bad = |h: &[u8]| process_header(&ids[0], h).err();
    assert_eq!(bad(&good[..17]), Some(CryptoError::Sphinx));
    assert_eq!(bad(&good[..good.len() - 1]), Some(CryptoError::Sphinx));
    let mut h = good.clone();
    h[0] = 2;
    assert_eq!(bad(&h), Some(CryptoError::Sphinx));
    let mut h = good.clone();
    h[1] = 0;
    assert_eq!(bad(&h), Some(CryptoError::Sphinx));
    let mut h = good.clone();
    *h.last_mut().unwrap() ^= 1;
    assert_eq!(bad(&h), Some(CryptoError::Sphinx));
    let mut h = good.clone();
    h[2] ^= 1;
    assert_eq!(bad(&h), Some(CryptoError::Sphinx));
    assert_eq!(bad(&good), None);
}
