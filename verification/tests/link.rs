use nbf::link::{
    accept_part, cell_datagrams, classify, hs_fragments, HandshakeKind, Session, WireMsg, HS_MTU,
};
use nbf::{Cell, Cmd};
use std::collections::HashMap;

fn big() -> Cell {
    Cell { cid: 3, cmd: Cmd::Relay, flags: 0, payload: vec![0xAB; 1200] }
}

#[test]
fn hs_fragmented_van_tai_cell_dai() {
    let sent = hs_fragments(&big().encode());
    let buf = &sent[0];
    assert!(buf[0] == 0x7F);
    let total = u16::from_le_bytes([buf[1], buf[2]]);
    assert_eq!(total, 2);
    assert_eq!(sent.len(), 2);
    assert_eq!(buf.len(), HS_MTU);
    assert_eq!(&sent[1][..5], &[0x7F, 2, 0, 1, 0]);
    assert_eq!(sent[1].len(), 5 + 1280 - 1195);
}

#[test]
fn a_cell_comes_over_in_either_order() {
    for order in [[0, 1], [1, 0]] {
        let sent = cell_datagrams(&big());
        let mut parts = HashMap::new();
        let mut got = None;
        for (k, i) in order.iter().enumerate() {
            match classify(&sent[*i]) {
                Some(WireMsg::Handshake(chunk, total, idx)) => {
                    got = accept_part(8, &chunk, total, idx, &mut parts);
                    assert_eq!(got.is_some(), k == 1);
                }
                other => panic!("{:?}", other),
            }
        }
        let cell = got.unwrap();
        assert_eq!((cell.cid, cell.cmd, cell.flags), (3, Cmd::Relay, 0));
        assert_eq!(cell.payload, vec![0xAB; 1200]);
        assert!(parts.is_empty());
    }
}

#[test]
fn parts_that_are_no_cell_are_dropped() {
    let mut parts = HashMap::new();
    assert!(accept_part(1, b"abc", 1, 0, &mut parts).is_none());
    assert!(parts.is_empty());
    assert!(accept_part(1, b"abc", 2, 0, &mut parts).is_none());
    assert!(parts.contains_key(&1));
}

#[test]
fn datagrams_by_their_head() {
    assert!(classify(&[]).is_none());
    assert!(classify(&[0x7F, 1, 0, 0]).is_none());
    assert!(classify(&[1, 2, 3]).is_none());
    match classify(&[0x7F, 2, 1, 4, 3, 9]) {
        Some(WireMsg::Handshake(chunk, total, idx)) => {
            assert_eq!((chunk, total, idx), (vec![9], 0x0102, 0x0304));
        }
        other => panic!("{:?}", other),
    }
    match classify(&big().encode()) {
        Some(WireMsg::Cell(c)) => assert_eq!(c.payload.len(), 1200),
        other => panic!("{:?}", other),
    }
    assert_eq!(hs_fragments(&[]), vec![vec![0x7F, 1, 0, 0, 0]]);
}

#[test]
fn handshake_roles() {
    assert_eq!(HandshakeKind::from_u8(0), None);
    assert_eq!(HandshakeKind::from_u8(1), Some(HandshakeKind::Initiator));
    assert_eq!(HandshakeKind::from_u8(2), Some(HandshakeKind::Responder));
    assert_eq!(HandshakeKind::from_u8(3), None);
}

#[test]
fn the_smaller_identifier_initiates() {
    let mut small = [7u8; 20];
    let mut large = [7u8; 20];
    small[19] = 200;
    large[3] = 8;
    assert_eq!(HandshakeKind::role(&small, &large), HandshakeKind::Initiator);
    assert_eq!(HandshakeKind::role(&large, &small), HandshakeKind::Responder);
    assert_eq!(HandshakeKind::role(&[7; 20], &small), HandshakeKind::Initiator);
    assert_eq!(HandshakeKind::role(&[255; 20], &[0; 20]), HandshakeKind::Responder);
}

/// The two ends of a finished handshake.
fn sessions(pattern: &str) -> (snow::TransportState, snow::TransportState) {
    let params: snow::params::NoiseParams = pattern.parse().unwrap();
    let server = snow::Builder::new(params.clone()).generate_keypair().unwrap();
    let client = snow::Builder::new(params.clone()).generate_keypair().unwrap();
    let mut a = snow::Builder::new(params.clone())
        .local_private_key(&client.private)
        .remote_public_key(&server.public)
        .build_initiator()
        .unwrap();
    let mut b =
        snow::Builder::new(params).local_private_key(&server.private).build_responder().unwrap();
    let (mut x, mut y) = ([0u8; 1024], [0u8; 1024]);
    while !a.is_handshake_finished() {
        let n = a.write_message(&[], &mut x).unwrap();
        b.read_message(&x[..n], &mut y).unwrap();
        if b.is_handshake_finished() {
            break;
        }
        let n = b.write_message(&[], &mut x).unwrap();
        a.read_message(&x[..n], &mut y).unwrap();
    }
    (a.into_transport_mode().unwrap(), b.into_transport_mode().unwrap())
}

#[test]
fn a_session_seals_cells() {
    let (a, mut b) = sessions("Noise_IK_25519_ChaChaPoly_SHA256");
    let mut session = Session::new(a);
    let sealed = session.seal_cell(&big()).unwrap();
    assert_eq!(sealed.len(), 1296);
    let mut out = [0u8; 2048];
    let n = b.read_message(&sealed, &mut out).unwrap();
    assert_eq!(out[..n], big().encode());
    // The session counts each message: the next one is the one that comes next.
    let second = session.seal_cell(&big()).unwrap();
    assert_ne!(second, sealed);
    assert_eq!(b.receiving_nonce(), 1);
    let n = b.read_message(&second, &mut out).unwrap();
    assert_eq!(out[..n], big().encode());
    assert_eq!(b.receiving_nonce(), 2);
}

#[test]
fn a_session_that_cannot_send_says_so() {
    let (_, b) = sessions("Noise_K_25519_ChaChaPoly_SHA256".replace("_K_", "_N_").as_str());
    let mut session = Session::new(b);
    match session.seal_cell(&big()) {
        Err(nbf::NetError::Crypto(nbf::CryptoError::Noise(text))) => {
            assert_eq!(text, "state error: OneWay");
        }
        other => panic!("{:?}", other),
    }
}
