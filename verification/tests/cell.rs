use nbf::cell::{
    fragment, open_bwd, open_onion, open_onion_bwd, padding_payload, parse_frag, reassemble,
    seal_bwd, seal_onion, seal_onion_bwd, Cell, Cmd, CELL, CELL_DATA, FRAG_CHUNK,
};
use nbf::{CryptoError, NetError, RCmd};
use std::collections::HashMap;

#[test]
fn cell_encode_decode_dung_1280() {
    let c = Cell { cid: 7, cmd: Cmd::Relay, flags: 0, payload: vec![1; 100] };
    let b = c.encode();
    assert_eq!(b.len(), CELL);
    let d = Cell::decode(&b).unwrap();
    assert_eq!(d.cid, 7);
    assert_eq!(d.cmd, Cmd::Relay);
    assert_eq!(d.payload, vec![1; 100]);
}

#[test]
fn cell_sai_do_dai_bi_tu_choi() {
    assert!(Cell::decode(&[0u8; 100]).is_err());
    let c = Cell { cid: 1, cmd: Cmd::Create, flags: 0, payload: vec![0; CELL_DATA] };
    assert!(c.encode().len() == CELL);
}

#[test]
fn fragment_reassemble_header_lon() {
    let data: Vec<u8> = (0..7122).map(|i| (i % 251) as u8).collect();
    let frags = fragment(&data);
    assert!(frags.len() >= 6);
    let mut map = HashMap::new();
    for &i in &[3usize, 0, 5, 1, 4, 2] {
        let p = &frags[i];
        let total = u16::from_le_bytes([p[0], p[1]]);
        let idx = u16::from_le_bytes([p[2], p[3]]);
        if let Some(done) = reassemble(7, idx, total, &p[4..], &mut map) {
            assert_eq!(done, data);
            return;
        }
    }
    panic!("chưa lắp đủ");
}

#[test]
fn onion_3_hop_seal_peel_dung_thu_tu() {
    let keys: Vec<[u8; 32]> = (0..3)
        .map(|i| {
            let mut k = [0u8; 32];
            k[0] = i as u8 + 1;
            k
        })
        .collect();
    let tag = [0xA5u8; 16];
    let seq = 3u32;
    let inner = b"echo-hello";
    let onion = seal_onion(&keys, &tag, seq, inner);
    let l2 = open_onion(&keys[0], &tag, seq, &onion).unwrap();
    let l1 = open_onion(&keys[1], &tag, seq, &l2).unwrap();
    let l0 = open_onion(&keys[2], &tag, seq, &l1).unwrap();
    assert_eq!(l0, inner);
    let mut bad = keys.clone();
    bad[1] = [7u8; 32];
    assert!(open_onion(&bad[1], &tag, seq, &onion).is_err());
    let b = seal_onion_bwd(&keys, &tag, seq, inner);
    let out = open_onion_bwd(&keys, &tag, seq, &b).unwrap();
    assert_eq!(out, inner);
}

#[test]
fn padding_payload_2_byte() {
    let p = padding_payload(5);
    assert_eq!(p.len(), 2);
    assert_eq!(u16::from_le_bytes([p[0], p[1]]), 5);
}

#[test]
fn relay_forward_then_backward_roundtrip() {
    let fwd = [[11u8; 32], [12u8; 32], [13u8; 32]];
    let bwd = [[21u8; 32], [22u8; 32], [23u8; 32]];
    let tag = [1u8; 16];
    let seq = 5u32;

    let onion = seal_onion(&fwd, &tag, seq, b"ping");
    let l1 = open_onion(&fwd[0], &tag, seq, &onion).unwrap();
    let l2 = open_onion(&fwd[1], &tag, seq, &l1).unwrap();
    let l3 = open_onion(&fwd[2], &tag, seq, &l2).unwrap();
    assert_eq!(l3, b"ping");

    let r1 = seal_bwd(&bwd[2], &tag, seq, b"pong");
    let r2 = seal_bwd(&bwd[1], &tag, seq, &r1);
    let r3 = seal_bwd(&bwd[0], &tag, seq, &r2);
    let m1 = open_bwd(&bwd[0], &tag, seq, &r3).unwrap();
    let m2 = open_bwd(&bwd[1], &tag, seq, &m1).unwrap();
    let m3 = open_bwd(&bwd[2], &tag, seq, &m2).unwrap();
    assert_eq!(m3, b"pong");
    // All backward layers at once are the same.
    assert_eq!(seal_onion_bwd(&bwd, &tag, seq, b"pong"), r3);
    assert_eq!(
        open_onion_bwd(&fwd, &tag, seq, &r3),
        Err(NetError::Crypto(CryptoError::Aead))
    );
    // What opens is what sealing gives, and a changed onion opens to nothing.
    let found = open_onion_bwd(&bwd, &tag, seq, &r3).unwrap();
    assert_eq!(seal_onion_bwd(&bwd, &tag, seq, &found), r3);
    let mut changed = r3.clone();
    changed[0] ^= 1;
    assert!(open_onion_bwd(&bwd, &tag, seq, &changed).is_err());
}

#[test]
fn cell_layout_and_refusals() {
    let c = Cell { cid: 0x0102_0304, cmd: Cmd::Destroy, flags: 9, payload: vec![5, 6] };
    let b = c.encode();
    assert_eq!(&b[..10], &[4, 3, 2, 1, 3, 9, 2, 0, 5, 6]);
    assert!(b[10..].iter().all(|x| *x == 0));
    assert_eq!(Cell::decode(&b[..1279]).err(), Some(NetError::BadLength(1279)));
    let mut long = b;
    long[6..8].copy_from_slice(&1273u16.to_le_bytes());
    assert_eq!(Cell::decode(&long).err(), Some(NetError::TooShort));
    let mut cmd = b;
    cmd[4] = 6;
    assert_eq!(Cell::decode(&cmd).err(), Some(NetError::BadCmd(6)));
    let copy = c.clone();
    assert_eq!((copy.cid, copy.cmd, copy.flags, copy.payload), (c.cid, c.cmd, c.flags, c.payload));
}

#[test]
fn command_codes() {
    let cmds = [Cmd::Create, Cmd::Created, Cmd::Destroy, Cmd::Relay, Cmd::Padding];
    for (i, c) in cmds.iter().enumerate() {
        assert_eq!(c.to_u8(), i as u8 + 1);
        assert_eq!(Cmd::try_from(i as u8 + 1), Ok(*c));
    }
    assert_eq!(Cmd::try_from(0), Err(NetError::BadCmd(0)));
    let rcmds = [RCmd::Echo, RCmd::Data, RCmd::Drop];
    for (i, c) in rcmds.iter().enumerate() {
        assert_eq!(c.to_u8(), i as u8 + 1);
        assert_eq!(RCmd::try_from(i as u8 + 1), Ok(*c));
    }
    assert_eq!(RCmd::try_from(4), Err(NetError::BadCmd(4)));
}

#[test]
fn fragments_of_the_edges() {
    assert_eq!(fragment(&[]), vec![vec![1, 0, 0, 0]]);
    assert_eq!(fragment(&vec![7; FRAG_CHUNK]).len(), 1);
    let two = fragment(&vec![7; FRAG_CHUNK + 1]);
    assert_eq!(two.len(), 2);
    assert_eq!(two[1], vec![2, 0, 1, 0, 7]);
    assert_eq!(parse_frag(&two[1]), Ok((2, 1, &[7u8][..])));
    assert_eq!(parse_frag(&[1, 2, 3]), Err(NetError::TooShort));
}

#[test]
fn reassembly_keeps_the_first_and_starts_over_on_another_count() {
    let mut map = HashMap::new();
    assert_eq!(reassemble(1, 0, 2, b"a", &mut map), None);
    assert_eq!(reassemble(1, 0, 2, b"b", &mut map), None);
    assert_eq!(reassemble(1, 5, 2, b"c", &mut map), None);
    assert_eq!(reassemble(2, 0, 2, b"z", &mut map), None);
    assert_eq!(reassemble(1, 1, 2, b"d", &mut map), Some(b"ad".to_vec()));
    assert!(!map.contains_key(&1));
    assert_eq!(reassemble(2, 0, 3, b"x", &mut map), None);
    assert_eq!(reassemble(2, 1, 3, b"y", &mut map), None);
    assert_eq!(reassemble(2, 2, 3, b"w", &mut map), Some(b"xyw".to_vec()));
    assert_eq!(reassemble(3, 0, 0, b"q", &mut map), Some(vec![]));
    assert!(map.is_empty());
}
