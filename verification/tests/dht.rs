use nbf::kademlia::{Kademlia, ALPHA, K, RT_MAX, TTL_DESC};
use nbf::rpc::{find_response, ping_response, rpc_decode, rpc_encode, Contact, RpcMsg, RpcType};
use nbf::{Descriptor, DhtError, NodeAddr, NodeId, NodeIdentity};
use rand::rngs::StdRng;
use rand::SeedableRng;

const NOW: u64 = 1_000;

fn node(seed: u64, port: u16) -> (Kademlia, Descriptor) {
    let id = NodeIdentity::random(&mut StdRng::seed_from_u64(seed));
    let cell = NodeAddr::V4 { ip: [127, 0, 0, 1], port };
    let d = Descriptor::sign(&id, cell, port + 1, 1_000);
    (Kademlia::new(id.node_id(), d), d)
}

fn contact(first: u8) -> Contact {
    let mut node_id: NodeId = [0; 20];
    node_id[0] = first;
    Contact { node_id, ip: [10, 0, 0, first], dht_port: first as u16 }
}

/// Sends a message to the node at an address, and gives its reply.
fn ask(nodes: &mut [Kademlia], to: NodeAddr, msg: &RpcMsg) -> Option<RpcMsg> {
    let at = nodes.iter().position(|n| n.own_desc.dht_addr() == to)?;
    let answer = nodes[at].handle(&rpc_encode(msg), NOW)?;
    Kademlia::reply_of(&answer)
}

fn bootstrap(nodes: &mut [Kademlia], i: usize, seed: NodeAddr) {
    let msg = nodes[i].bootstrap_msg();
    if let Some(reply) = ask(nodes, seed, &msg) {
        nodes[i].learn(&reply);
    }
}

fn lookup(nodes: &mut [Kademlia], i: usize, key: &NodeId, want: bool) -> (Option<Descriptor>, usize) {
    let mut search = nodes[i].lookup_start(key, want);
    let mut asked = 0;
    while let Some(c) = nodes[i].lookup_next(&mut search) {
        asked += 1;
        let msg = RpcMsg::Find { key: *key, want_value: want };
        let reply = ask(nodes, c.addr(), &msg);
        if let Some(d) = nodes[i].lookup_reply(&search, reply, NOW) {
            return (Some(d), asked);
        }
    }
    (None, asked)
}

#[test]
fn bootstrap_ping_store_lookup_3_node() {
    let (a, _da) = node(10, 9501);
    let (b, db) = node(11, 9503);
    let (c, dc) = node(12, 9505);
    let mut nodes = vec![a, b, c];
    bootstrap(&mut nodes, 0, db.dht_addr());
    bootstrap(&mut nodes, 1, dc.dht_addr());
    let store = nodes[0].store_msg();
    assert_eq!(ask(&mut nodes, db.dht_addr(), &store), None);

    let (found, _) = lookup(&mut nodes, 0, &dc.node_id, false);
    assert_eq!(found, None);
    assert!(nodes[0].rt.iter().any(|x| x.node_id == dc.node_id));

    let (v, _) = lookup(&mut nodes, 0, &dc.node_id, true);
    if let Some(d) = v {
        assert_eq!(d.node_id, dc.node_id);
    }
    let store = nodes[1].store_msg();
    ask(&mut nodes, dc.dht_addr(), &store);
    let (v2, _) = lookup(&mut nodes, 0, &dc.node_id, true);
    if let Some(d) = v2 {
        assert_eq!(d.node_id, dc.node_id);
    }
    // What is kept somewhere is found.
    let (found, _) = lookup(&mut nodes, 2, &db.node_id, true);
    assert_eq!(found, Some(db));
}

#[test]
fn rpc_roundtrips() {
    let (_, d) = node(20, 9601);
    let (_, e) = node(21, 9603);
    let msgs = vec![
        RpcMsg::Ping { nonce: 0x0102_0304_0506_0708 },
        RpcMsg::Pong { nonce: u64::MAX },
        RpcMsg::Store { desc: d },
        RpcMsg::Find { key: [7; 20], want_value: true },
        RpcMsg::Find { key: [8; 20], want_value: false },
        RpcMsg::Found { contacts: vec![], value: None },
        RpcMsg::Found { contacts: vec![contact(1), contact(2)], value: None },
        RpcMsg::Found { contacts: vec![contact(3), Contact::from_desc(&d)], value: Some(e) },
    ];
    for m in &msgs {
        assert_eq!(rpc_decode(&rpc_encode(m)).as_ref(), Ok(m));
    }
}

#[test]
fn rpc_layout() {
    assert_eq!(
        rpc_encode(&ping_response(0x0102)),
        b"NBFR\x02\x02\x01\x00\x00\x00\x00\x00\x00".to_vec()
    );
    let found = rpc_encode(&find_response(vec![contact(9)], None));
    assert_eq!(&found[..6], &b"NBFR\x05\x01"[..]);
    assert_eq!(&found[6..26], &contact(9).node_id[..]);
    assert_eq!(&found[26..], &[10, 0, 0, 9, 9, 0, 0, 0][..]);
    let (_, d) = node(22, 9605);
    let found = rpc_encode(&find_response(vec![], Some(d)));
    assert_eq!(&found[..8], &[b'N', b'B', b'F', b'R', 5, 0, 0x69, 0x05]);
    assert_eq!(&found[8..], &d.to_bytes()[..]);
    let find = rpc_encode(&RpcMsg::Find { key: [3; 20], want_value: true });
    assert_eq!(find.len(), 26);
    assert_eq!(find[25], 1);
}

#[test]
fn rpc_refusals() {
    assert_eq!(rpc_decode(b"NBFR"), Err(DhtError::BadLen(4)));
    assert_eq!(rpc_decode(b"NBFX\x01"), Err(DhtError::BadType(1)));
    assert_eq!(rpc_decode(b"NBFR\x06"), Err(DhtError::BadType(6)));
    assert_eq!(rpc_decode(b"NBFR\x01\x00"), Err(DhtError::BadLen(1)));
    assert_eq!(rpc_decode(b"NBFR\x02\x00\x00"), Err(DhtError::BadLen(2)));
    assert_eq!(rpc_decode(b"NBFR\x04\x00"), Err(DhtError::BadLen(1)));
    assert_eq!(rpc_decode(b"NBFR\x05\x00\x00"), Err(DhtError::BadLen(2)));
    assert_eq!(rpc_decode(b"NBFR\x05\x01\x00\x00"), Err(DhtError::BadLen(3)));
    assert_eq!(rpc_decode(b"NBFR\x05\x00\x05\x00"), Err(DhtError::BadLen(3)));
    assert_eq!(
        rpc_decode(b"NBFR\x03abc"),
        Err(DhtError::BadDesc("độ dài dữ liệu không đúng: 3".to_string()))
    );
    assert_eq!(
        rpc_decode(b"NBFR\x05\x00\x01\x00z"),
        Err(DhtError::BadDesc("độ dài dữ liệu không đúng: 1".to_string()))
    );
    let (_, d) = node(23, 9607);
    let mut store = rpc_encode(&RpcMsg::Store { desc: d });
    let n = store.len();
    store[n - 1] ^= 1;
    assert_eq!(rpc_decode(&store), Err(DhtError::BadDesc("chữ ký Ed25519 sai".to_string())));
    let types = [RpcType::Ping, RpcType::Pong, RpcType::Store, RpcType::Find, RpcType::Found];
    for (i, t) in types.iter().enumerate() {
        assert_eq!(t.to_u8(), i as u8 + 1);
        assert_eq!(RpcType::try_from(i as u8 + 1), Ok(*t));
    }
    assert_eq!(RpcType::try_from(0), Err(DhtError::BadType(0)));
    // What follows a message that is whole has no place in it.
    let (_, d) = node(23, 9607);
    let msgs = [
        RpcMsg::Ping { nonce: 1 },
        RpcMsg::Find { key: [1; 20], want_value: true },
        RpcMsg::Found { contacts: vec![contact(1)], value: None },
        RpcMsg::Found { contacts: vec![], value: Some(d) },
    ];
    for msg in &msgs {
        let mut long = rpc_encode(msg);
        assert!(rpc_decode(&long).is_ok());
        long.push(0);
        assert_eq!(rpc_decode(&long), Err(DhtError::BadLen(long.len() - 5)));
    }
    let mut find = rpc_encode(&msgs[1]);
    find.push(0);
    assert_eq!(rpc_decode(&find), Err(DhtError::BadLen(22)));
}

#[test]
fn contact_of_a_descriptor() {
    let (_, mut d) = node(24, 9609);
    let c = Contact::from_desc(&d);
    assert_eq!((c.node_id, c.ip, c.dht_port), (d.node_id, [127, 0, 0, 1], 9610));
    assert_eq!(c.addr(), NodeAddr::V4 { ip: [127, 0, 0, 1], port: 9610 });
    d.cell_addr = NodeAddr::V6 { ip6: [2; 16], port: 1, flow_info: 0, scope_id: 0 };
    assert_eq!(Contact::from_desc(&d).ip, [127, 0, 0, 1]);
}

#[test]
fn distance_is_the_difference() {
    let mut a = [0u8; 20];
    let mut b = [0u8; 20];
    a[0] = 0b1100;
    b[0] = 0b1010;
    b[19] = 1;
    let mut d = vec![0u8; 20];
    d[0] = 0b0110;
    d[19] = 1;
    assert_eq!(Kademlia::dist(&a, &b), d);
    assert_eq!(Kademlia::dist(&b, &a), d);
    assert_eq!(Kademlia::dist(&a, &a), vec![0u8; 20]);
}

#[test]
fn closest_contacts_in_order() {
    let (mut k, d) = node(25, 9611);
    k.try_merge(&[contact(0x10), contact(0x40), contact(0x18), contact(0x80), contact(0x11)]);
    let mut key = [0u8; 20];
    key[0] = 0x19;
    let near = k.closest(&key, K);
    let firsts: Vec<u8> = near.iter().map(|c| c.node_id[0]).collect();
    let mut all: Vec<u8> = k.rt.iter().map(|c| c.node_id[0]).collect();
    assert!(all.contains(&d.node_id[0]));
    all.sort_by_key(|x| x ^ 0x19);
    assert_eq!(firsts, all[..3]);
    assert_eq!(k.closest(&key, 100).len(), 6);
}

#[test]
fn merging_keeps_the_nearest() {
    let (mut k, d) = node(26, 9613);
    let own = Contact::from_desc(&d);
    k.try_merge(&[own, contact(1), contact(1)]);
    assert_eq!(k.rt.len(), 2);
    let mut twin = contact(1);
    twin.dht_port = 99;
    k.try_merge(&[twin]);
    assert!(k.rt.contains(&contact(1)));
    let many: Vec<Contact> = (1..=200).map(contact).collect();
    k.try_merge(&many);
    assert_eq!(k.rt.len(), RT_MAX);
    assert_eq!(k.rt[0], own);
    let far = k.rt.iter().map(|c| Kademlia::dist(&c.node_id, &k.id)).max().unwrap();
    for c in many.iter().filter(|c| !k.rt.iter().any(|x| x.node_id == c.node_id)) {
        assert!(Kademlia::dist(&c.node_id, &k.id) > far);
    }
}

#[test]
fn a_ping_is_answered_and_noise_is_not() {
    let (mut k, _) = node(27, 9615);
    let ping = rpc_encode(&RpcMsg::Ping { nonce: 5 });
    let answer = k.handle(&ping, NOW).unwrap();
    assert_eq!(rpc_decode(&answer), Ok(RpcMsg::Pong { nonce: 5 }));
    assert_eq!(k.handle(b"noise", NOW), None);
    assert_eq!(k.handle(&answer, NOW), None);
    assert_eq!(Kademlia::reply_of(&answer), Some(RpcMsg::Pong { nonce: 5 }));
    assert_eq!(Kademlia::reply_of(&ping), None);
    assert_eq!(Kademlia::reply_of(b"noise"), None);
}

#[test]
fn descriptors_are_kept_for_a_day() {
    let (mut k, _) = node(28, 9617);
    let (_, d) = node(29, 9619);
    let store = rpc_encode(&RpcMsg::Store { desc: d });
    let find = rpc_encode(&RpcMsg::Find { key: d.node_id, want_value: true });
    let value = |k: &mut Kademlia, now: u64| match rpc_decode(&k.handle(&find, now).unwrap()) {
        Ok(RpcMsg::Found { value, .. }) => value,
        other => panic!("{:?}", other),
    };
    // Too old to be kept; the node is known all the same.
    assert_eq!(k.handle(&store, d.ts + TTL_DESC + 1), None);
    assert_eq!(k.store.get(&d.node_id), None);
    assert!(k.rt.iter().any(|c| c.node_id == d.node_id));
    assert_eq!(k.handle(&store, d.ts), None);
    assert_eq!(value(&mut k, d.ts + TTL_DESC), Some(d));
    assert_eq!(value(&mut k, d.ts + TTL_DESC + 1), None);
    assert_eq!(value(&mut k, 0), Some(d));
    let plain = rpc_encode(&RpcMsg::Find { key: d.node_id, want_value: false });
    match rpc_decode(&k.handle(&plain, d.ts).unwrap()) {
        Ok(RpcMsg::Found { contacts, value }) => {
            assert_eq!(value, None);
            assert_eq!(contacts[0].node_id, d.node_id);
        }
        other => panic!("{:?}", other),
    }
}

#[test]
fn a_search_asks_nobody_twice_and_ends() {
    let mut nodes = Vec::new();
    for i in 0..12 {
        nodes.push(node(100 + i, 9700 + 2 * i as u16).0);
    }
    for i in 1..12 {
        let seed = nodes[i - 1].own_desc.dht_addr();
        bootstrap(&mut nodes, i, seed);
        let store = nodes[i].store_msg();
        ask(&mut nodes, seed, &store);
    }
    let key = nodes[0].id;
    let mut search = nodes[11].lookup_start(&key, false);
    assert!(search.batch.len() <= ALPHA);
    let mut asked = Vec::new();
    while let Some(c) = nodes[11].lookup_next(&mut search) {
        assert!(!asked.contains(&c.node_id));
        asked.push(c.node_id);
        let reply = ask(&mut nodes, c.addr(), &RpcMsg::Find { key, want_value: false });
        nodes[11].lookup_reply(&search, reply, NOW);
    }
    assert!(search.done);
    assert_eq!(asked, search.queried);
    assert_eq!(nodes[11].lookup_next(&mut search), None);
    assert!(nodes[11].rt.iter().any(|c| c.node_id == key));
    let (found, n) = lookup(&mut nodes, 11, &key, true);
    assert_eq!(found.map(|d| d.node_id), None);
    assert!(n >= 1);
}

#[test]
fn a_search_takes_no_other_descriptor() {
    let (mut me, _) = node(130, 9750);
    let (_, d) = node(131, 9752);
    let reply = || Some(RpcMsg::Found { contacts: vec![contact(7)], value: Some(d) });
    let search = me.lookup_start(&[3; 20], true);
    assert_eq!(me.lookup_reply(&search, reply(), NOW), None);
    assert!(me.rt.iter().any(|c| c.node_id == contact(7).node_id));
    let search = me.lookup_start(&d.node_id, true);
    assert_eq!(me.lookup_reply(&search, reply(), NOW + 86_401), None);
    assert_eq!(me.lookup_reply(&search, reply(), NOW), Some(d));
}

#[test]
fn no_detour_is_shorter() {
    let id = |n: u64| {
        let mut id: NodeId = [0; 20];
        id[..8].copy_from_slice(&n.to_be_bytes());
        id
    };
    let far = |a: u64, b: u64| {
        let d = Kademlia::dist(&id(a), &id(b));
        u64::from_be_bytes(d[..8].try_into().unwrap()) as u128
    };
    let points = [0, 1, 0xFF, 0x1234_5678_9ABC_DEF0, u64::MAX, 0x8000_0000_0000_0001];
    for a in points {
        for b in points {
            assert_eq!(far(a, b), (a ^ b) as u128);
            for c in points {
                assert!(far(a, c) <= far(a, b) + far(b, c));
            }
        }
    }
}
