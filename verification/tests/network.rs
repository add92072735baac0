use nbf::builder::{check_route, pick_origin, PendingCircuit};
use nbf::cell::seal_onion;
use nbf::cover;
use nbf::kademlia::Kademlia;
use nbf::link::{accept_part, cell_datagrams, classify, WireMsg};
use nbf::node::{seed_of, Action, CircuitEntry, HopLink, Stats};
use nbf::relay::relay_payload;
use nbf::rpc::{rpc_encode, RpcMsg};
use nbf::sphinx::RouteNode;
use nbf::{
    build_circuit, Cell, CircuitHandle, Cmd, CoverCfg, Descriptor, NetError, Node, NodeAddr,
    NodeConfig, NodeId, RCmd,
};
use std::collections::{HashMap, VecDeque};

const NOW: u64 = 1_700_000_000;

fn config(base: u16, i: u16, on: bool, seed: u64) -> NodeConfig {
    NodeConfig {
        cell_port: base + i * 2,
        dht_port: base + i * 2 + 1,
        seeds: if i == 0 { vec![] } else { vec![format!("127.0.0.1:{}", base + 1)] },
        cover: CoverCfg { on, min_interval_ms: 200, max_interval_ms: 400 },
        rng_seed: Some(seed + i as u64),
    }
}

/// Nodes, and what has come out of them.
struct Net {
    nodes: Vec<Node>,
    parts: Vec<HashMap<u32, nbf::cell::FragBuf>>,
    woken: Vec<u32>,
    delivered: Vec<(u32, u16, Vec<u8>)>,
    cells: Vec<Cell>,
}

impl Net {
    fn new(base: u16, n: u16, on: impl Fn(u16) -> bool, seed: u64) -> Net {
        let nodes: Vec<Node> =
            (0..n).map(|i| Node::spawn(config(base, i, on(i), seed), NOW)).collect();
        let parts = (0..n).map(|_| HashMap::new()).collect();
        let mut net =
            Net { nodes, parts, woken: vec![], delivered: vec![], cells: vec![] };
        for i in 1..n as usize {
            let find = net.nodes[i].dht.bootstrap_msg();
            if let Some(reply) = net.ask(net.nodes[0].own_desc.dht_addr(), &find) {
                net.nodes[i].dht.learn(&reply);
            }
        }
        for i in 1..n as usize {
            let store = net.nodes[i].dht.store_msg();
            net.ask(net.nodes[0].own_desc.dht_addr(), &store);
        }
        net
    }

    fn ask(&mut self, to: NodeAddr, msg: &RpcMsg) -> Option<RpcMsg> {
        let at = self.nodes.iter().position(|n| n.own_desc.dht_addr() == to)?;
        let answer = self.nodes[at].dht.handle(&rpc_encode(msg), NOW)?;
        Kademlia::reply_of(&answer)
    }

    fn resolve(&mut self, i: usize, target: &NodeId) -> Result<Descriptor, NetError> {
        if let Some(d) = self.nodes[i].lookup_route(target, NOW) {
            return Ok(d);
        }
        let mut search = self.nodes[i].dht.lookup_start(target, true);
        let mut found = None;
        while let Some(c) = self.nodes[i].dht.lookup_next(&mut search) {
            let reply = self.ask(c.addr(), &RpcMsg::Find { key: *target, want_value: true });
            found = self.nodes[i].dht.lookup_reply(&search, reply, NOW);
            if found.is_some() {
                break;
            }
        }
        self.nodes[i].lookup_found(target, found, NOW)
    }

    /// Carries cells over links until none is left.
    fn run(&mut self, from: usize, actions: Vec<Action>) {
        let mut queue: VecDeque<(usize, Action)> = actions.into_iter().map(|a| (from, a)).collect();
        while let Some((i, action)) = queue.pop_front() {
            match action {
                Action::Wake { cid } => self.woken.push(cid),
                Action::Deliver { cid, stream, data } => self.delivered.push((cid, stream, data)),
                Action::Send { to, cell } => {
                    self.cells.push(cell.clone());
                    let src = self.nodes[i].own_desc.cell_addr;
                    let at = self.nodes.iter().position(|n| n.own_desc.cell_addr == to).unwrap();
                    for datagram in cell_datagrams(&cell) {
                        let Some(WireMsg::Handshake(chunk, total, idx)) = classify(&datagram)
                        else {
                            panic!("a part was expected")
                        };
                        let got = accept_part(i as u32, &chunk, total, idx, &mut self.parts[at]);
                        if let Some(cell) = got {
                            let out = self.nodes[at].handle_cell(src, &cell);
                            queue.extend(out.into_iter().map(|a| (at, a)));
                        }
                    }
                }
            }
        }
    }

    fn build(&mut self, client: usize, route: &[NodeId]) -> Result<CircuitHandle, NetError> {
        check_route(route)?;
        let mut descs = Vec::new();
        for id in route {
            descs.push(self.resolve(client, id)?);
        }
        let hops: Vec<RouteNode> = descs.iter().map(|d| RouteNode { desc: d }).collect();
        let (pending, actions): (PendingCircuit, Vec<Action>) =
            build_circuit(&mut self.nodes[client], &hops)?;
        self.run(client, actions);
        if self.woken.contains(&pending.cid) {
            Ok(pending.ready(&mut self.nodes[client]))
        } else {
            Err(pending.timed_out(&mut self.nodes[client]))
        }
    }

    fn echo(&mut self, client: usize, h: &CircuitHandle, msg: &[u8]) -> Result<Vec<u8>, NetError> {
        let action = h.echo(&mut self.nodes[client], msg)?;
        self.run(client, vec![action]);
        self.delivered.pop().map(|d| d.2).ok_or(NetError::Timeout)
    }

    fn ids(&self, at: &[usize]) -> Vec<NodeId> {
        at.iter().map(|i| self.nodes[*i].node_id).collect()
    }
}

#[test]
fn e2e_3hop_echo() {
    let mut net = Net::new(20000, 6, |_| false, 0xDEAD);
    let route = net.ids(&[1, 2, 5]);
    let handle = net.build(4, &route).expect("dựng circuit 3 hop");
    let reply = net.echo(4, &handle, b"xin chao tu the void").expect("echo phải trả về");
    assert_eq!(reply, b"xin chao tu the void");
    let again = net.echo(4, &handle, b"once more").unwrap();
    assert_eq!(again, b"once more");
    assert_eq!(net.nodes[4].seq_origin, 3);

    let close = handle.close(&mut net.nodes[4]).unwrap();
    net.run(4, vec![close]);
    for i in [4, 1, 2, 5] {
        assert!(net.nodes[i].circuits.is_empty());
    }
    // Each hop hears of it from the hop before, and once more from the one behind.
    let destroyed: Vec<u64> = [4, 1, 2, 5].iter().map(|i| net.nodes[*i].stats.destroyed).collect();
    assert_eq!(destroyed, [1, 2, 2, 1]);
    assert!(handle.close(&mut net.nodes[4]).is_none());
    assert_eq!(handle.echo(&mut net.nodes[4], b"x").err(), Some(NetError::NoSession));
}

#[test]
fn trung_gian_khong_thay_plaintext() {
    let mut net = Net::new(21000, 6, |_| false, 0xDEAD);
    let route = net.ids(&[1, 2, 5]);
    let handle = net.build(4, &route).unwrap();
    let secret = b"MAT_KHAU_BI_MAT_KHONG_HOP_NAO_THAY";
    let reply = net.echo(4, &handle, secret).unwrap();
    assert_eq!(reply, secret);
    let s1 = net.nodes[1].stats;
    let s2 = net.nodes[2].stats;
    assert!(s1.relayed > 0 || s2.relayed > 0);
    // No cell carries the message in the clear.
    for cell in &net.cells {
        assert!(!cell.payload.windows(secret.len()).any(|w| w == secret));
    }
}

#[test]
fn padding_duoc_gui_khi_bat_cover() {
    let mut net = Net::new(11000, 4, |i| i != 3, 0xABC);
    for _ in 0..4 {
        for i in 0..4 {
            if !net.nodes[i].config.cover.on {
                continue;
            }
            let wait = cover::next_wait(&mut net.nodes[i]);
            assert!((200..=400).contains(&wait));
            if let Some((action, _)) = cover::padding(&mut net.nodes[i], NOW) {
                net.run(i, vec![action]);
                cover::padding_sent(&mut net.nodes[i]);
            }
        }
    }
    let any_recv = (0..3).any(|i| net.nodes[i].stats.padding_recv > 0);
    assert!(any_recv, "ít nhất 1 node bật cover phải nhận padding");
    assert_eq!(net.nodes[3].stats.padding_sent, 0, "node tắt cover không gửi padding");
    assert_eq!(net.nodes[0].stats.padding_sent, 4);
    assert!(net.cells.iter().all(|c| c.cmd == Cmd::Padding && c.payload == vec![1, 0]));
}

#[test]
fn drop_khong_lam_hong_echo() {
    let mut net = Net::new(12000, 5, |_| true, 0xABC);
    let route = net.ids(&[1, 2, 4]);
    let handle = net.build(0, &route).unwrap();
    for _ in 0..3 {
        let sent = handle.send_data(&mut net.nodes[0], b"garbage-drop", 99).unwrap();
        net.run(0, vec![sent]);
    }
    let drop = cover::drop_cell(&mut net.nodes[0]).unwrap();
    net.run(0, vec![drop]);
    assert_eq!(net.nodes[0].stats.drops_sent, 1);
    assert!(net.delivered.is_empty());
    let reply = net.echo(0, &handle, b"van con song").unwrap();
    assert_eq!(reply, b"van con song");
}

#[test]
fn routes_of_one_and_five_hops() {
    let mut net = Net::new(22000, 7, |_| false, 0xF00);
    let route = net.ids(&[6]);
    let first = net.build(0, &route).unwrap();
    assert_eq!(net.echo(0, &first, b"one").unwrap(), b"one");
    // The second circuit has another number on its first link than behind it.
    let route = net.ids(&[1, 2, 3, 4, 5]);
    let handle = net.build(0, &route).unwrap();
    assert_eq!((first.cid, handle.cid), (1, 2));
    match &net.nodes[1].circuits[&2] {
        CircuitEntry::Relay { prev, next, .. } => assert_eq!((prev.cid, next.cid), (2, 1)),
        _ => panic!("a relay was expected"),
    }
    assert_eq!(net.echo(0, &first, b"one again").unwrap(), b"one again");
    let long = vec![0x5A; 1024];
    assert_eq!(net.echo(0, &handle, &long).unwrap(), long);
    assert!(net.cells.iter().all(|c| c.payload.len() <= 1272));
    let over = vec![0; 1025];
    assert_eq!(handle.echo(&mut net.nodes[0], &over).err(), Some(NetError::BadLength(1025)));
    let sent = handle.send_data(&mut net.nodes[0], &over, 2);
    assert_eq!(sent.err(), Some(NetError::BadLength(1025)));
}

#[test]
fn two_circuits_over_the_same_hops() {
    let mut net = Net::new(22100, 4, |_| false, 0xF10);
    let route = net.ids(&[1, 2, 3]);
    let first = net.build(0, &route).unwrap();
    let second = net.build(0, &route).unwrap();
    // A hop gives each circuit a number of its own towards the hop behind.
    let mut given: Vec<u32> = net.nodes[1]
        .circuits
        .values()
        .map(|e| match e {
            CircuitEntry::Relay { next, .. } => next.cid,
            _ => panic!("a relay was expected"),
        })
        .collect();
    given.sort();
    assert_eq!((given, net.nodes[1].next_cid), (vec![1, 2], 3));
    for (h, msg) in [(&first, b"a"), (&second, b"b"), (&first, b"c")] {
        assert_eq!(net.echo(0, h, msg).unwrap(), msg);
    }
    let close = first.close(&mut net.nodes[0]).unwrap();
    net.run(0, vec![close]);
    assert_eq!(net.nodes[2].circuits.len(), 1);
    assert_eq!(net.echo(0, &second, b"d").unwrap(), b"d");
}

#[test]
fn circuits_that_cannot_be_built() {
    let mut net = Net::new(23000, 3, |_| false, 0xBEE);
    assert_eq!(net.build(1, &[]).err(), Some(NetError::BadLength(0)));
    assert_eq!(net.build(1, &[[0; 20]; 6]).err(), Some(NetError::BadLength(6)));
    assert_eq!(net.build(1, &[[0; 20]]).err(), Some(NetError::Timeout));
    let none: Vec<RouteNode> = Vec::new();
    let r = build_circuit(&mut net.nodes[1], &none);
    assert_eq!(r.err(), Some(NetError::BadLength(0)));
    assert_eq!(net.nodes[1].next_cid, 1);
    // A refusal draws nothing.
    let (mut twin, untouched) = (Node::spawn(config(23000, 1, false, 0xBEE), NOW), &net.nodes[1]);
    assert_eq!(twin.rng, untouched.rng);
    assert!(build_circuit(&mut twin, &none).is_err());
    assert_eq!(twin.rng, untouched.rng);
    // A hop that does not answer.
    let d = net.nodes[2].own_desc;
    let (pending, actions) =
        build_circuit(&mut net.nodes[1], &[RouteNode { desc: &d }]).unwrap();
    assert_eq!(pending.cid, 1);
    assert_eq!(actions.len(), 1);
    assert!(net.nodes[1].pending.contains(&1));
    assert_eq!(pending.timed_out(&mut net.nodes[1]), NetError::Timeout);
    assert!(net.nodes[1].pending.is_empty());
    assert_eq!(net.nodes[1].new_cid(), 2);
}

#[test]
fn a_new_node() {
    let node = Node::spawn(config(24000, 1, true, 7), NOW);
    assert_eq!(node.node_id, node.identity.node_id());
    assert_eq!(node.own_desc.cell_addr, NodeAddr::V4 { ip: [127, 0, 0, 1], port: 24002 });
    assert_eq!((node.own_desc.dht_port, node.own_desc.ts), (24003, NOW));
    assert_eq!(Descriptor::from_signed_bytes(&node.own_desc.to_bytes()), Ok(node.own_desc));
    assert_eq!(node.dht.store.get(&node.node_id), Some(node.own_desc));
    assert_eq!(node.dht.rt.len(), 1);
    assert_eq!(node.stats, Stats::default());
    assert_eq!((node.next_cid, node.seq_origin), (1, 1));
    assert_eq!(
        node.route_peers(NOW + 86_400),
        vec![(node.node_id, node.own_desc.cell_addr, node.own_desc.link_pub)]
    );
    assert!(node.route_peers(NOW + 86_401).is_empty());
    let same = Node::spawn(config(24000, 1, true, 7), NOW);
    assert_eq!(same.node_id, node.node_id);
    let unset = |port| {
        let mut c = config(port, 0, true, 0);
        c.rng_seed = None;
        Node::spawn(c, NOW).node_id
    };
    assert_eq!(unset(1), unset(2));
    let mut c = config(24000, 0, true, 0);
    c.rng_seed = Some(0x1234_5678);
    assert_eq!(seed_of(&c), 0x1234_5678);
    assert_eq!(Node::spawn(c, NOW).node_id, unset(1));
    let mut c = config(24000, 0, true, 9);
    assert_eq!(seed_of(&c), 9);
    c.rng_seed = None;
    assert_eq!(seed_of(&c), 0x1234_5678);
    let d = CoverCfg::default();
    assert_eq!((d.on, d.min_interval_ms, d.max_interval_ms), (true, 500, 2000));
}

fn peer(n: u8) -> NodeAddr {
    NodeAddr::V4 { ip: [10, 0, 0, n], port: 1000 }
}

fn relay_cell(cid: u32, seq: u32, rcmd: RCmd, stream: u16, onion: &[u8]) -> Cell {
    Cell { cid, cmd: Cmd::Relay, flags: 0, payload: relay_payload(seq, rcmd, stream, onion) }
}

fn hop(last_fwd: u32) -> CircuitEntry {
    CircuitEntry::Relay {
        tag: [1; 16],
        k_fwd: [2; 32],
        k_bwd: [3; 32],
        prev: HopLink { cid: 5, peer: peer(1) },
        next: HopLink { cid: 6, peer: peer(2) },
        last_fwd,
        last_bwd: 3,
    }
}

#[test]
fn a_relay_hop() {
    let mut node = Node::spawn(config(25000, 0, false, 1), NOW);
    node.circuits.insert(5, hop(3));
    let onion = seal_onion(&[[2; 32]], &[1; 16], 4, b"inner");
    let cell = relay_cell(5, 4, RCmd::Data, 7, &onion);
    // From elsewhere, and over an unknown circuit, nothing happens.
    assert!(node.handle_cell(peer(9), &cell).is_empty());
    let unknown = relay_cell(8, 4, RCmd::Data, 7, &onion);
    assert!(node.handle_cell(peer(1), &unknown).is_empty());
    assert_eq!(node.stats.relayed, 1);
    match &node.handle_cell(peer(1), &cell)[..] {
        [Action::Send { to, cell }] => {
            assert_eq!(*to, peer(2));
            assert_eq!((cell.cid, cell.cmd, cell.flags), (6, Cmd::Relay, 0));
            assert_eq!(cell.payload, relay_payload(4, RCmd::Data, 7, b"inner"));
        }
        other => panic!("{:?}", other),
    }
    // The same cell again is a replay, and so is an older one.
    assert!(node.handle_cell(peer(1), &cell).is_empty());
    // A layer under another key does not open, and the number stays.
    let bad = seal_onion(&[[9; 32]], &[1; 16], 6, b"inner");
    assert!(node.handle_cell(peer(1), &relay_cell(5, 6, RCmd::Data, 7, &bad)).is_empty());
    let good = seal_onion(&[[2; 32]], &[1; 16], 6, b"inner");
    assert_eq!(node.handle_cell(peer(1), &relay_cell(5, 6, RCmd::Data, 7, &good)).len(), 1);
    // Backwards a layer is added.
    match &node.handle_cell(peer(2), &relay_cell(5, 4, RCmd::Echo, 7, b"back"))[..] {
        [Action::Send { to, cell }] => {
            assert_eq!((*to, cell.cid), (peer(1), 5));
            let outer = nbf::cell::seal_bwd(&[3; 32], &[1; 16], 4, b"back");
            assert_eq!(cell.payload, relay_payload(4, RCmd::Echo, 7, &outer));
        }
        other => panic!("{:?}", other),
    }
    // The hop behind knows the circuit by the number that it was given.
    let counted = node.stats.relayed;
    match &node.handle_cell(peer(2), &relay_cell(6, 5, RCmd::Echo, 7, b"back"))[..] {
        [Action::Send { to, cell }] => {
            assert_eq!((*to, cell.cid, cell.cmd, cell.flags), (peer(1), 5, Cmd::Relay, 0));
            let outer = nbf::cell::seal_bwd(&[3; 32], &[1; 16], 5, b"back");
            assert_eq!(cell.payload, relay_payload(5, RCmd::Echo, 7, &outer));
            assert_eq!(cell.payload.len(), 7 + 4 + 16);
        }
        other => panic!("{:?}", other),
    }
    assert_eq!(node.stats.relayed, counted + 1);
    assert!(node.handle_cell(peer(1), &relay_cell(6, 6, RCmd::Echo, 7, b"back")).is_empty());
    assert_eq!(node.stats.relayed, counted + 1);
    // What came back does not come again, under either number, nor what is older.
    for (cid, seq) in [(6, 5), (5, 5), (6, 4), (5, 4)] {
        let cell = relay_cell(cid, seq, RCmd::Echo, 7, b"back");
        assert!(node.handle_cell(peer(2), &cell).is_empty());
    }
    assert_eq!(node.handle_cell(peer(2), &relay_cell(5, 6, RCmd::Echo, 7, b"back")).len(), 1);
    // The two directions count on their own.
    let fwd = seal_onion(&[[2; 32]], &[1; 16], 7, b"inner");
    assert_eq!(node.handle_cell(peer(1), &relay_cell(5, 7, RCmd::Data, 7, &fwd)).len(), 1);
    assert_eq!(node.handle_cell(peer(2), &relay_cell(6, 7, RCmd::Echo, 7, b"back")).len(), 1);
    // Cells that are too short or of an unknown kind are not counted.
    let before = node.stats.relayed;
    let short = Cell { cid: 5, cmd: Cmd::Relay, flags: 0, payload: vec![0; 6] };
    assert!(node.handle_cell(peer(1), &short).is_empty());
    let mut odd = relay_cell(5, 9, RCmd::Data, 7, b"");
    odd.payload[4] = 4;
    assert!(node.handle_cell(peer(1), &odd).is_empty());
    assert_eq!(node.stats.relayed, before);
}

#[test]
fn the_last_hop() {
    let mut node = Node::spawn(config(25100, 0, false, 2), NOW);
    node.circuits.insert(
        5,
        CircuitEntry::Terminal {
            tag: [1; 16],
            k_fwd: [2; 32],
            k_bwd: [3; 32],
            prev: HopLink { cid: 5, peer: peer(1) },
            last_fwd: 0,
        },
    );
    let onion = |seq| seal_onion(&[[2; 32]], &[1; 16], seq, b"hello");
    assert!(node.handle_cell(peer(2), &relay_cell(5, 1, RCmd::Echo, 1, &onion(1))).is_empty());
    match &node.handle_cell(peer(1), &relay_cell(5, 1, RCmd::Echo, 1, &onion(1)))[..] {
        [Action::Send { to, cell }] => {
            assert_eq!((*to, cell.cid), (peer(1), 5));
            let outer = nbf::cell::seal_bwd(&[3; 32], &[1; 16], 1, b"hello");
            assert_eq!(cell.payload, relay_payload(1, RCmd::Echo, 1, &outer));
        }
        other => panic!("{:?}", other),
    }
    assert!(node.handle_cell(peer(1), &relay_cell(5, 1, RCmd::Echo, 1, &onion(1))).is_empty());
    assert!(node.handle_cell(peer(1), &relay_cell(5, 2, RCmd::Data, 1, &onion(2))).is_empty());
    assert!(node.handle_cell(peer(1), &relay_cell(5, 3, RCmd::Drop, 1, &onion(3))).is_empty());
    assert!(node.handle_cell(peer(1), &relay_cell(5, 3, RCmd::Echo, 1, &onion(3))).is_empty());
    assert_eq!(node.handle_cell(peer(1), &relay_cell(5, 4, RCmd::Echo, 1, &onion(4))).len(), 1);
}

#[test]
fn the_origin_delivers_to_streams_that_are_wanted() {
    let mut node = Node::spawn(config(25200, 0, false, 3), NOW);
    let bwd = vec![[4; 32], [5; 32]];
    node.circuits.insert(
        5,
        CircuitEntry::Origin {
            fwd: vec![[2; 32], [3; 32]],
            bwd: bwd.clone(),
            tag: [1; 16],
            next: HopLink { cid: 5, peer: peer(1) },
            streams: vec![],
            last_bwd: 0,
        },
    );
    let back = nbf::cell::seal_onion_bwd(&bwd, &[1; 16], 9, b"answer");
    let cell = relay_cell(5, 9, RCmd::Echo, 1, &back);
    assert!(node.handle_cell(peer(1), &cell).is_empty());
    node.register_stream(5, 1);
    node.register_stream(5, 1);
    node.register_stream(77, 1);
    // It opened, so its number is taken; the next one is delivered, and once.
    assert!(node.handle_cell(peer(1), &cell).is_empty());
    let back = nbf::cell::seal_onion_bwd(&bwd, &[1; 16], 10, b"answer");
    let cell = relay_cell(5, 10, RCmd::Echo, 1, &back);
    // One that does not open takes no number.
    assert!(node.handle_cell(peer(1), &relay_cell(5, 20, RCmd::Echo, 1, &back)).is_empty());
    match &node.handle_cell(peer(1), &cell)[..] {
        [Action::Deliver { cid, stream, data }] => {
            assert_eq!((*cid, *stream, &data[..]), (5, 1, &b"answer"[..]));
        }
        other => panic!("{:?}", other),
    }
    assert!(node.handle_cell(peer(1), &cell).is_empty());
    assert!(node.handle_cell(peer(1), &relay_cell(5, 11, RCmd::Echo, 1, b"garbage")).is_empty());
    let h = pick_origin(&node).unwrap();
    assert_eq!((h.cid, h.fwd, h.bwd, h.tag), (5, vec![[2; 32], [3; 32]], bwd, [1; 16]));
    match node.circuits[&5].cloned_entry() {
        CircuitEntry::Origin { streams, .. } => assert_eq!(streams, vec![1]),
        _ => panic!("an origin was expected"),
    }
    node.circuits.clear();
    assert!(pick_origin(&node).is_none());
    assert!(cover::drop_cell(&mut node).is_none());
}

#[test]
fn created_and_destroy_go_back() {
    let mut node = Node::spawn(config(25300, 0, false, 4), NOW);
    node.circuits.insert(5, hop(0));
    let created = Cell { cid: 5, cmd: Cmd::Created, flags: 0, payload: vec![] };
    match &node.handle_cell(peer(2), &created)[..] {
        [Action::Send { to, cell }] => {
            assert_eq!((*to, cell.cid, cell.cmd), (peer(1), 5, Cmd::Created));
        }
        other => panic!("{:?}", other),
    }
    node.pending.insert(5);
    assert!(matches!(node.handle_cell(peer(2), &created)[..], [Action::Wake { cid: 5 }]));
    assert!(node.pending.is_empty());
    let behind = Cell { cid: 6, cmd: Cmd::Created, flags: 0, payload: vec![] };
    match &node.handle_cell(peer(2), &behind)[..] {
        [Action::Send { to, cell }] => {
            assert_eq!((*to, cell.cid, cell.cmd), (peer(1), 5, Cmd::Created));
        }
        other => panic!("{:?}", other),
    }
    assert!(node.handle_cell(peer(3), &behind).is_empty());
    // Whichever neighbour gives the circuit up, both are told.
    for (from, cid) in [(peer(1), 5), (peer(2), 6)] {
        node.circuits.insert(5, hop(0));
        let destroy = Cell { cid, cmd: Cmd::Destroy, flags: 0, payload: vec![] };
        match &node.handle_cell(from, &destroy)[..] {
            [Action::Send { to, cell }, Action::Send { to: to2, cell: cell2 }] => {
                assert_eq!((*to, cell.cid, cell.cmd), (peer(1), 5, Cmd::Destroy));
                assert_eq!((*to2, cell2.cid, cell2.cmd), (peer(2), 6, Cmd::Destroy));
            }
            other => panic!("{:?}", other),
        }
        assert!(node.circuits.is_empty());
        assert!(node.handle_cell(from, &destroy).is_empty());
    }
    assert_eq!(node.stats.destroyed, 4);
    let last = CircuitEntry::Terminal {
        tag: [1; 16],
        k_fwd: [2; 32],
        k_bwd: [3; 32],
        prev: HopLink { cid: 5, peer: peer(1) },
        last_fwd: 0,
    };
    node.circuits.insert(5, last);
    let destroy = Cell { cid: 5, cmd: Cmd::Destroy, flags: 0, payload: vec![] };
    match &node.handle_cell(peer(1), &destroy)[..] {
        [Action::Send { to, cell }] => {
            assert_eq!((*to, cell.cid, cell.cmd), (peer(1), 5, Cmd::Destroy));
        }
        other => panic!("{:?}", other),
    }
    assert!(node.handle_cell(peer(2), &created).is_empty());
    // Fragments that are no header are dropped without an answer.
    let create = Cell { cid: 9, cmd: Cmd::Create, flags: 0, payload: vec![1, 0, 0, 0, 7] };
    assert!(node.handle_cell(peer(2), &create).is_empty());
    assert!(node.create_frags.is_empty());
    let part = Cell { cid: 9, cmd: Cmd::Create, flags: 0, payload: vec![2, 0, 0, 0, 7] };
    assert!(node.handle_cell(peer(2), &part).is_empty());
    assert!(node.create_frags.contains_key(&9));
    let short = Cell { cid: 9, cmd: Cmd::Create, flags: 0, payload: vec![2, 0, 0] };
    assert!(node.handle_cell(peer(2), &short).is_empty());
    assert_eq!(node.stats.created, 0);
}

#[test]
fn descriptors_are_cached() {
    let mut node = Node::spawn(config(25400, 0, false, 5), NOW);
    let other = Node::spawn(config(25400, 1, false, 5), NOW);
    let id = other.node_id;
    assert_eq!(node.lookup_route(&id, NOW), None);
    assert_eq!(node.lookup_found(&id, None, NOW), Err(NetError::Timeout));
    node.dht.keep(other.own_desc);
    assert_eq!(node.lookup_route(&id, NOW + 86_401), None);
    assert_eq!(node.lookup_route(&id, NOW), Some(other.own_desc));
    assert_eq!(node.dht_cache.get(&id), Some(other.own_desc));
    assert_eq!(node.lookup_route(&id, NOW + 86_400), Some(other.own_desc));
    // What is too old is not given out any more.
    assert_eq!(node.lookup_route(&id, NOW + 86_401), None);
    let found = Some(other.own_desc);
    assert_eq!(node.lookup_found(&id, found, NOW + 86_401), Err(NetError::Timeout));
    assert_eq!(node.lookup_found(&id, found, NOW), Ok(other.own_desc));
    // The descriptor of another node is not taken for the one that was sought.
    assert_eq!(node.lookup_found(&[1; 20], found, NOW), Err(NetError::Timeout));
    assert_eq!(node.lookup_route(&[1; 20], NOW), None);
}
