//! A node of the network: what it does with the cells that reach it.
//!
//! A node holds circuits. A cell changes what it holds and makes it act:
//! send cells, wake who waits for a circuit, hand out data. Sockets, clocks and
//! waiting are left to who runs the node.

use crate::addr::AddrView;
use crate::bytes::{arr_eq, le_value, lemma_arr_ext};
use crate::cell::{
    complete, frag, frag_count, frag_put, frag_run, fragment, frags_wf, joined, law_fragment_parts,
    law_fragments_any_order, no_frags, parse_frag, reassemble, slots, Cell, CellView, Cmd, FragBuf, FRAG_CHUNK,
};
use crate::circuits::{circuit_of, find_circuit};
use crate::identity::{node_id_spec, Descriptor, NodeIdentity};
use crate::kademlia::{fresh, is_fresh, unique_ids, Kademlia};
use crate::primitives::{ed25519_public, seed_rng, AEAD_MAX};
use crate::relay::{has_stream, relay_parts};
use crate::rpc::{contact_of, contact_views, Contact};
use crate::sphinx::{
    header_at, law_route, peel, process_header, BuiltHeader, Peeled, Plan, ProcessOutcome,
};
use crate::store::DescStore;
use crate::{NetError, NodeAddr, NodeId};
use rand::rngs::StdRng;
use std::collections::{HashMap, HashSet};
use vstd::prelude::*;

verus! {

/// The most hops that a node takes part in.
pub const MAX_HOPS: usize = 8;

/// The seed of a node's generator where none is given.
pub const DEFAULT_SEED: u64 = 0x1234_5678;

/// When cover traffic is sent.
#[derive(Debug, Clone, Copy)]
pub struct CoverCfg {
    pub on: bool,
    pub min_interval_ms: u64,
    pub max_interval_ms: u64,
}

impl Default for CoverCfg {
    fn default() -> (c: Self)
        ensures
            c == (CoverCfg { on: true, min_interval_ms: 500, max_interval_ms: 2000 }),
    {
        CoverCfg { on: true, min_interval_ms: 500, max_interval_ms: 2000 }
    }
}

/// How a node is set up.
pub struct NodeConfig {
    pub cell_port: u16,
    pub dht_port: u16,
    pub seeds: Vec<String>,
    pub cover: CoverCfg,
    pub rng_seed: Option<u64>,
}

/// What a node has done so far.
#[derive(Debug, Clone, Copy, PartialEq, Eq)]
pub struct Stats {
    pub created: u64,
    pub relayed: u64,
    pub destroyed: u64,
    pub padding_recv: u64,
    pub padding_sent: u64,
    pub drops_sent: u64,
}

impl Default for Stats {
    fn default() -> (s: Self)
        ensures
            s == (Stats {
                created: 0,
                relayed: 0,
                destroyed: 0,
                padding_recv: 0,
                padding_sent: 0,
                drops_sent: 0,
            }),
    {
        Stats {
            created: 0,
            relayed: 0,
            destroyed: 0,
            padding_recv: 0,
            padding_sent: 0,
            drops_sent: 0,
        }
    }
}

/// The next number after a count.
pub open spec fn bump(n: u64) -> u64 {
    if n == u64::MAX {
        0
    } else {
        (n + 1) as u64
    }
}

/// A circuit's neighbour: its address, and the circuit's number there.
#[derive(Debug, Clone, Copy, PartialEq, Eq)]
pub struct HopLink {
    pub cid: u32,
    pub peer: NodeAddr,
}

/// What a link to a neighbour holds.
pub struct HopView {
    pub cid: u32,
    pub peer: AddrView,
}

impl View for HopLink {
    type V = HopView;

    open spec fn view(&self) -> HopView {
        HopView { cid: self.cid, peer: self.peer@ }
    }
}

/// A node's part in a circuit.
pub enum CircuitEntry {
    /// The circuit begins here.
    Origin {
        fwd: Vec<[u8; 32]>,
        bwd: Vec<[u8; 32]>,
        tag: [u8; 16],
        next: HopLink,
        /// The streams whose data are wanted.
        streams: Vec<u16>,
        /// The number of the last cell that came back.
        last_bwd: u32,
    },
    /// The circuit passes through.
    Relay {
        tag: [u8; 16],
        k_fwd: [u8; 32],
        k_bwd: [u8; 32],
        prev: HopLink,
        next: HopLink,
        /// The number of the last cell that came forward.
        last_fwd: u32,
        /// The number of the last cell that came back.
        last_bwd: u32,
    },
    /// The circuit ends here.
    Terminal {
        tag: [u8; 16],
        k_fwd: [u8; 32],
        k_bwd: [u8; 32],
        prev: HopLink,
        /// The number of the last cell that came forward.
        last_fwd: u32,
    },
}

/// What a node's part in a circuit holds.
pub enum CircuitView {
    Origin {
        fwd: Seq<[u8; 32]>,
        bwd: Seq<[u8; 32]>,
        tag: Seq<u8>,
        next: HopView,
        streams: Set<u16>,
        last_bwd: u32,
    },
    Relay {
        tag: Seq<u8>,
        k_fwd: Seq<u8>,
        k_bwd: Seq<u8>,
        prev: HopView,
        next: HopView,
        last_fwd: u32,
        last_bwd: u32,
    },
    Terminal { tag: Seq<u8>, k_fwd: Seq<u8>, k_bwd: Seq<u8>, prev: HopView, last_fwd: u32 },
}

impl View for CircuitEntry {
    type V = CircuitView;

    open spec fn view(&self) -> CircuitView {
        match self {
            CircuitEntry::Origin { fwd, bwd, tag, next, streams, last_bwd } => {
                CircuitView::Origin {
                    fwd: fwd@,
                    bwd: bwd@,
                    tag: tag@,
                    next: next@,
                    streams: streams@.to_set(),
                    last_bwd: *last_bwd,
                }
            },
            CircuitEntry::Relay { tag, k_fwd, k_bwd, prev, next, last_fwd, last_bwd } => {
                CircuitView::Relay {
                    tag: tag@,
                    k_fwd: k_fwd@,
                    k_bwd: k_bwd@,
                    prev: prev@,
                    next: next@,
                    last_fwd: *last_fwd,
                    last_bwd: *last_bwd,
                }
            },
            CircuitEntry::Terminal { tag, k_fwd, k_bwd, prev, last_fwd } => CircuitView::Terminal {
                tag: tag@,
                k_fwd: k_fwd@,
                k_bwd: k_bwd@,
                prev: prev@,
                last_fwd: *last_fwd,
            },
        }
    }
}

/// What a node does.
#[derive(Debug)]
pub enum Action {
    /// It sends a cell.
    Send { to: NodeAddr, cell: Cell },
    /// It wakes who waits for a circuit.
    Wake { cid: u32 },
    /// It hands out data that came over a stream.
    Deliver { cid: u32, stream: u16, data: Vec<u8> },
}

/// What an action holds.
pub enum ActionView {
    Send { to: AddrView, cell: CellView },
    Wake { cid: u32 },
    Deliver { cid: u32, stream: u16, data: Seq<u8> },
}

impl View for Action {
    type V = ActionView;

    open spec fn view(&self) -> ActionView {
        match self {
            Action::Send { to, cell } => ActionView::Send { to: to@, cell: cell@ },
            Action::Wake { cid } => ActionView::Wake { cid: *cid },
            Action::Deliver { cid, stream, data } => ActionView::Deliver {
                cid: *cid,
                stream: *stream,
                data: data@,
            },
        }
    }
}

/// Actions by what they hold.
pub open spec fn action_views(actions: Seq<Action>) -> Seq<ActionView> {
    Seq::new(actions.len(), |i: int| actions[i]@)
}

/// A node.
pub struct Node {
    pub config: NodeConfig,
    pub identity: NodeIdentity,
    pub node_id: NodeId,
    pub own_desc: Descriptor,
    pub dht: Kademlia,
    pub circuits: HashMap<u32, CircuitEntry>,
    /// The circuits that are waited for.
    pub pending: HashSet<u32>,
    pub next_cid: u32,
    pub seq_origin: u32,
    pub stats: Stats,
    pub dht_cache: DescStore,
    pub create_frags: HashMap<u32, FragBuf>,
    pub rng: StdRng,
}

/// What a node holds of circuits.
pub struct NodeView {
    pub circuits: Map<u32, CircuitView>,
    pub pending: Set<u32>,
    pub next_cid: u32,
    pub seq_origin: u32,
    pub stats: Stats,
    /// The headers that are coming in.
    pub frags: Map<u32, Seq<Option<Seq<u8>>>>,
}

/// Circuits by what a node's part in them holds.
pub open spec fn circuit_views(circuits: Map<u32, CircuitEntry>) -> Map<u32, CircuitView> {
    circuits.map_values(|e: CircuitEntry| e@)
}

/// Buffers by their slots.
pub open spec fn frag_views(frags: Map<u32, FragBuf>) -> Map<u32, Seq<Option<Seq<u8>>>> {
    frags.map_values(|f: FragBuf| slots(f.got@))
}

impl View for Node {
    type V = NodeView;

    open spec fn view(&self) -> NodeView {
        NodeView {
            circuits: circuit_views(self.circuits@),
            pending: self.pending@,
            next_cid: self.next_cid,
            seq_origin: self.seq_origin,
            stats: self.stats,
            frags: frag_views(self.create_frags@),
        }
    }
}

/// A circuit that begins here has no more hops than a route can have.
pub open spec fn route_wf(e: CircuitView) -> bool {
    e matches CircuitView::Origin { fwd, .. } ==> fwd.len() <= crate::MAX_HOPS
}

/// A cell without flags.
pub open spec fn plain_cell(cid: u32, cmd: Cmd, payload: Seq<u8>) -> CellView {
    CellView { cid, cmd, flags: 0, payload }
}

impl NodeView {
    /// No circuit that begins here has more hops than a route can have.
    pub open spec fn routes_wf(self) -> bool {
        forall|cid: u32| #[trigger]
            self.circuits.contains_key(cid) ==> route_wf(self.circuits[cid])
    }

    /// The slots of a circuit before a fragment out of `total` comes in.
    pub open spec fn frags_before(self, cid: u32, total: u16) -> Seq<Option<Seq<u8>>> {
        if self.frags.contains_key(cid) && self.frags[cid].len() == total {
            self.frags[cid]
        } else {
            no_frags(total)
        }
    }

    /// The slots of a circuit after the fragment in a cell has come in.
    pub open spec fn frags_with(self, c: CellView) -> Seq<Option<Seq<u8>>> {
        let p = c.payload;
        let total = le_value(p.subrange(0, 2)) as u16;
        let idx = le_value(p.subrange(2, 4)) as u16;
        frag_put(self.frags_before(c.cid, total), idx, p.subrange(4, p.len() as int))
    }

    /// A part of a header has come in. With the last one, the node opens its
    /// layer of the header. The last hop says that the circuit stands, another
    /// hands the rest of the header on. A header that does not open is dropped.
    pub open spec fn create(
        self,
        sphinx_priv: Seq<u8>,
        kem_sk: Seq<u8>,
        from: AddrView,
        c: CellView,
    ) -> (NodeView, Seq<ActionView>) {
        let p = c.payload;
        if p.len() < 4 {
            (self, Seq::empty())
        } else {
            let got = self.frags_with(c);
            if !complete(got) {
                (NodeView { frags: self.frags.insert(c.cid, got), ..self }, Seq::empty())
            } else {
                let v = NodeView { frags: self.frags.remove(c.cid), ..self };
                match peel(sphinx_priv, kem_sk, joined(got)) {
                    None => (v, Seq::empty()),
                    Some(found) => v.join(from, c.cid, found),
                }
            }
        }
    }

    /// The node joins a circuit with what it found in the header.
    pub open spec fn join(self, from: AddrView, cid: u32, found: Peeled) -> (
        NodeView,
        Seq<ActionView>,
    ) {
        let stats = Stats { created: bump(self.stats.created), ..self.stats };
        let prev = HopView { cid, peer: from };
        match found.next {
            None => (
                NodeView {
                    circuits: self.circuits.insert(
                        cid,
                        CircuitView::Terminal {
                            tag: found.tag,
                            k_fwd: found.k_fwd,
                            k_bwd: found.k_bwd,
                            prev,
                            last_fwd: 0,
                        },
                    ),
                    stats,
                    ..self
                },
                seq![
                    ActionView::Send {
                        to: from,
                        cell: plain_cell(cid, Cmd::Created, Seq::empty()),
                    },
                ],
            ),
            Some(f) => {
                let to = AddrView::V4 { ip: f.ip, port: f.port };
                (
                    NodeView {
                        circuits: self.circuits.insert(
                            cid,
                            CircuitView::Relay {
                                tag: found.tag,
                                k_fwd: found.k_fwd,
                                k_bwd: found.k_bwd,
                                prev,
                                next: HopView { cid: self.next_cid, peer: to },
                                last_fwd: 0,
                                last_bwd: 0,
                            },
                        ),
                        next_cid: next_u32(self.next_cid),
                        stats,
                        ..self
                    },
                    create_sends(to, self.next_cid, f.header),
                )
            },
        }
    }

    /// A circuit stands. Who waits for it is woken; else a hop that the circuit
    /// passes through passes it on.
    pub open spec fn created(self, from: AddrView, c: CellView) -> (NodeView, Seq<ActionView>) {
        if self.pending.contains(c.cid) {
            (
                NodeView { pending: self.pending.remove(c.cid), ..self },
                seq![ActionView::Wake { cid: c.cid }],
            )
        } else {
            match circuit_of(self.circuits, c.cid, from) {
                None => (self, Seq::empty()),
                Some(k) => match self.circuits[k] {
                    CircuitView::Relay { prev, .. } => (
                        self,
                        seq![
                            ActionView::Send {
                                to: prev.peer,
                                cell: plain_cell(prev.cid, Cmd::Created, Seq::empty()),
                            },
                        ],
                    ),
                    _ => (self, Seq::empty()),
                },
            }
        }
    }

    /// A circuit is given up. It is forgotten, and its neighbours on both sides
    /// are told.
    pub open spec fn destroy(self, from: AddrView, c: CellView) -> (NodeView, Seq<ActionView>) {
        let v = NodeView {
            stats: Stats { destroyed: bump(self.stats.destroyed), ..self.stats },
            ..self
        };
        match circuit_of(self.circuits, c.cid, from) {
            None => (v, Seq::empty()),
            Some(k) => (
                NodeView { circuits: self.circuits.remove(k), ..v },
                match self.circuits[k] {
                    CircuitView::Relay { prev, next, .. } => seq![
                        destroy_send(prev),
                        destroy_send(next),
                    ],
                    CircuitView::Terminal { prev, .. } => seq![destroy_send(prev)],
                    CircuitView::Origin { .. } => Seq::empty(),
                },
            ),
        }
    }
}

/// The next circuit number.
pub open spec fn next_u32(n: u32) -> u32 {
    if n == u32::MAX {
        0
    } else {
        (n + 1) as u32
    }
}

/// The cells that bring a header to a hop.
pub open spec fn create_sends(to: AddrView, cid: u32, header: Seq<u8>) -> Seq<ActionView> {
    Seq::new(
        frag_count(header.len()),
        |i: int| ActionView::Send { to, cell: plain_cell(cid, Cmd::Create, frag(header, i)) },
    )
}

/// The cell that tells a neighbour to give a circuit up.
pub open spec fn destroy_send(hop: HopView) -> ActionView {
    ActionView::Send { to: hop.peer, cell: plain_cell(hop.cid, Cmd::Destroy, Seq::empty()) }
}

impl Node {
    /// The buffers and the hash table are well formed, and no circuit that
    /// begins here has more hops than a route can have.
    pub open spec fn wf(self) -> bool {
        &&& frags_wf(self.create_frags@)
        &&& self.dht.wf()
        &&& self@.routes_wf()
    }

    /// What neither cells nor random draws change is as it was.
    pub open spec fn same_but_rng(self, before: Node) -> bool {
        &&& self.config == before.config
        &&& self.identity == before.identity
        &&& self.node_id == before.node_id
        &&& self.own_desc == before.own_desc
        &&& self.dht == before.dht
        &&& self.dht_cache == before.dht_cache
    }

    /// What cells do not change is as it was.
    pub open spec fn same_base(self, before: Node) -> bool {
        &&& self.same_but_rng(before)
        &&& self.rng == before.rng
    }

    /// A number for a new circuit.
    pub fn new_cid(&mut self) -> (cid: u32)
        requires
            old(self).wf(),
        ensures
            cid == old(self).next_cid,
            final(self)@ == (NodeView { next_cid: next_u32(cid), ..old(self)@ }),
            final(self).same_base(*old(self)),
            final(self).wf(),
    {
        let cid = self.next_cid;
        self.next_cid = cid.wrapping_add(1);
        cid
    }

    /// A part of a header has come in.
    fn handle_create(&mut self, from: NodeAddr, cell: &Cell) -> (actions: Vec<Action>)
        requires
            old(self).wf(),
        ensures
            final(self).wf(),
            final(self).same_base(*old(self)),
            (final(self)@, action_views(actions@)) == old(self)@.create(
                old(self).identity.sphinx_priv@,
                old(self).identity.kem_sk@,
                from@,
                cell@,
            ),
    {
        broadcast use vstd::std_specs::hash::group_hash_axioms;

        let none: Vec<Action> = Vec::new();
        assert(action_views(none@) =~= Seq::empty());
        let (total, idx, chunk) = match parse_frag(cell.payload.as_slice()) {
            Ok(parts) => parts,
            Err(_) => {
                return none;
            },
        };
        let full = reassemble(cell.cid, idx, total, chunk, &mut self.create_frags);
        assert(self@.circuits == old(self)@.circuits);
        proof {
            assert(crate::cell::frags_before(old(self).create_frags@, cell.cid, total)
                == old(self)@.frags_before(cell.cid, total));
        }
        let header = match full {
            Some(header) => header,
            None => {
                proof {
                    assert(self@.frags =~= old(self)@.frags.insert(
                        cell.cid,
                        slots(self.create_frags@[cell.cid].got@),
                    ));
                }
                return none;
            },
        };
        assert(self@.frags =~= old(self)@.frags.remove(cell.cid));
        let ghost mid = self@;
        let outcome = match process_header(&self.identity, header.as_slice()) {
            Ok(o) => o,
            Err(_) => {
                return none;
            },
        };
        match outcome {
            ProcessOutcome::Terminal { tag, k_fwd, k_bwd } => {
                let prev = HopLink { cid: cell.cid, peer: from };
                let entry = CircuitEntry::Terminal { tag, k_fwd, k_bwd, prev, last_fwd: 0 };
                let ghost e = entry@;
                self.circuits.insert(cell.cid, entry);
                self.stats.created = self.stats.created.wrapping_add(1);
                let reply = Cell { cid: cell.cid, cmd: Cmd::Created, flags: 0, payload: Vec::new() };
                let mut actions: Vec<Action> = Vec::new();
                actions.push(Action::Send { to: from, cell: reply });
                proof {
                    assert(self@.circuits =~= mid.circuits.insert(cell.cid, e));
                    assert(reply@.payload =~= Seq::empty());
                    assert(action_views(actions@) =~= mid.join(from@, cell.cid, outcome@).1);
                }
                actions
            },
            ProcessOutcome::Relay { tag, k_fwd, k_bwd, next_addr, new_header, .. } => {
                let cid = self.next_cid;
                self.next_cid = cid.wrapping_add(1);
                let prev = HopLink { cid: cell.cid, peer: from };
                let next = HopLink { cid, peer: next_addr };
                let entry = CircuitEntry::Relay {
                    tag,
                    k_fwd,
                    k_bwd,
                    prev,
                    next,
                    last_fwd: 0,
                    last_bwd: 0,
                };
                let ghost e = entry@;
                self.circuits.insert(cell.cid, entry);
                self.stats.created = self.stats.created.wrapping_add(1);
                proof {
                    assert(self@.circuits =~= mid.circuits.insert(cell.cid, e));
                }
                create_cells(next_addr, cid, new_header.as_slice())
            },
        }
    }

    /// A circuit stands.
    fn handle_created(&mut self, from: NodeAddr, cell: &Cell) -> (actions: Vec<Action>)
        requires
            old(self).wf(),
        ensures
            final(self).wf(),
            final(self).same_base(*old(self)),
            (final(self)@, action_views(actions@)) == old(self)@.created(from@, cell@),
    {
        broadcast use vstd::std_specs::hash::group_hash_axioms;

        let mut actions: Vec<Action> = Vec::new();
        if self.pending.remove(&cell.cid) {
            actions.push(Action::Wake { cid: cell.cid });
            assert(action_views(actions@) =~= old(self)@.created(from@, cell@).1);
            return actions;
        }
        assert(self@.pending =~= old(self)@.pending);
        if let Some(k) = find_circuit(&self.circuits, cell.cid, &from) {
            if let Some(CircuitEntry::Relay { prev, .. }) = self.circuits.get(&k) {
                let c = Cell { cid: prev.cid, cmd: Cmd::Created, flags: 0, payload: Vec::new() };
                assert(c@.payload =~= Seq::empty());
                actions.push(Action::Send { to: prev.peer, cell: c });
            }
        }
        assert(action_views(actions@) =~= old(self)@.created(from@, cell@).1);
        actions
    }

    /// A circuit is given up.
    fn handle_destroy(&mut self, from: NodeAddr, cell: &Cell) -> (actions: Vec<Action>)
        requires
            old(self).wf(),
        ensures
            final(self).wf(),
            final(self).same_base(*old(self)),
            (final(self)@, action_views(actions@)) == old(self)@.destroy(from@, cell@),
    {
        broadcast use vstd::std_specs::hash::group_hash_axioms;

        let mut actions: Vec<Action> = Vec::new();
        self.stats.destroyed = self.stats.destroyed.wrapping_add(1);
        assert(self@.circuits == old(self)@.circuits);
        if let Some(k) = find_circuit(&self.circuits, cell.cid, &from) {
            let entry = self.circuits.remove(&k);
            assert(self@.circuits =~= old(self)@.circuits.remove(k));
            match entry {
                Some(CircuitEntry::Relay { prev, next, .. }) => {
                    actions.push(destroy_cell(prev));
                    actions.push(destroy_cell(next));
                },
                Some(CircuitEntry::Terminal { prev, .. }) => {
                    actions.push(destroy_cell(prev));
                },
                _ => {},
            }
        }
        assert(action_views(actions@) =~= old(self)@.destroy(from@, cell@).1);
        actions
    }
}

/// The cell that tells a neighbour to give a circuit up.
fn destroy_cell(hop: HopLink) -> (a: Action)
    ensures
        a@ == destroy_send(hop@),
{
    let cell = Cell { cid: hop.cid, cmd: Cmd::Destroy, flags: 0, payload: Vec::new() };
    assert(cell@.payload =~= Seq::empty());
    Action::Send { to: hop.peer, cell }
}

/// The seed of a node's generator: the one that is set, or else the default.
pub fn seed_of(config: &NodeConfig) -> (seed: u64)
    ensures
        seed == match config.rng_seed {
            Some(x) => x,
            None => DEFAULT_SEED,
        },
{
    match config.rng_seed {
        Some(seed) => seed,
        None => DEFAULT_SEED,
    }
}

/// The cells that bring a header to a hop.
pub fn create_cells(to: NodeAddr, cid: u32, header: &[u8]) -> (actions: Vec<Action>)
    ensures
        action_views(actions@) == create_sends(to@, cid, header@),
{
    let frags = fragment(header);
    let mut actions: Vec<Action> = Vec::with_capacity(frags.len());
    let mut i: usize = 0;
    while i < frags.len()
        invariant
            i <= frags@.len(),
            frags@.len() == frag_count(header@.len()),
            forall|j: int| 0 <= j < frags@.len() ==> (#[trigger] frags@[j])@ == frag(header@, j),
            actions@.len() == i,
            forall|j: int|
                0 <= j < i ==> (#[trigger] actions@[j])@ == create_sends(to@, cid, header@)[j],
        decreases frags@.len() - i,
    {
        let mut payload: Vec<u8> = Vec::new();
        crate::bytes::append(&mut payload, frags[i].as_slice());
        assert(payload@ =~= frag(header@, i as int));
        let cell = Cell { cid, cmd: Cmd::Create, flags: 0, payload };
        actions.push(Action::Send { to, cell });
        i += 1;
    }
    assert(action_views(actions@) =~= create_sends(to@, cid, header@));
    actions
}

impl NodeView {
    /// A cell has come in.
    pub open spec fn step(
        self,
        sphinx_priv: Seq<u8>,
        kem_sk: Seq<u8>,
        from: AddrView,
        c: CellView,
    ) -> (NodeView, Seq<ActionView>) {
        match c.cmd {
            Cmd::Create => self.create(sphinx_priv, kem_sk, from, c),
            Cmd::Created => self.created(from, c),
            Cmd::Destroy => self.destroy(from, c),
            Cmd::Relay => self.relay(from, c),
            Cmd::Padding => (
                NodeView {
                    stats: Stats { padding_recv: bump(self.stats.padding_recv), ..self.stats },
                    ..self
                },
                Seq::empty(),
            ),
        }
    }
}

/// The peers among contacts whose descriptors are kept and not too old:
/// identifier, address and link key, in the order of the contacts.
pub open spec fn peers_of(rt: Seq<Contact>, store: Map<Seq<u8>, Descriptor>, now: u64) -> Seq<
    (NodeId, NodeAddr, [u8; 32]),
>
    decreases rt.len(),
{
    if rt.len() == 0 {
        Seq::empty()
    } else {
        let init = peers_of(rt.drop_last(), store, now);
        let id = rt.last().node_id;
        if store.contains_key(id@) && is_fresh(store[id@], now) {
            init.push((id, store[id@].cell_addr, store[id@].link_pub))
        } else {
            init
        }
    }
}

impl Node {
    /// All but the cache of descriptors is as it was.
    pub open spec fn same_but_cache(self, before: Node) -> bool {
        &&& self@ == before@
        &&& self.config == before.config
        &&& self.identity == before.identity
        &&& self.node_id == before.node_id
        &&& self.own_desc == before.own_desc
        &&& self.dht == before.dht
        &&& self.create_frags == before.create_frags
        &&& self.rng == before.rng
    }

    /// A new node on this host, with a fresh identity, drawn from a generator with
    /// the seed of the configuration.
    pub fn spawn(config: NodeConfig, now_unix: u64) -> (node: Node)
        ensures
            node.identity.wf(),
            node.config == config,
            node.set_up(now_unix),
    {
        let mut rng = seed_rng(seed_of(&config));
        let identity = NodeIdentity::random(&mut rng);
        Self::with_identity(config, identity, rng, now_unix)
    }

    /// A new node on this host, with a given identity. It keeps its own
    /// descriptor, knows itself alone, and has no circuits.
    pub fn with_identity(
        config: NodeConfig,
        identity: NodeIdentity,
        rng: StdRng,
        now_unix: u64,
    ) -> (node: Node)
        ensures
            node.config == config,
            node.identity == identity,
            node.rng == rng,
            node.set_up(now_unix),
    {
        let node_id = identity.node_id();
        let cell_addr = NodeAddr::V4 { ip: [127, 0, 0, 1], port: config.cell_port };
        assert(cell_addr.octets() =~= seq![127u8, 0, 0, 1]);
        let own_desc = Descriptor::sign(&identity, cell_addr, config.dht_port, now_unix);
        let mut dht = Kademlia::new(node_id, own_desc);
        dht.keep(own_desc);
        let node = Node {
            config,
            identity,
            node_id,
            own_desc,
            dht,
            circuits: HashMap::new(),
            pending: HashSet::new(),
            next_cid: 1,
            seq_origin: 1,
            stats: Stats::default(),
            dht_cache: DescStore::new(),
            create_frags: HashMap::new(),
            rng,
        };
        proof {
            assert(node@.circuits =~= Map::empty());
            assert(node@.frags =~= Map::empty());
            assert(node@.pending =~= Set::empty());
            assert(node.dht.store@ =~= Map::empty().insert(node_id@, own_desc));
        }
        node
    }

    /// The node is as a new one is.
    pub open spec fn set_up(self, now_unix: u64) -> bool {
        &&& self.wf()
        &&& self.node_id@ == node_id_spec(ed25519_public(self.identity.ed@))
        &&& self.own_desc.node_id@ == self.node_id@
        &&& self.own_desc.ed_pub@ == ed25519_public(self.identity.ed@)
        &&& self.own_desc.link_pub == self.identity.link_pub
        &&& self.own_desc.sphinx_pub == self.identity.sphinx_pub
        &&& self.own_desc.kem_pk == self.identity.kem_pk
        &&& self.own_desc.cell_addr@ == AddrView::V4 {
            ip: seq![127u8, 0, 0, 1],
            port: self.config.cell_port as nat,
        }
        &&& self.own_desc.dht_port == self.config.dht_port
        &&& self.own_desc.ts == now_unix
        &&& self.own_desc.signed()
        &&& self.dht.id == self.node_id
        &&& self.dht.own_desc == self.own_desc
        &&& contact_views(self.dht.rt@) == seq![contact_of(self.own_desc)]
        &&& self.dht.store@ == Map::<Seq<u8>, Descriptor>::empty().insert(
            self.node_id@,
            self.own_desc,
        )
        &&& self.dht_cache@ == Map::<Seq<u8>, Descriptor>::empty()
        &&& self@ == NodeView {
            circuits: Map::empty(),
            pending: Set::empty(),
            next_cid: 1,
            seq_origin: 1,
            stats: Stats {
                created: 0,
                relayed: 0,
                destroyed: 0,
                padding_recv: 0,
                padding_sent: 0,
                drops_sent: 0,
            },
            frags: Map::empty(),
        }
    }

    /// Does what a cell asks for.
    pub fn handle_cell(&mut self, from: NodeAddr, cell: &Cell) -> (actions: Vec<Action>)
        requires
            old(self).wf(),
            cell.payload@.len() <= AEAD_MAX,
        ensures
            final(self).wf(),
            final(self).same_base(*old(self)),
            (final(self)@, action_views(actions@)) == old(self)@.step(
                old(self).identity.sphinx_priv@,
                old(self).identity.kem_sk@,
                from@,
                cell@,
            ),
            cell.cmd == Cmd::Relay ==> old(self)@.added_opens(from@, cell@),
            cell.cmd == Cmd::Relay ==> forall|i: int|
                0 <= i < actions@.len() ==> old(self)@.sized(
                    from@,
                    cell@,
                    (#[trigger] actions@[i])@,
                ),
    {
        match cell.cmd {
            Cmd::Create => self.handle_create(from, cell),
            Cmd::Created => self.handle_created(from, cell),
            Cmd::Destroy => self.handle_destroy(from, cell),
            Cmd::Relay => self.handle_relay(from, cell),
            Cmd::Padding => {
                self.stats.padding_recv = self.stats.padding_recv.wrapping_add(1);
                assert(self@.circuits == old(self)@.circuits);
                let none: Vec<Action> = Vec::new();
                assert(action_views(none@) =~= Seq::empty());
                none
            },
        }
    }

    /// A relay cell has come in.
    fn handle_relay(&mut self, from: NodeAddr, cell: &Cell) -> (actions: Vec<Action>)
        requires
            old(self).wf(),
            cell.payload@.len() <= AEAD_MAX,
        ensures
            final(self).wf(),
            final(self).same_base(*old(self)),
            (final(self)@, action_views(actions@)) == old(self)@.relay(from@, cell@),
            old(self)@.added_opens(from@, cell@),
            forall|i: int|
                0 <= i < actions@.len() ==> old(self)@.sized(
                    from@,
                    cell@,
                    (#[trigger] actions@[i])@,
                ),
    {
        crate::relay::handle(self, from, cell)
    }

    /// Asks for the data of a stream of a circuit that begins here.
    pub fn register_stream(&mut self, cid: u32, stream: u16)
        requires
            old(self).wf(),
        ensures
            final(self).wf(),
            final(self).same_base(*old(self)),
            final(self)@ == old(self)@.with_stream(cid, stream),
    {
        broadcast use vstd::std_specs::hash::group_hash_axioms;

        if let Some(entry) = self.circuits.remove(&cid) {
            let entry = match entry {
                CircuitEntry::Origin { fwd, bwd, tag, next, mut streams, last_bwd } => {
                    if !has_stream(streams.as_slice(), stream) {
                        let ghost before = streams@;
                        streams.push(stream);
                        assert(streams@.to_set() =~= before.to_set().insert(stream)) by {
                            assert(streams@[before.len() as int] == stream);
                            assert forall|s: u16| before.contains(s) implies streams@.contains(
                                s,
                            ) by {
                                let i = choose|i: int| 0 <= i < before.len() && before[i] == s;
                                assert(streams@[i] == s);
                            }
                        }
                    } else {
                        assert(streams@.to_set() =~= streams@.to_set().insert(stream));
                    }
                    CircuitEntry::Origin { fwd, bwd, tag, next, streams, last_bwd }
                },
                other => other,
            };
            let ghost e = entry@;
            self.circuits.insert(cid, entry);
            assert(self@.circuits =~= old(self)@.circuits.insert(cid, e));
        }
        assert(self@.circuits =~= old(self)@.with_stream(cid, stream).circuits);
    }

    /// The nodes that are known with descriptors that are not too old:
    /// identifier, address and link key.
    pub fn route_peers(&self, now_unix: u64) -> (peers: Vec<(NodeId, NodeAddr, [u8; 32])>)
        ensures
            peers@ == peers_of(self.dht.rt@, self.dht.store@, now_unix),
    {
        let mut out: Vec<(NodeId, NodeAddr, [u8; 32])> = Vec::new();
        let ghost rt = self.dht.rt@;
        let mut i: usize = 0;
        assert(rt.take(0).len() == 0);
        while i < self.dht.rt.len()
            invariant
                rt == self.dht.rt@,
                i <= rt.len(),
                out@ == peers_of(rt.take(i as int), self.dht.store@, now_unix),
            decreases rt.len() - i,
        {
            let id = self.dht.rt[i].node_id;
            assert(rt.take(i + 1).drop_last() =~= rt.take(i as int));
            if let Some(d) = self.dht.stored(&id, now_unix) {
                out.push((id, d.cell_addr, d.link_pub));
            }
            i += 1;
        }
        assert(rt.take(i as int) =~= rt);
        out
    }

    /// The descriptor of a node as far as it is at hand and not too old: from the
    /// cache, or else from what the hash table keeps here, which is then cached.
    pub fn lookup_route(&mut self, target: &NodeId, now_unix: u64) -> (d: Option<Descriptor>)
        requires
            old(self).wf(),
        ensures
            final(self).wf(),
            final(self).same_but_cache(*old(self)),
            if old(self).dht_cache@.contains_key(target@) && is_fresh(
                old(self).dht_cache@[target@],
                now_unix,
            ) {
                &&& d == Some(old(self).dht_cache@[target@])
                &&& final(self).dht_cache@ == old(self).dht_cache@
            } else {
                &&& d == old(self).dht.value(target@, now_unix)
                &&& final(self).dht_cache@ == match d {
                    Some(d) => old(self).dht_cache@.insert(target@, d),
                    None => old(self).dht_cache@,
                }
            },
    {
        if let Some(d) = self.dht_cache.get(target) {
            if fresh(&d, now_unix) {
                return Some(d);
            }
        }
        match self.dht.stored(target, now_unix) {
            Some(d) => {
                self.dht_cache.insert(*target, d);
                Some(d)
            },
            None => None,
        }
    }

    /// The descriptor of a node that the hash table was searched for. What was
    /// found is cached, if it is the node's and not too old; else nothing was
    /// found.
    pub fn lookup_found(
        &mut self,
        target: &NodeId,
        found: Option<Descriptor>,
        now_unix: u64,
    ) -> (r: Result<Descriptor, NetError>)
        requires
            old(self).wf(),
        ensures
            final(self).wf(),
            final(self).same_but_cache(*old(self)),
            if found is Some && found->0.node_id@ == target@ && is_fresh(found->0, now_unix) {
                &&& r == Ok::<Descriptor, NetError>(found->0)
                &&& final(self).dht_cache@ == old(self).dht_cache@.insert(target@, found->0)
            } else {
                &&& r == Err::<Descriptor, NetError>(NetError::Timeout)
                &&& final(self).dht_cache@ == old(self).dht_cache@
            },
    {
        if let Some(d) = found {
            if arr_eq(&d.node_id, target) && fresh(&d, now_unix) {
                self.dht_cache.insert(*target, d);
                return Ok(d);
            }
        }
        Err(NetError::Timeout)
    }
}

impl NodeView {
    /// The data of a stream are asked for.
    pub open spec fn with_stream(self, cid: u32, stream: u16) -> NodeView {
        if self.circuits.contains_key(cid) {
            match self.circuits[cid] {
                CircuitView::Origin { fwd, bwd, tag, next, streams, last_bwd } => NodeView {
                    circuits: self.circuits.insert(
                        cid,
                        CircuitView::Origin {
                            fwd,
                            bwd,
                            tag,
                            next,
                            streams: streams.insert(stream),
                            last_bwd,
                        },
                    ),
                    ..self
                },
                _ => self,
            }
        } else {
            self
        }
    }
}

/// A copy of keys.
pub(crate) fn copy_keys(keys: &[[u8; 32]]) -> (out: Vec<[u8; 32]>)
    ensures
        out@ == keys@,
{
    let mut out: Vec<[u8; 32]> = Vec::with_capacity(keys.len());
    let mut i: usize = 0;
    while i < keys.len()
        invariant
            i <= keys@.len(),
            out@ == keys@.take(i as int),
        decreases keys@.len() - i,
    {
        out.push(keys[i]);
        i += 1;
        assert(out@ =~= keys@.take(i as int));
    }
    assert(out@ =~= keys@);
    out
}

impl CircuitEntry {
    /// A copy of the entry.
    pub fn cloned_entry(&self) -> (e: CircuitEntry)
        ensures
            e@ == self@,
    {
        match self {
            CircuitEntry::Origin { fwd, bwd, tag, next, streams, last_bwd } => {
                let mut copied: Vec<u16> = Vec::with_capacity(streams.len());
                copied.extend_from_slice(streams.as_slice());
                assert(copied@ =~= streams@);
                CircuitEntry::Origin {
                    fwd: copy_keys(fwd.as_slice()),
                    bwd: copy_keys(bwd.as_slice()),
                    tag: *tag,
                    next: *next,
                    streams: copied,
                    last_bwd: *last_bwd,
                }
            },
            CircuitEntry::Relay { tag, k_fwd, k_bwd, prev, next, last_fwd, last_bwd } => {
                CircuitEntry::Relay {
                    tag: *tag,
                    k_fwd: *k_fwd,
                    k_bwd: *k_bwd,
                    prev: *prev,
                    next: *next,
                    last_fwd: *last_fwd,
                    last_bwd: *last_bwd,
                }
            },
            CircuitEntry::Terminal { tag, k_fwd, k_bwd, prev, last_fwd } => CircuitEntry::Terminal {
                tag: *tag,
                k_fwd: *k_fwd,
                k_bwd: *k_bwd,
                prev: *prev,
                last_fwd: *last_fwd,
            },
        }
    }
}

/// A circuit is set up in one pass. When the last part of a header reaches hop
/// `i` of the route that the header was built for, the hop takes its part in the
/// circuit with the keys that the maker of the header kept for it, in the order
/// of the route, and remembers who sent the header. Each hop but the last sends
/// the next hop's header to the next hop's address; the last one answers that
/// the circuit stands.
pub proof fn law_hop_joins(
    plan: Plan,
    b: BuiltHeader,
    ids: Seq<NodeIdentity>,
    i: nat,
    v: NodeView,
    from: AddrView,
    c: CellView,
)
    requires
        plan.wf(),
        plan.reduced(),
        plan.layers_open(),
        plan.points_multiply(),
        plan.built(b),
        plan.followed_by(ids),
        i < plan.route.len(),
        c.payload.len() >= 4,
        complete(v.frags_with(c)),
        Some(joined(v.frags_with(c))) == header_at(ids, b.header@, i),
    ensures
        ({
            let hop = ids[i as int];
            let (after, actions) = v.create(hop.sphinx_priv@, hop.kem_sk@, from, c);
            let prev = HopView { cid: c.cid, peer: from };
            if i + 1 < plan.route.len() {
                let addr = plan.route[(i + 1) as int].cell_addr;
                let to = AddrView::V4 { ip: addr.octets(), port: addr.port_spec() as nat };
                &&& after.circuits[c.cid] == CircuitView::Relay {
                    tag: b.tag@,
                    k_fwd: b.fwd_keys@[i as int]@,
                    k_bwd: b.bwd_keys@[i as int]@,
                    prev,
                    next: HopView { cid: v.next_cid, peer: to },
                    last_fwd: 0,
                    last_bwd: 0,
                }
                &&& header_at(ids, b.header@, i + 1) is Some
                &&& actions == create_sends(
                    to,
                    v.next_cid,
                    header_at(ids, b.header@, i + 1)->0,
                )
            } else {
                &&& after.circuits[c.cid] == CircuitView::Terminal {
                    tag: b.tag@,
                    k_fwd: b.fwd_keys@[i as int]@,
                    k_bwd: b.bwd_keys@[i as int]@,
                    prev,
                    last_fwd: 0,
                }
                &&& actions == seq![
                    ActionView::Send {
                        to: from,
                        cell: plain_cell(c.cid, Cmd::Created, Seq::empty()),
                    },
                ]
            }
        }),
{
    law_route(plan, b, ids, i);
}

/// The cells that bring a header to a hop add up to it: where those with some
/// numbers have come in, one more fills its slot. Nothing has come in where
/// nothing is kept.
pub proof fn law_header_collects(v: NodeView, cid: u32, header: Seq<u8>, order: Seq<u16>, i: u16)
    requires
        header.len() <= 65535 * FRAG_CHUNK,
        i < frag_count(header.len()),
    ensures
        !v.frags.contains_key(cid) ==> v.frags_before(cid, frag_count(header.len()) as u16)
            == frag_run(header, Seq::empty()),
        v.frags_before(cid, frag_count(header.len()) as u16) == frag_run(header, order)
            ==> v.frags_with(plain_cell(cid, Cmd::Create, frag(header, i as int))) == frag_run(
            header,
            order.push(i),
        ),
{
    law_fragment_parts(header, i);
    assert(order.push(i).drop_last() =~= order);
}

/// The cells that bring a header to a hop can be sent.
pub proof fn law_header_fits(to: AddrView, cid: u32, header: Seq<u8>, i: int)
    requires
        0 <= i < create_sends(to, cid, header).len(),
    ensures
        create_sends(to, cid, header)[i] matches ActionView::Send { cell, .. } && cell.wf(),
{
    law_fragment_parts(header, i as u16);
}

/// Whatever a cell makes a node send can be sent, relay cells aside, whose length
/// follows from that of the cell.
pub proof fn law_step_fits(
    v: NodeView,
    sphinx_priv: Seq<u8>,
    kem_sk: Seq<u8>,
    from: AddrView,
    c: CellView,
    i: int,
)
    requires
        c.cmd != Cmd::Relay,
        0 <= i < v.step(sphinx_priv, kem_sk, from, c).1.len(),
    ensures
        v.step(sphinx_priv, kem_sk, from, c).1[i] matches ActionView::Send { cell, .. }
            ==> cell.wf(),
{
    if c.cmd == Cmd::Create && c.payload.len() >= 4 && complete(v.frags_with(c)) {
        if let Some(found) = peel(sphinx_priv, kem_sk, joined(v.frags_with(c))) {
            if let Some(f) = found.next {
                let to = AddrView::V4 { ip: f.ip, port: f.port };
                law_header_fits(to, v.next_cid, f.header, i);
            }
        }
    }
}

/// The news that a circuit stands wakes who waits for that circuit, and nobody
/// else: every other circuit that is waited for still is, and nothing else that
/// the node holds changes. Where nobody waits, nobody is woken.
pub proof fn law_created_wakes_one(v: NodeView, from: AddrView, c: CellView, k: u32)
    ensures
        ({
            let (after, actions) = v.created(from, c);
            &&& k != c.cid ==> (after.pending.contains(k) <==> v.pending.contains(k))
            &&& !after.pending.contains(c.cid)
            &&& v.pending.contains(c.cid) ==> actions == seq![ActionView::Wake { cid: c.cid }]
            &&& !v.pending.contains(c.cid) ==> forall|i: int|
                0 <= i < actions.len() ==> (#[trigger] actions[i]) !is Wake
            &&& after.circuits == v.circuits
            &&& after.frags == v.frags
            &&& after.stats == v.stats
            &&& after.next_cid == v.next_cid
            &&& after.seq_origin == v.seq_origin
        }),
{
}

/// Of two circuits that are waited for at once, each is woken by its own news, in
/// whichever order they come, and then neither is waited for.
pub proof fn law_created_wakes_both(
    v: NodeView,
    from: AddrView,
    a: CellView,
    other: AddrView,
    b: CellView,
)
    requires
        a.cid != b.cid,
        v.pending.contains(a.cid),
        v.pending.contains(b.cid),
    ensures
        v.created(from, a).1 == seq![ActionView::Wake { cid: a.cid }],
        v.created(from, a).0.created(other, b).1 == seq![ActionView::Wake { cid: b.cid }],
        v.created(from, a).0.created(other, b).0 == v.created(other, b).0.created(from, a).0,
        forall|k: u32|
            #[trigger] v.created(from, a).0.created(other, b).0.pending.contains(k) <==> (
            v.pending.contains(k) && k != a.cid && k != b.cid),
{
    assert(v.created(from, a).0.created(other, b).0.pending =~= v.created(other, b).0.created(
        from,
        a,
    ).0.pending);
}

/// A cell touches one circuit at most. A circuit that the cell does not belong to
/// is as it was, whether it stands, is waited for, or is being set up.
pub proof fn law_step_touches_one(
    v: NodeView,
    sphinx_priv: Seq<u8>,
    kem_sk: Seq<u8>,
    from: AddrView,
    c: CellView,
    k: u32,
)
    requires
        k != c.cid,
        circuit_of(v.circuits, c.cid, from) != Some(k),
    ensures
        ({
            let after = v.step(sphinx_priv, kem_sk, from, c).0;
            &&& after.circuits.contains_key(k) <==> v.circuits.contains_key(k)
            &&& v.circuits.contains_key(k) ==> after.circuits[k] == v.circuits[k]
            &&& after.pending.contains(k) <==> v.pending.contains(k)
            &&& after.frags.contains_key(k) <==> v.frags.contains_key(k)
            &&& v.frags.contains_key(k) ==> after.frags[k] == v.frags[k]
            &&& after.seq_origin == v.seq_origin
        }),
{
}

/// A node takes part in a circuit where the last part of a header has come in
/// that opens for it, and not else. It then knows who sent the header and under
/// which number, has seen no cell of the circuit, and acts; else it does nothing.
pub proof fn law_joins_what_opens(
    v: NodeView,
    sphinx_priv: Seq<u8>,
    kem_sk: Seq<u8>,
    from: AddrView,
    c: CellView,
)
    ensures
        ({
            let (after, actions) = v.create(sphinx_priv, kem_sk, from, c);
            let found = peel(sphinx_priv, kem_sk, joined(v.frags_with(c)));
            if c.payload.len() >= 4 && complete(v.frags_with(c)) && found is Some {
                &&& !after.frags.contains_key(c.cid)
                &&& after.circuits.contains_key(c.cid)
                &&& match after.circuits[c.cid] {
                    CircuitView::Terminal { tag, k_fwd, k_bwd, prev, last_fwd } => {
                        &&& found->0.next is None
                        &&& (tag, k_fwd, k_bwd) == (found->0.tag, found->0.k_fwd, found->0.k_bwd)
                        &&& (prev.cid, prev.peer, last_fwd) == (c.cid, from, 0u32)
                        &&& after.next_cid == v.next_cid
                        &&& actions.len() == 1
                        &&& actions[0] matches ActionView::Send { to, cell } && to == from
                            && cell.cid == c.cid && cell.cmd == Cmd::Created && cell.payload.len()
                            == 0
                    },
                    CircuitView::Relay { tag, k_fwd, k_bwd, prev, next, last_fwd, last_bwd } => {
                        &&& found->0.next matches Some(f) && next.peer == (AddrView::V4 {
                            ip: f.ip,
                            port: f.port,
                        })
                        &&& (tag, k_fwd, k_bwd) == (found->0.tag, found->0.k_fwd, found->0.k_bwd)
                        &&& (prev.cid, prev.peer) == (c.cid, from)
                        &&& (last_fwd, last_bwd) == (0u32, 0u32)
                        &&& next.cid == v.next_cid
                        &&& after.next_cid as int == (v.next_cid + 1) % 0x1_0000_0000
                        &&& forall|i: int|
                            0 <= i < actions.len() ==> ((#[trigger] actions[i]) matches ActionView::Send {
                                to,
                                cell,
                            } && to == next.peer && cell.cid == next.cid && cell.cmd
                                == Cmd::Create)
                    },
                    CircuitView::Origin { .. } => false,
                }
            } else {
                &&& actions.len() == 0
                &&& after.circuits == v.circuits
                &&& after.stats == v.stats
                &&& after.next_cid == v.next_cid
            }
        }),
{
}

/// The cells that bring a header to a hop bring all of it: each goes to the hop
/// under the circuit's number, tells how many there are and which one it is, and
/// what they hold, one behind the other, is the header.
pub proof fn law_header_sent(to: AddrView, cid: u32, header: Seq<u8>)
    requires
        header.len() <= 65535 * FRAG_CHUNK,
    ensures
        ({
            let sends = create_sends(to, cid, header);
            &&& sends.len() >= 1
            &&& forall|i: int|
                0 <= i < sends.len() ==> {
                    &&& (#[trigger] sends[i]) matches ActionView::Send { to: t, cell } && t == to
                        && cell.cid == cid && cell.cmd == Cmd::Create && cell.flags == 0
                    &&& le_value(sends[i]->cell.payload.subrange(0, 2)) == sends.len()
                    &&& le_value(sends[i]->cell.payload.subrange(2, 4)) == i
                }
            &&& joined(
                Seq::new(
                    sends.len(),
                    |i: int|
                        Some(
                            sends[i]->cell.payload.subrange(
                                4,
                                sends[i]->cell.payload.len() as int,
                            ),
                        ),
                ),
            ) == header
        }),
{
    let sends = create_sends(to, cid, header);
    let n = frag_count(header.len());
    assert(FRAG_CHUNK == 1268);
    assert(n >= 1);
    assert forall|i: int| 0 <= i < n implies {
        &&& (#[trigger] sends[i]) matches ActionView::Send { to: t, cell } && t == to && cell.cid
            == cid && cell.cmd == Cmd::Create && cell.flags == 0
        &&& le_value(sends[i]->cell.payload.subrange(0, 2)) == n
        &&& le_value(sends[i]->cell.payload.subrange(2, 4)) == i
    } by {
        law_fragment_parts(header, i as u16);
    }
    let order = Seq::new(n, |i: int| i as u16);
    law_fragments_any_order(header, order);
    assert forall|i: u16| i < n implies #[trigger] order.contains(i) by {
        assert(order[i as int] == i);
    }
    let got = frag_run(header, order);
    let held = Seq::new(
        sends.len(),
        |i: int|
            Some(sends[i]->cell.payload.subrange(4, sends[i]->cell.payload.len() as int)),
    );
    crate::cell::lemma_frag_run(header, order);
    assert forall|i: int| 0 <= i < n implies held[i] == #[trigger] got[i] by {
        law_fragment_parts(header, i as u16);
        assert(order.contains(i as u16));
    }
    assert(held =~= got);
}

/// What a cell is counted as: padding, the end of a circuit, a circuit that was
/// joined, or a relay cell of a circuit. Nothing else is counted.
pub proof fn law_counts(
    v: NodeView,
    sphinx_priv: Seq<u8>,
    kem_sk: Seq<u8>,
    from: AddrView,
    c: CellView,
)
    ensures
        ({
            let (s, t) = (v.stats, v.step(sphinx_priv, kem_sk, from, c).0.stats);
            let joins = c.cmd == Cmd::Create && c.payload.len() >= 4 && complete(v.frags_with(c))
                && peel(sphinx_priv, kem_sk, joined(v.frags_with(c))) is Some;
            let relays = c.cmd == Cmd::Relay && relay_parts(c.payload) is Some && circuit_of(
                v.circuits,
                c.cid,
                from,
            ) is Some;
            &&& counted(s.created, t.created, joins)
            &&& counted(s.relayed, t.relayed, relays)
            &&& counted(s.destroyed, t.destroyed, c.cmd == Cmd::Destroy)
            &&& counted(s.padding_recv, t.padding_recv, c.cmd == Cmd::Padding)
            &&& t.padding_sent == s.padding_sent
            &&& t.drops_sent == s.drops_sent
        }),
{
}

/// A count went on by one, from the highest number to zero, or stayed.
pub open spec fn counted(before: u64, after: u64, on: bool) -> bool {
    after as int == if on {
        (before + 1) % 0x1_0000_0000_0000_0000
    } else {
        before as int
    }
}

/// Padding is counted and has no other effect.
pub proof fn law_padding_only_counts(
    v: NodeView,
    sphinx_priv: Seq<u8>,
    kem_sk: Seq<u8>,
    from: AddrView,
    c: CellView,
)
    requires
        c.cmd == Cmd::Padding,
    ensures
        ({
            let (after, actions) = v.step(sphinx_priv, kem_sk, from, c);
            &&& actions.len() == 0
            &&& after == (NodeView { stats: after.stats, ..v })
        }),
{
}

/// Asking for the data of a stream adds that stream to a circuit that begins
/// here, and changes nothing else.
pub proof fn law_stream_is_added(v: NodeView, cid: u32, stream: u16, k: u32, other: u16)
    ensures
        ({
            let after = v.with_stream(cid, stream);
            &&& after == (NodeView { circuits: after.circuits, ..v })
            &&& after.circuits.contains_key(k) <==> v.circuits.contains_key(k)
            &&& v.circuits.contains_key(k) && (k != cid || v.circuits[k] !is Origin)
                ==> after.circuits[k] == v.circuits[k]
            &&& v.circuits.contains_key(cid) ==> (v.circuits[cid] matches CircuitView::Origin {
                fwd,
                bwd,
                tag,
                next,
                streams,
                last_bwd,
            } ==> {
                &&& after.circuits[cid] matches CircuitView::Origin {
                    fwd: f,
                    bwd: b,
                    tag: t,
                    next: n,
                    streams: wanted,
                    last_bwd: l,
                }
                &&& (f, b, t, n, l) == (fwd, bwd, tag, next, last_bwd)
                &&& wanted.contains(other) <==> (streams.contains(other) || other == stream)
            })
        }),
{
}

/// The peers are the contacts whose descriptors are kept and no older than a day,
/// each with the address and the link key of its descriptor, and nobody else.
pub proof fn law_peers_are_known(
    rt: Seq<Contact>,
    store: Map<Seq<u8>, Descriptor>,
    now: u64,
    p: (NodeId, NodeAddr, [u8; 32]),
)
    ensures
        peers_of(rt, store, now).contains(p) <==> {
            &&& exists|i: int| 0 <= i < rt.len() && (#[trigger] rt[i]).node_id == p.0
            &&& store.contains_key(p.0@)
            &&& now <= store[p.0@].ts + 86400
            &&& p.1 == store[p.0@].cell_addr
            &&& p.2 == store[p.0@].link_pub
        },
    decreases rt.len(),
{
    let peers = peers_of(rt, store, now);
    if rt.len() > 0 {
        let init = rt.drop_last();
        let before = peers_of(init, store, now);
        law_peers_are_known(init, store, now, p);
        if before.contains(p) {
            let j = choose|j: int| 0 <= j < before.len() && before[j] == p;
            assert(peers[j] == p);
            let i = choose|i: int| 0 <= i < init.len() && (#[trigger] init[i]).node_id == p.0;
            assert(rt[i].node_id == p.0);
        }
        if peers.contains(p) && !before.contains(p) {
            let j = choose|j: int| 0 <= j < peers.len() && peers[j] == p;
            if j < before.len() {
                assert(before[j] == p);
            }
            assert(rt[rt.len() - 1].node_id == p.0);
        }
        if exists|i: int| 0 <= i < rt.len() && (#[trigger] rt[i]).node_id == p.0 {
            let i = choose|i: int| 0 <= i < rt.len() && (#[trigger] rt[i]).node_id == p.0;
            if i < init.len() {
                assert(init[i].node_id == p.0);
            } else if store.contains_key(p.0@) && now <= store[p.0@].ts + 86400 && p.1
                == store[p.0@].cell_addr && p.2 == store[p.0@].link_pub {
                assert(peers[peers.len() - 1] == p);
            }
        }
    }
}

/// Each peer is listed once, in the order of the contacts, where no contact is
/// known twice.
pub proof fn law_peers_in_order(
    rt: Seq<Contact>,
    store: Map<Seq<u8>, Descriptor>,
    now: u64,
    a: int,
    b: int,
    i: int,
    j: int,
)
    requires
        unique_ids(rt),
        0 <= a < b < peers_of(rt, store, now).len(),
        0 <= i < rt.len(),
        0 <= j < rt.len(),
        rt[i].node_id == peers_of(rt, store, now)[a].0,
        rt[j].node_id == peers_of(rt, store, now)[b].0,
    ensures
        i < j,
    decreases rt.len(),
{
    let init = rt.drop_last();
    let before = peers_of(init, store, now);
    let peers = peers_of(rt, store, now);
    assert(before[a] == peers[a]);
    law_peers_are_known(init, store, now, before[a]);
    assert(before.contains(before[a]));
    let x = choose|x: int| 0 <= x < init.len() && (#[trigger] init[x]).node_id == before[a].0;
    assert(rt[x].node_id == rt[i].node_id);
    if x != i {
        assert(rt[x].node_id@ != rt[i].node_id@);
    }
    if b < before.len() {
        assert(before[b] == peers[b]);
        law_peers_are_known(init, store, now, before[b]);
        assert(before.contains(before[b]));
        let y = choose|y: int| 0 <= y < init.len() && (#[trigger] init[y]).node_id == before[b].0;
        assert(rt[y].node_id == rt[j].node_id);
        if y != j {
            assert(rt[y].node_id@ != rt[j].node_id@);
        }
        assert(unique_ids(init)) by {
            assert forall|p: int, q: int| 0 <= p < q < init.len() implies (
            #[trigger] init[p]).node_id@ != (#[trigger] init[q]).node_id@ by {
                assert(rt[p].node_id@ != rt[q].node_id@);
            }
        }
        law_peers_in_order(init, store, now, a, b, i, j);
    } else {
        let last = rt.len() - 1;
        assert(peers[b].0 == rt[last].node_id);
        if j != last {
            assert(rt[j].node_id@ != rt[last].node_id@);
        }
    }
}

/// A new node stands in the hash table by itself: it keeps its own descriptor,
/// which others accept as it is, gives it out for a day, and is its own only peer
/// and contact. It waits for nothing and takes part in nothing.
pub proof fn law_new_node(node: Node, now: u64, at: u64)
    requires
        node.set_up(now),
        at <= now + 86400,
    ensures
        node.dht.value(node.node_id@, at) == Some(node.own_desc),
        crate::identity::desc_error(node.own_desc.bytes_spec()) is None,
        node.own_desc.node_id == node.node_id,
        node.dht.rt@.len() == 1,
        node.dht.rt@[0].node_id == node.node_id,
        peers_of(node.dht.rt@, node.dht.store@, at) == seq![
            (node.node_id, node.own_desc.cell_addr, node.own_desc.link_pub),
        ],
        forall|k: u32| !(#[trigger] node@.circuits.contains_key(k)),
        forall|k: u32| !(#[trigger] node@.pending.contains(k)),
        forall|k: u32| !(#[trigger] node@.frags.contains_key(k)),
        node@.next_cid == 1,
        node@.seq_origin == 1,
        node@.stats == (Stats {
            created: 0,
            relayed: 0,
            destroyed: 0,
            padding_recv: 0,
            padding_sent: 0,
            drops_sent: 0,
        }),
        node.node_id@ == crate::primitives::sha256(ed25519_public(node.identity.ed@)).subrange(
            0,
            20,
        ),
        node.own_desc.link_pub == node.identity.link_pub,
        node.own_desc.sphinx_pub == node.identity.sphinx_pub,
        node.own_desc.kem_pk == node.identity.kem_pk,
        node.own_desc.ts == now,
        node.own_desc.dht_port == node.config.dht_port,
        node.own_desc.cell_addr matches NodeAddr::V4 { ip, port } && ip@ == seq![127u8, 0, 0, 1]
            && port == node.config.cell_port,
        node.dht.rt@[0].ip@ == seq![127u8, 0, 0, 1],
        node.dht.rt@[0].dht_port == node.config.dht_port,
        forall|k: Seq<u8>| !(#[trigger] node.dht_cache@.contains_key(k)),
{
    let rt = node.dht.rt@;
    assert(contact_views(rt).len() == 1);
    assert(rt[0]@ == contact_views(rt)[0]);
    lemma_arr_ext(rt[0].node_id, node.node_id);
    lemma_arr_ext(node.own_desc.node_id, node.node_id);
    crate::identity::law_descriptor_roundtrip(node.own_desc);
    assert(rt.drop_last() =~= Seq::<Contact>::empty());
    let peers = peers_of(rt, node.dht.store@, at);
    assert(peers_of(rt.drop_last(), node.dht.store@, at) =~= Seq::empty());
    assert(peers =~= seq![(node.node_id, node.own_desc.cell_addr, node.own_desc.link_pub)]);
}

/// What a kind of cell cannot change: who waits for a circuit changes only with
/// the news that one stands, the parts of headers and the next number only with a
/// part of a header, and the circuits with neither padding nor such news. The
/// numbers of cells that begin here never change with one that comes in.
pub proof fn law_step_keeps_rest(
    v: NodeView,
    sphinx_priv: Seq<u8>,
    kem_sk: Seq<u8>,
    from: AddrView,
    c: CellView,
)
    ensures
        ({
            let after = v.step(sphinx_priv, kem_sk, from, c).0;
            &&& c.cmd != Cmd::Created ==> after.pending == v.pending
            &&& c.cmd != Cmd::Create ==> after.frags == v.frags && after.next_cid == v.next_cid
            &&& c.cmd == Cmd::Created || c.cmd == Cmd::Padding ==> after.circuits == v.circuits
            &&& after.seq_origin == v.seq_origin
        }),
{
}

/// A cell tells a neighbour of a circuit to give it up.
pub open spec fn gives_up(a: ActionView, hop: HopView) -> bool {
    a matches ActionView::Send { to, cell } && to == hop.peer && cell.cid == hop.cid && cell.cmd
        == Cmd::Destroy && cell.flags == 0 && cell.payload.len() == 0
}

/// A circuit that is given up is forgotten, and no other. The neighbours on both
/// sides are told to give it up, each under its own number. Where the cell belongs
/// to no circuit, nothing is forgotten and nobody is told.
pub proof fn law_destroy_forgets(v: NodeView, from: AddrView, c: CellView, k: u32)
    ensures
        ({
            let (after, actions) = v.destroy(from, c);
            let circuit = circuit_of(v.circuits, c.cid, from);
            &&& circuit != Some(k) ==> {
                &&& after.circuits.contains_key(k) <==> v.circuits.contains_key(k)
                &&& v.circuits.contains_key(k) ==> after.circuits[k] == v.circuits[k]
            }
            &&& circuit == Some(k) ==> !after.circuits.contains_key(k)
            &&& circuit is None ==> actions.len() == 0
            &&& circuit matches Some(own) ==> match v.circuits[own] {
                CircuitView::Relay { prev, next, .. } => actions.len() == 2 && gives_up(
                    actions[0],
                    prev,
                ) && gives_up(actions[1], next),
                CircuitView::Terminal { prev, .. } => actions.len() == 1 && gives_up(
                    actions[0],
                    prev,
                ),
                CircuitView::Origin { .. } => actions.len() == 0,
            }
        }),
{
}

/// A part of a header goes to its place among those of its circuit. What was
/// there stays, and parts of a header with another number of parts are given up.
/// While one is missing, the node only waits; with the last one, the parts are
/// gone, and the node acts where the header opens.
pub proof fn law_parts_collected(
    v: NodeView,
    sphinx_priv: Seq<u8>,
    kem_sk: Seq<u8>,
    from: AddrView,
    c: CellView,
    i: int,
)
    ensures
        ({
            let (after, actions) = v.create(sphinx_priv, kem_sk, from, c);
            let p = c.payload;
            let total = le_value(p.subrange(0, 2));
            let had = v.frags.contains_key(c.cid) && v.frags[c.cid].len() == total;
            let all = v.frags_with(c);
            if p.len() < 4 {
                after == v && actions.len() == 0
            } else {
                &&& all.len() == total
                &&& 0 <= i < total ==> all[i] == if had && v.frags[c.cid][i] is Some {
                    v.frags[c.cid][i]
                } else if i == le_value(p.subrange(2, 4)) {
                    Some(p.subrange(4, p.len() as int))
                } else {
                    None
                }
                &&& 0 <= i < total && all[i] is None ==> {
                    &&& after.frags == v.frags.insert(c.cid, all)
                    &&& after.circuits == v.circuits
                    &&& actions.len() == 0
                }
                &&& (forall|k: int| 0 <= k < total ==> #[trigger] all[k] is Some) ==> {
                    &&& after.frags == v.frags.remove(c.cid)
                    &&& peel(sphinx_priv, kem_sk, joined(all)) is Some <==> after.stats != v.stats
                    &&& peel(sphinx_priv, kem_sk, joined(all)) is None ==> actions.len() == 0
                }
            }
        }),
{
    let p = c.payload;
    if p.len() >= 4 {
        crate::bytes::lemma_pow256();
        crate::bytes::lemma_le_bytes_of_value(p.subrange(0, 2));
        crate::bytes::lemma_le_bytes_of_value(p.subrange(2, 4));
    }
}

/// A hop that is not the last hands the whole header on that it found: its cells
/// go to the next hop under a number that the node gives, each tells how many there
/// are and which one it is, and together they hold that header.
pub proof fn law_header_handed_on(v: NodeView, from: AddrView, cid: u32, found: Peeled)
    requires
        found.next matches Some(f) && f.header.len() <= 65535 * FRAG_CHUNK,
    ensures
        ({
            let sends = v.join(from, cid, found).1;
            let f = found.next->0;
            &&& sends.len() >= 1
            &&& forall|i: int|
                0 <= i < sends.len() ==> {
                    &&& (#[trigger] sends[i]) matches ActionView::Send { to, cell } && to
                        == (AddrView::V4 { ip: f.ip, port: f.port }) && cell.cid == v.next_cid
                        && cell.cmd == Cmd::Create && cell.flags == 0
                    &&& le_value(sends[i]->cell.payload.subrange(0, 2)) == sends.len()
                    &&& le_value(sends[i]->cell.payload.subrange(2, 4)) == i
                }
            &&& joined(
                Seq::new(
                    sends.len(),
                    |i: int|
                        Some(
                            sends[i]->cell.payload.subrange(
                                4,
                                sends[i]->cell.payload.len() as int,
                            ),
                        ),
                ),
            ) == f.header
        }),
{
    let f = found.next->0;
    law_header_sent(AddrView::V4 { ip: f.ip, port: f.port }, v.next_cid, f.header);
}

/// What a cell that comes in, or a message that is sent, leaves as it is: how the
/// node is set up, its keys, its descriptor, what it knows and keeps of others,
/// and what it draws next.
pub proof fn law_base_kept(after: Node, before: Node)
    requires
        after.same_base(before),
    ensures
        after.config == before.config,
        after.identity == before.identity,
        after.node_id == before.node_id,
        after.own_desc == before.own_desc,
        after.dht == before.dht,
        after.dht_cache == before.dht_cache,
        after.rng == before.rng,
{
}

/// What a random draw leaves as it is: all of that but what is drawn next.
pub proof fn law_draw_keeps(after: Node, before: Node)
    requires
        after.same_but_rng(before),
    ensures
        after.config == before.config,
        after.identity == before.identity,
        after.node_id == before.node_id,
        after.own_desc == before.own_desc,
        after.dht == before.dht,
        after.dht_cache == before.dht_cache,
{
}

/// What looking a descriptor up leaves as it is: everything but the cache.
pub proof fn law_cache_apart(after: Node, before: Node)
    requires
        after.same_but_cache(before),
    ensures
        after@ == before@,
        after.config == before.config,
        after.identity == before.identity,
        after.node_id == before.node_id,
        after.own_desc == before.own_desc,
        after.dht == before.dht,
        after.create_frags == before.create_frags,
        after.rng == before.rng,
{
}

/// Where nobody waits for a circuit, the news that it stands is passed on to the
/// hop before, under the number there, where the circuit passes through the node.
/// At its end, and where the news belongs to no circuit, it goes nowhere.
pub proof fn law_created_passes_on(v: NodeView, from: AddrView, c: CellView)
    requires
        !v.pending.contains(c.cid),
    ensures
        ({
            let (after, actions) = v.created(from, c);
            let circuit = circuit_of(v.circuits, c.cid, from);
            &&& after == v
            &&& if circuit is Some && v.circuits[circuit->0] is Relay {
                let prev = v.circuits[circuit->0]->Relay_prev;
                &&& actions.len() == 1
                &&& actions[0] matches ActionView::Send { to, cell } && to == prev.peer && cell.cid
                    == prev.cid && cell.cmd == Cmd::Created && cell.flags == 0
                    && cell.payload.len() == 0
            } else {
                actions.len() == 0
            }
        }),
{
}

/// What a node is taken to hold of circuits is what it holds.
pub proof fn law_node_shown(node: Node, k: u32)
    ensures
        node@.circuits.contains_key(k) <==> node.circuits@.contains_key(k),
        node.circuits@.contains_key(k) ==> node@.circuits[k] == node.circuits@[k]@,
        node@.pending.contains(k) <==> node.pending@.contains(k),
        node@.frags.contains_key(k) <==> node.create_frags@.contains_key(k),
        node.create_frags@.contains_key(k) ==> {
            let got = node.create_frags@[k].got@;
            &&& node@.frags[k].len() == got.len()
            &&& forall|i: int|
                0 <= i < got.len() ==> #[trigger] node@.frags[k][i] == match got[i] {
                    Some(c) => Some(c@),
                    None => None,
                }
        },
        node@.next_cid == node.next_cid,
        node@.seq_origin == node.seq_origin,
        node@.stats == node.stats,
{
}

/// What a node's part in a circuit is taken to hold is what it holds.
pub proof fn law_entry_shown(e: CircuitEntry, stream: u16)
    ensures
        match e {
            CircuitEntry::Origin { fwd, bwd, tag, next, streams, last_bwd } => {
                &&& e@ matches CircuitView::Origin {
                    fwd: f,
                    bwd: b,
                    tag: t,
                    next: n,
                    streams: s,
                    last_bwd: l,
                } && f == fwd@ && b == bwd@ && t == tag@ && (n.cid, n.peer) == (
                    next.cid,
                    next.peer@,
                ) && l == last_bwd && (s.contains(stream) <==> exists|i: int|
                    0 <= i < streams@.len() && #[trigger] streams@[i] == stream)
            },
            CircuitEntry::Relay { tag, k_fwd, k_bwd, prev, next, last_fwd, last_bwd } => {
                &&& e@ matches CircuitView::Relay {
                    tag: t,
                    k_fwd: f,
                    k_bwd: b,
                    prev: p,
                    next: n,
                    last_fwd: lf,
                    last_bwd: lb,
                } && f == k_fwd@ && b == k_bwd@ && t == tag@ && (n.cid, n.peer) == (
                    next.cid,
                    next.peer@,
                ) && (p.cid, p.peer) == (prev.cid, prev.peer@) && (lf, lb) == (last_fwd, last_bwd)
            },
            CircuitEntry::Terminal { tag, k_fwd, k_bwd, prev, last_fwd } => {
                &&& e@ matches CircuitView::Terminal {
                    tag: t,
                    k_fwd: f,
                    k_bwd: b,
                    prev: p,
                    last_fwd: l,
                } && f == k_fwd@ && b == k_bwd@ && t == tag@ && (p.cid, p.peer) == (
                    prev.cid,
                    prev.peer@,
                ) && l == last_fwd
            },
        },
{
}

/// What actions are taken to be is what they are, one for one.
pub proof fn law_actions_shown(actions: Seq<Action>, i: int)
    requires
        0 <= i < actions.len(),
    ensures
        action_views(actions).len() == actions.len(),
        match actions[i] {
            Action::Send { to, cell } => action_views(actions)[i] matches ActionView::Send {
                to: t,
                cell: c,
            } && t == to@ && c.cid == cell.cid && c.cmd == cell.cmd && c.flags == cell.flags
                && c.payload == cell.payload@,
            Action::Wake { cid } => action_views(actions)[i] == (ActionView::Wake { cid }),
            Action::Deliver { cid, stream, data } => action_views(actions)[i]
                == (ActionView::Deliver { cid, stream, data: data@ }),
        },
{
}

} // verus!
