//! What a node does with a relay cell: a hop takes a layer off on the way out
//! and puts one on on the way back, the last hop answers, and the origin takes
//! all layers off.

use crate::addr::{addr_eq, AddrView};
use crate::bytes::{append, get_u16, get_u32, le_bytes, le_value, put_u16, put_u32};
use crate::cell::{
    complete, joined, law_onion_len, law_onion_peels, layer_fits, onion, onion_opens, open_onion,
    open_onion_bwd, peeled, rcmd_of, seal_bwd, Cell, CellView, Cmd, RCmd, MSG_MAX,
};
use crate::circuits::{behind, circuit_of, find_behind, is_behind, leads_to, lemma_behind};
use crate::identity::NodeIdentity;
use crate::kdf::{opened, relay_nonce_spec, sealed};
use crate::node::{
    action_views, bump, destroy_send, law_hop_joins, plain_cell, Action, ActionView, CircuitEntry,
    CircuitView, HopLink, HopView, Node, NodeView, Stats,
};
use crate::primitives::{AEAD_MAX, AEAD_TAG};
use crate::sphinx::{header_at, law_route, BuiltHeader, Plan};
use crate::{NodeAddr, DIR_BWD, DIR_FWD, MAX_HOPS};
use vstd::prelude::*;
use vstd::slice::slice_subrange;

verus! {

/// The parts of a relay cell's payload.
pub struct RelayParts {
    pub seq: u32,
    pub rcmd: RCmd,
    pub stream: u16,
    pub onion: Seq<u8>,
}

impl RelayParts {
    /// The payload of a relay cell.
    pub open spec fn bytes(self) -> Seq<u8> {
        le_bytes(self.seq as nat, 4) + seq![self.rcmd.code()] + le_bytes(self.stream as nat, 2)
            + self.onion
    }

    /// The same with other data.
    pub open spec fn with(self, onion: Seq<u8>) -> RelayParts {
        RelayParts { onion, ..self }
    }
}

/// The parts of a relay cell's payload, if it is one.
pub open spec fn relay_parts(p: Seq<u8>) -> Option<RelayParts> {
    if p.len() < 7 {
        None
    } else {
        match rcmd_of(p[4]) {
            Err(_) => None,
            Ok(rcmd) => Some(
                RelayParts {
                    seq: le_value(p.subrange(0, 4)) as u32,
                    rcmd,
                    stream: le_value(p.subrange(5, 7)) as u16,
                    onion: p.subrange(7, p.len() as int),
                },
            ),
        }
    }
}

/// A relay cell to a neighbour.
pub open spec fn relay_to(hop: HopView, parts: RelayParts) -> ActionView {
    ActionView::Send { to: hop.peer, cell: plain_cell(hop.cid, Cmd::Relay, parts.bytes()) }
}

/// What a node does with a relay cell of a circuit, and its part in the circuit
/// then.
///
/// Numbers grow in each direction: a cell whose number is not above the last one
/// that came the same way is dropped.
///
/// - The origin opens all backward layers. What it finds goes to the stream, if
///   somebody wants that stream.
/// - A hop in between opens one forward layer of a cell from the hop before and
///   sends the rest on. It adds a backward layer to a cell from the hop behind and
///   sends it back. It drops what comes from elsewhere.
/// - The last hop opens the last forward layer, and sends an echo back. Other data
///   it drops.
pub open spec fn relay_step(e: CircuitView, cid: u32, from: AddrView, parts: RelayParts) -> (
    CircuitView,
    Option<ActionView>,
) {
    match e {
        CircuitView::Origin { fwd, bwd, tag, next, streams, last_bwd } => {
            let data = peeled(bwd, tag, DIR_BWD, parts.seq, parts.onion);
            if parts.seq <= last_bwd || data is None {
                (e, None)
            } else {
                (
                    CircuitView::Origin { fwd, bwd, tag, next, streams, last_bwd: parts.seq },
                    if streams.contains(parts.stream) {
                        Some(ActionView::Deliver { cid, stream: parts.stream, data: data->0 })
                    } else {
                        None
                    },
                )
            }
        },
        CircuitView::Relay { tag, k_fwd, k_bwd, prev, next, last_fwd, last_bwd } => if from
            == prev.peer {
            let inner = opened(k_fwd, relay_nonce_spec(tag, DIR_FWD, parts.seq), parts.onion);
            if parts.seq <= last_fwd || inner is None {
                (e, None)
            } else {
                (
                    CircuitView::Relay {
                        tag,
                        k_fwd,
                        k_bwd,
                        prev,
                        next,
                        last_fwd: parts.seq,
                        last_bwd,
                    },
                    Some(relay_to(next, parts.with(inner->0))),
                )
            }
        } else if from == next.peer {
            back_step(e, parts)
        } else {
            (e, None)
        },
        CircuitView::Terminal { tag, k_fwd, k_bwd, prev, last_fwd } => {
            let inner = opened(k_fwd, relay_nonce_spec(tag, DIR_FWD, parts.seq), parts.onion);
            if from != prev.peer || parts.seq <= last_fwd || inner is None {
                (e, None)
            } else {
                (
                    CircuitView::Terminal { tag, k_fwd, k_bwd, prev, last_fwd: parts.seq },
                    if parts.rcmd == RCmd::Echo {
                        let outer = sealed(
                            k_bwd,
                            relay_nonce_spec(tag, DIR_BWD, parts.seq),
                            inner->0,
                        );
                        Some(relay_to(prev, parts.with(outer)))
                    } else {
                        None
                    },
                )
            }
        },
    }
}

/// What a hop in between sends back of a cell from the hop behind, with its own
/// layer added, and its part in the circuit then.
pub open spec fn back_step(e: CircuitView, parts: RelayParts) -> (CircuitView, Option<ActionView>) {
    match e {
        CircuitView::Relay { tag, k_fwd, k_bwd, prev, next, last_fwd, last_bwd } => if parts.seq
            <= last_bwd {
            (e, None)
        } else {
            let outer = sealed(k_bwd, relay_nonce_spec(tag, DIR_BWD, parts.seq), parts.onion);
            (
                CircuitView::Relay {
                    tag,
                    k_fwd,
                    k_bwd,
                    prev,
                    next,
                    last_fwd,
                    last_bwd: parts.seq,
                },
                Some(relay_to(prev, parts.with(outer))),
            )
        },
        _ => (e, None),
    }
}

/// The layer that a node adds to a cell from the hop behind opens again.
pub open spec fn back_layer_opens(e: CircuitView, parts: RelayParts) -> bool {
    e matches CircuitView::Relay { tag, k_bwd, .. } ==> back_step(e, parts).1 is Some
        ==> layer_fits(k_bwd, relay_nonce_spec(tag, DIR_BWD, parts.seq), parts.onion)
}

/// The layer that a node adds on the way back opens again.
pub open spec fn added_layer_opens(e: CircuitView, from: AddrView, parts: RelayParts) -> bool {
    match e {
        CircuitView::Relay { prev, next, .. } => from != prev.peer && from == next.peer
            ==> back_layer_opens(e, parts),
        CircuitView::Terminal { tag, k_fwd, k_bwd, .. } => {
            let inner = opened(k_fwd, relay_nonce_spec(tag, DIR_FWD, parts.seq), parts.onion);
            relay_step(e, 0, from, parts).1 is Some ==> layer_fits(
                k_bwd,
                relay_nonce_spec(tag, DIR_BWD, parts.seq),
                inner->0,
            )
        },
        CircuitView::Origin { .. } => true,
    }
}

/// What a node does with a relay cell has its length: data go on a tag shorter
/// and come back a tag longer, an echo is answered with as much as came, and what
/// is handed out lacks a tag for each hop.
pub open spec fn action_sized(e: CircuitView, from: AddrView, onion: nat, a: ActionView) -> bool {
    match a {
        ActionView::Send { cell, .. } => match e {
            CircuitView::Relay { prev, .. } => if from == prev.peer {
                cell.payload.len() + AEAD_TAG == 7 + onion
            } else {
                cell.payload.len() == 7 + onion + AEAD_TAG
            },
            CircuitView::Terminal { .. } => cell.payload.len() == 7 + onion,
            CircuitView::Origin { .. } => false,
        },
        ActionView::Deliver { data, .. } => e matches CircuitView::Origin { bwd, .. } && data.len()
            + AEAD_TAG * bwd.len() == onion,
        ActionView::Wake { .. } => false,
    }
}

impl NodeView {
    /// A relay cell has come in. Where its number is that of a circuit, it is the
    /// circuit's. Where it is the number of a circuit towards the hop behind, and
    /// comes from there, it goes back.
    pub open spec fn relay(self, from: AddrView, c: CellView) -> (NodeView, Seq<ActionView>) {
        let counted = NodeView {
            stats: Stats { relayed: bump(self.stats.relayed), ..self.stats },
            ..self
        };
        match relay_parts(c.payload) {
            None => (self, Seq::empty()),
            Some(parts) => if self.circuits.contains_key(c.cid) {
                let (e, action) = relay_step(self.circuits[c.cid], c.cid, from, parts);
                (
                    NodeView { circuits: self.circuits.insert(c.cid, e), ..counted },
                    match action {
                        Some(a) => seq![a],
                        None => Seq::empty(),
                    },
                )
            } else {
                match behind(self.circuits, HopView { cid: c.cid, peer: from }) {
                    None => (self, Seq::empty()),
                    Some(k) => {
                        let (e, action) = back_step(self.circuits[k], parts);
                        (
                            NodeView { circuits: self.circuits.insert(k, e), ..counted },
                            match action {
                                Some(a) => seq![a],
                                None => Seq::empty(),
                            },
                        )
                    },
                }
            },
        }
    }

    /// The layer that the node adds to a relay cell opens again.
    pub open spec fn added_opens(self, from: AddrView, c: CellView) -> bool {
        match relay_parts(c.payload) {
            None => true,
            Some(parts) => if self.circuits.contains_key(c.cid) {
                added_layer_opens(self.circuits[c.cid], from, parts)
            } else {
                match behind(self.circuits, HopView { cid: c.cid, peer: from }) {
                    None => true,
                    Some(k) => back_layer_opens(self.circuits[k], parts),
                }
            },
        }
    }

    /// What the node does with a relay cell has its length.
    pub open spec fn sized(self, from: AddrView, c: CellView, a: ActionView) -> bool {
        if self.circuits.contains_key(c.cid) {
            action_sized(self.circuits[c.cid], from, (c.payload.len() - 7) as nat, a)
        } else {
            a matches ActionView::Send { cell, .. } && cell.payload.len() == c.payload.len()
                + AEAD_TAG
        }
    }
}

/// The payload of a relay cell.
pub fn relay_payload(seq: u32, rcmd: RCmd, stream: u16, onion: &[u8]) -> (p: Vec<u8>)
    ensures
        p@ == (RelayParts { seq, rcmd, stream, onion: onion@ }).bytes(),
        p@.len() == 7 + onion@.len(),
{
    let mut p: Vec<u8> = Vec::new();
    put_u32(&mut p, seq);
    p.push(rcmd.to_u8());
    put_u16(&mut p, stream);
    append(&mut p, onion);
    proof {
        crate::bytes::lemma_le_bytes_len(seq as nat, 4);
        crate::bytes::lemma_le_bytes_len(stream as nat, 2);
        assert(p@ =~= (RelayParts { seq, rcmd, stream, onion: onion@ }).bytes());
    }
    p
}

/// A relay cell to a neighbour.
fn send_to(hop: &HopLink, seq: u32, rcmd: RCmd, stream: u16, onion: &[u8]) -> (a: Action)
    ensures
        a@ == relay_to(hop@, RelayParts { seq, rcmd, stream, onion: onion@ }),
        a@ matches ActionView::Send { cell, .. } && cell.payload.len() == 7 + onion@.len(),
{
    let payload = relay_payload(seq, rcmd, stream, onion);
    Action::Send { to: hop.peer, cell: Cell { cid: hop.cid, cmd: Cmd::Relay, flags: 0, payload } }
}

/// What a node does with a relay cell of a circuit.
fn step(
    e: CircuitEntry,
    cid: u32,
    from: &NodeAddr,
    seq: u32,
    rcmd: RCmd,
    stream: u16,
    onion: &[u8],
) -> (r: (CircuitEntry, Option<Action>))
    requires
        onion@.len() <= AEAD_MAX,
    ensures
        ({
            let parts = RelayParts { seq, rcmd, stream, onion: onion@ };
            let (f, a) = relay_step(e@, cid, from@, parts);
            &&& r.0@ == f
            &&& r.1 is Some == a is Some
            &&& r.1 is Some ==> r.1->0@ == a->0 && action_sized(e@, from@, onion@.len(), a->0)
            &&& added_layer_opens(e@, from@, parts)
        }),
{
    match e {
        CircuitEntry::Origin { fwd, bwd, tag, next, streams, mut last_bwd } => {
            let mut a: Option<Action> = None;
            if seq > last_bwd {
                if let Ok(data) = open_onion_bwd(bwd.as_slice(), &tag, seq, onion) {
                    last_bwd = seq;
                    if has_stream(streams.as_slice(), stream) {
                        a = Some(Action::Deliver { cid, stream, data });
                    }
                }
            }
            (CircuitEntry::Origin { fwd, bwd, tag, next, streams, last_bwd }, a)
        },
        CircuitEntry::Relay { tag, k_fwd, k_bwd, prev, next, mut last_fwd, last_bwd } => {
            if addr_eq(from, &prev.peer) {
                let mut a: Option<Action> = None;
                if seq > last_fwd {
                    if let Ok(inner) = open_onion(&k_fwd, &tag, seq, onion) {
                        last_fwd = seq;
                        a = Some(send_to(&next, seq, rcmd, stream, inner.as_slice()));
                    }
                }
                (CircuitEntry::Relay { tag, k_fwd, k_bwd, prev, next, last_fwd, last_bwd }, a)
            } else {
                let entry = CircuitEntry::Relay {
                    tag,
                    k_fwd,
                    k_bwd,
                    prev,
                    next,
                    last_fwd,
                    last_bwd,
                };
                if addr_eq(from, &next.peer) {
                    step_back(entry, seq, rcmd, stream, onion)
                } else {
                    (entry, None)
                }
            }
        },
        CircuitEntry::Terminal { tag, k_fwd, k_bwd, prev, last_fwd } => {
            if addr_eq(from, &prev.peer) && seq > last_fwd {
                if let Ok(inner) = open_onion(&k_fwd, &tag, seq, onion) {
                    let a = match rcmd {
                        RCmd::Echo => {
                            let outer = seal_bwd(&k_bwd, &tag, seq, inner.as_slice());
                            Some(send_to(&prev, seq, RCmd::Echo, stream, outer.as_slice()))
                        },
                        RCmd::Data => None,
                        RCmd::Drop => None,
                    };
                    return (CircuitEntry::Terminal { tag, k_fwd, k_bwd, prev, last_fwd: seq }, a);
                }
            }
            (CircuitEntry::Terminal { tag, k_fwd, k_bwd, prev, last_fwd }, None)
        },
    }
}

/// What a hop in between does with a cell from the hop behind.
fn step_back(e: CircuitEntry, seq: u32, rcmd: RCmd, stream: u16, onion: &[u8]) -> (r: (
    CircuitEntry,
    Option<Action>,
))
    requires
        onion@.len() <= AEAD_MAX,
    ensures
        ({
            let parts = RelayParts { seq, rcmd, stream, onion: onion@ };
            let (f, a) = back_step(e@, parts);
            &&& r.0@ == f
            &&& r.1 is Some == a is Some
            &&& r.1 is Some ==> r.1->0@ == a->0
            &&& a matches Some(ActionView::Send { cell, .. }) ==> cell.payload.len() == 7
                + onion@.len() + AEAD_TAG
            &&& back_layer_opens(e@, parts)
        }),
{
    match e {
        CircuitEntry::Relay { tag, k_fwd, k_bwd, prev, next, last_fwd, mut last_bwd } => {
            let mut a: Option<Action> = None;
            if seq > last_bwd {
                last_bwd = seq;
                let outer = seal_bwd(&k_bwd, &tag, seq, onion);
                a = Some(send_to(&prev, seq, rcmd, stream, outer.as_slice()));
            }
            (CircuitEntry::Relay { tag, k_fwd, k_bwd, prev, next, last_fwd, last_bwd }, a)
        },
        other => (other, None),
    }
}

/// Whether a stream is among others.
pub(crate) fn has_stream(streams: &[u16], stream: u16) -> (r: bool)
    ensures
        r == streams@.to_set().contains(stream),
{
    let mut i: usize = 0;
    while i < streams.len()
        invariant
            i <= streams@.len(),
            forall|j: int| 0 <= j < i ==> streams@[j] != stream,
        decreases streams@.len() - i,
    {
        if streams[i] == stream {
            assert(streams@.contains(stream));
            return true;
        }
        i += 1;
    }
    false
}

/// A relay cell has come in.
pub fn handle(node: &mut Node, from: NodeAddr, cell: &Cell) -> (actions: Vec<Action>)
    requires
        old(node).wf(),
        cell.payload@.len() <= AEAD_MAX,
    ensures
        final(node).wf(),
        final(node).same_base(*old(node)),
        (final(node)@, action_views(actions@)) == old(node)@.relay(from@, cell@),
        old(node)@.added_opens(from@, cell@),
        forall|i: int|
            0 <= i < actions@.len() ==> old(node)@.sized(from@, cell@, (#[trigger] actions@[i])@),
{
    broadcast use vstd::std_specs::hash::group_hash_axioms;

    let mut actions: Vec<Action> = Vec::new();
    assert(action_views(actions@) =~= Seq::empty());
    let p = cell.payload.as_slice();
    if p.len() < 7 {
        return actions;
    }
    let seq = get_u32(p, 0);
    let rcmd = match RCmd::try_from(p[4]) {
        Ok(rcmd) => rcmd,
        Err(_) => {
            return actions;
        },
    };
    let stream = get_u16(p, 5);
    let onion = slice_subrange(p, 7, p.len());
    let entry = match node.circuits.remove(&cell.cid) {
        Some(entry) => entry,
        None => {
            assert(node.circuits@ =~= old(node).circuits@);
            if let Some(k) = find_behind(&node.circuits, cell.cid, &from) {
                node.stats.relayed = node.stats.relayed.wrapping_add(1);
                assert(node@.circuits == old(node)@.circuits);
                if let Some(entry) = node.circuits.remove(&k) {
                    let (entry, action) = step_back(entry, seq, rcmd, stream, onion);
                    let ghost e = entry@;
                    node.circuits.insert(k, entry);
                    assert(node@.circuits =~= old(node)@.circuits.insert(k, e));
                    if let Some(a) = action {
                        actions.push(a);
                    }
                }
            }
            assert(action_views(actions@) =~= old(node)@.relay(from@, cell@).1);
            return actions;
        },
    };
    node.stats.relayed = node.stats.relayed.wrapping_add(1);
    let (entry, action) = step(entry, cell.cid, &from, seq, rcmd, stream, onion);
    let ghost e = entry@;
    node.circuits.insert(cell.cid, entry);
    assert(node@.circuits =~= old(node)@.circuits.insert(cell.cid, e));
    if let Some(a) = action {
        actions.push(a);
    }
    assert(action_views(actions@) =~= old(node)@.relay(from@, cell@).1);
    actions
}

/// What is read from the payload of a relay cell is what was put there.
pub proof fn law_relay_parts(parts: RelayParts)
    ensures
        relay_parts(parts.bytes()) == Some(parts),
{
    let p = parts.bytes();
    crate::bytes::lemma_pow256();
    crate::bytes::lemma_le_value_of_bytes(parts.seq as nat, 4);
    crate::bytes::lemma_le_value_of_bytes(parts.stream as nat, 2);
    assert(p.subrange(0, 4) =~= le_bytes(parts.seq as nat, 4));
    assert(p.subrange(5, 7) =~= le_bytes(parts.stream as nat, 2));
    assert(p.subrange(7, p.len() as int) =~= parts.onion);
}

/// What the hop behind answers goes back. A relay cell under the number that a
/// hop in between gave to the hop behind, and from there, is sent to the hop
/// before under the number that this one gave, with one layer more, unless its
/// own number is not above the last one. The news that the circuit stands goes
/// the same way.
pub proof fn law_answer_goes_back(v: NodeView, k: u32, c: CellView)
    requires
        v.circuits.contains_key(k),
        v.circuits[k] matches CircuitView::Relay { next, .. } && v.own_number(k, next) && c.cid
            == next.cid,
    ensures
        v.circuits[k] matches CircuitView::Relay { tag, k_bwd, prev, next, last_bwd, .. } ==> {
            &&& relay_parts(c.payload) matches Some(parts) ==> last_bwd < parts.seq ==> {
                let outer = sealed(k_bwd, relay_nonce_spec(tag, DIR_BWD, parts.seq), parts.onion);
                &&& v.relay(next.peer, c).0.circuits == v.circuits.insert(
                    k,
                    back_step(v.circuits[k], parts).0,
                )
                &&& v.relay(next.peer, c).1 == seq![relay_to(prev, parts.with(outer))]
            }
            &&& !v.pending.contains(c.cid) ==> v.created(next.peer, c) == (
                v,
                seq![
                    ActionView::Send {
                        to: prev.peer,
                        cell: plain_cell(prev.cid, Cmd::Created, Seq::empty()),
                    },
                ],
            )
        },
{
    if let CircuitView::Relay { next, .. } = v.circuits[k] {
        assert(leads_to(v.circuits[k], next));
        assert(is_behind(v.circuits, next, k));
        lemma_behind(v.circuits, next, k);
    }
}

/// A relay cell of a circuit comes back: it is not from the hop before.
pub open spec fn comes_back(e: CircuitView, from: AddrView) -> bool {
    match e {
        CircuitView::Relay { prev, .. } => from != prev.peer,
        CircuitView::Terminal { .. } => false,
        CircuitView::Origin { .. } => true,
    }
}

/// The number of the last cell that came back, or that came forward, zero where
/// none comes that way.
pub open spec fn last_of(e: CircuitView, back: bool) -> u32 {
    match e {
        CircuitView::Relay { last_fwd, last_bwd, .. } => if back {
            last_bwd
        } else {
            last_fwd
        },
        CircuitView::Terminal { last_fwd, .. } => if back {
            0
        } else {
            last_fwd
        },
        CircuitView::Origin { last_bwd, .. } => if back {
            last_bwd
        } else {
            0
        },
    }
}

/// No cell has an effect twice, in either direction. The number of the last cell
/// that came one way never falls, and that of the other way stays. A cell that
/// has an effect has a higher number, and once it came, no cell that comes the
/// same way with that number or a lower one does anything.
pub proof fn law_no_replay(
    e: CircuitView,
    cid: u32,
    from: AddrView,
    parts: RelayParts,
    later: RelayParts,
)
    ensures
        ({
            let back = comes_back(e, from);
            let (after, action) = relay_step(e, cid, from, parts);
            &&& last_of(after, back) >= last_of(e, back)
            &&& last_of(after, !back) == last_of(e, !back)
            &&& action is Some ==> last_of(e, back) < parts.seq == last_of(after, back)
            &&& later.seq <= last_of(after, back) ==> relay_step(after, cid, from, later) == (
                after,
                None::<ActionView>,
            )
        }),
        ({
            let (after, action) = back_step(e, parts);
            &&& last_of(after, true) >= last_of(e, true)
            &&& last_of(after, false) == last_of(e, false)
            &&& action is Some ==> last_of(e, true) < parts.seq == last_of(after, true)
            &&& later.seq <= last_of(after, true) ==> back_step(after, later) == (
                after,
                None::<ActionView>,
            )
        }),
{
}

/// A node does nothing with a relay cell that comes again. Once a cell had an
/// effect, none from the same neighbour under the same number of a circuit has,
/// unless its own number is higher.
pub proof fn law_cell_once(v: NodeView, from: AddrView, c: CellView, later: CellView)
    requires
        v.relay(from, c).1.len() > 0,
        later.cid == c.cid,
        relay_parts(later.payload) is Some,
        relay_parts(later.payload)->0.seq <= relay_parts(c.payload)->0.seq,
    ensures
        v.relay(from, c).0.relay(from, later).1 == Seq::<ActionView>::empty(),
        v.relay(from, c).0.relay(from, later).0.circuits == v.relay(from, c).0.circuits,
{
    let parts = relay_parts(c.payload)->0;
    let again = relay_parts(later.payload)->0;
    let after = v.relay(from, c).0;
    if v.circuits.contains_key(c.cid) {
        law_no_replay(v.circuits[c.cid], c.cid, from, parts, again);
        assert(after.circuits.insert(c.cid, after.circuits[c.cid]) =~= after.circuits);
    } else {
        let hop = HopView { cid: c.cid, peer: from };
        let k = behind(v.circuits, hop)->0;
        assert(is_behind(v.circuits, hop, k));
        law_no_replay(v.circuits[k], c.cid, from, parts, again);
        assert(leads_to(after.circuits[k], hop));
        assert forall|j: u32| #[trigger]
            after.circuits.contains_key(j) && leads_to(after.circuits[j], hop) implies k <= j by {
            assert(j != k ==> v.circuits.contains_key(j));
        }
        assert(is_behind(after.circuits, hop, k));
        lemma_behind(after.circuits, hop, k);
        assert(after.circuits.insert(k, after.circuits[k]) =~= after.circuits);
    }
}

/// The last hop answers echoes alone: data and cover traffic come to an end
/// there, and nothing of them goes back.
pub proof fn law_only_echo_answered(e: CircuitView, cid: u32, from: AddrView, parts: RelayParts)
    requires
        e is Terminal,
        parts.rcmd != RCmd::Echo,
    ensures
        relay_step(e, cid, from, parts).1 is None,
{
}

/// An echo over a circuit: what the origin sends, where everybody is, and the
/// number of the circuit on the link to each hop.
pub struct EchoRun {
    pub cids: Seq<u32>,
    pub tag: Seq<u8>,
    pub fwd: Seq<[u8; 32]>,
    pub bwd: Seq<[u8; 32]>,
    pub seq: u32,
    pub stream: u16,
    pub msg: Seq<u8>,
    pub origin: AddrView,
    pub hops: Seq<AddrView>,
}

impl EchoRun {
    /// The address of the hop before hop `i`.
    pub open spec fn prev(self, i: int) -> AddrView {
        if i == 0 {
            self.origin
        } else {
            self.hops[i - 1]
        }
    }

    /// The hop behind hop `i`, with the circuit's number there.
    pub open spec fn next(self, i: int) -> HopView {
        HopView { cid: self.cids[i + 1], peer: self.hops[i + 1] }
    }

    /// The cell that hop `i` gets on the way out.
    pub open spec fn out_cell(self, i: int) -> CellView {
        let data = onion(self.fwd.skip(i), self.tag, DIR_FWD, self.seq, self.msg);
        plain_cell(self.cids[i], Cmd::Relay, self.parts(data).bytes())
    }

    /// The cell that hop `i` sends on the way back.
    pub open spec fn back_cell(self, i: int) -> CellView {
        let data = onion(self.bwd.skip(i), self.tag, DIR_BWD, self.seq, self.msg);
        plain_cell(self.cids[i], Cmd::Relay, self.parts(data).bytes())
    }

    /// The cell by which hop `i` says that the circuit stands.
    pub open spec fn created_cell(self, i: int) -> CellView {
        plain_cell(self.cids[i], Cmd::Created, Seq::empty())
    }

    /// The parts of the cells.
    pub open spec fn parts(self, onion: Seq<u8>) -> RelayParts {
        RelayParts { seq: self.seq, rcmd: RCmd::Echo, stream: self.stream, onion }
    }

    /// Each hop has its keys and its number.
    pub open spec fn sized(self) -> bool {
        &&& self.hops.len() >= 1
        &&& self.cids.len() == self.hops.len()
        &&& self.fwd.len() == self.hops.len()
        &&& self.bwd.len() == self.hops.len()
    }

    /// Each layer opens, and no hop has the same neighbour before and behind it
    /// under the same number.
    pub open spec fn wf(self) -> bool {
        &&& self.sized()
        &&& onion_opens(self.fwd, self.tag, DIR_FWD, self.seq, self.msg)
        &&& onion_opens(self.bwd, self.tag, DIR_BWD, self.seq, self.msg)
        &&& forall|i: int|
            0 <= i < self.hops.len() - 1 ==> self.prev(i) != #[trigger] self.hops[i + 1]
                || self.cids[i] != self.cids[i + 1]
    }

    /// Hop `i` has its part in the circuit, and has seen no cell with this
    /// number. The circuit's number towards the hop behind stands for it there.
    pub open spec fn ready(self, i: int, v: NodeView) -> bool {
        let cid = self.cids[i];
        &&& v.circuits.contains_key(cid)
        &&& last_of(v.circuits[cid], false) < self.seq
        &&& last_of(v.circuits[cid], true) < self.seq
        &&& if i + 1 < self.hops.len() {
            let next = self.next(i);
            &&& v.circuits[cid] == CircuitView::Relay {
                tag: self.tag,
                k_fwd: self.fwd[i]@,
                k_bwd: self.bwd[i]@,
                prev: HopView { cid, peer: self.prev(i) },
                next,
                last_fwd: last_of(v.circuits[cid], false),
                last_bwd: last_of(v.circuits[cid], true),
            }
            &&& next.cid == cid || v.own_number(cid, next)
        } else {
            v.circuits[cid] == CircuitView::Terminal {
                tag: self.tag,
                k_fwd: self.fwd[i]@,
                k_bwd: self.bwd[i]@,
                prev: HopView { cid, peer: self.prev(i) },
                last_fwd: last_of(v.circuits[cid], false),
            }
        }
    }
}

impl NodeView {
    /// A number towards a neighbour stands for a circuit: no circuit is kept
    /// under it, and none with a lower number leads there.
    pub open spec fn own_number(self, cid: u32, hop: HopView) -> bool {
        &&& !self.circuits.contains_key(hop.cid)
        &&& forall|k: u32| #[trigger]
            self.circuits.contains_key(k) && leads_to(self.circuits[k], hop) ==> cid <= k
    }
}

/// A layer of an onion opens to the onion of the keys behind it.
proof fn lemma_layer(
    keys: Seq<[u8; 32]>,
    tag: Seq<u8>,
    dir: u8,
    seq: u32,
    msg: Seq<u8>,
    i: int,
)
    requires
        onion_opens(keys, tag, dir, seq, msg),
        0 <= i < keys.len(),
    ensures
        onion_opens(keys.skip(i), tag, dir, seq, msg),
        opened(
            keys[i]@,
            relay_nonce_spec(tag, dir, seq),
            onion(keys.skip(i), tag, dir, seq, msg),
        ) == Some(onion(keys.skip(i + 1), tag, dir, seq, msg)),
        onion(keys.skip(i), tag, dir, seq, msg) == sealed(
            keys[i]@,
            relay_nonce_spec(tag, dir, seq),
            onion(keys.skip(i + 1), tag, dir, seq, msg),
        ),
    decreases i,
{
    assert(keys.skip(i)[0] == keys[i]);
    assert(keys.skip(i).drop_first() =~= keys.skip(i + 1));
    if i == 0 {
        assert(keys.skip(0) =~= keys);
    } else {
        let rest = keys.drop_first();
        lemma_layer(rest, tag, dir, seq, msg, i - 1);
        assert(rest.skip(i - 1) =~= keys.skip(i));
        assert(rest.skip(i) =~= keys.skip(i + 1));
        assert(rest[i - 1] == keys[i]);
    }
}

/// An echo comes back as it was sent. On the way out each hop takes its layer
/// off and sends the rest to the next one; the last hop sends the message back;
/// on the way back each hop adds its layer, and the origin finds the message.
pub proof fn law_echo(run: EchoRun, hops: Seq<NodeView>, origin: NodeView)
    requires
        run.wf(),
        hops.len() == run.hops.len(),
        forall|i: int| 0 <= i < hops.len() ==> run.ready(i, #[trigger] hops[i]),
        origin.circuits.contains_key(run.cids[0]),
        origin.circuits[run.cids[0]] matches CircuitView::Origin {
            bwd,
            tag,
            streams,
            last_bwd,
            ..
        } && bwd == run.bwd && tag == run.tag && streams.contains(run.stream) && last_bwd < run.seq,
    ensures
        forall|i: int|
            0 <= i < hops.len() - 1 ==> (#[trigger] hops[i]).relay(run.prev(i), run.out_cell(i)).1
                == seq![ActionView::Send { to: run.hops[i + 1], cell: run.out_cell(i + 1) }],
        hops.last().relay(run.prev(hops.len() - 1), run.out_cell(hops.len() - 1)).1 == seq![
            ActionView::Send {
                to: run.prev(hops.len() - 1),
                cell: run.back_cell(hops.len() - 1),
            },
        ],
        forall|i: int|
            0 <= i < hops.len() - 1 ==> (#[trigger] hops[i]).relay(
                run.prev(i),
                run.out_cell(i),
            ).0.relay(run.hops[i + 1], run.back_cell(i + 1)).1 == seq![
                ActionView::Send { to: run.prev(i), cell: run.back_cell(i) },
            ],
        origin.relay(run.hops[0], run.back_cell(0)).1 == seq![
            ActionView::Deliver { cid: run.cids[0], stream: run.stream, data: run.msg },
        ],
{
    let n = hops.len();
    assert forall|i: int| 0 <= i < n - 1 implies (#[trigger] hops[i]).relay(
        run.prev(i),
        run.out_cell(i),
    ).1 == seq![ActionView::Send { to: run.hops[i + 1], cell: run.out_cell(i + 1) }] by {
        lemma_hop_out(run, hops[i], i);
    }
    assert forall|i: int| 0 <= i < n - 1 implies (#[trigger] hops[i]).relay(
        run.prev(i),
        run.out_cell(i),
    ).0.relay(run.hops[i + 1], run.back_cell(i + 1)).1 == seq![
        ActionView::Send { to: run.prev(i), cell: run.back_cell(i) },
    ] by {
        lemma_hop_out(run, hops[i], i);
    }
    assert(run.ready(n - 1, hops[n - 1]));
    lemma_last(run, hops[n - 1]);
    let data = onion(run.bwd.skip(0), run.tag, DIR_BWD, run.seq, run.msg);
    assert(run.bwd.skip(0) =~= run.bwd);
    law_relay_parts(run.parts(data));
    law_onion_peels(run.bwd, run.tag, DIR_BWD, run.seq, run.msg);
    assert(origin.relay(run.hops[0], run.back_cell(0)).1 =~= seq![
        ActionView::Deliver { cid: run.cids[0], stream: run.stream, data: run.msg },
    ]);
}

/// The cells of an echo fit: a message that is not too long, over no more hops
/// than a route can have, travels both ways in cells that can be sent.
pub proof fn law_echo_fits(run: EchoRun, i: int)
    requires
        run.wf(),
        run.msg.len() <= MSG_MAX,
        run.hops.len() <= MAX_HOPS,
        0 <= i < run.hops.len(),
    ensures
        run.out_cell(i).wf(),
        run.back_cell(i).wf(),
{
    lemma_layer(run.fwd, run.tag, DIR_FWD, run.seq, run.msg, i);
    lemma_layer(run.bwd, run.tag, DIR_BWD, run.seq, run.msg, i);
    law_onion_len(run.fwd.skip(i), run.tag, DIR_FWD, run.seq, run.msg);
    law_onion_len(run.bwd.skip(i), run.tag, DIR_BWD, run.seq, run.msg);
    crate::bytes::lemma_le_bytes_len(run.seq as nat, 4);
    crate::bytes::lemma_le_bytes_len(run.stream as nat, 2);
}

/// What a hop in between does with an echo, both ways.
proof fn lemma_hop_out(run: EchoRun, v: NodeView, i: int)
    requires
        run.wf(),
        0 <= i < run.hops.len() - 1,
        run.ready(i, v),
    ensures
        v.relay(run.prev(i), run.out_cell(i)).1 == seq![
            ActionView::Send { to: run.hops[i + 1], cell: run.out_cell(i + 1) },
        ],
        v.relay(run.prev(i), run.out_cell(i)).0.relay(run.hops[i + 1], run.back_cell(i + 1)).1
            == seq![ActionView::Send { to: run.prev(i), cell: run.back_cell(i) }],
{
    let out = onion(run.fwd.skip(i), run.tag, DIR_FWD, run.seq, run.msg);
    let back = onion(run.bwd.skip(i + 1), run.tag, DIR_BWD, run.seq, run.msg);
    lemma_layer(run.fwd, run.tag, DIR_FWD, run.seq, run.msg, i);
    lemma_layer(run.bwd, run.tag, DIR_BWD, run.seq, run.msg, i);
    law_relay_parts(run.parts(out));
    law_relay_parts(run.parts(back));
    assert(run.prev(i) != run.hops[i + 1] || run.cids[i] != run.cids[i + 1]);
    assert(v.relay(run.prev(i), run.out_cell(i)).1 =~= seq![
        ActionView::Send { to: run.hops[i + 1], cell: run.out_cell(i + 1) },
    ]);
    let after = v.relay(run.prev(i), run.out_cell(i)).0;
    let next = run.next(i);
    if next.cid != run.cids[i] {
        assert(leads_to(after.circuits[run.cids[i]], next));
        assert forall|k: u32| #[trigger]
            after.circuits.contains_key(k) && leads_to(after.circuits[k], next) implies run.cids[i]
            <= k by {
            assert(k != run.cids[i] ==> v.circuits.contains_key(k));
        }
        assert(is_behind(after.circuits, next, run.cids[i]));
        lemma_behind(after.circuits, next, run.cids[i]);
    }
    assert(after.relay(run.hops[i + 1], run.back_cell(i + 1)).1 =~= seq![
        ActionView::Send { to: run.prev(i), cell: run.back_cell(i) },
    ]);
}

/// What the last hop does with an echo.
proof fn lemma_last(run: EchoRun, v: NodeView)
    requires
        run.wf(),
        run.ready(run.hops.len() - 1, v),
    ensures
        v.relay(run.prev(run.hops.len() - 1), run.out_cell(run.hops.len() - 1)).1 == seq![
            ActionView::Send {
                to: run.prev(run.hops.len() - 1),
                cell: run.back_cell(run.hops.len() - 1),
            },
        ],
{
    let i = run.hops.len() - 1;
    let out = onion(run.fwd.skip(i), run.tag, DIR_FWD, run.seq, run.msg);
    lemma_layer(run.fwd, run.tag, DIR_FWD, run.seq, run.msg, i);
    lemma_layer(run.bwd, run.tag, DIR_BWD, run.seq, run.msg, i);
    law_relay_parts(run.parts(out));
    assert(run.fwd.skip(i + 1).len() == 0);
    assert(run.bwd.skip(i + 1).len() == 0);
    assert(v.relay(run.prev(i), run.out_cell(i)).1 =~= seq![
        ActionView::Send { to: run.prev(i), cell: run.back_cell(i) },
    ]);
}

/// The news that a circuit stands travels back to its origin: each hop in
/// between passes it on to the hop before, under the number that this hop knows
/// the circuit by, and the origin wakes who waits.
pub proof fn law_circuit_stands(run: EchoRun, hops: Seq<NodeView>, origin: NodeView)
    requires
        run.sized(),
        hops.len() == run.hops.len(),
        forall|i: int| 0 <= i < hops.len() ==> run.ready(i, #[trigger] hops[i]),
        forall|i: int|
            0 <= i < hops.len() - 1 ==> !(#[trigger] hops[i]).pending.contains(run.cids[i + 1]),
        origin.pending.contains(run.cids[0]),
    ensures
        forall|i: int|
            0 <= i < hops.len() - 1 ==> (#[trigger] hops[i]).created(
                run.hops[i + 1],
                run.created_cell(i + 1),
            ).1 == seq![ActionView::Send { to: run.prev(i), cell: run.created_cell(i) }],
        origin.created(run.hops[0], run.created_cell(0)).1 == seq![
            ActionView::Wake { cid: run.cids[0] },
        ],
        !origin.created(run.hops[0], run.created_cell(0)).0.pending.contains(run.cids[0]),
{
    assert forall|i: int| 0 <= i < hops.len() - 1 implies (#[trigger] hops[i]).created(
        run.hops[i + 1],
        run.created_cell(i + 1),
    ).1 == seq![ActionView::Send { to: run.prev(i), cell: run.created_cell(i) }] by {
        assert(run.ready(i, hops[i]));
        let next = run.next(i);
        if next.cid != run.cids[i] {
            assert(is_behind(hops[i].circuits, next, run.cids[i]));
            lemma_behind(hops[i].circuits, next, run.cids[i]);
        }
    }
}

/// A circuit that is given up falls on both sides: whichever neighbour says so,
/// under the number on its own link, a hop forgets the circuit and tells both.
pub proof fn law_circuit_falls(run: EchoRun, i: int, v: NodeView)
    requires
        run.sized(),
        0 <= i < run.hops.len(),
        run.ready(i, v),
    ensures
        ({
            let before = HopView { cid: run.cids[i], peer: run.prev(i) };
            let (after, actions) = v.destroy(
                run.prev(i),
                plain_cell(run.cids[i], Cmd::Destroy, Seq::empty()),
            );
            &&& !after.circuits.contains_key(run.cids[i])
            &&& if i + 1 < run.hops.len() {
                let next = run.next(i);
                &&& actions == seq![destroy_send(before), destroy_send(next)]
                &&& v.destroy(
                    next.peer,
                    plain_cell(next.cid, Cmd::Destroy, Seq::empty()),
                ) == (after, actions)
            } else {
                actions == seq![destroy_send(before)]
            }
        }),
{
    if i + 1 < run.hops.len() {
        let next = run.next(i);
        if next.cid != run.cids[i] {
            assert(is_behind(v.circuits, next, run.cids[i]));
            lemma_behind(v.circuits, next, run.cids[i]);
        }
    }
}

/// A hop that joins a circuit is ready for it. When the last part of the header
/// has reached hop `i` of the route, the hop has its part in the circuit as an
/// echo over it needs, under the number that the hop before gave it, and with
/// the number that it gives the hop behind, unless that one already stands for
/// another circuit there.
pub proof fn law_hop_ready(
    plan: Plan,
    b: BuiltHeader,
    ids: Seq<NodeIdentity>,
    i: nat,
    v: NodeView,
    from: AddrView,
    c: CellView,
    run: EchoRun,
)
    requires
        plan.wf(),
        plan.reduced(),
        plan.layers_open(),
        plan.points_multiply(),
        plan.built(b),
        plan.followed_by(ids),
        i < plan.route.len(),
        c.payload.len() >= 4,
        complete(v.frags_with(c)),
        Some(joined(v.frags_with(c))) == header_at(ids, b.header@, i),
        run.sized(),
        run.hops.len() == plan.route.len(),
        run.tag == b.tag@,
        run.fwd == b.fwd_keys@,
        run.bwd == b.bwd_keys@,
        run.seq > 0,
        run.cids[i as int] == c.cid,
        run.prev(i as int) == from,
        i + 1 < plan.route.len() ==> {
            let addr = plan.route[(i + 1) as int].cell_addr;
            let next = run.next(i as int);
            &&& next.cid == v.next_cid
            &&& next.peer == AddrView::V4 { ip: addr.octets(), port: addr.port_spec() as nat }
            &&& next.cid == c.cid || v.own_number(c.cid, next)
        },
    ensures
        run.ready(
            i as int,
            v.create(ids[i as int].sphinx_priv@, ids[i as int].kem_sk@, from, c).0,
        ),
{
    law_hop_joins(plan, b, ids, i, v, from, c);
    let after = v.create(ids[i as int].sphinx_priv@, ids[i as int].kem_sk@, from, c).0;
    law_route(plan, b, ids, i);
    if i + 1 < plan.route.len() {
        let next = run.next(i as int);
        if next.cid != c.cid {
            assert forall|k: u32| #[trigger]
                after.circuits.contains_key(k) && leads_to(after.circuits[k], next) implies c.cid
                <= k by {
                assert(k != c.cid ==> v.circuits.contains_key(k));
            }
        }
    }
}

impl NodeView {
    /// Each number that was given to a hop behind is below the next one to give.
    pub open spec fn numbers_below(self) -> bool {
        forall|k: u32| #[trigger]
            self.circuits.contains_key(k) ==> (self.circuits[k] matches CircuitView::Relay {
                next,
                ..
            } ==> next.cid < self.next_cid)
    }
}

/// A node never gives one number to two circuits towards hops behind it, until
/// there is no higher one: a new number leads to no circuit yet, and whatever
/// cell comes in, the numbers given stay below the next one.
pub proof fn law_numbers_fresh(
    v: NodeView,
    sphinx_priv: Seq<u8>,
    kem_sk: Seq<u8>,
    from: AddrView,
    c: CellView,
    hop: HopView,
)
    requires
        v.numbers_below(),
        v.next_cid < u32::MAX,
        hop.cid == v.next_cid,
    ensures
        v.step(sphinx_priv, kem_sk, from, c).0.numbers_below(),
        forall|k: u32| #[trigger]
            v.circuits.contains_key(k) ==> !leads_to(v.circuits[k], hop),
{
    let after = v.step(sphinx_priv, kem_sk, from, c).0;
    assert(after.next_cid >= v.next_cid);
    assert forall|k: u32| #[trigger] after.circuits.contains_key(k) implies (
    after.circuits[k] matches CircuitView::Relay { next, .. } ==> next.cid < after.next_cid) by {
        if v.circuits.contains_key(k) {
            assert(v.circuits[k] matches CircuitView::Relay { next, .. } ==> next.cid < v.next_cid);
        }
    }
}

/// A payload is that of a relay cell where it has seven bytes at least and one of
/// the three relay commands, and then stands for what makes it up: a number of
/// four bytes, a command, a stream of two bytes, and data.
pub proof fn law_relay_layout(p: Seq<u8>)
    ensures
        relay_parts(p) is Some <==> p.len() >= 7 && 1 <= p[4] <= 3,
        relay_parts(p) matches Some(parts) ==> {
            &&& parts.bytes() == p
            &&& parts.seq == le_value(p.subrange(0, 4))
            &&& parts.rcmd == RCmd::Echo <==> p[4] == 1
            &&& parts.rcmd == RCmd::Data <==> p[4] == 2
            &&& parts.rcmd == RCmd::Drop <==> p[4] == 3
            &&& parts.stream == le_value(p.subrange(5, 7))
            &&& parts.onion == p.subrange(7, p.len() as int)
        },
{
    if let Some(parts) = relay_parts(p) {
        crate::bytes::lemma_pow256();
        crate::bytes::lemma_le_bytes_of_value(p.subrange(0, 4));
        crate::bytes::lemma_le_bytes_of_value(p.subrange(5, 7));
        assert(parts.bytes() =~= p);
    }
}

/// An action is a relay cell to a neighbour, and holds these parts.
pub open spec fn is_relay_cell(
    a: ActionView,
    hop: HopView,
    seq: u32,
    rcmd: RCmd,
    stream: u16,
    data: Seq<u8>,
) -> bool {
    &&& a matches ActionView::Send { to, cell } && to == hop.peer && cell.cid == hop.cid && cell.cmd
        == Cmd::Relay && cell.flags == 0
    &&& relay_parts(a->cell.payload) matches Some(p) && p.seq == seq && p.rcmd == rcmd && p.stream
        == stream && p.onion == data
}

/// On the way out a hop in between sends on what is under its layer, to the hop
/// behind, under the number that it gave that hop, and with the number, the
/// command and the stream that came. It does so where the layer opens and the
/// number is a new one, and not else.
pub proof fn law_goes_forward(e: CircuitView, cid: u32, parts: RelayParts)
    requires
        e is Relay,
    ensures
        e matches CircuitView::Relay { tag, k_fwd, prev, next, last_fwd, .. } ==> {
            let (after, action) = relay_step(e, cid, prev.peer, parts);
            let inner = opened(k_fwd, relay_nonce_spec(tag, 0, parts.seq), parts.onion);
            if last_fwd < parts.seq && inner is Some {
                action matches Some(a) && is_relay_cell(
                    a,
                    next,
                    parts.seq,
                    parts.rcmd,
                    parts.stream,
                    inner->0,
                )
            } else {
                action is None && after == e
            }
        },
{
    if let CircuitView::Relay { tag, k_fwd, .. } = e {
        let inner = opened(k_fwd, relay_nonce_spec(tag, 0, parts.seq), parts.onion);
        law_relay_parts(parts.with(inner->0));
    }
}

/// On the way back a hop in between sends what came, under one layer more, to the
/// hop before, under the number that this hop gave, and with the number, the
/// command and the stream that came, where the number is a new one.
pub proof fn law_comes_back(e: CircuitView, cid: u32, parts: RelayParts)
    requires
        e is Relay,
    ensures
        e matches CircuitView::Relay { tag, k_bwd, prev, next, last_bwd, .. } ==> {
            let (after, action) = back_step(e, parts);
            let outer = sealed(k_bwd, relay_nonce_spec(tag, 1, parts.seq), parts.onion);
            &&& if last_bwd < parts.seq {
                action matches Some(a) && is_relay_cell(
                    a,
                    prev,
                    parts.seq,
                    parts.rcmd,
                    parts.stream,
                    outer,
                )
            } else {
                action is None && after == e
            }
            &&& next.peer != prev.peer ==> relay_step(e, cid, next.peer, parts) == (after, action)
        },
{
    if let CircuitView::Relay { tag, k_bwd, .. } = e {
        let outer = sealed(k_bwd, relay_nonce_spec(tag, 1, parts.seq), parts.onion);
        law_relay_parts(parts.with(outer));
    }
}

/// The last hop sends an echo back to the hop before, under one backward layer,
/// where its forward layer opens, the number is a new one and the cell comes from
/// there. It sends nothing else, ever.
pub proof fn law_last_hop_echoes(e: CircuitView, cid: u32, from: AddrView, parts: RelayParts)
    requires
        e is Terminal,
    ensures
        e matches CircuitView::Terminal { tag, k_fwd, k_bwd, prev, last_fwd } ==> {
            let (after, action) = relay_step(e, cid, from, parts);
            let inner = opened(k_fwd, relay_nonce_spec(tag, 0, parts.seq), parts.onion);
            let taken = from == prev.peer && last_fwd < parts.seq && inner is Some;
            &&& action is Some <==> taken && parts.rcmd == RCmd::Echo
            &&& action matches Some(a) ==> is_relay_cell(
                a,
                prev,
                parts.seq,
                RCmd::Echo,
                parts.stream,
                sealed(k_bwd, relay_nonce_spec(tag, 1, parts.seq), inner->0),
            )
            &&& taken ==> last_of(after, false) == parts.seq
            &&& !taken ==> after == e
        },
{
    if let CircuitView::Terminal { tag, k_fwd, k_bwd, .. } = e {
        let inner = opened(k_fwd, relay_nonce_spec(tag, 0, parts.seq), parts.onion);
        let outer = sealed(k_bwd, relay_nonce_spec(tag, 1, parts.seq), inner->0);
        law_relay_parts(parts.with(outer));
    }
}

/// The origin hands out what is under all backward layers, with the stream that
/// the cell names and the circuit that it came over, where the layers open, the
/// number is a new one and the stream is wanted, and not else.
pub proof fn law_origin_delivers(e: CircuitView, cid: u32, from: AddrView, parts: RelayParts)
    requires
        e is Origin,
    ensures
        e matches CircuitView::Origin { bwd, tag, streams, last_bwd, .. } ==> {
            let (after, action) = relay_step(e, cid, from, parts);
            let data = peeled(bwd, tag, 1, parts.seq, parts.onion);
            let taken = last_bwd < parts.seq && data is Some;
            &&& action is Some <==> taken && streams.contains(parts.stream)
            &&& action matches Some(a) ==> a == (ActionView::Deliver {
                cid,
                stream: parts.stream,
                data: data->0,
            })
            &&& taken ==> last_of(after, true) == parts.seq
            &&& !taken ==> after == e
        },
{
}

/// A hop in between does nothing with a cell of a circuit from one who is not its
/// neighbour there.
pub proof fn law_strangers_ignored(e: CircuitView, cid: u32, from: AddrView, parts: RelayParts)
    requires
        e matches CircuitView::Relay { prev, next, .. } && from != prev.peer && from != next.peer,
    ensures
        relay_step(e, cid, from, parts) == (e, None::<ActionView>),
{
}

/// Relay cells change nothing of a node's part in a circuit but the numbers of
/// the last cells: keys, tag, neighbours and streams stay.
pub proof fn law_circuit_stays(e: CircuitView, cid: u32, from: AddrView, parts: RelayParts)
    ensures
        same_circuit(e, relay_step(e, cid, from, parts).0),
        same_circuit(e, back_step(e, parts).0),
{
}

/// Two parts in a circuit are the same but for the numbers of the last cells.
pub open spec fn same_circuit(e: CircuitView, f: CircuitView) -> bool {
    match (e, f) {
        (
            CircuitView::Origin { fwd, bwd, tag, next, streams, .. },
            CircuitView::Origin { fwd: f2, bwd: b2, tag: t2, next: n2, streams: s2, .. },
        ) => fwd == f2 && bwd == b2 && tag == t2 && next == n2 && streams == s2,
        (
            CircuitView::Relay { tag, k_fwd, k_bwd, prev, next, .. },
            CircuitView::Relay { tag: t2, k_fwd: f2, k_bwd: b2, prev: p2, next: n2, .. },
        ) => tag == t2 && k_fwd == f2 && k_bwd == b2 && prev == p2 && next == n2,
        (
            CircuitView::Terminal { tag, k_fwd, k_bwd, prev, .. },
            CircuitView::Terminal { tag: t2, k_fwd: f2, k_bwd: b2, prev: p2, .. },
        ) => tag == t2 && k_fwd == f2 && k_bwd == b2 && prev == p2,
        _ => false,
    }
}

/// A relay cell is the business of one circuit: of the one under its number, or
/// else of the one that leads to its sender under that number. What the node does
/// and what changes is what that circuit asks for. A cell that is none, or that
/// belongs to no circuit, has no effect.
pub proof fn law_relay_of_circuit(v: NodeView, from: AddrView, c: CellView)
    ensures
        ({
            let (after, actions) = v.relay(from, c);
            let k = circuit_of(v.circuits, c.cid, from);
            match (relay_parts(c.payload), k) {
                (Some(parts), Some(k)) => {
                    let (e, action) = if k == c.cid {
                        relay_step(v.circuits[k], c.cid, from, parts)
                    } else {
                        back_step(v.circuits[k], parts)
                    };
                    &&& after.circuits.contains_key(k) && after.circuits[k] == e
                    &&& actions.len() <= 1
                    &&& actions.len() == 1 <==> action is Some
                    &&& actions.len() == 1 ==> actions[0] == action->0
                },
                _ => after == v && actions.len() == 0,
            }
        }),
        v.relay(from, c).0.pending == v.pending,
        v.relay(from, c).0.frags == v.frags,
        v.relay(from, c).0.next_cid == v.next_cid,
        v.relay(from, c).0.seq_origin == v.seq_origin,
{
    if !v.circuits.contains_key(c.cid) {
        let hop = HopView { cid: c.cid, peer: from };
        if let Some(k) = behind(v.circuits, hop) {
            assert(is_behind(v.circuits, hop, k));
        }
    }
}

/// Which payloads are those of relay cells: long enough for number, command and
/// stream, with a command that there is.
pub proof fn law_relay_refused(p: Seq<u8>)
    ensures
        relay_parts(p) is Some <==> p.len() >= 7 && 1 <= p[4] <= 3,
        relay_parts(p) matches Some(parts) ==> match parts.rcmd {
            RCmd::Echo => p[4] == 1,
            RCmd::Data => p[4] == 2,
            RCmd::Drop => p[4] == 3,
        },
{
}

} // verus!
