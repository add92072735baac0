//! The origin of a circuit: it builds the circuit, and sends over it.

use crate::cell::{
    law_onion_peels, onion, onion_opens, peeled, seal_onion, Cell, Cmd, RCmd, MSG_MAX,
};
use crate::node::{
    action_views, copy_keys, create_cells, create_sends, next_u32, plain_cell, Action, ActionView,
    CircuitEntry, CircuitView, HopLink, HopView, Node, NodeView,
};
use crate::primitives::{draw, AEAD_MAX, AEAD_TAG};
use crate::relay::{law_relay_parts, relay_parts, relay_payload, RelayParts};
use crate::sphinx::{build_header, descs, BuiltHeader, Plan, RouteNode};
use crate::{NetError, NodeId, DIR_FWD, MAX_HOPS};
use vstd::prelude::*;
use vstd::std_specs::iter::IteratorSpec;

verus! {

/// A circuit that begins here.
pub struct CircuitHandle {
    pub cid: u32,
    pub fwd: Vec<[u8; 32]>,
    pub bwd: Vec<[u8; 32]>,
    pub tag: [u8; 16],
}

/// A circuit that is being built.
pub struct PendingCircuit {
    pub cid: u32,
    pub built: BuiltHeader,
}

/// Whether a route has as many hops as a route can have.
pub fn check_route(route: &[NodeId]) -> (r: Result<(), NetError>)
    ensures
        match r {
            Ok(_) => 1 <= route@.len() <= MAX_HOPS,
            Err(e) => !(1 <= route@.len() <= MAX_HOPS) && e == NetError::BadLength(
                route@.len() as usize,
            ),
        },
{
    if route.len() == 0 || route.len() > MAX_HOPS {
        return Err(NetError::BadLength(route.len()));
    }
    Ok(())
}

/// Begins to build a circuit: draws a tag, builds the header of the route, and
/// sends it to the first hop. The circuit is then waited for.
pub fn build_circuit(node: &mut Node, route: &[RouteNode<'_>]) -> (r: Result<
    (PendingCircuit, Vec<Action>),
    NetError,
>)
    requires
        old(node).wf(),
    ensures
        final(node).wf(),
        final(node).same_but_rng(*old(node)),
        match r {
            Ok((p, actions)) => {
                &&& 1 <= route@.len() <= MAX_HOPS
                &&& exists|plan: Plan|
                    {
                        &&& plan.route == descs(route@)
                        &&& plan.wf()
                        &&& plan.reduced()
                        &&& plan.encapsulated()
                        &&& plan.layers_open()
                        &&& plan.points_multiply()
                        &&& #[trigger] plan.built(p.built)
                    }
                &&& p.cid == old(node).next_cid
                &&& final(node)@ == old(node)@.begun(p.cid)
                &&& action_views(actions@) == create_sends(
                    route@[0].desc.cell_addr@,
                    p.cid,
                    p.built.header@,
                )
            },
            Err(e) => {
                &&& !(1 <= route@.len() <= MAX_HOPS)
                &&& e == NetError::BadLength(route@.len() as usize)
                &&& final(node)@ == old(node)@
                &&& final(node).rng == old(node).rng
            },
        },
{
    broadcast use vstd::std_specs::hash::group_hash_axioms;

    if route.len() == 0 || route.len() > MAX_HOPS {
        return Err(NetError::BadLength(route.len()));
    }
    let tag: [u8; 16] = draw(&mut node.rng);
    let built = match build_header(route, tag, &mut node.rng) {
        Ok(built) => built,
        Err(e) => {
            return Err(NetError::from(e));
        },
    };
    let cid = node.new_cid();
    let actions = create_cells(built.first_addr, cid, built.header.as_slice());
    node.pending.insert(cid);
    assert(node@.pending =~= old(node)@.pending.insert(cid));
    Ok((PendingCircuit { cid, built }, actions))
}

impl NodeView {
    /// A circuit is being built.
    pub open spec fn begun(self, cid: u32) -> NodeView {
        NodeView { next_cid: next_u32(cid), pending: self.pending.insert(cid), ..self }
    }

    /// A circuit that begins here stands.
    pub open spec fn begins(self, cid: u32, b: BuiltHeader) -> NodeView {
        NodeView {
            circuits: self.circuits.insert(
                cid,
                CircuitView::Origin {
                    fwd: b.fwd_keys@,
                    bwd: b.bwd_keys@,
                    tag: b.tag@,
                    next: HopView { cid, peer: b.first_addr@ },
                    streams: Set::empty(),
                    last_bwd: 0,
                },
            ),
            ..self
        }
    }
}

impl PendingCircuit {
    /// The circuit stands: it is entered, and can be used.
    pub fn ready(self, node: &mut Node) -> (h: CircuitHandle)
        requires
            old(node).wf(),
            self.built.fwd_keys@.len() <= MAX_HOPS,
        ensures
            final(node).wf(),
            final(node).same_base(*old(node)),
            final(node)@ == old(node)@.begins(self.cid, self.built),
            h.cid == self.cid,
            h.fwd@ == self.built.fwd_keys@,
            h.bwd@ == self.built.bwd_keys@,
            h.tag == self.built.tag,
    {
        broadcast use vstd::std_specs::hash::group_hash_axioms;

        let cid = self.cid;
        let built = self.built;
        let fwd = copy_keys(built.fwd_keys.as_slice());
        let bwd = copy_keys(built.bwd_keys.as_slice());
        let next = HopLink { cid, peer: built.first_addr };
        let entry = CircuitEntry::Origin {
            fwd: built.fwd_keys,
            bwd: built.bwd_keys,
            tag: built.tag,
            next,
            streams: Vec::new(),
            last_bwd: 0,
        };
        let ghost e = entry@;
        assert(e->streams =~= Set::empty());
        node.circuits.insert(cid, entry);
        assert(node@.circuits =~= old(node)@.circuits.insert(cid, e));
        CircuitHandle { cid, fwd, bwd, tag: built.tag }
    }

    /// No answer came in time: the circuit is not waited for any more.
    pub fn timed_out(&self, node: &mut Node) -> (e: NetError)
        requires
            old(node).wf(),
        ensures
            final(node).wf(),
            final(node).same_base(*old(node)),
            final(node)@ == (NodeView {
                pending: old(node)@.pending.remove(self.cid),
                ..old(node)@
            }),
            e == NetError::Timeout,
    {
        broadcast use vstd::std_specs::hash::group_hash_axioms;

        node.pending.remove(&self.cid);
        assert(node@.pending =~= old(node)@.pending.remove(self.cid));
        NetError::Timeout
    }
}

/// The stream of an echo.
pub const ECHO_STREAM: u16 = 1;

impl CircuitHandle {
    /// The cell that sends a message over the circuit, and to whom, if the
    /// circuit begins at the node.
    pub open spec fn sends(
        self,
        v: NodeView,
        stream: u16,
        rcmd: RCmd,
        msg: Seq<u8>,
    ) -> Result<ActionView, NetError> {
        if !v.circuits.contains_key(self.cid) {
            Err(NetError::NoSession)
        } else {
            match v.circuits[self.cid] {
                CircuitView::Origin { next, .. } => {
                    let parts = RelayParts {
                        seq: v.seq_origin,
                        rcmd,
                        stream,
                        onion: onion(self.fwd@, self.tag@, DIR_FWD, v.seq_origin, msg),
                    };
                    Ok(
                        ActionView::Send {
                            to: next.peer,
                            cell: plain_cell(self.cid, Cmd::Relay, parts.bytes()),
                        },
                    )
                },
                _ => Err(NetError::NoSession),
            }
        }
    }

    /// Sends an echo to the last hop. Its answer will come over the stream of
    /// echoes.
    pub fn echo(&self, node: &mut Node, msg: &[u8]) -> (r: Result<Action, NetError>)
        requires
            old(node).wf(),
            AEAD_TAG * self.fwd@.len() <= AEAD_MAX - MSG_MAX,
        ensures
            final(node).wf(),
            final(node).same_base(*old(node)),
            if msg@.len() > MSG_MAX {
                &&& r == Err::<Action, NetError>(NetError::BadLength(msg@.len() as usize))
                &&& final(node)@ == old(node)@
            } else {
                let v = old(node)@.with_stream(self.cid, ECHO_STREAM);
                &&& self.sent(r, v, ECHO_STREAM, RCmd::Echo, msg@)
                &&& final(node)@ == v.numbered()
            },
    {
        if msg.len() > MSG_MAX {
            return Err(NetError::BadLength(msg.len()));
        }
        node.register_stream(self.cid, ECHO_STREAM);
        self.send(node, ECHO_STREAM, RCmd::Echo, msg)
    }

    /// Sends data over a stream.
    pub fn send_data(&self, node: &mut Node, msg: &[u8], stream: u16) -> (r: Result<
        Action,
        NetError,
    >)
        requires
            old(node).wf(),
            AEAD_TAG * self.fwd@.len() <= AEAD_MAX - MSG_MAX,
        ensures
            final(node).wf(),
            final(node).same_base(*old(node)),
            if msg@.len() > MSG_MAX {
                &&& r == Err::<Action, NetError>(NetError::BadLength(msg@.len() as usize))
                &&& final(node)@ == old(node)@
            } else {
                &&& self.sent(r, old(node)@, stream, RCmd::Data, msg@)
                &&& final(node)@ == old(node)@.numbered()
            },
    {
        if msg.len() > MSG_MAX {
            return Err(NetError::BadLength(msg.len()));
        }
        self.send(node, stream, RCmd::Data, msg)
    }

    /// What comes of sending: the cell, all whose layers open, or why there is
    /// none.
    pub open spec fn sent(
        self,
        r: Result<Action, NetError>,
        v: NodeView,
        stream: u16,
        rcmd: RCmd,
        msg: Seq<u8>,
    ) -> bool {
        &&& match r {
            Ok(a) => {
                &&& self.sends(v, stream, rcmd, msg) == Ok::<ActionView, NetError>(a@)
                &&& a@ matches ActionView::Send { cell, .. } && cell.payload.len() == 7 + msg.len()
                    + AEAD_TAG * self.fwd@.len()
            },
            Err(e) => self.sends(v, stream, rcmd, msg) == Err::<ActionView, NetError>(e),
        }
        &&& onion_opens(self.fwd@, self.tag@, DIR_FWD, v.seq_origin, msg)
    }

    /// Sends a message over the circuit. It takes the next number.
    pub(crate) fn send(&self, node: &mut Node, stream: u16, rcmd: RCmd, msg: &[u8]) -> (r: Result<
        Action,
        NetError,
    >)
        requires
            old(node).wf(),
            self.fwd@.len() > 0 ==> msg@.len() + AEAD_TAG * (self.fwd@.len() - 1) <= AEAD_MAX,
        ensures
            final(node).wf(),
            final(node).same_base(*old(node)),
            self.sent(r, old(node)@, stream, rcmd, msg@),
            final(node)@ == old(node)@.numbered(),
    {
        broadcast use vstd::std_specs::hash::group_hash_axioms;

        let seq = node.seq_origin;
        node.seq_origin = seq.wrapping_add(1);
        assert(node@.circuits == old(node)@.circuits);
        let data = seal_onion(self.fwd.as_slice(), &self.tag, seq, msg);
        let payload = relay_payload(seq, rcmd, stream, data.as_slice());
        let cell = Cell { cid: self.cid, cmd: Cmd::Relay, flags: 0, payload };
        match node.circuits.get(&self.cid) {
            Some(CircuitEntry::Origin { next, .. }) => Ok(Action::Send { to: next.peer, cell }),
            _ => Err(NetError::NoSession),
        }
    }

    /// Gives the circuit up: the first hop is told, and the circuit forgotten.
    pub fn close(&self, node: &mut Node) -> (r: Option<Action>)
        requires
            old(node).wf(),
        ensures
            final(node).wf(),
            final(node).same_base(*old(node)),
            ({
                let v = old(node)@;
                if v.circuits.contains_key(self.cid) && v.circuits[self.cid] is Origin {
                    &&& r matches Some(a) && a@ == ActionView::Send {
                        to: v.circuits[self.cid]->Origin_next.peer,
                        cell: plain_cell(self.cid, Cmd::Destroy, Seq::empty()),
                    }
                    &&& final(node)@ == (NodeView { circuits: v.circuits.remove(self.cid), ..v })
                } else {
                    r is None && final(node)@ == v
                }
            }),
    {
        broadcast use vstd::std_specs::hash::group_hash_axioms;

        let peer = match node.circuits.get(&self.cid) {
            Some(CircuitEntry::Origin { next, .. }) => next.peer,
            _ => {
                return None;
            },
        };
        node.circuits.remove(&self.cid);
        assert(node@.circuits =~= old(node)@.circuits.remove(self.cid));
        let cell = Cell { cid: self.cid, cmd: Cmd::Destroy, flags: 0, payload: Vec::new() };
        assert(cell@.payload =~= Seq::empty());
        Some(Action::Send { to: peer, cell })
    }
}

impl NodeView {
    /// A number was taken for a cell.
    pub open spec fn numbered(self) -> NodeView {
        NodeView { seq_origin: next_u32(self.seq_origin), ..self }
    }
}

/// Some circuit that begins at the node, if there is one.
pub fn pick_origin(node: &Node) -> (r: Option<CircuitHandle>)
    ensures
        match r {
            Some(h) => {
                &&& node@.circuits.contains_key(h.cid)
                &&& node@.circuits[h.cid] matches CircuitView::Origin { fwd, bwd, tag, .. } && fwd
                    == h.fwd@ && bwd == h.bwd@ && tag == h.tag@
            },
            None => forall|cid: u32| #[trigger]
                node@.circuits.contains_key(cid) ==> node@.circuits[cid] !is Origin,
        },
{
    broadcast use vstd::std_specs::hash::group_hash_axioms;

    let ghost all = vstd::std_specs::hash::spec_hash_map_iter(&node.circuits).remaining();
    for kv in it: node.circuits.iter()
        invariant
            all == it.seq(),
            forall|k: u32| #[trigger]
                node.circuits@.contains_key(k) ==> all.contains((&k, &node.circuits@[k])),
            forall|j: int|
                0 <= j < it.seq().len() ==> node.circuits@.contains_key(*(#[trigger] it.seq()[j]).0)
                    && node.circuits@[*it.seq()[j].0] == *it.seq()[j].1,
            forall|j: int| 0 <= j < it.index() ==> *(#[trigger] it.seq()[j]).1 !is Origin,
    {
        if let CircuitEntry::Origin { fwd, bwd, tag, .. } = kv.1 {
            let fwd = copy_keys(fwd.as_slice());
            let bwd = copy_keys(bwd.as_slice());
            return Some(CircuitHandle { cid: *kv.0, fwd, bwd, tag: *tag });
        }
    }
    proof {
        assert forall|cid: u32| #[trigger] node@.circuits.contains_key(cid) implies
            node@.circuits[cid] !is Origin by {
            assert(node.circuits@.contains_key(cid));
            let j = choose|j: int|
                0 <= j < all.len() && all[j] == (&cid, &node.circuits@[cid]);
            assert(*all[j].1 !is Origin);
        }
    }
    None
}

/// The numbers of a node's cells grow, so that no hop takes one for a replay,
/// until there is no higher one.
pub proof fn law_numbers_grow(v: NodeView)
    requires
        v.seq_origin != u32::MAX,
    ensures
        v.numbered().seq_origin == v.seq_origin + 1,
{
}

/// What is sent over a circuit is read back as it was given: the cell goes to the
/// first hop under the circuit's number, holds the node's number, the command and
/// the stream that were asked for, and under all forward layers the message. It
/// is sent where the circuit begins at the node, and else there is no session.
pub proof fn law_sent_reads_back(
    h: CircuitHandle,
    r: Result<Action, NetError>,
    v: NodeView,
    stream: u16,
    rcmd: RCmd,
    msg: Seq<u8>,
)
    requires
        h.sent(r, v, stream, rcmd, msg),
    ensures
        r is Ok <==> v.circuits.contains_key(h.cid) && v.circuits[h.cid] is Origin,
        r is Err ==> r->Err_0 == NetError::NoSession,
        r matches Ok(a) ==> {
            &&& a@ matches ActionView::Send { to, cell } && to
                == v.circuits[h.cid]->Origin_next.peer && cell.cid == h.cid && cell.cmd
                == Cmd::Relay && cell.flags == 0
            &&& relay_parts(a@->cell.payload) matches Some(p) && p.seq == v.seq_origin && p.rcmd
                == rcmd && p.stream == stream && peeled(
                h.fwd@,
                h.tag@,
                0,
                v.seq_origin,
                p.onion,
            ) == Some(msg)
        },
{
    let parts = RelayParts {
        seq: v.seq_origin,
        rcmd,
        stream,
        onion: onion(h.fwd@, h.tag@, DIR_FWD, v.seq_origin, msg),
    };
    law_relay_parts(parts);
    law_onion_peels(h.fwd@, h.tag@, DIR_FWD, v.seq_origin, msg);
}

/// A number taken for a cell is the next one, from the highest to zero, and
/// nothing else changes.
pub proof fn law_number_taken(v: NodeView)
    ensures
        v.numbered().seq_origin as int == (v.seq_origin + 1) % 0x1_0000_0000,
        v.numbered() == (NodeView { seq_origin: v.numbered().seq_origin, ..v }),
{
}

/// Circuits that are built one after the other have different numbers, and both
/// are waited for; whoever was waited for still is, and no circuit that stands
/// changes.
pub proof fn law_builds_apart(v: NodeView, k: u32)
    ensures
        ({
            let first = v.begun(v.next_cid);
            let second = first.begun(first.next_cid);
            &&& first.next_cid != v.next_cid
            &&& first.next_cid as int == (v.next_cid + 1) % 0x1_0000_0000
            &&& first.pending.contains(k) <==> (v.pending.contains(k) || k == v.next_cid)
            &&& second.pending.contains(v.next_cid) && second.pending.contains(first.next_cid)
            &&& first == (NodeView { next_cid: first.next_cid, pending: first.pending, ..v })
        }),
{
}

/// A circuit that was built can be used: it begins at the node with the keys and
/// the tag of its header, no stream is wanted and no cell has come back yet, and
/// what is sent over it goes to the first hop. Other circuits stay.
pub proof fn law_built_circuit_begins(v: NodeView, cid: u32, b: BuiltHeader, k: u32)
    ensures
        ({
            let after = v.begins(cid, b);
            &&& after == (NodeView { circuits: after.circuits, ..v })
            &&& k != cid ==> (after.circuits.contains_key(k) <==> v.circuits.contains_key(k))
            &&& k != cid && v.circuits.contains_key(k) ==> after.circuits[k] == v.circuits[k]
            &&& after.circuits.contains_key(cid)
            &&& after.circuits[cid] matches CircuitView::Origin {
                fwd,
                bwd,
                tag,
                next,
                streams,
                last_bwd,
            }
            &&& fwd == b.fwd_keys@
            &&& bwd == b.bwd_keys@
            &&& tag == b.tag@
            &&& next.cid == cid
            &&& next.peer == b.first_addr@
            &&& last_bwd == 0
            &&& forall|s: u16| !(#[trigger] streams.contains(s))
        }),
{
}

} // verus!
