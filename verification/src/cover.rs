//! Cover traffic: padding to keep links busy, and cells that the last hop of a
//! circuit drops.

use crate::builder::pick_origin;
use crate::bytes::{le_bytes, le_value, put_zeros, zeros};
use crate::cell::{padding_payload, Cell, Cmd, RCmd};
use crate::node::{
    bump, peers_of, plain_cell, Action, ActionView, CircuitView, Node, NodeView, Stats,
};
use crate::primitives::draw_range;
use crate::{NodeAddr, NodeId};
use vstd::prelude::*;

verus! {

/// The stream of cells that are dropped.
pub const DROP_STREAM: u16 = 0;

/// The length of what is dropped.
pub const DROP_LEN: usize = 64;

/// How long to wait before the next cover traffic, in milliseconds: some time
/// between the bounds that are set.
pub fn next_wait(node: &mut Node) -> (ms: u64)
    requires
        old(node).wf(),
        old(node).config.cover.min_interval_ms <= old(node).config.cover.max_interval_ms,
    ensures
        final(node).wf(),
        final(node).same_but_rng(*old(node)),
        final(node)@ == old(node)@,
        old(node).config.cover.min_interval_ms <= ms <= old(node).config.cover.max_interval_ms,
{
    draw_range(
        &mut node.rng,
        node.config.cover.min_interval_ms,
        node.config.cover.max_interval_ms,
    )
}

/// A cell of padding to a peer.
pub open spec fn padding_to(peer: (NodeId, NodeAddr, [u8; 32])) -> ActionView {
    ActionView::Send { to: peer.1@, cell: plain_cell(0, Cmd::Padding, le_bytes(1, 2)) }
}

/// A cell of padding to peer `i`.
pub fn padding_for(peers: &[(NodeId, NodeAddr, [u8; 32])], i: usize) -> (a: Action)
    requires
        i < peers@.len(),
    ensures
        a@ == padding_to(peers@[i as int]),
{
    let cell = Cell { cid: 0, cmd: Cmd::Padding, flags: 0, payload: padding_payload(1) };
    Action::Send { to: peers[i].1, cell }
}

/// A cell of padding to some peer, if any is known, and the peer's link key.
pub fn padding(node: &mut Node, now_unix: u64) -> (r: Option<(Action, [u8; 32])>)
    requires
        old(node).wf(),
    ensures
        final(node).wf(),
        final(node).same_but_rng(*old(node)),
        final(node)@ == old(node)@,
        ({
            let peers = peers_of(old(node).dht.rt@, old(node).dht.store@, now_unix);
            match r {
                Some((a, link_pub)) => exists|i: int|
                    0 <= i < peers.len() && a@ == padding_to(#[trigger] peers[i]) && link_pub
                        == peers[i].2,
                None => peers.len() == 0 && final(node).rng == old(node).rng,
            }
        }),
{
    let peers = node.route_peers(now_unix);
    if peers.len() == 0 {
        return None;
    }
    let i: usize = draw_range(&mut node.rng, 0, (peers.len() - 1) as u64) as usize;
    let a = padding_for(peers.as_slice(), i);
    assert(a@ == padding_to(peers@[i as int]));
    Some((a, peers[i].2))
}

/// Counts padding that was sent.
pub fn padding_sent(node: &mut Node)
    requires
        old(node).wf(),
    ensures
        final(node).wf(),
        final(node).same_base(*old(node)),
        final(node)@ == (NodeView {
            stats: Stats {
                padding_sent: bump(old(node)@.stats.padding_sent),
                ..old(node)@.stats
            },
            ..old(node)@
        }),
{
    node.stats.padding_sent = node.stats.padding_sent.wrapping_add(1);
    assert(node@.circuits == old(node)@.circuits);
}

/// A cell to be dropped over some circuit that begins at the node, if there is
/// one. It takes a number as any other cell does.
pub fn drop_cell(node: &mut Node) -> (r: Option<Action>)
    requires
        old(node).wf(),
    ensures
        final(node).wf(),
        final(node).same_base(*old(node)),
        match r {
            Some(a) => {
                &&& exists|h: crate::builder::CircuitHandle|
                    {
                        &&& old(node)@.circuits.contains_key(h.cid)
                        &&& old(node)@.circuits[h.cid] matches CircuitView::Origin {
                            fwd,
                            tag,
                            ..
                        } && fwd == h.fwd@ && tag == h.tag@
                        &&& #[trigger] h.sends(
                            old(node)@,
                            DROP_STREAM,
                            RCmd::Drop,
                            zeros(DROP_LEN as nat),
                        ) == Ok::<ActionView, crate::NetError>(a@)
                    }
                &&& final(node)@ == (NodeView {
                    stats: Stats {
                        drops_sent: bump(old(node)@.stats.drops_sent),
                        ..old(node)@.stats
                    },
                    ..old(node)@.numbered()
                })
            },
            None => {
                &&& final(node)@ == old(node)@
                &&& forall|cid: u32| #[trigger]
                    old(node)@.circuits.contains_key(cid) ==> old(node)@.circuits[cid] !is Origin
            },
        },
{
    let h = match pick_origin(node) {
        Some(h) => h,
        None => {
            return None;
        },
    };
    let mut data: Vec<u8> = Vec::with_capacity(DROP_LEN);
    put_zeros(&mut data, DROP_LEN);
    assert(data@ =~= zeros(DROP_LEN as nat));
    assert(crate::node::route_wf(node@.circuits[h.cid]));
    let sent = h.send(node, DROP_STREAM, RCmd::Drop, data.as_slice());
    node.stats.drops_sent = node.stats.drops_sent.wrapping_add(1);
    match sent {
        Ok(a) => Some(a),
        Err(_) => None,
    }
}

/// Padding belongs to no circuit: the cell to a peer goes to the peer's address
/// under the number zero, and asks for one cell.
pub proof fn law_padding_cell(peer: (NodeId, NodeAddr, [u8; 32]))
    ensures
        padding_to(peer) matches ActionView::Send { to, cell } && to == peer.1@ && cell.cid == 0
            && cell.cmd == Cmd::Padding && cell.flags == 0 && cell.payload.len() == 2 && le_value(
            cell.payload,
        ) == 1,
{
    crate::bytes::lemma_pow256();
    crate::bytes::lemma_le_value_of_bytes(1, 2);
}

/// A cell to be dropped is one over the stream zero that the last hop has nothing
/// to do with but to drop it: sixty-four zeros under a layer for each hop.
pub proof fn law_drop_cell(h: crate::builder::CircuitHandle, a: Action, v: NodeView)
    requires
        h.sent(Ok(a), v, DROP_STREAM, RCmd::Drop, zeros(DROP_LEN as nat)),
    ensures
        a@ matches ActionView::Send { cell, .. } && cell.cmd == Cmd::Relay && cell.cid == h.cid
            && cell.payload.len() == 71 + 16 * h.fwd@.len(),
        crate::relay::relay_parts(a@->cell.payload) matches Some(p) && p.rcmd == RCmd::Drop
            && p.stream == 0 && crate::cell::peeled(
            h.fwd@,
            h.tag@,
            0,
            v.seq_origin,
            p.onion,
        ) == Some(Seq::new(64, |i: int| 0u8)),
{
    crate::builder::law_sent_reads_back(
        h,
        Ok(a),
        v,
        DROP_STREAM,
        RCmd::Drop,
        zeros(DROP_LEN as nat),
    );
    assert(zeros(DROP_LEN as nat) =~= Seq::new(64, |i: int| 0u8));
}

} // verus!
