//! The link between two nodes: datagrams that carry cells.
//!
//! Without a session, a cell goes in the clear, cut into datagrams:
//!
//! ```text
//! [0x7F][number of parts 2][number of this part 2][at most 1195 bytes]
//! ```
//!
//! With a session, a cell is one Noise message.

use crate::bytes::{
    append, get_u16, le_bytes, le_value, lemma_le_value_of_bytes, lemma_pow256,
    put_u16,
};
use crate::cell::{
    cell_of, complete, frag_put, frags_before, frags_wf, joined, law_cell_roundtrip, no_frags,
    reassemble, slots, Cell, CellView, FragBuf, CELL,
};
use crate::identity::x25519_pub_from_clamped;
use crate::kademlia::{be_value, id_less, lemma_be_injective, lemma_be_prefix};
use crate::primitives::{
    montgomery_mul_base, noise_counter, noise_error_text, noise_message, noise_write,
};
use crate::{CryptoError, NetError, NodeId};
use std::collections::HashMap;
use vstd::prelude::*;
use vstd::slice::slice_subrange;

verus! {

/// The longest datagram of a cell in the clear.
pub const HS_MTU: usize = 1200;

/// The room for a datagram that comes in.
pub const HS_DGRAM: usize = 2048;

/// The part of a cell that a datagram holds at most.
pub const HS_CHUNK: usize = HS_MTU - 5;

/// The mark of a datagram that holds a part of a cell.
pub const HS_MARK: u8 = 0x7F;

/// The roles in a handshake.
#[derive(Debug, Clone, Copy, PartialEq, Eq, Structural)]
pub enum HandshakeKind {
    Initiator,
    Responder,
}

impl HandshakeKind {
    /// The role of a node towards a peer: that of the initiator where its
    /// identifier is the smaller one.
    pub open spec fn role_spec(own: Seq<u8>, peer: Seq<u8>) -> HandshakeKind {
        if be_value(own) < be_value(peer) {
            HandshakeKind::Initiator
        } else {
            HandshakeKind::Responder
        }
    }

    /// The role of a node towards a peer.
    pub fn role(own: &NodeId, peer: &NodeId) -> (k: HandshakeKind)
        ensures
            k == Self::role_spec(own@, peer@),
    {
        if id_less(own, peer) {
            HandshakeKind::Initiator
        } else {
            HandshakeKind::Responder
        }
    }

    /// The role that a code stands for.
    pub fn from_u8(v: u8) -> (k: Option<HandshakeKind>)
        ensures
            k == if v == 1 {
                Some(HandshakeKind::Initiator)
            } else if v == 2 {
                Some(HandshakeKind::Responder)
            } else {
                None
            },
    {
        match v {
            1 => Some(HandshakeKind::Initiator),
            2 => Some(HandshakeKind::Responder),
            _ => None,
        }
    }
}

/// Handshakes do not cross: of two nodes with different identifiers one has the
/// initiator's role towards the other, and the other has the responder's.
pub proof fn law_roles_differ(a: NodeId, b: NodeId)
    requires
        a@ != b@,
    ensures
        HandshakeKind::role_spec(a@, b@) != HandshakeKind::role_spec(b@, a@),
{
    if be_value(a@) == be_value(b@) {
        lemma_be_injective(a@, b@);
    }
}

/// What a datagram holds.
#[derive(Debug)]
pub enum WireMsg {
    /// A cell.
    Cell(Cell),
    /// A part of a cell, the number of parts, and the part's number.
    Handshake(Vec<u8>, u16, u16),
}

/// What a datagram holds.
pub enum WireView {
    Cell(CellView),
    Handshake(Seq<u8>, u16, u16),
}

impl View for WireMsg {
    type V = WireView;

    open spec fn view(&self) -> WireView {
        match self {
            WireMsg::Cell(c) => WireView::Cell(c@),
            WireMsg::Handshake(chunk, total, idx) => WireView::Handshake(chunk@, *total, *idx),
        }
    }
}

/// What a datagram holds, if it is one of ours.
pub open spec fn wire_of(d: Seq<u8>) -> Option<WireView> {
    if d.len() == 0 {
        None
    } else if d[0] == HS_MARK {
        if d.len() < 5 {
            None
        } else {
            Some(
                WireView::Handshake(
                    d.subrange(5, d.len() as int),
                    le_value(d.subrange(1, 3)) as u16,
                    le_value(d.subrange(3, 5)) as u16,
                ),
            )
        }
    } else {
        match cell_of(d) {
            Ok(c) => Some(WireView::Cell(c)),
            Err(_) => None,
        }
    }
}

/// Reads a datagram.
pub fn classify(data: &[u8]) -> (m: Option<WireMsg>)
    ensures
        match m {
            Some(m) => wire_of(data@) == Some(m@),
            None => wire_of(data@) is None,
        },
        m matches Some(WireMsg::Cell(c)) ==> c@.wf(),
{
    if data.len() == 0 {
        return None;
    }
    if data[0] == HS_MARK {
        if data.len() < 5 {
            return None;
        }
        let total = get_u16(data, 1);
        let idx = get_u16(data, 3);
        let mut chunk: Vec<u8> = Vec::with_capacity(data.len() - 5);
        append(&mut chunk, slice_subrange(data, 5, data.len()));
        assert(chunk@ =~= data@.subrange(5, data@.len() as int));
        return Some(WireMsg::Handshake(chunk, total, idx));
    }
    match Cell::decode(data) {
        Ok(cell) => Some(WireMsg::Cell(cell)),
        Err(_) => None,
    }
}

/// How many datagrams data need: one at least.
pub open spec fn hs_count(len: nat) -> nat {
    if len == 0 {
        1
    } else {
        (len + HS_CHUNK - 1) as nat / HS_CHUNK as nat
    }
}

/// Datagram `i` of data.
pub open spec fn hs_frag(data: Seq<u8>, i: int) -> Seq<u8> {
    let end = (i + 1) * HS_CHUNK;
    seq![HS_MARK] + le_bytes(hs_count(data.len()) % 65536, 2) + le_bytes(i as nat % 65536, 2)
        + data.subrange(
        i * HS_CHUNK,
        if end < data.len() {
            end
        } else {
            data.len() as int
        },
    )
}

/// Cuts data into datagrams.
pub fn hs_fragments(data: &[u8]) -> (out: Vec<Vec<u8>>)
    ensures
        out@.len() == hs_count(data@.len()),
        forall|i: int| 0 <= i < out@.len() ==> (#[trigger] out@[i])@ == hs_frag(data@, i),
{
    let len: usize = data.len();
    let cnt: usize = if len == 0 {
        1
    } else {
        (len - 1) / HS_CHUNK + 1
    };
    assert(HS_CHUNK == 1195);
    assert(cnt as nat == hs_count(len as nat));
    let mut out: Vec<Vec<u8>> = Vec::with_capacity(cnt);
    let mut i: usize = 0;
    while i < cnt
        invariant
            len == data@.len(),
            cnt as nat == hs_count(len as nat),
            i <= cnt,
            out@.len() == i,
            forall|j: int| 0 <= j < i ==> (#[trigger] out@[j])@ == hs_frag(data@, j),
        decreases cnt - i,
    {
        assert(HS_CHUNK == 1195);
        assert(i * HS_CHUNK == i * 1195 && (i + 1) * HS_CHUNK == (i + 1) * 1195);
        let a: usize = i * HS_CHUNK;
        let b: usize = if len - a > HS_CHUNK {
            a + HS_CHUNK
        } else {
            len
        };
        let mut p: Vec<u8> = Vec::new();
        p.push(HS_MARK);
        put_u16(&mut p, (cnt % 65536) as u16);
        put_u16(&mut p, (i % 65536) as u16);
        append(&mut p, slice_subrange(data, a, b));
        assert(p@ =~= hs_frag(data@, i as int));
        out.push(p);
        i += 1;
    }
    out
}

/// The datagrams that carry a cell in the clear.
pub fn cell_datagrams(cell: &Cell) -> (out: Vec<Vec<u8>>)
    requires
        cell@.wf(),
    ensures
        out@.len() == hs_count(CELL as nat),
        forall|i: int| 0 <= i < out@.len() ==> (#[trigger] out@[i])@ == hs_frag(cell@.bytes(), i),
{
    proof {
        law_cell_roundtrip(cell@);
    }
    let bytes = cell.encode();
    hs_fragments(&bytes)
}

/// Takes in a part of a cell from a peer. With the last part that was missing,
/// the cell comes out, if it is one.
pub fn accept_part(
    peer: u32,
    chunk: &[u8],
    total: u16,
    idx: u16,
    parts: &mut HashMap<u32, FragBuf>,
) -> (cell: Option<Cell>)
    requires
        frags_wf(old(parts)@),
    ensures
        frags_wf(final(parts)@),
        ({
            let next = frag_put(frags_before(old(parts)@, peer, total), idx, chunk@);
            &&& cell matches Some(c) ==> c@.wf()
            &&& if complete(next) {
                &&& final(parts)@ == old(parts)@.remove(peer)
                &&& match cell {
                    Some(c) => cell_of(joined(next)) == Ok::<CellView, NetError>(c@),
                    None => cell_of(joined(next)) is Err,
                }
            } else {
                &&& cell is None
                &&& final(parts)@ == old(parts)@.insert(peer, final(parts)@[peer])
                &&& slots(final(parts)@[peer].got@) == next
            }
        }),
{
    match reassemble(peer, idx, total, chunk, parts) {
        Some(bytes) => match Cell::decode(bytes.as_slice()) {
            Ok(cell) => Some(cell),
            Err(_) => None,
        },
        None => None,
    }
}

/// Two parts make up a whole, whichever comes in first.
proof fn lemma_two_parts(p: Seq<u8>, q: Seq<u8>)
    ensures
        ({
            let ab = frag_put(frag_put(no_frags(2), 0, p), 1, q);
            let ba = frag_put(frag_put(no_frags(2), 1, q), 0, p);
            &&& complete(ab) && joined(ab) == p + q
            &&& complete(ba) && joined(ba) == p + q
        }),
{
    let none = no_frags(2);
    let ab = frag_put(frag_put(none, 0, p), 1, q);
    let ba = frag_put(frag_put(none, 1, q), 0, p);
    let both = seq![Some(p), Some(q)];
    assert(ab =~= both);
    assert(ba =~= both);
    let one = both.drop_last();
    assert(one =~= seq![Some(p)]);
    assert(one.drop_last() =~= Seq::empty());
    assert(joined(one.drop_last()) == Seq::<u8>::empty());
    assert(joined(one) =~= p);
    assert(joined(both) =~= p + q);
}

/// What a datagram with a part holds.
proof fn lemma_part(total: u16, idx: u16, chunk: Seq<u8>)
    ensures
        wire_of(
            seq![HS_MARK] + le_bytes(total as nat, 2) + le_bytes(idx as nat, 2) + chunk,
        ) == Some(WireView::Handshake(chunk, total, idx)),
{
    let d = seq![HS_MARK] + le_bytes(total as nat, 2) + le_bytes(idx as nat, 2) + chunk;
    lemma_pow256();
    lemma_le_value_of_bytes(total as nat, 2);
    lemma_le_value_of_bytes(idx as nat, 2);
    assert(d.subrange(5, d.len() as int) =~= chunk);
    assert(d.subrange(1, 3) =~= le_bytes(total as nat, 2));
    assert(d.subrange(3, 5) =~= le_bytes(idx as nat, 2));
}

/// A cell comes over a link as it was sent, in the clear: it goes in two
/// datagrams, each says that it is a part of two and which one, and whichever
/// comes in first, both together are the cell.
pub proof fn law_cell_over_link(c: CellView)
    requires
        c.wf(),
    ensures
        hs_count(c.bytes().len()) == 2,
        ({
            let (p, q) = (c.bytes().subrange(0, 1195), c.bytes().subrange(1195, 1280));
            let ab = frag_put(frag_put(no_frags(2), 0, p), 1, q);
            let ba = frag_put(frag_put(no_frags(2), 1, q), 0, p);
            &&& wire_of(hs_frag(c.bytes(), 0)) == Some(WireView::Handshake(p, 2, 0))
            &&& wire_of(hs_frag(c.bytes(), 1)) == Some(WireView::Handshake(q, 2, 1))
            &&& complete(ab) && cell_of(joined(ab)) == Ok::<CellView, NetError>(c)
            &&& complete(ba) && cell_of(joined(ba)) == Ok::<CellView, NetError>(c)
        }),
{
    let d = c.bytes();
    law_cell_roundtrip(c);
    assert(HS_CHUNK == 1195);
    let (p, q) = (d.subrange(0, 1195), d.subrange(1195, 1280));
    assert(p + q =~= d);
    lemma_two_parts(p, q);
    lemma_part(2, 0, p);
    lemma_part(2, 1, q);
}

/// A Noise session with a peer.
pub struct Session {
    transport: snow::TransportState,
}

impl Session {
    /// The state of the Noise session.
    pub closed spec fn state(self) -> snow::TransportState {
        self.transport
    }

    /// The session of a finished handshake.
    pub fn new(transport: snow::TransportState) -> (s: Self)
        ensures
            s.state() == transport,
    {
        Session { transport }
    }

    /// A cell as a Noise message: the one that the session makes of the cell's
    /// bytes in the state that it is in. It counts one message more; where it
    /// makes none it stays as it is.
    pub fn seal_cell(&mut self, cell: &Cell) -> (r: Result<Vec<u8>, NetError>)
        requires
            cell@.wf(),
        ensures
            match r {
                Ok(datagram) => {
                    &&& noise_message(old(self).state(), cell@.bytes()) == Some(datagram@)
                    &&& datagram@.len() == CELL + 16
                    &&& noise_counter(final(self).state()) == noise_counter(old(self).state()) + 1
                },
                Err(e) => {
                    &&& noise_message(old(self).state(), cell@.bytes()) is None
                    &&& final(self).state() == old(self).state()
                    &&& e matches NetError::Crypto(CryptoError::Noise(_))
                },
            },
    {
        let bytes = cell.encode();
        match noise_write(&mut self.transport, &bytes) {
            Ok(datagram) => Ok(datagram),
            Err(e) => Err(NetError::Crypto(CryptoError::Noise(noise_error_text(&e)))),
        }
    }
}

/// The X25519 public key of a link's private key.
pub fn x25519_pub_from_local(priv_key: &[u8; 32]) -> (public: [u8; 32])
    ensures
        public@ == montgomery_mul_base(priv_key@),
{
    x25519_pub_from_clamped(priv_key)
}

/// The first byte in which two identifiers differ settles who begins a
/// handshake: the node whose byte is the smaller one. Towards itself a node
/// begins none.
pub proof fn law_smaller_begins(a: NodeId, b: NodeId, i: int)
    requires
        0 <= i < 20,
        forall|j: int| 0 <= j < i ==> a@[j] == b@[j],
        a@[i] < b@[i],
    ensures
        HandshakeKind::role_spec(a@, b@) == HandshakeKind::Initiator,
        HandshakeKind::role_spec(b@, a@) == HandshakeKind::Responder,
        HandshakeKind::role_spec(a@, a@) == HandshakeKind::Responder,
{
    lemma_be_prefix(a@, b@, i);
}

/// The part of data that datagram `i` holds, as it is read.
pub open spec fn hs_part(data: Seq<u8>, i: int) -> Seq<u8> {
    match wire_of(hs_frag(data, i)) {
        Some(WireView::Handshake(chunk, _, _)) => chunk,
        _ => Seq::empty(),
    }
}

/// The end of what datagram `i` holds.
spec fn part_end(len: nat, i: int) -> int {
    if 1195 * i + 1195 < len {
        1195 * i + 1195
    } else {
        len as int
    }
}

/// Where the parts of data end.
proof fn lemma_hs_bounds(len: nat, i: int)
    requires
        0 <= i < hs_count(len),
    ensures
        1195 * i < len || (i == 0 && len == 0),
        i + 1 < hs_count(len) ==> 1195 * i + 1195 < len,
        i + 1 == hs_count(len) ==> 1195 * i + 1195 >= len,
        i * HS_CHUNK == 1195 * i,
        (i + 1) * HS_CHUNK == 1195 * i + 1195,
{
    assert(HS_CHUNK == 1195);
    assert(i * HS_CHUNK == i * 1195);
    assert((i + 1) * HS_CHUNK == (i + 1) * 1195);
}

/// What datagram `i` of data holds, and where it stands in the data.
proof fn lemma_hs_part(data: Seq<u8>, i: int)
    requires
        0 <= i < hs_count(data.len()) < 65536,
    ensures
        hs_frag(data, i).len() == 5 + part_end(data.len(), i) - 1195 * i,
        hs_part(data, i) == data.subrange(1195 * i, part_end(data.len(), i)),
        wire_of(hs_frag(data, i)) == Some(
            WireView::Handshake(hs_part(data, i), hs_count(data.len()) as u16, i as u16),
        ),
{
    let n = hs_count(data.len());
    lemma_hs_bounds(data.len(), i);
    let held = data.subrange(1195 * i, part_end(data.len(), i));
    lemma_part(n as u16, i as u16, held);
    crate::bytes::lemma_le_bytes_len(n, 2);
    crate::bytes::lemma_le_bytes_len(i as nat, 2);
    assert(n % 65536 == n && i as nat % 65536 == i as nat);
    assert(hs_frag(data, i) == seq![HS_MARK] + le_bytes(n, 2) + le_bytes(i as nat, 2) + held);
}

/// A datagram fits, and is read as a part of a cell: it tells how many parts
/// there are and which one it is. All but the last are full.
pub proof fn law_datagram_read(data: Seq<u8>, i: int)
    requires
        0 <= i < hs_count(data.len()) < 65536,
    ensures
        hs_frag(data, i).len() <= 1200,
        i + 1 < hs_count(data.len()) ==> hs_frag(data, i).len() == 1200,
        wire_of(hs_frag(data, i)) == Some(
            WireView::Handshake(hs_part(data, i), hs_count(data.len()) as u16, i as u16),
        ),
        data.len() > 0 ==> hs_part(data, i).len() > 0,
{
    lemma_hs_bounds(data.len(), i);
    lemma_hs_part(data, i);
}

/// What the datagrams of data hold, one behind the other, is the data.
pub proof fn law_datagrams_hold_all(data: Seq<u8>, got: Seq<Option<Seq<u8>>>)
    requires
        hs_count(data.len()) < 65536,
        got.len() == hs_count(data.len()),
        forall|i: int| 0 <= i < got.len() ==> #[trigger] got[i] == Some(hs_part(data, i)),
    ensures
        joined(got) == data,
{
    lemma_parts_join(data, got, got.len());
    assert(got.take(got.len() as int) =~= got);
    assert(data.take(data.len() as int) =~= data);
}

/// A beginning of data and what follows it make a longer beginning.
proof fn lemma_take_step(data: Seq<u8>, a: int, b: int)
    requires
        0 <= a <= b <= data.len(),
    ensures
        data.take(a) + data.subrange(a, b) == data.take(b),
{
    assert(data.take(a) + data.subrange(a, b) =~= data.take(b));
}

/// What the first `k` datagrams of data hold is the beginning of the data.
#[verifier::spinoff_prover]
proof fn lemma_parts_join(data: Seq<u8>, got: Seq<Option<Seq<u8>>>, k: nat)
    requires
        hs_count(data.len()) < 65536,
        got.len() == hs_count(data.len()),
        forall|i: int| 0 <= i < got.len() ==> #[trigger] got[i] == Some(hs_part(data, i)),
        k <= got.len(),
    ensures
        joined(got.take(k as int)) == data.take(part_end(data.len(), k - 1)),
    decreases k,
{
    if k > 0 {
        let i = k - 1;
        let end = part_end(data.len(), i);
        lemma_parts_join(data, got, i as nat);
        lemma_hs_bounds(data.len(), i);
        lemma_hs_part(data, i);
        if i > 0 {
            lemma_hs_bounds(data.len(), i - 1);
        }
        assert(part_end(data.len(), i - 1) == 1195 * i);
        assert(got[i] == Some(hs_part(data, i)));
        assert(got.take(k as int).drop_last() =~= got.take(i));
        assert(got.take(k as int).last() == got[i]);
        assert(joined(got.take(k as int)) == joined(got.take(i)) + hs_part(data, i));
        lemma_take_step(data, 1195 * i, end);
    } else {
        assert(joined(got.take(0)) =~= data.take(0));
    }
}

/// What is no part of a cell is read as a cell: a datagram with another first
/// byte holds a cell where its bytes are one, and else nothing. An empty one holds
/// nothing, and neither does a part without its numbers.
pub proof fn law_datagram_refused(d: Seq<u8>)
    ensures
        d.len() == 0 ==> wire_of(d) is None,
        d.len() > 0 && d[0] == 127 ==> (wire_of(d) is None <==> d.len() < 5),
        d.len() > 0 && d[0] == 127 && d.len() >= 5 ==> (wire_of(d) matches Some(
            WireView::Handshake(chunk, total, idx),
        ) && total == le_value(d.subrange(1, 3)) && idx == le_value(d.subrange(3, 5)) && chunk
            == d.subrange(5, d.len() as int)),
        d.len() > 0 && d[0] != 127 ==> match cell_of(d) {
            Ok(c) => wire_of(d) == Some(WireView::Cell(c)),
            Err(_) => wire_of(d) is None,
        },
{
    if d.len() >= 5 {
        lemma_pow256();
        crate::bytes::lemma_le_bytes_of_value(d.subrange(1, 3));
        crate::bytes::lemma_le_bytes_of_value(d.subrange(3, 5));
    }
}

/// What a message is taken to hold is what it holds.
pub proof fn law_message_shown(m: WireMsg)
    ensures
        match m {
            WireMsg::Cell(c) => m@ matches WireView::Cell(v) && v.cid == c.cid && v.cmd == c.cmd
                && v.flags == c.flags && v.payload == c.payload@,
            WireMsg::Handshake(chunk, total, idx) => m@ matches WireView::Handshake(c, t, i) && c
                == chunk@ && t == total && i == idx,
        },
{
}

} // verus!
