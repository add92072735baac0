//! The messages of the distributed hash table.
//!
//! A message is the mark `NBFR`, a type and a body:
//!
//! ```text
//! PING  1  nonce 8
//! PONG  2  nonce 8
//! STORE 3  descriptor
//! FIND  4  key 20, whether a value is wanted 1
//! FOUND 5  count 1, count * (id 20, ip 4, port 2), length 2, descriptor
//! ```
//!
//! A length of zero stands for no descriptor.

use crate::bytes::{
    append, arr_eq, get_arr, get_u16, get_u64, le_bytes, le_value, lemma_le_bytes_of_value,
    lemma_le_value_of_bytes, lemma_pow256, put_u16, put_u64,
};
use crate::error::DhtFault;
use crate::identity::{desc_error, law_descriptor_roundtrip, lemma_desc_len, Descriptor};
use crate::{DhtError, NodeAddr, NodeId};
use vstd::prelude::*;
use vstd::slice::slice_subrange;

verus! {

/// How a node is reached in the hash table.
#[derive(Debug, Clone, Copy, PartialEq, Eq)]
pub struct Contact {
    pub node_id: NodeId,
    pub ip: [u8; 4],
    pub dht_port: u16,
}

/// What a contact holds.
pub struct ContactView {
    pub id: Seq<u8>,
    pub ip: Seq<u8>,
    pub port: nat,
}

impl View for Contact {
    type V = ContactView;

    open spec fn view(&self) -> ContactView {
        ContactView { id: self.node_id@, ip: self.ip@, port: self.dht_port as nat }
    }
}

impl ContactView {
    /// A contact as bytes.
    pub open spec fn bytes(self) -> Seq<u8> {
        self.id + self.ip + le_bytes(self.port, 2)
    }
}

/// The contact of the node with a descriptor. One without an IPv4 address is
/// taken to be on this host.
pub open spec fn contact_of(d: Descriptor) -> ContactView {
    ContactView {
        id: d.node_id@,
        ip: match d.cell_addr {
            NodeAddr::V4 { ip, .. } => ip@,
            NodeAddr::V6 { .. } => seq![127u8, 0, 0, 1],
        },
        port: d.dht_port as nat,
    }
}

/// The contact of the node with a descriptor that can be written down.
pub open spec fn desc_contact(d: Descriptor) -> Contact
    recommends
        d.wf(),
{
    match d.cell_addr {
        NodeAddr::V4 { ip, .. } => Contact { node_id: d.node_id, ip, dht_port: d.dht_port },
        NodeAddr::V6 { .. } => arbitrary(),
    }
}

impl Contact {
    /// The contact of the node with a descriptor.
    pub fn from_desc(d: &Descriptor) -> (c: Contact)
        ensures
            c@ == contact_of(*d),
            d.wf() ==> c == desc_contact(*d),
    {
        let ip: [u8; 4] = match d.cell_addr {
            NodeAddr::V4 { ip, .. } => ip,
            NodeAddr::V6 { .. } => [127, 0, 0, 1],
        };
        assert(ip@ =~= contact_of(*d).ip);
        Contact { node_id: d.node_id, ip, dht_port: d.dht_port }
    }

    /// The address of the contact.
    pub fn addr(&self) -> (a: NodeAddr)
        ensures
            a == (NodeAddr::V4 { ip: self.ip, port: self.dht_port }),
    {
        NodeAddr::V4 { ip: self.ip, port: self.dht_port }
    }
}

/// The type of a message.
#[derive(Debug, Clone, Copy, PartialEq, Eq, Structural)]
pub enum RpcType {
    Ping,
    Pong,
    Store,
    Find,
    Found,
}

impl RpcType {
    /// The code of a type.
    pub open spec fn code(self) -> u8 {
        match self {
            RpcType::Ping => 1,
            RpcType::Pong => 2,
            RpcType::Store => 3,
            RpcType::Find => 4,
            RpcType::Found => 5,
        }
    }

    /// The code of a type.
    pub fn to_u8(self) -> (v: u8)
        ensures
            v == self.code(),
    {
        match self {
            RpcType::Ping => 1,
            RpcType::Pong => 2,
            RpcType::Store => 3,
            RpcType::Find => 4,
            RpcType::Found => 5,
        }
    }
}

/// The type that a code stands for.
pub open spec fn rpc_type_of(v: u8) -> Result<RpcType, DhtError> {
    if v == 1 {
        Ok(RpcType::Ping)
    } else if v == 2 {
        Ok(RpcType::Pong)
    } else if v == 3 {
        Ok(RpcType::Store)
    } else if v == 4 {
        Ok(RpcType::Find)
    } else if v == 5 {
        Ok(RpcType::Found)
    } else {
        Err(DhtError::BadType(v))
    }
}

impl TryFrom<u8> for RpcType {
    type Error = DhtError;

    fn try_from(v: u8) -> (r: Result<Self, DhtError>) {
        match v {
            1 => Ok(RpcType::Ping),
            2 => Ok(RpcType::Pong),
            3 => Ok(RpcType::Store),
            4 => Ok(RpcType::Find),
            5 => Ok(RpcType::Found),
            _ => Err(DhtError::BadType(v)),
        }
    }
}

impl vstd::std_specs::convert::TryFromSpecImpl<u8> for RpcType {
    open spec fn obeys_try_from_spec() -> bool {
        true
    }

    open spec fn try_from_spec(v: u8) -> Result<Self, DhtError> {
        rpc_type_of(v)
    }
}

/// A message.
#[derive(Debug, PartialEq)]
pub enum RpcMsg {
    Ping { nonce: u64 },
    Pong { nonce: u64 },
    Store { desc: Descriptor },
    Find { key: NodeId, want_value: bool },
    Found { contacts: Vec<Contact>, value: Option<Descriptor> },
}

/// What a message holds, a descriptor as its bytes.
pub enum RpcView {
    Ping { nonce: nat },
    Pong { nonce: nat },
    Store { desc: Seq<u8> },
    Find { key: Seq<u8>, want_value: bool },
    Found { contacts: Seq<ContactView>, value: Option<Seq<u8>> },
}

/// Contacts by what they hold.
pub open spec fn contact_views(cs: Seq<Contact>) -> Seq<ContactView> {
    Seq::new(cs.len(), |i: int| cs[i]@)
}

impl View for RpcMsg {
    type V = RpcView;

    open spec fn view(&self) -> RpcView {
        match self {
            RpcMsg::Ping { nonce } => RpcView::Ping { nonce: *nonce as nat },
            RpcMsg::Pong { nonce } => RpcView::Pong { nonce: *nonce as nat },
            RpcMsg::Store { desc } => RpcView::Store { desc: desc.bytes_spec() },
            RpcMsg::Find { key, want_value } => RpcView::Find {
                key: key@,
                want_value: *want_value,
            },
            RpcMsg::Found { contacts, value } => RpcView::Found {
                contacts: contact_views(contacts@),
                value: match value {
                    Some(d) => Some(d.bytes_spec()),
                    None => None,
                },
            },
        }
    }
}

impl RpcMsg {
    /// The descriptor of a message can be written down.
    pub open spec fn wf(self) -> bool {
        match self {
            RpcMsg::Store { desc } => desc.wf(),
            RpcMsg::Found { value: Some(desc), .. } => desc.wf(),
            _ => true,
        }
    }

    /// The descriptor of a message is signed, where there is one.
    pub open spec fn signed(self) -> bool {
        match self {
            RpcMsg::Store { desc } => desc.signed(),
            RpcMsg::Found { value: Some(desc), .. } => desc.signed(),
            _ => true,
        }
    }
}

/// The mark at the head of a message: `NBFR`.
pub open spec fn rpc_magic() -> Seq<u8> {
    seq![78u8, 66, 70, 82]
}

/// Contacts as bytes.
pub open spec fn contacts_bytes(cs: Seq<ContactView>) -> Seq<u8>
    decreases cs.len(),
{
    if cs.len() == 0 {
        Seq::empty()
    } else {
        contacts_bytes(cs.drop_last()) + cs.last().bytes()
    }
}

impl RpcView {
    /// The type of a message.
    pub open spec fn rpc_type(self) -> RpcType {
        match self {
            RpcView::Ping { .. } => RpcType::Ping,
            RpcView::Pong { .. } => RpcType::Pong,
            RpcView::Store { .. } => RpcType::Store,
            RpcView::Find { .. } => RpcType::Find,
            RpcView::Found { .. } => RpcType::Found,
        }
    }

    /// The body of a message.
    pub open spec fn body(self) -> Seq<u8> {
        match self {
            RpcView::Ping { nonce } => le_bytes(nonce, 8),
            RpcView::Pong { nonce } => le_bytes(nonce, 8),
            RpcView::Store { desc } => desc,
            RpcView::Find { key, want_value } => key + seq![
                if want_value {
                    1u8
                } else {
                    0u8
                },
            ],
            RpcView::Found { contacts, value } => seq![(contacts.len() % 256) as u8]
                + contacts_bytes(contacts) + match value {
                Some(desc) => le_bytes(desc.len(), 2) + desc,
                None => le_bytes(0, 2),
            },
        }
    }

    /// The message as bytes.
    pub open spec fn bytes(self) -> Seq<u8> {
        rpc_magic() + seq![self.rpc_type().code()] + self.body()
    }
}

/// The message as bytes.
pub fn rpc_encode(msg: &RpcMsg) -> (out: Vec<u8>)
    requires
        msg.wf(),
    ensures
        out@ == msg@.bytes(),
{
    let t = match msg {
        RpcMsg::Ping { .. } => RpcType::Ping,
        RpcMsg::Pong { .. } => RpcType::Pong,
        RpcMsg::Store { .. } => RpcType::Store,
        RpcMsg::Find { .. } => RpcType::Find,
        RpcMsg::Found { .. } => RpcType::Found,
    };
    let mut out: Vec<u8> = Vec::new();
    out.push(78);
    out.push(66);
    out.push(70);
    out.push(82);
    out.push(t.to_u8());
    let ghost head = out@;
    assert(head =~= rpc_magic() + seq![msg@.rpc_type().code()]);
    match msg {
        RpcMsg::Ping { nonce } => put_u64(&mut out, *nonce),
        RpcMsg::Pong { nonce } => put_u64(&mut out, *nonce),
        RpcMsg::Store { desc } => append(&mut out, desc.to_bytes().as_slice()),
        RpcMsg::Find { key, want_value } => {
            append(&mut out, key);
            out.push(
                if *want_value {
                    1
                } else {
                    0
                },
            );
            assert(out@ =~= head + msg@.body());
        },
        RpcMsg::Found { contacts, value } => {
            out.push((contacts.len() % 256) as u8);
            put_contacts(&mut out, contacts.as_slice());
            match value {
                Some(d) => {
                    let b = d.to_bytes();
                    put_u16(&mut out, b.len() as u16);
                    append(&mut out, b.as_slice());
                },
                None => put_u16(&mut out, 0),
            }
            assert(out@ =~= head + msg@.body());
        },
    }
    out
}

/// Appends contacts.
fn put_contacts(out: &mut Vec<u8>, contacts: &[Contact])
    ensures
        final(out)@ == old(out)@ + contacts_bytes(contact_views(contacts@)),
{
    let ghost base = out@;
    let ghost all = contact_views(contacts@);
    let mut i: usize = 0;
    assert(all.subrange(0, 0) =~= Seq::empty());
    assert(out@ =~= base + contacts_bytes(all.subrange(0, 0)));
    while i < contacts.len()
        invariant
            all == contact_views(contacts@),
            i <= contacts@.len(),
            out@ == base + contacts_bytes(all.subrange(0, i as int)),
        decreases contacts@.len() - i,
    {
        let c = &contacts[i];
        append(out, &c.node_id);
        append(out, &c.ip);
        put_u16(out, c.dht_port);
        proof {
            let part = all.subrange(0, i + 1);
            assert(part.drop_last() =~= all.subrange(0, i as int));
            assert(part.last() == c@);
            assert(out@ =~= base + contacts_bytes(part));
        }
        i += 1;
    }
    assert(all.subrange(0, i as int) =~= all);
}

/// The contact at a position.
pub open spec fn contact_at(b: Seq<u8>, o: int) -> ContactView {
    ContactView {
        id: b.subrange(o, o + 20),
        ip: b.subrange(o + 20, o + 24),
        port: le_value(b.subrange(o + 24, o + 26)),
    }
}

/// The message with a type and a body.
pub open spec fn rpc_body_of(t: RpcType, b: Seq<u8>) -> Result<RpcView, DhtFault> {
    match t {
        RpcType::Ping => if b.len() != 8 {
            Err(DhtFault::BadLen(b.len()))
        } else {
            Ok(RpcView::Ping { nonce: le_value(b) })
        },
        RpcType::Pong => if b.len() != 8 {
            Err(DhtFault::BadLen(b.len()))
        } else {
            Ok(RpcView::Pong { nonce: le_value(b) })
        },
        RpcType::Store => match desc_error(b) {
            Some(e) => Err(DhtFault::BadDesc(e.message_spec())),
            None => Ok(RpcView::Store { desc: b }),
        },
        RpcType::Find => if b.len() != 21 {
            Err(DhtFault::BadLen(b.len()))
        } else {
            Ok(RpcView::Find { key: b.subrange(0, 20), want_value: b[20] != 0 })
        },
        RpcType::Found => {
            let n = b[0] as int;
            let o = 1 + 26 * n;
            let len = le_value(b.subrange(o, o + 2)) as int;
            if b.len() < 3 || b.len() < o + 2 {
                Err(DhtFault::BadLen(b.len()))
            } else {
                let contacts = Seq::new(n as nat, |i: int| contact_at(b, 1 + 26 * i));
                if b.len() != o + 2 + len {
                    Err(DhtFault::BadLen(b.len()))
                } else if len == 0 {
                    Ok(RpcView::Found { contacts, value: None })
                } else {
                    let desc = b.subrange(o + 2, o + 2 + len);
                    match desc_error(desc) {
                        Some(e) => Err(DhtFault::BadDesc(e.message_spec())),
                        None => Ok(RpcView::Found { contacts, value: Some(desc) }),
                    }
                }
            }
        },
    }
}

/// The message that a byte string stands for.
pub open spec fn rpc_of(data: Seq<u8>) -> Result<RpcView, DhtFault> {
    if data.len() < 5 {
        Err(DhtFault::BadLen(data.len()))
    } else if data.subrange(0, 4) != rpc_magic() {
        Err(DhtFault::BadType(data[4]))
    } else {
        match rpc_type_of(data[4]) {
            Err(_) => Err(DhtFault::BadType(data[4])),
            Ok(t) => rpc_body_of(t, data.subrange(5, data.len() as int)),
        }
    }
}

/// Reads a message. It takes up the whole datagram, and a descriptor in it is
/// checked.
pub fn rpc_decode(data: &[u8]) -> (r: Result<RpcMsg, DhtError>)
    ensures
        match r {
            Ok(m) => rpc_of(data@) == Ok::<RpcView, DhtFault>(m@) && m.wf() && m.signed(),
            Err(e) => rpc_of(data@) == Err::<RpcView, DhtFault>(e@),
        },
{
    if data.len() < 5 {
        return Err(DhtError::BadLen(data.len()));
    }
    let magic: [u8; 4] = [78, 66, 70, 82];
    assert(magic@ =~= rpc_magic());
    let head: [u8; 4] = get_arr(data, 0);
    if !arr_eq(&head, &magic) {
        return Err(DhtError::BadType(data[4]));
    }
    let t = match RpcType::try_from(data[4]) {
        Ok(t) => t,
        Err(e) => {
            return Err(e);
        },
    };
    let body = slice_subrange(data, 5, data.len());
    assert(body@.len() == 8 ==> body@.subrange(0, 8) =~= body@);
    match t {
        RpcType::Ping => {
            if body.len() != 8 {
                return Err(DhtError::BadLen(body.len()));
            }
            Ok(RpcMsg::Ping { nonce: get_u64(body, 0) })
        },
        RpcType::Pong => {
            if body.len() != 8 {
                return Err(DhtError::BadLen(body.len()));
            }
            Ok(RpcMsg::Pong { nonce: get_u64(body, 0) })
        },
        RpcType::Store => match Descriptor::from_signed_bytes(body) {
            Ok(desc) => Ok(RpcMsg::Store { desc }),
            Err(e) => Err(DhtError::BadDesc(e.message())),
        },
        RpcType::Find => {
            if body.len() != 21 {
                return Err(DhtError::BadLen(body.len()));
            }
            let key: NodeId = get_arr(body, 0);
            Ok(RpcMsg::Find { key, want_value: body[20] != 0 })
        },
        RpcType::Found => decode_found(body),
    }
}

/// Reads the body of an answer.
fn decode_found(body: &[u8]) -> (r: Result<RpcMsg, DhtError>)
    ensures
        match r {
            Ok(m) => rpc_body_of(RpcType::Found, body@) == Ok::<RpcView, DhtFault>(m@) && m.wf()
                && m.signed(),
            Err(e) => rpc_body_of(RpcType::Found, body@) == Err::<RpcView, DhtFault>(e@),
        },
{
    assert(body@.len() == body.len());
    if body.len() < 3 {
        return Err(DhtError::BadLen(body.len()));
    }
    let n: usize = body[0] as usize;
    let mut contacts: Vec<Contact> = Vec::with_capacity(n);
    let mut o: usize = 1;
    let mut i: usize = 0;
    while i < n
        invariant
            n == body@[0],
            body@.len() == body.len(),
            3 <= body@.len(),
            i <= n,
            o == 1 + 26 * i,
            o <= body@.len(),
            contacts@.len() == i,
            forall|j: int| 0 <= j < i ==> (#[trigger] contacts@[j])@ == contact_at(body@, 1 + 26 * j),
        decreases n - i,
    {
        if body.len() - o < 26 {
            return Err(DhtError::BadLen(body.len()));
        }
        let node_id: NodeId = get_arr(body, o);
        let ip: [u8; 4] = get_arr(body, o + 20);
        let dht_port = get_u16(body, o + 24);
        contacts.push(Contact { node_id, ip, dht_port });
        o += 26;
        i += 1;
    }
    if body.len() - o < 2 {
        return Err(DhtError::BadLen(body.len()));
    }
    let len: usize = get_u16(body, o) as usize;
    o += 2;
    assert(contact_views(contacts@) =~= Seq::new(n as nat, |i: int| contact_at(body@, 1 + 26 * i)));
    if body.len() - o != len {
        return Err(DhtError::BadLen(body.len()));
    }
    if len == 0 {
        return Ok(RpcMsg::Found { contacts, value: None });
    }
    match Descriptor::from_signed_bytes(slice_subrange(body, o, o + len)) {
        Ok(desc) => Ok(RpcMsg::Found { contacts, value: Some(desc) }),
        Err(e) => Err(DhtError::BadDesc(e.message())),
    }
}

/// The answer to a ping.
pub fn ping_response(nonce: u64) -> (m: RpcMsg)
    ensures
        m == (RpcMsg::Pong { nonce }),
{
    RpcMsg::Pong { nonce }
}

/// The answer to a search.
pub fn find_response(contacts: Vec<Contact>, value: Option<Descriptor>) -> (m: RpcMsg)
    ensures
        m == (RpcMsg::Found { contacts, value }),
{
    RpcMsg::Found { contacts, value }
}

/// Where each contact stands among the bytes of contacts.
proof fn lemma_contacts_at(cs: Seq<Contact>)
    ensures
        contacts_bytes(contact_views(cs)).len() == 26 * cs.len(),
        forall|i: int|
            0 <= i < cs.len() ==> contact_at(contacts_bytes(contact_views(cs)), 26 * i)
                == #[trigger] cs[i]@,
    decreases cs.len(),
{
    let vs = contact_views(cs);
    let b = contacts_bytes(vs);
    if cs.len() > 0 {
        let init = cs.drop_last();
        let ib = contacts_bytes(contact_views(init));
        lemma_contacts_at(init);
        assert(vs.drop_last() =~= contact_views(init));
        let c = cs.last();
        lemma_pow256();
        lemma_le_value_of_bytes(c.dht_port as nat, 2);
        assert(b =~= ib + c@.bytes());
        assert forall|i: int| 0 <= i < cs.len() implies contact_at(b, 26 * i)
            == #[trigger] cs[i]@ by {
            if i < init.len() {
                assert(init[i] == cs[i]);
                assert(contact_at(ib, 26 * i) == init[i]@);
                assert(b.subrange(26 * i, 26 * i + 20) =~= ib.subrange(26 * i, 26 * i + 20));
                assert(b.subrange(26 * i + 20, 26 * i + 24) =~= ib.subrange(
                    26 * i + 20,
                    26 * i + 24,
                ));
                assert(b.subrange(26 * i + 24, 26 * i + 26) =~= ib.subrange(
                    26 * i + 24,
                    26 * i + 26,
                ));
            } else {
                assert(b.subrange(26 * i, 26 * i + 20) =~= c.node_id@);
                assert(b.subrange(26 * i + 20, 26 * i + 24) =~= c.ip@);
                assert(b.subrange(26 * i + 24, 26 * i + 26) =~= le_bytes(c.dht_port as nat, 2));
            }
        }
    }
}

/// What is read from the contacts of an answer.
proof fn lemma_found_contacts(cs: Seq<Contact>, rest: Seq<u8>)
    requires
        cs.len() <= 255,
    ensures
        ({
            let b = seq![(cs.len() % 256) as u8] + contacts_bytes(contact_views(cs)) + rest;
            let o = 1 + 26 * cs.len() as int;
            &&& b.len() == o + rest.len()
            &&& b[0] == cs.len()
            &&& b.subrange(o, b.len() as int) == rest
            &&& Seq::new(cs.len(), |i: int| contact_at(b, 1 + 26 * i)) == contact_views(cs)
        }),
{
    let cb = contacts_bytes(contact_views(cs));
    let b = seq![(cs.len() % 256) as u8] + cb + rest;
    let o = 1 + 26 * cs.len() as int;
    lemma_contacts_at(cs);
    assert forall|i: int| 0 <= i < cs.len() implies contact_at(b, 1 + 26 * i)
        == #[trigger] cs[i]@ by {
        assert(contact_at(cb, 26 * i) == cs[i]@);
        assert(b.subrange(1 + 26 * i, 1 + 26 * i + 20) =~= cb.subrange(26 * i, 26 * i + 20));
        assert(b.subrange(1 + 26 * i + 20, 1 + 26 * i + 24) =~= cb.subrange(
            26 * i + 20,
            26 * i + 24,
        ));
        assert(b.subrange(1 + 26 * i + 24, 1 + 26 * i + 26) =~= cb.subrange(
            26 * i + 24,
            26 * i + 26,
        ));
    }
    assert(b.subrange(o, b.len() as int) =~= rest);
    assert(Seq::new(cs.len(), |i: int| contact_at(b, 1 + 26 * i)) =~= contact_views(cs));
}

/// What is read from the body of an answer.
proof fn lemma_found_roundtrip(m: RpcMsg)
    requires
        m.wf(),
        m.signed(),
        m matches RpcMsg::Found { contacts, .. } && contacts@.len() <= 255,
    ensures
        rpc_body_of(RpcType::Found, m@.body()) == Ok::<RpcView, DhtFault>(m@),
{
    if let RpcMsg::Found { contacts, value } = m {
        let cs = contacts@;
        let b = m@.body();
        let o = 1 + 26 * cs.len() as int;
        lemma_pow256();
        match value {
            Some(desc) => {
                let d = desc.bytes_spec();
                let rest = le_bytes(d.len(), 2) + d;
                lemma_found_contacts(cs, rest);
                law_descriptor_roundtrip(desc);
                lemma_le_value_of_bytes(d.len(), 2);
                let tail = b.subrange(o, b.len() as int);
                assert(b.subrange(o, o + 2) =~= tail.subrange(0, 2));
                assert(tail.subrange(0, 2) =~= le_bytes(d.len(), 2));
                assert(b.subrange(o + 2, o + 2 + d.len() as int) =~= tail.subrange(
                    2,
                    tail.len() as int,
                ));
                assert(tail.subrange(2, tail.len() as int) =~= d);
            },
            None => {
                let rest = le_bytes(0, 2);
                lemma_found_contacts(cs, rest);
                lemma_le_value_of_bytes(0, 2);
                assert(b.subrange(o, o + 2) =~= rest);
            },
        }
    }
}

/// What is read from the bytes of a message is that message, where its
/// descriptor is signed and its contacts can be counted in one byte.
pub proof fn law_rpc_roundtrip(m: RpcMsg)
    requires
        m.wf(),
        m.signed(),
        m matches RpcMsg::Found { contacts, .. } ==> contacts@.len() <= 255,
    ensures
        rpc_of(m@.bytes()) == Ok::<RpcView, DhtFault>(m@),
{
    let b = m@.body();
    let data = m@.bytes();
    assert(data.subrange(0, 4) =~= rpc_magic());
    assert(data.subrange(5, data.len() as int) =~= b);
    lemma_pow256();
    match m {
        RpcMsg::Ping { nonce } => {
            lemma_le_value_of_bytes(nonce as nat, 8);
        },
        RpcMsg::Pong { nonce } => {
            lemma_le_value_of_bytes(nonce as nat, 8);
        },
        RpcMsg::Store { desc } => {
            law_descriptor_roundtrip(desc);
        },
        RpcMsg::Find { key, want_value } => {
            assert(b.subrange(0, 20) =~= key@);
        },
        RpcMsg::Found { .. } => {
            lemma_found_roundtrip(m);
        },
    }
}

/// Where everything stands in the bytes of an answer to a search.
#[verifier::spinoff_prover]
proof fn lemma_found_layout(cs: Seq<Contact>, value: Option<Descriptor>)
    requires
        value matches Some(d) ==> d.wf(),
    ensures
        ({
            let b = (RpcView::Found {
                contacts: contact_views(cs),
                value: match value {
                    Some(d) => Some(d.bytes_spec()),
                    None => None,
                },
            }).bytes();
            let o = 6 + 26 * cs.len() as int;
            &&& b[5] as int == cs.len() % 256
            &&& forall|i: int|
                0 <= i < cs.len() ==> {
                    &&& (#[trigger] cs[i]).node_id@ == b.subrange(6 + 26 * i, 26 + 26 * i)
                    &&& cs[i].ip@ == b.subrange(26 + 26 * i, 30 + 26 * i)
                    &&& cs[i].dht_port == le_value(b.subrange(30 + 26 * i, 32 + 26 * i))
                }
            &&& match value {
                Some(d) => {
                    &&& b.len() == o + 2 + 1385
                    &&& le_value(b.subrange(o, o + 2)) == 1385
                    &&& b.subrange(o + 2, b.len() as int) == d.bytes_spec()
                },
                None => b.len() == o + 2 && le_value(b.subrange(o, o + 2)) == 0,
            }
        }),
{
    let cb = contacts_bytes(contact_views(cs));
    let tail = match value {
        Some(d) => le_bytes(d.bytes_spec().len(), 2) + d.bytes_spec(),
        None => le_bytes(0, 2),
    };
    let head = rpc_magic() + seq![5u8] + seq![(cs.len() % 256) as u8];
    let b = head + cb + tail;
    let o = 6 + 26 * cs.len() as int;
    lemma_pow256();
    lemma_contacts_at(cs);
    assert(b =~= (RpcView::Found {
        contacts: contact_views(cs),
        value: match value {
            Some(d) => Some(d.bytes_spec()),
            None => None,
        },
    }).bytes());
    assert forall|i: int| 0 <= i < cs.len() implies {
        &&& (#[trigger] cs[i]).node_id@ == b.subrange(6 + 26 * i, 26 + 26 * i)
        &&& cs[i].ip@ == b.subrange(26 + 26 * i, 30 + 26 * i)
        &&& cs[i].dht_port == le_value(b.subrange(30 + 26 * i, 32 + 26 * i))
    } by {
        assert(contact_at(cb, 26 * i) == cs[i]@);
        assert(b.subrange(6 + 26 * i, 26 + 26 * i) =~= cb.subrange(26 * i, 26 * i + 20));
        assert(b.subrange(26 + 26 * i, 30 + 26 * i) =~= cb.subrange(26 * i + 20, 26 * i + 24));
        assert(b.subrange(30 + 26 * i, 32 + 26 * i) =~= cb.subrange(26 * i + 24, 26 * i + 26));
    }
    match value {
        Some(d) => {
            lemma_desc_len(d);
            lemma_le_value_of_bytes(1385, 2);
            assert(b.subrange(o, o + 2) =~= le_bytes(1385, 2));
            assert(b.subrange(o + 2, b.len() as int) =~= d.bytes_spec());
        },
        None => {
            lemma_le_value_of_bytes(0, 2);
            assert(b.subrange(o, o + 2) =~= le_bytes(0, 2));
        },
    }
}

/// Where everything stands in the bytes of a message: the mark, the type, and
/// then what the type asks for. A search holds the key and whether a value is
/// wanted; an answer the number of its contacts, 26 bytes for each, the length of
/// its descriptor, and the descriptor.
#[verifier::spinoff_prover]
pub proof fn law_rpc_layout(m: RpcMsg)
    requires
        m.wf(),
    ensures
        ({
            let b = m@.bytes();
            &&& b.len() >= 5
            &&& (b[0], b[1], b[2], b[3]) == (78u8, 66u8, 70u8, 82u8)
            &&& match m {
                RpcMsg::Ping { nonce } => b[4] == 1 && b.len() == 13 && le_value(b.subrange(5, 13))
                    == nonce,
                RpcMsg::Pong { nonce } => b[4] == 2 && b.len() == 13 && le_value(b.subrange(5, 13))
                    == nonce,
                RpcMsg::Store { desc } => b[4] == 3 && b.subrange(5, b.len() as int)
                    == desc.bytes_spec(),
                RpcMsg::Find { key, want_value } => {
                    &&& b[4] == 4
                    &&& b.len() == 26
                    &&& b.subrange(5, 25) == key@
                    &&& b[25] == 1 <==> want_value
                    &&& b[25] == 0 <==> !want_value
                },
                RpcMsg::Found { contacts, value } => {
                    let o = 6 + 26 * contacts@.len() as int;
                    &&& b[4] == 5
                    &&& b[5] as int == contacts@.len() % 256
                    &&& forall|i: int|
                        0 <= i < contacts@.len() ==> {
                            &&& (#[trigger] contacts@[i]).node_id@ == b.subrange(
                                6 + 26 * i,
                                26 + 26 * i,
                            )
                            &&& contacts@[i].ip@ == b.subrange(26 + 26 * i, 30 + 26 * i)
                            &&& contacts@[i].dht_port == le_value(
                                b.subrange(30 + 26 * i, 32 + 26 * i),
                            )
                        }
                    &&& match value {
                        Some(d) => {
                            &&& b.len() == o + 2 + 1385
                            &&& le_value(b.subrange(o, o + 2)) == 1385
                            &&& b.subrange(o + 2, b.len() as int) == d.bytes_spec()
                        },
                        None => b.len() == o + 2 && le_value(b.subrange(o, o + 2)) == 0,
                    }
                },
            }
        }),
{
    let body = m@.body();
    let b = m@.bytes();
    lemma_pow256();
    match m {
        RpcMsg::Ping { nonce } => {
            lemma_le_value_of_bytes(nonce as nat, 8);
            assert(b.subrange(5, 13) =~= body);
        },
        RpcMsg::Pong { nonce } => {
            lemma_le_value_of_bytes(nonce as nat, 8);
            assert(b.subrange(5, 13) =~= body);
        },
        RpcMsg::Store { desc } => {
            assert(b.subrange(5, b.len() as int) =~= body);
        },
        RpcMsg::Find { key, want_value } => {
            assert(b.subrange(5, 25) =~= key@);
        },
        RpcMsg::Found { contacts, value } => {
            lemma_found_layout(contacts@, value);
        },
    }
}

/// The bytes of contacts that were read are the bytes that they were read from.
proof fn lemma_contacts_read(b: Seq<u8>, n: nat)
    requires
        b.len() >= 1 + 26 * n,
    ensures
        contacts_bytes(Seq::new(n, |i: int| contact_at(b, 1 + 26 * i))) == b.subrange(
            1,
            1 + 26 * n as int,
        ),
    decreases n,
{
    let cs = Seq::new(n, |i: int| contact_at(b, 1 + 26 * i));
    if n > 0 {
        let m = (n - 1) as nat;
        lemma_contacts_read(b, m);
        assert(cs.drop_last() =~= Seq::new(m, |i: int| contact_at(b, 1 + 26 * i)));
        let o = 1 + 26 * m as int;
        lemma_pow256();
        lemma_le_bytes_of_value(b.subrange(o + 24, o + 26));
        assert(cs.last() == contact_at(b, o));
        assert(contacts_bytes(cs) =~= b.subrange(1, 1 + 26 * n as int));
    } else {
        assert(contacts_bytes(cs) =~= b.subrange(1, 1));
    }
}

/// The body of an answer that was read is the body that it was read from.
#[verifier::spinoff_prover]
proof fn lemma_found_reads(b: Seq<u8>, v: RpcView)
    requires
        rpc_body_of(RpcType::Found, b) == Ok::<RpcView, DhtFault>(v),
    ensures
        v is Found,
        v.body() == b,
{
    let n = b[0] as nat;
    let o = 1 + 26 * n as int;
    let len = le_value(b.subrange(o, o + 2)) as int;
    lemma_pow256();
    lemma_contacts_read(b, n);
    lemma_le_bytes_of_value(b.subrange(o, o + 2));
    assert(b.len() == o + 2 + len);
    assert(seq![b[0]] + b.subrange(1, o) =~= b.subrange(0, o));
    assert(b.subrange(0, o) + b.subrange(o, o + 2) =~= b.subrange(0, o + 2));
    assert(b.subrange(0, o + 2) + b.subrange(o + 2, o + 2 + len) =~= b);
    assert(v.body() =~= b);
}

/// Every byte of a message counts: what a byte string is read as is written as
/// that byte string again, but for the mark of a search that wants a value, which
/// may be any but zero.
#[verifier::spinoff_prover]
pub proof fn law_rpc_reads_all(data: Seq<u8>)
    ensures
        rpc_of(data) matches Ok(v) ==> match v {
            RpcView::Find { want_value, .. } => {
                &&& data.len() == 26
                &&& v.bytes().len() == 26
                &&& v.bytes().subrange(0, 25) == data.subrange(0, 25)
                &&& want_value <==> data[25] != 0
            },
            _ => v.bytes() == data,
        },
{
    if let Ok(v) = rpc_of(data) {
        let b = data.subrange(5, data.len() as int);
        assert(data.subrange(0, 4) + seq![data[4]] + b =~= data);
        lemma_pow256();
        match v {
            RpcView::Ping { nonce } => {
                lemma_le_bytes_of_value(b);
            },
            RpcView::Pong { nonce } => {
                lemma_le_bytes_of_value(b);
            },
            RpcView::Store { .. } => {},
            RpcView::Find { key, .. } => {
                assert(v.bytes().subrange(0, 25) =~= data.subrange(0, 25));
            },
            RpcView::Found { contacts, value } => {
                lemma_found_reads(b, v);
            },
        }
        assert(v !is Find ==> v.body() == b);
        assert(v !is Find ==> v.bytes() =~= data);
    }
}

/// A message that is not one is refused: what is too short for a head with its
/// length, what has another mark or an unknown type with the type, and else a body
/// of the wrong length with the body's length. A descriptor is refused for its own
/// reasons.
pub proof fn law_rpc_refuses(data: Seq<u8>)
    ensures
        data.len() < 5 ==> rpc_of(data) == Err::<RpcView, DhtFault>(DhtFault::BadLen(data.len())),
        data.len() >= 5 && !(data[0] == 78 && data[1] == 66 && data[2] == 70 && data[3] == 82
            && 1 <= data[4] <= 5) ==> rpc_of(data) == Err::<RpcView, DhtFault>(
            DhtFault::BadType(data[4]),
        ),
        rpc_of(data) matches Err(DhtFault::BadLen(n)) ==> data.len() < 5 || n == data.len() - 5,
        rpc_of(data) matches Err(DhtFault::BadDesc(_)) ==> data[4] == 3 || data[4] == 5,
        rpc_of(data) matches Err(e) ==> e !is Io,
{
    if data.len() >= 5 {
        let head = data.subrange(0, 4);
        if head == rpc_magic() {
            assert(head[0] == data[0] && head[1] == data[1] && head[2] == data[2] && head[3]
                == data[3]);
        } else if data[0] == 78 && data[1] == 66 && data[2] == 70 && data[3] == 82 {
            assert(head =~= rpc_magic());
        }
    }
}

/// The contact of a node is its identifier, the address of its descriptor, or
/// this host where that is no IPv4 address, and the port of its hash table.
pub proof fn law_contact_of_node(d: Descriptor)
    ensures
        contact_of(d).id == d.node_id@,
        contact_of(d).port == d.dht_port,
        d.cell_addr matches NodeAddr::V4 { ip, .. } ==> contact_of(d).ip == ip@,
        d.cell_addr is V6 ==> contact_of(d).ip == seq![127u8, 0, 0, 1],
        d.wf() ==> desc_contact(d)@ == contact_of(d),
{
}

/// Two contacts that hold the same are the same.
pub proof fn law_same_contact(a: Contact, b: Contact)
    ensures
        a@ == b@ <==> a == b,
        a@.id == a.node_id@ && a@.ip == a.ip@ && a@.port == a.dht_port,
{
    if a@ == b@ {
        crate::bytes::lemma_arr_ext(a.node_id, b.node_id);
        crate::bytes::lemma_arr_ext(a.ip, b.ip);
    }
}

/// A message that asks to keep a descriptor is accepted where the descriptor is,
/// and else refused with the descriptor's own reason.
pub proof fn law_store_checked(data: Seq<u8>)
    requires
        data.len() >= 5,
        data[0] == 78 && data[1] == 66 && data[2] == 70 && data[3] == 82 && data[4] == 3,
    ensures
        ({
            let desc = data.skip(5);
            rpc_of(data) == match desc_error(desc) {
                Some(e) => Err::<RpcView, DhtFault>(DhtFault::BadDesc(e.message_spec())),
                None => Ok::<RpcView, DhtFault>(RpcView::Store { desc }),
            }
        }),
{
    assert(data.subrange(0, 4) =~= rpc_magic());
    assert(data.subrange(5, data.len() as int) =~= data.skip(5));
}

} // verus!
