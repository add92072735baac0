//! The keys of a node, and the signed descriptor that makes them known.

use crate::bytes::{
    append, arr_eq, get_arr, get_u16, get_u64, le_bytes, le_value, lemma_arr_ext,
    lemma_le_bytes_len, lemma_le_bytes_of_value, lemma_le_value_of_bytes, lemma_pow256, put_u16,
    put_u64,
};
use crate::kem::{kem_generate, DecapsKey};
use crate::primitives::{
    base_multiple, draw, ed25519_public, ed25519_sign, ed25519_verify, ed_generate, ed_public,
    ed_sign, ed_verify, mlkem_keypair, montgomery_mul_base, point_mul_base, scalar_order,
    scalar_random, sha256, sha256_digest,
};
use crate::{CryptoError, NodeAddr, NodeId, KEM_PK_LEN};
use rand::rngs::StdRng;
use vstd::prelude::*;
use vstd::slice::slice_subrange;

verus! {

/// The length of a descriptor: magic (4), version (1), identifier (20), three keys (32 each), KEM
/// key (1184), IP (4), cell port (2), DHT port (2), time (8) and signature (64).
pub const DESC_LEN: usize = 1385;

/// The version of the descriptor format.
const DESC_VER: u8 = 1;

/// The mark at the head of a descriptor: `NBFD`.
pub open spec fn desc_magic() -> Seq<u8> {
    seq![78u8, 66, 70, 68]
}

/// The identifier of the node with an Ed25519 public key.
pub open spec fn node_id_spec(ed_pub: Seq<u8>) -> Seq<u8> {
    sha256(ed_pub).subrange(0, 20)
}

/// The X25519 private key that 32 bytes become: the lowest three bits and the
/// highest bit cleared, the second highest set.
pub open spec fn clamped(raw: Seq<u8>) -> Seq<u8> {
    raw.update(0, raw[0] & 248).update(31, (raw[31] & 127) | 64)
}

/// All keys of a node.
pub struct NodeIdentity {
    /// The Ed25519 secret key.
    pub ed: [u8; 32],
    /// The static key of the node's links, clamped.
    pub link_priv: [u8; 32],
    pub link_pub: [u8; 32],
    /// The blinding key of Sphinx headers.
    pub sphinx_priv: [u8; 32],
    pub sphinx_pub: [u8; 32],
    pub kem_sk: DecapsKey,
    pub kem_pk: [u8; KEM_PK_LEN],
}

impl NodeIdentity {
    /// Each public key belongs to its private key, and the private keys are in
    /// range.
    pub open spec fn wf(self) -> bool {
        &&& exists|raw: [u8; 32]| self.link_priv@ == #[trigger] clamped(raw@)
        &&& self.link_pub@ == montgomery_mul_base(self.link_priv@)
        &&& le_value(self.sphinx_priv@) < scalar_order()
        &&& self.sphinx_pub@ == montgomery_mul_base(self.sphinx_priv@)
        &&& base_multiple(self.sphinx_pub@, self.sphinx_priv@)
        &&& exists|d: [u8; 32], z: [u8; 32]|
            (self.kem_sk@, self.kem_pk@) == #[trigger] mlkem_keypair(d@, z@)
    }

    /// A fresh identity.
    pub fn random(rng: &mut StdRng) -> (id: Self)
        ensures
            id.wf(),
    {
        let ed = ed_generate(rng);
        let raw: [u8; 32] = draw(rng);
        let sphinx_priv = scalar_random(rng);
        let kem = kem_generate(rng);
        Self::from_secrets(ed, raw, sphinx_priv, kem)
    }

    /// The identity of given secrets. The link key is clamped first.
    pub fn from_secrets(
        ed: [u8; 32],
        link_raw: [u8; 32],
        sphinx_priv: [u8; 32],
        kem: (DecapsKey, [u8; KEM_PK_LEN]),
    ) -> (id: Self)
        ensures
            id.ed == ed,
            id.link_priv@ == clamped(link_raw@),
            id.link_pub@ == montgomery_mul_base(id.link_priv@),
            id.sphinx_priv == sphinx_priv,
            id.sphinx_pub@ == montgomery_mul_base(sphinx_priv@),
            base_multiple(id.sphinx_pub@, sphinx_priv@),
            id.kem_sk == kem.0,
            id.kem_pk == kem.1,
    {
        let mut link_priv = link_raw;
        link_priv[0] = link_priv[0] & 248;
        link_priv[31] = link_priv[31] & 127;
        link_priv[31] = link_priv[31] | 64;
        assert(link_priv@ =~= clamped(link_raw@));
        let link_pub = x25519_pub_from_clamped(&link_priv);
        let sphinx_pub = point_mul_base(&sphinx_priv);
        NodeIdentity {
            ed,
            link_priv,
            link_pub,
            sphinx_priv,
            sphinx_pub,
            kem_sk: kem.0,
            kem_pk: kem.1,
        }
    }

    /// The node's identifier.
    pub fn node_id(&self) -> (id: NodeId)
        ensures
            id@ == node_id_spec(ed25519_public(self.ed@)),
    {
        node_id_from_ed_pub(&ed_public(&self.ed))
    }

    /// Signs a message. The signature verifies under the node's public key.
    pub fn sign_ed(&self, msg: &[u8]) -> (sig: [u8; 64])
        ensures
            sig@ == ed25519_sign(self.ed@, msg@),
            ed25519_verify(ed25519_public(self.ed@), msg@, sig@),
    {
        ed_sign(&self.ed, msg)
    }
}

/// The identifier of the node with an Ed25519 public key: the first 20 bytes of
/// its SHA-256.
pub fn node_id_from_ed_pub(ed_pub: &[u8; 32]) -> (id: NodeId)
    ensures
        id@ == node_id_spec(ed_pub@),
{
    let digest = sha256_digest(ed_pub);
    get_arr(&digest, 0)
}

/// The X25519 public key of a clamped private key.
pub fn x25519_pub_from_clamped(priv_clamped: &[u8; 32]) -> (public: [u8; 32])
    ensures
        public@ == montgomery_mul_base(priv_clamped@),
{
    point_mul_base(priv_clamped)
}

/// What a node makes known of itself. Its identifier is a hash of its key, and
/// its key signs it, so that it can be checked wherever it comes from.
#[derive(Debug, Clone, Copy, PartialEq, Eq)]
pub struct Descriptor {
    pub node_id: NodeId,
    pub ed_pub: [u8; 32],
    pub link_pub: [u8; 32],
    pub sphinx_pub: [u8; 32],
    pub kem_pk: [u8; KEM_PK_LEN],
    pub cell_addr: NodeAddr,
    pub dht_port: u16,
    pub ts: u64,
    pub sig: [u8; 64],
}

/// Why a byte string is no signed descriptor, if it is none.
pub open spec fn desc_error(b: Seq<u8>) -> Option<CryptoError> {
    if b.len() != DESC_LEN {
        Some(CryptoError::BadLength(b.len() as usize))
    } else if b.subrange(0, 4) != desc_magic() || b[4] != 1 {
        Some(CryptoError::Descriptor)
    } else if !ed25519_verify(b.subrange(25, 57), b.subrange(0, 1321), b.subrange(1321, 1385)) {
        Some(CryptoError::Ed25519)
    } else if node_id_spec(b.subrange(25, 57)) != b.subrange(5, 25) {
        Some(CryptoError::Descriptor)
    } else {
        None
    }
}

impl Descriptor {
    /// The address can be written down: the format has room for IPv4 alone.
    pub open spec fn wf(self) -> bool {
        self.cell_addr is V4
    }

    /// What is signed.
    pub open spec fn signing_bytes_spec(self) -> Seq<u8> {
        desc_magic() + seq![1u8] + self.node_id@ + self.ed_pub@ + self.link_pub@ + self.sphinx_pub@
            + self.kem_pk@ + self.cell_addr.octets() + le_bytes(
            self.cell_addr.port_spec() as nat,
            2,
        ) + le_bytes(self.dht_port as nat, 2) + le_bytes(self.ts as nat, 8)
    }

    /// The descriptor as bytes.
    pub open spec fn bytes_spec(self) -> Seq<u8> {
        self.signing_bytes_spec() + self.sig@
    }

    /// The signature is right, and the identifier is that of the key.
    pub open spec fn signed(self) -> bool {
        &&& ed25519_verify(self.ed_pub@, self.signing_bytes_spec(), self.sig@)
        &&& self.node_id@ == node_id_spec(self.ed_pub@)
    }

    /// The descriptor of a node at an address, signed with its key.
    pub fn sign(id: &NodeIdentity, cell_addr: NodeAddr, dht_port: u16, now_unix: u64) -> (d: Self)
        requires
            cell_addr is V4,
        ensures
            d.node_id@ == node_id_spec(ed25519_public(id.ed@)),
            d.ed_pub@ == ed25519_public(id.ed@),
            d.link_pub == id.link_pub,
            d.sphinx_pub == id.sphinx_pub,
            d.kem_pk == id.kem_pk,
            d.cell_addr == cell_addr,
            d.dht_port == dht_port,
            d.ts == now_unix,
            d.sig@ == ed25519_sign(id.ed@, d.signing_bytes_spec()),
            d.wf(),
            d.signed(),
    {
        let mut d = Descriptor {
            node_id: id.node_id(),
            ed_pub: ed_public(&id.ed),
            link_pub: id.link_pub,
            sphinx_pub: id.sphinx_pub,
            kem_pk: id.kem_pk,
            cell_addr,
            dht_port,
            ts: now_unix,
            sig: [0u8; 64],
        };
        let signing = d.signing_bytes();
        d.sig = id.sign_ed(signing.as_slice());
        d
    }

    /// The address of the node's DHT socket.
    pub fn dht_addr(&self) -> (addr: NodeAddr)
        ensures
            addr is V4,
            addr.octets() == self.cell_addr.octets(),
            addr.port_spec() == self.dht_port,
    {
        let ip: [u8; 4] = match self.cell_addr {
            NodeAddr::V4 { ip, .. } => ip,
            NodeAddr::V6 { .. } => [0u8; 4],
        };
        assert(ip@ =~= self.cell_addr.octets());
        NodeAddr::V4 { ip, port: self.dht_port }
    }

    /// What is signed: the whole descriptor but for the signature at its end.
    pub fn signing_bytes(&self) -> (b: Vec<u8>)
        requires
            self.wf(),
        ensures
            b@ == self.signing_bytes_spec(),
    {
        let mut b = self.to_bytes();
        let n: usize = b.len() - 64;
        b.truncate(n);
        assert(b@ =~= self.signing_bytes_spec());
        b
    }

    /// The descriptor as bytes.
    pub fn to_bytes(&self) -> (b: Vec<u8>)
        requires
            self.wf(),
        ensures
            b@ == self.bytes_spec(),
            b@.len() == DESC_LEN,
    {
        let mut b: Vec<u8> = Vec::with_capacity(DESC_LEN);
        b.push(78);
        b.push(66);
        b.push(70);
        b.push(68);
        b.push(DESC_VER);
        assert(b@ =~= desc_magic() + seq![1u8]);
        append(&mut b, &self.node_id);
        append(&mut b, &self.ed_pub);
        append(&mut b, &self.link_pub);
        append(&mut b, &self.sphinx_pub);
        append(&mut b, &self.kem_pk);
        if let NodeAddr::V4 { ip, .. } = self.cell_addr {
            append(&mut b, &ip);
        }
        put_u16(&mut b, self.cell_addr.port());
        put_u16(&mut b, self.dht_port);
        put_u64(&mut b, self.ts);
        append(&mut b, &self.sig);
        proof {
            lemma_le_bytes_len(self.cell_addr.port_spec() as nat, 2);
            lemma_le_bytes_len(self.dht_port as nat, 2);
            lemma_le_bytes_len(self.ts as nat, 8);
        }
        b
    }

    /// Reads a descriptor. Its signature is checked, and that its identifier is
    /// that of its key.
    pub fn from_signed_bytes(bytes: &[u8]) -> (r: Result<Descriptor, CryptoError>)
        ensures
            match r {
                Ok(d) => desc_error(bytes@) is None && d.wf() && d.bytes_spec() == bytes@
                    && d.signed(),
                Err(e) => desc_error(bytes@) == Some(e),
            },
    {
        if bytes.len() != DESC_LEN {
            return Err(CryptoError::BadLength(bytes.len()));
        }
        let magic: [u8; 4] = [78, 66, 70, 68];
        let head: [u8; 4] = get_arr(bytes, 0);
        assert(magic@ =~= desc_magic());
        if !arr_eq(&head, &magic) || bytes[4] != DESC_VER {
            return Err(CryptoError::Descriptor);
        }
        let node_id: NodeId = get_arr(bytes, 5);
        let ed_pub: [u8; 32] = get_arr(bytes, 25);
        let link_pub: [u8; 32] = get_arr(bytes, 57);
        let sphinx_pub: [u8; 32] = get_arr(bytes, 89);
        let kem_pk: [u8; KEM_PK_LEN] = get_arr(bytes, 121);
        let ip: [u8; 4] = get_arr(bytes, 1305);
        let port = get_u16(bytes, 1309);
        let dht_port = get_u16(bytes, 1311);
        let ts = get_u64(bytes, 1313);
        let sig: [u8; 64] = get_arr(bytes, 1321);
        if !ed_verify(&ed_pub, slice_subrange(bytes, 0, 1321), &sig) {
            return Err(CryptoError::Ed25519);
        }
        if !arr_eq(&node_id_from_ed_pub(&ed_pub), &node_id) {
            return Err(CryptoError::Descriptor);
        }
        let d = Descriptor {
            node_id,
            ed_pub,
            link_pub,
            sphinx_pub,
            kem_pk,
            cell_addr: NodeAddr::V4 { ip, port },
            dht_port,
            ts,
            sig,
        };
        proof {
            lemma_le_bytes_of_value(bytes@.subrange(1309, 1311));
            lemma_le_bytes_of_value(bytes@.subrange(1311, 1313));
            lemma_le_bytes_of_value(bytes@.subrange(1313, 1321));
            assert(bytes@.subrange(4, 5) =~= seq![1u8]);
            lemma_join(bytes@);
            assert(d.bytes_spec().subrange(0, 1321) =~= d.signing_bytes_spec());
        }
        Ok(d)
    }
}

/// The parts of a descriptor make up the whole.
proof fn lemma_join(b: Seq<u8>)
    requires
        b.len() == DESC_LEN,
    ensures
        b == b.subrange(0, 4) + b.subrange(4, 5) + b.subrange(5, 25) + b.subrange(25, 57)
            + b.subrange(57, 89) + b.subrange(89, 121) + b.subrange(121, 1305) + b.subrange(
            1305,
            1309,
        ) + b.subrange(1309, 1311) + b.subrange(1311, 1313) + b.subrange(1313, 1321) + b.subrange(
            1321,
            1385,
        ),
{
    assert(b.subrange(0, 4) + b.subrange(4, 5) =~= b.subrange(0, 5));
    assert(b.subrange(0, 5) + b.subrange(5, 25) =~= b.subrange(0, 25));
    assert(b.subrange(0, 25) + b.subrange(25, 57) =~= b.subrange(0, 57));
    assert(b.subrange(0, 57) + b.subrange(57, 89) =~= b.subrange(0, 89));
    assert(b.subrange(0, 89) + b.subrange(89, 121) =~= b.subrange(0, 121));
    assert(b.subrange(0, 121) + b.subrange(121, 1305) =~= b.subrange(0, 1305));
    assert(b.subrange(0, 1305) + b.subrange(1305, 1309) =~= b.subrange(0, 1309));
    assert(b.subrange(0, 1309) + b.subrange(1309, 1311) =~= b.subrange(0, 1311));
    assert(b.subrange(0, 1311) + b.subrange(1311, 1313) =~= b.subrange(0, 1313));
    assert(b.subrange(0, 1313) + b.subrange(1313, 1321) =~= b.subrange(0, 1321));
    assert(b.subrange(0, 1321) + b.subrange(1321, 1385) =~= b);
}

/// Where each field stands in a descriptor's bytes.
proof fn lemma_fields(d: Descriptor)
    requires
        d.wf(),
    ensures
        d.signing_bytes_spec().len() == 1321,
        d.bytes_spec().len() == DESC_LEN,
        d.bytes_spec().subrange(0, 4) == desc_magic(),
        d.bytes_spec()[4] == 1,
        d.bytes_spec().subrange(5, 25) == d.node_id@,
        d.bytes_spec().subrange(25, 57) == d.ed_pub@,
        d.bytes_spec().subrange(57, 89) == d.link_pub@,
        d.bytes_spec().subrange(89, 121) == d.sphinx_pub@,
        d.bytes_spec().subrange(121, 1305) == d.kem_pk@,
        d.bytes_spec().subrange(1305, 1309) == d.cell_addr.octets(),
        d.bytes_spec().subrange(1309, 1311) == le_bytes(d.cell_addr.port_spec() as nat, 2),
        d.bytes_spec().subrange(1311, 1313) == le_bytes(d.dht_port as nat, 2),
        d.bytes_spec().subrange(1313, 1321) == le_bytes(d.ts as nat, 8),
        d.bytes_spec().subrange(0, 1321) == d.signing_bytes_spec(),
        d.bytes_spec().subrange(1321, 1385) == d.sig@,
{
    lemma_le_bytes_len(d.cell_addr.port_spec() as nat, 2);
    lemma_le_bytes_len(d.dht_port as nat, 2);
    lemma_le_bytes_len(d.ts as nat, 8);
    let b = d.bytes_spec();
    assert(b.subrange(0, 4) =~= desc_magic());
    assert(b.subrange(5, 25) =~= d.node_id@);
    assert(b.subrange(25, 57) =~= d.ed_pub@);
    assert(b.subrange(57, 89) =~= d.link_pub@);
    assert(b.subrange(89, 121) =~= d.sphinx_pub@);
    assert(b.subrange(121, 1305) =~= d.kem_pk@);
    assert(b.subrange(1305, 1309) =~= d.cell_addr.octets());
    assert(b.subrange(1309, 1311) =~= le_bytes(d.cell_addr.port_spec() as nat, 2));
    assert(b.subrange(1311, 1313) =~= le_bytes(d.dht_port as nat, 2));
    assert(b.subrange(1313, 1321) =~= le_bytes(d.ts as nat, 8));
    assert(b.subrange(0, 1321) =~= d.signing_bytes_spec());
    assert(b.subrange(1321, 1385) =~= d.sig@);
}

/// No two descriptors have the same bytes.
pub proof fn law_descriptor_bytes_unique(a: Descriptor, b: Descriptor)
    requires
        a.wf(),
        b.wf(),
        a.bytes_spec() == b.bytes_spec(),
    ensures
        a == b,
{
    lemma_fields(a);
    lemma_fields(b);
    lemma_pow256();
    lemma_arr_ext(a.node_id, b.node_id);
    lemma_arr_ext(a.ed_pub, b.ed_pub);
    lemma_arr_ext(a.link_pub, b.link_pub);
    lemma_arr_ext(a.sphinx_pub, b.sphinx_pub);
    lemma_arr_ext(a.kem_pk, b.kem_pk);
    lemma_arr_ext(a.sig, b.sig);
    lemma_le_value_of_bytes(a.cell_addr.port_spec() as nat, 2);
    lemma_le_value_of_bytes(b.cell_addr.port_spec() as nat, 2);
    lemma_le_value_of_bytes(a.dht_port as nat, 2);
    lemma_le_value_of_bytes(b.dht_port as nat, 2);
    lemma_le_value_of_bytes(a.ts as nat, 8);
    lemma_le_value_of_bytes(b.ts as nat, 8);
    match (a.cell_addr, b.cell_addr) {
        (NodeAddr::V4 { ip: p, .. }, NodeAddr::V4 { ip: q, .. }) => {
            lemma_arr_ext(p, q);
        },
        _ => {},
    }
}

/// What is read from the bytes of a signed descriptor is that descriptor: the
/// bytes are accepted, and no other descriptor has them.
pub proof fn law_descriptor_roundtrip(d: Descriptor)
    requires
        d.wf(),
        d.signed(),
    ensures
        desc_error(d.bytes_spec()) is None,
        forall|e: Descriptor| e.wf() && #[trigger] e.bytes_spec() == d.bytes_spec() ==> e == d,
{
    lemma_fields(d);
    assert forall|e: Descriptor| e.wf() && #[trigger] e.bytes_spec() == d.bytes_spec() implies e
        == d by {
        law_descriptor_bytes_unique(e, d);
    }
}

/// A descriptor has its length.
pub(crate) proof fn lemma_desc_len(d: Descriptor)
    requires
        d.wf(),
    ensures
        d.bytes_spec().len() == DESC_LEN,
{
    lemma_fields(d);
}

/// Where everything stands in the bytes of a descriptor.
pub proof fn law_descriptor_layout(d: Descriptor)
    requires
        d.wf(),
    ensures
        ({
            let b = d.bytes_spec();
            &&& b.len() == 1385
            &&& (b[0], b[1], b[2], b[3], b[4]) == (78u8, 66u8, 70u8, 68u8, 1u8)
            &&& b.subrange(5, 25) == d.node_id@
            &&& b.subrange(25, 57) == d.ed_pub@
            &&& b.subrange(57, 89) == d.link_pub@
            &&& b.subrange(89, 121) == d.sphinx_pub@
            &&& b.subrange(121, 1305) == d.kem_pk@
            &&& d.cell_addr matches NodeAddr::V4 { ip, port } && b.subrange(1305, 1309) == ip@
                && le_value(b.subrange(1309, 1311)) == port
            &&& le_value(b.subrange(1311, 1313)) == d.dht_port
            &&& le_value(b.subrange(1313, 1321)) == d.ts
            &&& b.subrange(1321, 1385) == d.sig@
        }),
{
    let b = d.bytes_spec();
    lemma_fields(d);
    lemma_pow256();
    lemma_le_value_of_bytes(d.cell_addr.port_spec() as nat, 2);
    lemma_le_value_of_bytes(d.dht_port as nat, 2);
    lemma_le_value_of_bytes(d.ts as nat, 8);
    assert(b.subrange(0, 4)[0] == b[0] && b.subrange(0, 4)[1] == b[1]);
    assert(b.subrange(0, 4)[2] == b[2] && b.subrange(0, 4)[3] == b[3]);
}

/// A descriptor is signed where its last 64 bytes are the signature of all
/// before them under its key, and its identifier is the beginning of the key's
/// hash.
pub proof fn law_signature_covers(d: Descriptor)
    requires
        d.wf(),
    ensures
        ({
            let b = d.bytes_spec();
            d.signed() <==> {
                &&& ed25519_verify(d.ed_pub@, b.subrange(0, 1321), b.subrange(1321, 1385))
                &&& d.node_id@ == sha256(d.ed_pub@).subrange(0, 20)
            }
        }),
{
    lemma_fields(d);
}

/// Which byte strings are read as descriptors, and how the others are refused:
/// first for their length, then for their mark or version, then for their
/// signature, and last for an identifier that is not the key's.
pub proof fn law_descriptor_refused(b: Seq<u8>)
    requires
        b.len() <= usize::MAX,
    ensures
        ({
            let key = b.subrange(25, 57);
            let head = b[0] == 78 && b[1] == 66 && b[2] == 70 && b[3] == 68 && b[4] == 1;
            let good = ed25519_verify(key, b.subrange(0, 1321), b.subrange(1321, 1385));
            let own = b.subrange(5, 25) == sha256(key).subrange(0, 20);
            &&& desc_error(b) is None <==> b.len() == 1385 && head && good && own
            &&& desc_error(b) == Some(CryptoError::Ed25519) <==> b.len() == 1385 && head && !good
            &&& desc_error(b) == Some(CryptoError::Descriptor) <==> b.len() == 1385 && (!head || (
            good && !own))
            &&& b.len() != 1385 ==> desc_error(b) == Some(
                CryptoError::BadLength(b.len() as usize),
            )
        }),
{
    if b.len() == 1385 {
        let m = b.subrange(0, 4);
        assert(m[0] == b[0] && m[1] == b[1] && m[2] == b[2] && m[3] == b[3]);
        if b[0] == 78 && b[1] == 66 && b[2] == 70 && b[3] == 68 {
            assert(m =~= desc_magic());
        }
    }
}

/// A clamped key is a multiple of eight with its second highest bit set and the
/// highest clear. All other bits are as they were.
pub proof fn law_clamped(raw: Seq<u8>, i: int)
    requires
        raw.len() == 32,
        0 < i < 31,
    ensures
        clamped(raw).len() == 32,
        clamped(raw)[i] == raw[i],
        clamped(raw)[0] % 8 == 0,
        clamped(raw)[0] / 8 == raw[0] / 8,
        64 <= clamped(raw)[31] < 128,
        clamped(raw)[31] % 64 == raw[31] % 64,
{
    let (lo, hi) = (raw[0], raw[31]);
    assert((lo & 248) % 8 == 0 && (lo & 248) / 8 == lo / 8) by (bit_vector);
    assert(64 <= ((hi & 127) | 64) < 128 && ((hi & 127) | 64) % 64 == hi % 64) by (bit_vector);
}

} // verus!
