//! A small Kademlia: a flat routing table, a store of descriptors, and
//! iterative search.

use crate::bytes::{arr_eq, pow256};
use crate::identity::Descriptor;
use crate::rpc::{
    contact_of, contact_views, desc_contact, find_response, ping_response, rpc_decode, rpc_encode,
    rpc_of, Contact, RpcMsg, RpcView,
};
use crate::store::DescStore;
use crate::NodeId;
use vstd::prelude::*;

verus! {

/// How many contacts an answer holds, and a search keeps in sight.
pub const K: usize = 3;

/// How many contacts a round of a search asks.
pub const ALPHA: usize = 3;

/// How long a descriptor is good for, in seconds.
pub const TTL_DESC: u64 = 86400;

/// How many contacts a routing table holds at most.
pub const RT_MAX: usize = 64;

/// The difference of two identifiers, byte by byte.
pub open spec fn xor_bytes(a: Seq<u8>, b: Seq<u8>) -> Seq<u8> {
    Seq::new(a.len(), |i: int| a[i] ^ b[i])
}

/// The number that a byte string encodes, most significant byte first.
pub open spec fn be_value(s: Seq<u8>) -> nat
    decreases s.len(),
{
    if s.len() == 0 {
        0
    } else {
        s[0] as nat * pow256((s.len() - 1) as nat) + be_value(s.drop_first())
    }
}

/// How far two identifiers are apart.
pub open spec fn distance(a: Seq<u8>, b: Seq<u8>) -> nat {
    be_value(xor_bytes(a, b))
}

/// A byte string encodes less than what does not fit in as many bytes.
proof fn lemma_be_bound(s: Seq<u8>)
    ensures
        be_value(s) < pow256(s.len()),
    decreases s.len(),
{
    if s.len() > 0 {
        lemma_be_bound(s.drop_first());
        let p = pow256((s.len() - 1) as nat);
        assert(s[0] as nat * p + p <= 256 * p) by (nonlinear_arith)
            requires
                s[0] as nat <= 255,
        ;
    }
}

/// The first byte decides, else the rest does.
proof fn lemma_be_step(s: Seq<u8>, t: Seq<u8>)
    requires
        s.len() == t.len(),
        s.len() > 0,
    ensures
        s[0] < t[0] ==> be_value(s) < be_value(t),
        s[0] == t[0] ==> (be_value(s) < be_value(t) <==> be_value(s.drop_first()) < be_value(
            t.drop_first(),
        )),
        s[0] == t[0] ==> (be_value(s) == be_value(t) <==> be_value(s.drop_first()) == be_value(
            t.drop_first(),
        )),
{
    lemma_be_bound(s.drop_first());
    lemma_be_bound(t.drop_first());
    let p = pow256((s.len() - 1) as nat);
    if s[0] < t[0] {
        assert(s[0] as nat * p + p <= t[0] as nat * p) by (nonlinear_arith)
            requires
                s[0] as nat + 1 <= t[0] as nat,
        ;
    }
}

/// Byte strings of one length that encode the same number are the same.
pub(crate) proof fn lemma_be_injective(s: Seq<u8>, t: Seq<u8>)
    requires
        s.len() == t.len(),
        be_value(s) == be_value(t),
    ensures
        s == t,
    decreases s.len(),
{
    if s.len() > 0 {
        lemma_be_step(s, t);
        lemma_be_step(t, s);
        lemma_be_injective(s.drop_first(), t.drop_first());
        assert(s =~= seq![s[0]] + s.drop_first());
        assert(t =~= seq![t[0]] + t.drop_first());
    } else {
        assert(s =~= t);
    }
}

/// What is as far from a key is the same.
proof fn lemma_distance_injective(a: Seq<u8>, b: Seq<u8>, key: Seq<u8>)
    requires
        a.len() == b.len() == key.len(),
        distance(a, key) == distance(b, key),
    ensures
        a == b,
{
    lemma_be_injective(xor_bytes(a, key), xor_bytes(b, key));
    assert forall|i: int| 0 <= i < a.len() implies a[i] == b[i] by {
        assert(xor_bytes(a, key)[i] == xor_bytes(b, key)[i]);
        let (x, y, k) = (a[i], b[i], key[i]);
        assert(x ^ k == y ^ k ==> x == y) by (bit_vector);
    }
    assert(a =~= b);
}

/// The value of a difference is no more than the sum of the values.
proof fn lemma_be_xor(u: Seq<u8>, v: Seq<u8>)
    requires
        u.len() == v.len(),
    ensures
        be_value(xor_bytes(u, v)) <= be_value(u) + be_value(v),
    decreases u.len(),
{
    if u.len() > 0 {
        lemma_be_xor(u.drop_first(), v.drop_first());
        assert(xor_bytes(u, v).drop_first() =~= xor_bytes(u.drop_first(), v.drop_first()));
        let (x, y) = (u[0], v[0]);
        assert((x ^ y) <= x + y) by (bit_vector);
        let p = pow256((u.len() - 1) as nat);
        assert((x ^ y) as nat * p <= x as nat * p + y as nat * p) by (nonlinear_arith)
            requires
                (x ^ y) as nat <= x as nat + y as nat,
        ;
    }
}

/// Nothing but zeros encodes zero.
proof fn lemma_be_zero(s: Seq<u8>)
    requires
        forall|i: int| 0 <= i < s.len() ==> s[i] == 0,
    ensures
        be_value(s) == 0,
    decreases s.len(),
{
    if s.len() > 0 {
        lemma_be_zero(s.drop_first());
        assert(0 * pow256((s.len() - 1) as nat) == 0) by (nonlinear_arith);
    }
}

/// The distance is a metric: it is zero between an identifier and itself and
/// nowhere else, the same both ways, and no detour is shorter.
pub proof fn law_distance_metric(a: Seq<u8>, b: Seq<u8>, c: Seq<u8>)
    requires
        a.len() == b.len() == c.len(),
    ensures
        distance(a, b) == 0 <==> a == b,
        distance(a, b) == distance(b, a),
        distance(a, c) <= distance(a, b) + distance(b, c),
{
    assert forall|i: int| 0 <= i < b.len() implies xor_bytes(b, b)[i] == 0 by {
        let x = b[i];
        assert(x ^ x == 0) by (bit_vector);
    }
    lemma_be_zero(xor_bytes(b, b));
    if distance(a, b) == 0 {
        lemma_distance_injective(a, b, b);
    }
    assert forall|i: int| 0 <= i < a.len() implies xor_bytes(a, b)[i] == xor_bytes(b, a)[i] by {
        let (x, y) = (a[i], b[i]);
        assert(x ^ y == y ^ x) by (bit_vector);
    }
    assert(xor_bytes(a, b) =~= xor_bytes(b, a));
    let (u, v) = (xor_bytes(a, b), xor_bytes(b, c));
    assert forall|i: int| 0 <= i < a.len() implies xor_bytes(u, v)[i] == xor_bytes(a, c)[i] by {
        let (x, y, z) = (a[i], b[i], c[i]);
        assert((x ^ y) ^ (y ^ z) == x ^ z) by (bit_vector);
    }
    assert(xor_bytes(u, v) =~= xor_bytes(a, c));
    lemma_be_xor(u, v);
}

/// Whether `a` is nearer to the key than `b`.
fn nearer(a: &NodeId, b: &NodeId, key: &NodeId) -> (r: bool)
    ensures
        r == (distance(a@, key@) < distance(b@, key@)),
{
    let ghost s = xor_bytes(a@, key@);
    let ghost t = xor_bytes(b@, key@);
    let mut i: usize = 0;
    assert(s.skip(0) =~= s);
    assert(t.skip(0) =~= t);
    while i < 20
        invariant
            i <= 20,
            s == xor_bytes(a@, key@),
            t == xor_bytes(b@, key@),
            (distance(a@, key@) < distance(b@, key@)) == (be_value(s.skip(i as int)) < be_value(
                t.skip(i as int),
            )),
        decreases 20 - i,
    {
        let x = a[i] ^ key[i];
        let y = b[i] ^ key[i];
        proof {
            let (u, v) = (s.skip(i as int), t.skip(i as int));
            assert(u[0] == x && v[0] == y);
            assert(u.drop_first() =~= s.skip(i + 1));
            assert(v.drop_first() =~= t.skip(i + 1));
            lemma_be_step(u, v);
            lemma_be_step(v, u);
        }
        if x < y {
            return true;
        }
        if y < x {
            return false;
        }
        i += 1;
    }
    false
}

/// Whether one identifier is the smaller one.
pub(crate) fn id_less(a: &NodeId, b: &NodeId) -> (r: bool)
    ensures
        r == (be_value(a@) < be_value(b@)),
{
    let zero: NodeId = [0; 20];
    proof {
        lemma_xor_zero(a@, zero@);
        lemma_xor_zero(b@, zero@);
    }
    nearer(a, b, &zero)
}

/// The difference to an identifier of zeros is the identifier itself.
proof fn lemma_xor_zero(a: Seq<u8>, zero: Seq<u8>)
    requires
        a.len() == zero.len(),
        forall|i: int| 0 <= i < zero.len() ==> zero[i] == 0,
    ensures
        xor_bytes(a, zero) == a,
{
    assert forall|i: int| 0 <= i < a.len() implies xor_bytes(a, zero)[i] == a[i] by {
        let x = a[i];
        assert(x ^ 0u8 == x) by (bit_vector);
    }
    assert(xor_bytes(a, zero) =~= a);
}

/// No two contacts have the same identifier.
pub open spec fn unique_ids(cs: Seq<Contact>) -> bool {
    forall|i: int, j: int|
        0 <= i < j < cs.len() ==> (#[trigger] cs[i]).node_id@ != (#[trigger] cs[j]).node_id@
}

/// A contact has an identifier.
pub open spec fn has_id(cs: Seq<Contact>, id: Seq<u8>) -> bool {
    exists|i: int| 0 <= i < cs.len() && (#[trigger] cs[i]).node_id@ == id
}

/// `r` is what of `all` is nearest to the key, up to `k` contacts, the nearest
/// first.
pub open spec fn is_closest(all: Seq<Contact>, key: Seq<u8>, k: nat, r: Seq<Contact>) -> bool {
    &&& r.len() == if k < all.len() {
        k
    } else {
        all.len()
    }
    &&& forall|i: int| 0 <= i < r.len() ==> all.contains(#[trigger] r[i])
    &&& forall|i: int, j: int|
        0 <= i < j < r.len() ==> distance((#[trigger] r[i]).node_id@, key) < distance(
            (#[trigger] r[j]).node_id@,
            key,
        )
    &&& forall|c: Contact, i: int|
        #[trigger] all.contains(c) && !r.contains(c) && 0 <= i < r.len() ==> distance(
            (#[trigger] r[i]).node_id@,
            key,
        ) < distance(c.node_id@, key)
}

/// What of `all` is nearest to the key, up to `k` contacts, the nearest first.
pub open spec fn closest_of(all: Seq<Contact>, key: Seq<u8>, k: nat) -> Seq<Contact> {
    choose|r: Seq<Contact>| is_closest(all, key, k, r)
}

/// Contacts with the same identifier among contacts without repetition are one.
proof fn lemma_same_contact(all: Seq<Contact>, a: Contact, b: Contact)
    requires
        unique_ids(all),
        all.contains(a),
        all.contains(b),
        a.node_id@ == b.node_id@,
    ensures
        a == b,
{
    let i = choose|i: int| 0 <= i < all.len() && all[i] == a;
    let j = choose|j: int| 0 <= j < all.len() && all[j] == b;
    if i < j {
        assert(all[i].node_id@ != all[j].node_id@);
    } else if j < i {
        assert(all[j].node_id@ != all[i].node_id@);
    }
}

/// The nearest contacts agree up to a position.
proof fn lemma_closest_prefix(
    all: Seq<Contact>,
    key: Seq<u8>,
    k: nat,
    r: Seq<Contact>,
    s: Seq<Contact>,
    n: int,
)
    requires
        key.len() == 20,
        unique_ids(all),
        is_closest(all, key, k, r),
        is_closest(all, key, k, s),
        0 <= n <= r.len(),
    ensures
        forall|i: int| 0 <= i < n ==> r[i] == s[i],
    decreases n,
{
    if n > 0 {
        lemma_closest_prefix(all, key, k, r, s, n - 1);
        let m = n - 1;
        let (a, b) = (r[m], s[m]);
        assert(all.contains(a) && all.contains(b));
        let (da, db) = (distance(a.node_id@, key), distance(b.node_id@, key));
        if da < db {
            assert(!s.contains(a)) by {
                if s.contains(a) {
                    let j = choose|j: int| 0 <= j < s.len() && s[j] == a;
                    if j < m {
                        assert(r[j] == a);
                    }
                }
            }
        } else if db < da {
            assert(!r.contains(b)) by {
                if r.contains(b) {
                    let j = choose|j: int| 0 <= j < r.len() && r[j] == b;
                    if j < m {
                        assert(s[j] == b);
                    }
                }
            }
        } else {
            lemma_distance_injective(a.node_id@, b.node_id@, key);
            lemma_same_contact(all, a, b);
        }
    }
}

/// Among contacts without repetition there is one way to pick the nearest.
pub proof fn law_closest_unique(
    all: Seq<Contact>,
    key: Seq<u8>,
    k: nat,
    r: Seq<Contact>,
    s: Seq<Contact>,
)
    requires
        key.len() == 20,
        unique_ids(all),
        is_closest(all, key, k, r),
        is_closest(all, key, k, s),
    ensures
        r == s,
{
    lemma_closest_prefix(all, key, k, r, s, r.len() as int);
    assert(r =~= s);
}

/// The contacts nearest to a key, the nearest first.
fn nearest(all: &[Contact], key: &NodeId, k: usize) -> (r: Vec<Contact>)
    requires
        unique_ids(all@),
    ensures
        is_closest(all@, key@, k as nat, r@),
        r@ == closest_of(all@, key@, k as nat),
{
    let mut out: Vec<Contact> = Vec::with_capacity(all.len());
    let mut i: usize = 0;
    while i < all.len()
        invariant
            i <= all@.len(),
            unique_ids(all@),
            out@.len() == i,
            forall|a: int, b: int|
                0 <= a < b < out@.len() ==> distance((#[trigger] out@[a]).node_id@, key@)
                    < distance((#[trigger] out@[b]).node_id@, key@),
            forall|a: int| 0 <= a < out@.len() ==> all@.take(i as int).contains(#[trigger] out@[a]),
            forall|a: int| 0 <= a < i ==> out@.contains(#[trigger] all@[a]),
        decreases all@.len() - i,
    {
        let c = all[i];
        let mut pos: usize = 0;
        while pos < out.len() && nearer(&out[pos].node_id, &c.node_id, key)
            invariant
                pos <= out@.len(),
                forall|a: int|
                    0 <= a < pos ==> distance((#[trigger] out@[a]).node_id@, key@) < distance(
                        c.node_id@,
                        key@,
                    ),
            ensures
                pos < out@.len() ==> distance(c.node_id@, key@) <= distance(
                    out@[pos as int].node_id@,
                    key@,
                ),
            decreases out@.len() - pos,
        {
            pos += 1;
        }
        let ghost before = out@;
        proof {
            if pos < before.len() {
                let o = before[pos as int];
                if distance(c.node_id@, key@) == distance(o.node_id@, key@) {
                    lemma_distance_injective(c.node_id@, o.node_id@, key@);
                    assert(all@.take(i as int).contains(o));
                    let j = choose|j: int|
                        0 <= j < i && all@.take(i as int)[j] == o;
                    assert(all@[j].node_id@ != all@[i as int].node_id@);
                }
            }
        }
        out.insert(pos, c);
        proof {
            let now = out@;
            assert(now =~= before.insert(pos as int, c));
            assert forall|a: int, b: int| 0 <= a < b < now.len() implies distance(
                (#[trigger] now[a]).node_id@,
                key@,
            ) < distance((#[trigger] now[b]).node_id@, key@) by {
                let da = if a < pos {
                    before[a]
                } else if a == pos {
                    c
                } else {
                    before[a - 1]
                };
                let db = if b < pos {
                    before[b]
                } else if b == pos {
                    c
                } else {
                    before[b - 1]
                };
                assert(now[a] == da && now[b] == db);
                if a == pos && b > pos + 1 {
                    assert(distance(before[pos as int].node_id@, key@) < distance(
                        before[b - 1].node_id@,
                        key@,
                    ));
                }
            }
            assert forall|a: int| 0 <= a < now.len() implies all@.take(i + 1).contains(
                #[trigger] now[a],
            ) by {
                if a == pos {
                    assert(all@.take(i + 1)[i as int] == c);
                } else {
                    let b = if a < pos {
                        a
                    } else {
                        a - 1
                    };
                    assert(now[a] == before[b]);
                    let j = choose|j: int|
                        0 <= j < i && all@.take(i as int)[j] == before[b];
                    assert(all@.take(i + 1)[j] == before[b]);
                }
            }
            assert forall|a: int| 0 <= a < i + 1 implies now.contains(#[trigger] all@[a]) by {
                if a == i {
                    assert(now[pos as int] == c);
                } else {
                    let j = choose|j: int| 0 <= j < before.len() && before[j] == all@[a];
                    if j < pos {
                        assert(now[j] == all@[a]);
                    } else {
                        assert(now[j + 1] == all@[a]);
                    }
                }
            }
        }
        i += 1;
    }
    let ghost full = out@;
    if k < out.len() {
        out.truncate(k);
    }
    proof {
        let r = out@;
        assert(all@.take(i as int) =~= all@);
        assert forall|a: int| 0 <= a < r.len() implies all@.contains(#[trigger] r[a]) by {
            assert(r[a] == full[a]);
        }
        assert forall|c: Contact, a: int|
            #[trigger] all@.contains(c) && !r.contains(c) && 0 <= a < r.len() implies distance(
            (#[trigger] r[a]).node_id@,
            key@,
        ) < distance(c.node_id@, key@) by {
            let j = choose|j: int| 0 <= j < all@.len() && all@[j] == c;
            assert(full.contains(all@[j]));
            let m = choose|m: int| 0 <= m < full.len() && full[m] == c;
            if m < r.len() {
                assert(r[m] == c);
            }
            assert(full[a] == r[a]);
        }
        assert(is_closest(all@, key@, k as nat, r));
        law_closest_unique(all@, key@, k as nat, r, closest_of(all@, key@, k as nat));
    }
    out
}

/// Contacts with new ones added, each at the end. The node itself is left out,
/// and so is an identifier that is there.
pub open spec fn merged(rt: Seq<Contact>, new: Seq<Contact>, own: Seq<u8>) -> Seq<Contact>
    decreases new.len(),
{
    if new.len() == 0 {
        rt
    } else {
        let m = merged(rt, new.drop_last(), own);
        let c = new.last();
        if c.node_id@ == own || has_id(m, c.node_id@) {
            m
        } else {
            m.push(c)
        }
    }
}

/// A descriptor is no older than it may be.
pub open spec fn is_fresh(d: Descriptor, now: u64) -> bool {
    now - d.ts <= TTL_DESC
}

/// Whether a descriptor is no older than it may be.
pub(crate) fn fresh(d: &Descriptor, now: u64) -> (r: bool)
    ensures
        r == is_fresh(*d, now),
{
    now <= d.ts || now - d.ts <= TTL_DESC
}

/// A node's part of the hash table.
pub struct Kademlia {
    pub id: NodeId,
    pub own_desc: Descriptor,
    /// The contacts that are known.
    pub rt: Vec<Contact>,
    /// The descriptors that are kept.
    pub store: DescStore,
}

impl Kademlia {
    /// The routing table holds no identifier twice and is not too long, and
    /// each descriptor can be written down and is kept under its identifier.
    pub open spec fn wf(self) -> bool {
        &&& unique_ids(self.rt@)
        &&& self.rt@.len() <= RT_MAX
        &&& self.own_desc.wf()
        &&& forall|key: Seq<u8>|
            #[trigger] self.store@.contains_key(key) ==> self.store@[key].wf()
                && self.store@[key].node_id@ == key
    }

    /// The descriptor that is kept under a key, if it is not too old.
    pub open spec fn value(self, key: Seq<u8>, now: u64) -> Option<Descriptor> {
        if self.store@.contains_key(key) && is_fresh(self.store@[key], now) {
            Some(self.store@[key])
        } else {
            None
        }
    }

    /// A node that knows itself alone.
    pub fn new(id: NodeId, own_desc: Descriptor) -> (k: Self)
        requires
            own_desc.wf(),
        ensures
            k.wf(),
            k.id == id,
            k.own_desc == own_desc,
            contact_views(k.rt@) == seq![contact_of(own_desc)],
            k.store@ == Map::<Seq<u8>, Descriptor>::empty(),
    {
        let mut rt: Vec<Contact> = Vec::new();
        rt.push(Contact::from_desc(&own_desc));
        assert(contact_views(rt@) =~= seq![contact_of(own_desc)]);
        Kademlia { id, own_desc, rt, store: DescStore::new() }
    }

    /// How far two identifiers are apart: their difference, byte by byte.
    pub fn dist(a: &NodeId, b: &NodeId) -> (d: Vec<u8>)
        ensures
            d@ == xor_bytes(a@, b@),
            be_value(d@) == distance(a@, b@),
    {
        let mut d: Vec<u8> = Vec::with_capacity(20);
        let mut i: usize = 0;
        while i < 20
            invariant
                i <= 20,
                d@.len() == i,
                forall|j: int| 0 <= j < i ==> d@[j] == a@[j] ^ b@[j],
            decreases 20 - i,
        {
            d.push(a[i] ^ b[i]);
            i += 1;
        }
        assert(d@ =~= xor_bytes(a@, b@));
        d
    }

    /// The known contacts nearest to a key, the nearest first.
    pub fn closest(&self, key: &NodeId, k: usize) -> (r: Vec<Contact>)
        requires
            self.wf(),
        ensures
            is_closest(self.rt@, key@, k as nat, r@),
            r@ == closest_of(self.rt@, key@, k as nat),
    {
        nearest(self.rt.as_slice(), key, k)
    }

    /// Whether an identifier is among contacts.
    fn knows(cs: &[Contact], id: &NodeId) -> (r: bool)
        ensures
            r == has_id(cs@, id@),
    {
        let mut i: usize = 0;
        while i < cs.len()
            invariant
                i <= cs@.len(),
                forall|j: int| 0 <= j < i ==> (#[trigger] cs@[j]).node_id@ != id@,
            decreases cs@.len() - i,
        {
            if arr_eq(&cs[i].node_id, id) {
                return true;
            }
            i += 1;
        }
        false
    }

    /// Takes contacts in. Of all that are then known, those nearest to the node
    /// stay.
    pub fn try_merge(&mut self, contacts: &[Contact])
        requires
            old(self).wf(),
        ensures
            final(self).wf(),
            final(self).id == old(self).id,
            final(self).own_desc == old(self).own_desc,
            final(self).store == old(self).store,
            final(self).rt@ == closest_of(
                merged(old(self).rt@, contacts@, old(self).id@),
                old(self).id@,
                RT_MAX as nat,
            ),
            is_closest(
                merged(old(self).rt@, contacts@, old(self).id@),
                old(self).id@,
                RT_MAX as nat,
                final(self).rt@,
            ),
    {
        let mut all: Vec<Contact> = Vec::with_capacity(self.rt.len());
        let mut j: usize = 0;
        while j < self.rt.len()
            invariant
                j <= self.rt@.len(),
                all@ == self.rt@.take(j as int),
            decreases self.rt@.len() - j,
        {
            all.push(self.rt[j]);
            j += 1;
            assert(all@ =~= self.rt@.take(j as int));
        }
        assert(all@ =~= self.rt@);
        let mut i: usize = 0;
        assert(contacts@.take(0).len() == 0);
        while i < contacts.len()
            invariant
                i <= contacts@.len(),
                unique_ids(all@),
                all@ == merged(self.rt@, contacts@.take(i as int), self.id@),
            decreases contacts@.len() - i,
        {
            let c = contacts[i];
            let ghost part = contacts@.take(i + 1);
            assert(part.drop_last() =~= contacts@.take(i as int));
            assert(part.last() == c);
            if !arr_eq(&c.node_id, &self.id) && !Self::knows(all.as_slice(), &c.node_id) {
                let ghost before = all@;
                all.push(c);
                assert(unique_ids(all@)) by {
                    assert forall|a: int, b: int| 0 <= a < b < all@.len() implies (
                    #[trigger] all@[a]).node_id@ != (#[trigger] all@[b]).node_id@ by {
                        assert(before[a] == all@[a]);
                        if b < before.len() {
                            assert(before[b] == all@[b]);
                        }
                    }
                }
            }
            i += 1;
        }
        assert(contacts@.take(i as int) =~= contacts@);
        self.rt = nearest(all.as_slice(), &self.id, RT_MAX);
        proof {
            lemma_closest_ids(all@, self.id@, RT_MAX as nat, self.rt@);
        }
    }

    /// Keeps a descriptor.
    pub fn keep(&mut self, desc: Descriptor)
        requires
            old(self).wf(),
            desc.wf(),
        ensures
            final(self).wf(),
            final(self).id == old(self).id,
            final(self).own_desc == old(self).own_desc,
            final(self).rt == old(self).rt,
            final(self).store@ == old(self).store@.insert(desc.node_id@, desc),
    {
        self.store.insert(desc.node_id, desc);
    }

    /// The descriptor that is kept under a key, if it is not too old.
    pub fn stored(&self, key: &NodeId, now: u64) -> (d: Option<Descriptor>)
        ensures
            d == self.value(key@, now),
    {
        match self.store.get(key) {
            Some(d) => if fresh(&d, now) {
                Some(d)
            } else {
                None
            },
            None => None,
        }
    }

    /// Handles a datagram, and gives the answer to its sender. A ping is
    /// answered, and a search with the nearest contacts and, if it is wanted,
    /// with what is kept under the key. A descriptor is kept unless it is too
    /// old, and its node taken in.
    pub fn handle(&mut self, data: &[u8], now: u64) -> (answer: Option<Vec<u8>>)
        requires
            old(self).wf(),
        ensures
            final(self).wf(),
            final(self).id == old(self).id,
            final(self).own_desc == old(self).own_desc,
            match rpc_of(data@) {
                Ok(RpcView::Ping { nonce }) => {
                    &&& answer matches Some(a) && a@ == RpcView::Pong { nonce }.bytes()
                    &&& *final(self) == *old(self)
                },
                Ok(RpcView::Find { key, want_value }) => {
                    &&& answer matches Some(a) && a@ == old(self).found(
                        key,
                        want_value,
                        now,
                    ).bytes()
                    &&& *final(self) == *old(self)
                },
                Ok(RpcView::Store { desc }) => {
                    &&& answer is None
                    &&& exists|d: Descriptor|
                        {
                            &&& #[trigger] d.bytes_spec() == desc
                            &&& d.wf()
                            &&& d.signed()
                            &&& final(self).store@ == if is_fresh(d, now) {
                                old(self).store@.insert(d.node_id@, d)
                            } else {
                                old(self).store@
                            }
                            &&& final(self).rt@ == closest_of(
                                merged(old(self).rt@, seq![desc_contact(d)], old(self).id@),
                                old(self).id@,
                                RT_MAX as nat,
                            )
                        }
                },
                _ => answer is None && *final(self) == *old(self),
            },
    {
        let msg = match rpc_decode(data) {
            Ok(m) => m,
            Err(_) => {
                return None;
            },
        };
        match msg {
            RpcMsg::Ping { nonce } => Some(rpc_encode(&ping_response(nonce))),
            RpcMsg::Store { desc } => {
                if fresh(&desc, now) {
                    self.keep(desc);
                }
                let c = Contact::from_desc(&desc);
                let one: [Contact; 1] = [c];
                assert(one@ =~= seq![c]);
                self.try_merge(&one);
                None
            },
            RpcMsg::Find { key, want_value } => {
                let near = self.closest(&key, K);
                let value = if want_value {
                    self.stored(&key, now)
                } else {
                    None
                };
                Some(rpc_encode(&find_response(near, value)))
            },
            RpcMsg::Found { .. } | RpcMsg::Pong { .. } => None,
        }
    }

    /// The answer to a search.
    pub open spec fn found(self, key: Seq<u8>, want_value: bool, now: u64) -> RpcView {
        RpcView::Found {
            contacts: contact_views(closest_of(self.rt@, key, K as nat)),
            value: if want_value && self.value(key, now) is Some {
                Some(self.value(key, now)->0.bytes_spec())
            } else {
                None
            },
        }
    }
}

/// The nearest contacts have no identifier twice.
proof fn lemma_closest_ids(all: Seq<Contact>, key: Seq<u8>, k: nat, r: Seq<Contact>)
    requires
        is_closest(all, key, k, r),
    ensures
        unique_ids(r),
        r.len() <= k,
{
}

impl Kademlia {
    /// The message in a datagram that may answer a request of this node: a pong
    /// or what a search found.
    pub fn reply_of(data: &[u8]) -> (r: Option<RpcMsg>)
        ensures
            match r {
                Some(m) => {
                    &&& rpc_of(data@) matches Ok(v) && v == m@
                    &&& m is Found || m is Pong
                    &&& m.wf()
                    &&& m.signed()
                },
                None => !(rpc_of(data@) matches Ok(v) && (v is Found || v is Pong)),
            },
    {
        match rpc_decode(data) {
            Ok(m) => match m {
                RpcMsg::Found { .. } | RpcMsg::Pong { .. } => Some(m),
                _ => None,
            },
            Err(_) => None,
        }
    }

    /// What a new node asks a node that it knows of: who is near to itself.
    pub fn bootstrap_msg(&self) -> (m: RpcMsg)
        ensures
            m == (RpcMsg::Find { key: self.id, want_value: false }),
    {
        RpcMsg::Find { key: self.id, want_value: false }
    }

    /// What a node tells others to keep: its own descriptor.
    pub fn store_msg(&self) -> (m: RpcMsg)
        ensures
            m == (RpcMsg::Store { desc: self.own_desc }),
    {
        RpcMsg::Store { desc: self.own_desc }
    }

    /// Takes in the contacts of an answer to a search.
    pub fn learn(&mut self, reply: &RpcMsg)
        requires
            old(self).wf(),
        ensures
            final(self).wf(),
            final(self).id == old(self).id,
            final(self).own_desc == old(self).own_desc,
            final(self).store == old(self).store,
            final(self).rt@ == match *reply {
                RpcMsg::Found { contacts, .. } => closest_of(
                    merged(old(self).rt@, contacts@, old(self).id@),
                    old(self).id@,
                    RT_MAX as nat,
                ),
                _ => old(self).rt@,
            },
    {
        if let RpcMsg::Found { contacts, .. } = reply {
            self.try_merge(contacts.as_slice());
        }
    }
}

/// A search for a key. It goes in rounds: each asks those of the nearest known
/// contacts that were not asked before. It ends where a round brought no nearer
/// contacts.
pub struct Lookup {
    pub key: NodeId,
    pub want_value: bool,
    /// The nearest contacts at the beginning of the round.
    pub seen: Vec<Contact>,
    /// Who was asked.
    pub queried: Vec<NodeId>,
    /// Who is still to be asked in this round.
    pub batch: Vec<Contact>,
    /// Whether the search has ended.
    pub done: bool,
}

/// What a search holds.
pub struct LookupView {
    pub key: Seq<u8>,
    pub want_value: bool,
    pub seen: Seq<Contact>,
    pub queried: Seq<NodeId>,
    pub batch: Seq<Contact>,
    pub done: bool,
}

impl View for Lookup {
    type V = LookupView;

    open spec fn view(&self) -> LookupView {
        LookupView {
            key: self.key@,
            want_value: self.want_value,
            seen: self.seen@,
            queried: self.queried@,
            batch: self.batch@,
            done: self.done,
        }
    }
}

/// Those of contacts that were not asked.
pub open spec fn unasked(seen: Seq<Contact>, queried: Seq<NodeId>) -> Seq<Contact>
    decreases seen.len(),
{
    if seen.len() == 0 {
        Seq::empty()
    } else {
        let init = unasked(seen.drop_last(), queried);
        if queried.contains(seen.last().node_id) {
            init
        } else {
            init.push(seen.last())
        }
    }
}

/// Whom a round asks.
pub open spec fn batch_of(seen: Seq<Contact>, queried: Seq<NodeId>) -> Seq<Contact> {
    let u = unasked(seen, queried);
    if u.len() > ALPHA {
        u.take(ALPHA as int)
    } else {
        u
    }
}

/// The nearest contacts are those of before.
pub open spec fn no_change(next: Seq<Contact>, seen: Seq<Contact>) -> bool {
    next.len() == seen.len() && forall|i: int|
        0 <= i < next.len() ==> has_id(seen, (#[trigger] next[i]).node_id@)
}

impl LookupView {
    /// Nobody was asked twice, nobody is to be asked twice, nor one who was asked
    /// before, and there is nobody left to ask at the end.
    pub open spec fn wf(self) -> bool {
        &&& self.queried.no_duplicates()
        &&& unique_ids(self.batch)
        &&& forall|i: int|
            0 <= i < self.batch.len() ==> !self.queried.contains((#[trigger] self.batch[i]).node_id)
        &&& self.done ==> self.batch.len() == 0
    }

    /// The search after the beginning of a new round, if the last one is over.
    pub open spec fn next_round(self, rt: Seq<Contact>) -> LookupView {
        let next = closest_of(rt, self.key, K as nat);
        if self.done || self.batch.len() > 0 {
            self
        } else if no_change(next, self.seen) {
            LookupView { done: true, ..self }
        } else {
            let batch = batch_of(next, self.queried);
            LookupView { seen: next, batch, done: batch.len() == 0, ..self }
        }
    }

    /// Whom to ask next, and the search then.
    pub open spec fn step(self, rt: Seq<Contact>) -> (LookupView, Option<Contact>) {
        let s = self.next_round(rt);
        if s.done {
            (s, None)
        } else {
            (
                LookupView {
                    batch: s.batch.drop_first(),
                    queried: s.queried.push(s.batch[0].node_id),
                    ..s
                },
                Some(s.batch[0]),
            )
        }
    }
}

/// Those that were not asked come from the contacts, in their order.
proof fn lemma_unasked(seen: Seq<Contact>, queried: Seq<NodeId>)
    requires
        unique_ids(seen),
    ensures
        unique_ids(unasked(seen, queried)),
        forall|i: int|
            0 <= i < unasked(seen, queried).len() ==> {
                &&& !queried.contains((#[trigger] unasked(seen, queried)[i]).node_id)
                &&& seen.contains(unasked(seen, queried)[i])
            },
    decreases seen.len(),
{
    if seen.len() > 0 {
        let init = seen.drop_last();
        let u = unasked(init, queried);
        let all = unasked(seen, queried);
        assert(unique_ids(init)) by {
            assert forall|i: int, j: int| 0 <= i < j < init.len() implies (
            #[trigger] init[i]).node_id@ != (#[trigger] init[j]).node_id@ by {
                assert(seen[i].node_id@ != seen[j].node_id@);
            }
        }
        lemma_unasked(init, queried);
        assert forall|i: int| 0 <= i < all.len() implies seen.contains(#[trigger] all[i]) by {
            if i < u.len() {
                assert(u[i] == all[i]);
                let j = choose|j: int| 0 <= j < init.len() && init[j] == u[i];
                assert(seen[j] == all[i]);
            } else {
                assert(seen[seen.len() - 1] == all[i]);
            }
        }
        assert forall|i: int, j: int| 0 <= i < j < all.len() implies (#[trigger] all[i]).node_id@
            != (#[trigger] all[j]).node_id@ by {
            assert(u[i] == all[i]);
            if j < u.len() {
                assert(u[j] == all[j]);
            } else {
                let k = choose|k: int| 0 <= k < init.len() && init[k] == u[i];
                assert(seen[k].node_id@ != seen[seen.len() - 1].node_id@);
            }
        }
    }
}

/// Whom to ask in a round.
fn make_batch(seen: &[Contact], queried: &[NodeId]) -> (batch: Vec<Contact>)
    requires
        unique_ids(seen@),
    ensures
        batch@ == batch_of(seen@, queried@),
        unique_ids(batch@),
        forall|i: int|
            0 <= i < batch@.len() ==> !queried@.contains((#[trigger] batch@[i]).node_id),
{
    let mut batch: Vec<Contact> = Vec::new();
    let mut i: usize = 0;
    assert(seen@.take(0).len() == 0);
    while i < seen.len()
        invariant
            i <= seen@.len(),
            batch@ == unasked(seen@.take(i as int), queried@),
        decreases seen@.len() - i,
    {
        let c = seen[i];
        let ghost part = seen@.take(i + 1);
        assert(part.drop_last() =~= seen@.take(i as int));
        if !asked(queried, &c.node_id) {
            batch.push(c);
        }
        i += 1;
    }
    assert(seen@.take(i as int) =~= seen@);
    proof {
        lemma_unasked(seen@, queried@);
    }
    let ghost u = batch@;
    if batch.len() > ALPHA {
        batch.truncate(ALPHA);
        assert(batch@ =~= u.take(ALPHA as int));
    }
    proof {
        assert forall|a: int, b: int| 0 <= a < b < batch@.len() implies (
        #[trigger] batch@[a]).node_id@ != (#[trigger] batch@[b]).node_id@ by {
            assert(u[a].node_id@ != u[b].node_id@);
        }
        assert forall|a: int| 0 <= a < batch@.len() implies !queried@.contains(
            (#[trigger] batch@[a]).node_id,
        ) by {
            assert(u[a] == batch@[a]);
        }
    }
    batch
}

/// Whether a node was asked.
fn asked(queried: &[NodeId], id: &NodeId) -> (r: bool)
    ensures
        r == queried@.contains(*id),
{
    let mut i: usize = 0;
    while i < queried.len()
        invariant
            i <= queried@.len(),
            forall|j: int| 0 <= j < i ==> queried@[j] != *id,
        decreases queried@.len() - i,
    {
        if arr_eq(&queried[i], id) {
            return true;
        }
        i += 1;
    }
    false
}

impl Kademlia {
    /// Begins a search.
    pub fn lookup_start(&self, key: &NodeId, want_value: bool) -> (s: Lookup)
        requires
            self.wf(),
        ensures
            s@.wf(),
            s.key == *key,
            s.want_value == want_value,
            s@.seen == closest_of(self.rt@, key@, K as nat),
            s@.queried == Seq::<NodeId>::empty(),
            s@.batch == batch_of(s@.seen, s@.queried),
            s.done == (s@.batch.len() == 0),
    {
        let seen = self.closest(key, K);
        proof {
            lemma_closest_ids(self.rt@, key@, K as nat, seen@);
        }
        let queried: Vec<NodeId> = Vec::new();
        let batch = make_batch(seen.as_slice(), queried.as_slice());
        let done = batch.len() == 0;
        Lookup { key: *key, want_value, seen, queried, batch, done }
    }

    /// Whom to ask next, or that the search has ended. Nobody is asked twice.
    pub fn lookup_next(&self, s: &mut Lookup) -> (next: Option<Contact>)
        requires
            self.wf(),
            old(s)@.wf(),
        ensures
            final(s)@.wf(),
            (final(s)@, next) == old(s)@.step(self.rt@),
            next matches Some(c) ==> {
                &&& !old(s)@.queried.contains(c.node_id)
                &&& final(s)@.queried == old(s)@.queried.push(c.node_id)
            },
            next is None ==> final(s).done && final(s)@.queried == old(s)@.queried,
    {
        if !s.done && s.batch.len() == 0 {
            let near = self.closest(&s.key, K);
            proof {
                lemma_closest_ids(self.rt@, s.key@, K as nat, near@);
            }
            if near.len() == s.seen.len() && Self::all_known(near.as_slice(), s.seen.as_slice()) {
                s.done = true;
            } else {
                s.batch = make_batch(near.as_slice(), s.queried.as_slice());
                s.seen = near;
                s.done = s.batch.len() == 0;
            }
        }
        assert(s@ == old(s)@.next_round(self.rt@));
        if s.done {
            return None;
        }
        let ghost mid = s@;
        let c = s.batch.remove(0);
        s.queried.push(c.node_id);
        proof {
            assert(s.batch@ =~= mid.batch.drop_first());
            assert(s.queried@ =~= mid.queried.push(c.node_id));
            assert forall|i: int, j: int| 0 <= i < j < s.batch@.len() implies (
            #[trigger] s.batch@[i]).node_id@ != (#[trigger] s.batch@[j]).node_id@ by {
                assert(mid.batch[i + 1].node_id@ != mid.batch[j + 1].node_id@);
            }
            assert forall|i: int| 0 <= i < s.batch@.len() implies !s.queried@.contains(
                (#[trigger] s.batch@[i]).node_id,
            ) by {
                let x = mid.batch[i + 1].node_id;
                assert(!mid.queried.contains(x));
                assert(mid.batch[0].node_id@ != x@);
                if s.queried@.contains(x) {
                    let j = choose|j: int| 0 <= j < s.queried@.len() && s.queried@[j] == x;
                    if j < mid.queried.len() {
                        assert(mid.queried[j] == x);
                    }
                }
            }
        }
        Some(c)
    }

    /// Whether all contacts are among others.
    fn all_known(cs: &[Contact], others: &[Contact]) -> (r: bool)
        ensures
            r == forall|i: int|
                0 <= i < cs@.len() ==> has_id(others@, (#[trigger] cs@[i]).node_id@),
    {
        let mut i: usize = 0;
        while i < cs.len()
            invariant
                i <= cs@.len(),
                forall|j: int|
                    0 <= j < i ==> has_id(others@, (#[trigger] cs@[j]).node_id@),
            decreases cs@.len() - i,
        {
            if !Self::knows(others, &cs[i].node_id) {
                return false;
            }
            i += 1;
        }
        true
    }

    /// Takes in the answer of one who was asked, or that none came. A value ends
    /// the search where one is wanted, unless it is too old or that of another
    /// node; else the contacts are taken in.
    pub fn lookup_reply(&mut self, s: &Lookup, reply: Option<RpcMsg>, now: u64) -> (value: Option<
        Descriptor,
    >)
        requires
            old(self).wf(),
        ensures
            final(self).wf(),
            final(self).id == old(self).id,
            final(self).own_desc == old(self).own_desc,
            final(self).store == old(self).store,
            match reply {
                Some(RpcMsg::Found { value: Some(d), contacts }) => if s.want_value && d.node_id@
                    == s.key@ && is_fresh(d, now) {
                    value == Some(d) && final(self).rt@ == old(self).rt@
                } else {
                    value is None && final(self).rt@ == closest_of(
                        merged(old(self).rt@, contacts@, old(self).id@),
                        old(self).id@,
                        RT_MAX as nat,
                    )
                },
                Some(RpcMsg::Found { value: None, contacts }) => value is None && final(self).rt@
                    == closest_of(
                    merged(old(self).rt@, contacts@, old(self).id@),
                    old(self).id@,
                    RT_MAX as nat,
                ),
                _ => value is None && final(self).rt@ == old(self).rt@,
            },
    {
        if let Some(RpcMsg::Found { contacts, value }) = reply {
            if s.want_value {
                if let Some(d) = value {
                    if arr_eq(&d.node_id, &s.key) && fresh(&d, now) {
                        return Some(d);
                    }
                }
            }
            self.try_merge(contacts.as_slice());
        }
        None
    }
}

/// A descriptor that is kept is found under its node's identifier as long as it
/// is not too old, and no longer. What is kept under other keys stays.
pub proof fn law_store_then_find(before: Kademlia, after: Kademlia, d: Descriptor, now: u64)
    requires
        after.store@ == before.store@.insert(d.node_id@, d),
    ensures
        after.found(d.node_id@, true, now) matches RpcView::Found { value, .. } && value
            == if is_fresh(d, now) {
            Some(d.bytes_spec())
        } else {
            None
        },
        forall|key: Seq<u8>|
            key != d.node_id@ ==> #[trigger] after.value(key, now) == before.value(key, now),
{
}

/// Taking contacts in loses none but for nearer ones: each that was known or
/// that came in, the node itself aside, is known afterwards, or the routing
/// table is full of contacts that are all nearer to the node.
pub proof fn law_merge_keeps_nearest(
    rt: Seq<Contact>,
    new: Seq<Contact>,
    own: Seq<u8>,
    after: Seq<Contact>,
    c: Contact,
)
    requires
        is_closest(merged(rt, new, own), own, RT_MAX as nat, after),
        rt.contains(c) || new.contains(c) && c.node_id@ != own,
    ensures
        has_id(after, c.node_id@) || after.len() == RT_MAX && forall|i: int|
            0 <= i < after.len() ==> distance((#[trigger] after[i]).node_id@, own) < distance(
                c.node_id@,
                own,
            ),
{
    let all = merged(rt, new, own);
    lemma_merged_has(rt, new, own, c);
    let i = choose|i: int| 0 <= i < all.len() && all[i].node_id@ == c.node_id@;
    let k = all[i];
    assert(all.contains(k));
    if after.contains(k) {
        let j = choose|j: int| 0 <= j < after.len() && after[j] == k;
        assert(after[j].node_id@ == c.node_id@);
    } else if after.len() != RT_MAX {
        lemma_none_left(all, own, RT_MAX as nat, after, k);
    }
}

/// Who was known, or came in and is not the node itself, is among the contacts
/// after new ones are added.
proof fn lemma_merged_has(rt: Seq<Contact>, new: Seq<Contact>, own: Seq<u8>, c: Contact)
    requires
        rt.contains(c) || new.contains(c) && c.node_id@ != own,
    ensures
        has_id(merged(rt, new, own), c.node_id@),
    decreases new.len(),
{
    if new.len() == 0 {
        let i = choose|i: int| 0 <= i < rt.len() && rt[i] == c;
        assert(rt[i].node_id@ == c.node_id@);
    } else {
        let init = new.drop_last();
        let m = merged(rt, init, own);
        let all = merged(rt, new, own);
        if rt.contains(c) || init.contains(c) {
            lemma_merged_has(rt, init, own, c);
            let i = choose|i: int| 0 <= i < m.len() && m[i].node_id@ == c.node_id@;
            assert(all[i].node_id@ == c.node_id@);
        } else {
            let i = choose|i: int| 0 <= i < new.len() && new[i] == c;
            if i < init.len() {
                assert(init[i] == c);
            }
            if !has_id(m, c.node_id@) {
                assert(all[m.len() as int] == c);
            }
        }
    }
}

/// Where there is room for all contacts, none is left out.
proof fn lemma_none_left(all: Seq<Contact>, key: Seq<u8>, k: nat, r: Seq<Contact>, c: Contact)
    requires
        is_closest(all, key, k, r),
        all.contains(c),
        !r.contains(c),
    ensures
        r.len() == k,
{
    let more = r.push(c);
    assert(more.no_duplicates()) by {
        assert forall|i: int, j: int| 0 <= i < more.len() && 0 <= j < more.len() && i != j implies
            more[i] != more[j] by {
            let (a, b) = if i < j {
                (i, j)
            } else {
                (j, i)
            };
            if b == r.len() {
                assert(r[a] == more[a]);
                assert(r.contains(r[a]));
            } else {
                assert(distance(r[a].node_id@, key) < distance(r[b].node_id@, key));
            }
        }
    }
    more.unique_seq_to_set();
    all.lemma_cardinality_of_set();
    assert(more.to_set().subset_of(all.to_set())) by {
        assert forall|x: Contact| more.to_set().contains(x) implies all.to_set().contains(x) by {
            let i = choose|i: int| 0 <= i < more.len() && more[i] == x;
            if i < r.len() {
                assert(all.contains(r[i]));
            }
        }
    }
    vstd::set_lib::lemma_len_subset(more.to_set(), all.to_set());
}

/// The distance goes by the first byte in which two identifiers differ from a key
/// in different ways: what agrees with the key up to there, bit by bit, is nearer.
pub proof fn law_distance_by_prefix(a: Seq<u8>, b: Seq<u8>, key: Seq<u8>, i: int)
    requires
        a.len() == b.len() == key.len(),
        0 <= i < key.len(),
        forall|j: int| 0 <= j < i ==> a[j] == b[j],
        a[i] ^ key[i] < b[i] ^ key[i],
    ensures
        distance(a, key) < distance(b, key),
    decreases i,
{
    let (s, t) = (xor_bytes(a, key), xor_bytes(b, key));
    lemma_be_step(s, t);
    if i > 0 {
        let (a1, b1, k1) = (a.drop_first(), b.drop_first(), key.drop_first());
        assert(s.drop_first() =~= xor_bytes(a1, k1));
        assert(t.drop_first() =~= xor_bytes(b1, k1));
        assert(a[0] == b[0]);
        assert forall|j: int| 0 <= j < i - 1 implies a1[j] == b1[j] by {
            assert(a[j + 1] == b[j + 1]);
        }
        law_distance_by_prefix(a1, b1, k1, i - 1);
    }
}

/// The nearest contacts are the nearest: as many as asked for, or all; each is
/// among the contacts; whoever is nearer to the key than one of them is among
/// them too, and stands before it.
pub proof fn law_nearest_first(
    all: Seq<Contact>,
    key: Seq<u8>,
    k: nat,
    r: Seq<Contact>,
    c: Contact,
    i: int,
)
    requires
        is_closest(all, key, k, r),
        all.contains(c),
        0 <= i < r.len(),
    ensures
        r.len() == k || r.len() == all.len() < k,
        all.contains(r[i]),
        distance(c.node_id@, key) < distance(r[i].node_id@, key) ==> exists|j: int|
            0 <= j < i && #[trigger] r[j] == c,
        r.len() < k ==> r.contains(c),
{
    if distance(c.node_id@, key) < distance(r[i].node_id@, key) {
        assert(r.contains(c));
        let j = choose|j: int| 0 <= j < r.len() && r[j] == c;
        assert(j < i);
    }
    if r.len() < k && !r.contains(c) {
        lemma_none_left(all, key, k, r, c);
    }
}

/// Among contacts without repetition, there are nearest ones to each key.
pub proof fn law_nearest_exist(all: Seq<Contact>, key: Seq<u8>, k: nat)
    requires
        key.len() == 20,
        unique_ids(all),
    ensures
        is_closest(all, key, k, closest_of(all, key, k)),
{
    let n = if k < all.len() {
        k
    } else {
        all.len()
    };
    let r = lemma_pick(all, key, n);
    assert(is_closest(all, key, k, r));
}

/// The `n` nearest of contacts, picked one after the other.
proof fn lemma_pick(all: Seq<Contact>, key: Seq<u8>, n: nat) -> (r: Seq<Contact>)
    requires
        key.len() == 20,
        unique_ids(all),
        n <= all.len(),
    ensures
        is_closest(all, key, n, r),
    decreases n,
{
    if n == 0 {
        Seq::empty()
    } else {
        let q = lemma_pick(all, key, (n - 1) as nat);
        assert(exists|c: Contact| all.contains(c) && !q.contains(c)) by {
            if forall|c: Contact| all.contains(c) ==> q.contains(c) {
                assert(all.no_duplicates()) by {
                    assert forall|i: int, j: int|
                        0 <= i < all.len() && 0 <= j < all.len() && i != j implies all[i]
                        != all[j] by {
                        if i < j {
                            assert(all[i].node_id@ != all[j].node_id@);
                        } else {
                            assert(all[j].node_id@ != all[i].node_id@);
                        }
                    }
                }
                all.unique_seq_to_set();
                q.lemma_cardinality_of_set();
                assert(all.to_set().subset_of(q.to_set()));
                vstd::set_lib::lemma_len_subset(all.to_set(), q.to_set());
            }
        }
        let some = choose|c: Contact| all.contains(c) && !q.contains(c);
        let m = lemma_min(all, q, key, some);
        let r = q.push(m);
        assert forall|i: int| 0 <= i < r.len() implies all.contains(#[trigger] r[i]) by {
            if i < q.len() {
                assert(all.contains(q[i]));
            }
        }
        assert forall|i: int, j: int| 0 <= i < j < r.len() implies distance(
            (#[trigger] r[i]).node_id@,
            key,
        ) < distance((#[trigger] r[j]).node_id@, key) by {
            assert(q[i] == r[i]);
            if j < q.len() {
                assert(q[j] == r[j]);
            }
        }
        assert forall|c: Contact, i: int|
            #[trigger] all.contains(c) && !r.contains(c) && 0 <= i < r.len() implies distance(
            (#[trigger] r[i]).node_id@,
            key,
        ) < distance(c.node_id@, key) by {
            assert(!q.contains(c)) by {
                if q.contains(c) {
                    let j = choose|j: int| 0 <= j < q.len() && q[j] == c;
                    assert(r[j] == c);
                }
            }
            if i < q.len() {
                assert(q[i] == r[i]);
            } else {
                assert(r[q.len() as int] == m);
                if distance(m.node_id@, key) == distance(c.node_id@, key) {
                    lemma_distance_injective(m.node_id@, c.node_id@, key);
                    lemma_same_contact(all, m, c);
                }
            }
        }
        r
    }
}

/// The nearest of the contacts that were not picked.
proof fn lemma_min(all: Seq<Contact>, q: Seq<Contact>, key: Seq<u8>, some: Contact) -> (m: Contact)
    requires
        all.contains(some),
        !q.contains(some),
    ensures
        all.contains(m),
        !q.contains(m),
        forall|c: Contact| #[trigger]
            all.contains(c) && !q.contains(c) ==> distance(m.node_id@, key) <= distance(
                c.node_id@,
                key,
            ),
    decreases distance(some.node_id@, key),
{
    if forall|c: Contact| #[trigger]
        all.contains(c) && !q.contains(c) ==> distance(some.node_id@, key) <= distance(
            c.node_id@,
            key,
        ) {
        some
    } else {
        let c = choose|c: Contact| #[trigger]
            all.contains(c) && !q.contains(c) && distance(c.node_id@, key) < distance(
                some.node_id@,
                key,
            );
        lemma_min(all, q, key, c)
    }
}

/// Who is known after contacts have come in was known before, or came in and is
/// not the node itself; where there is room for all, nobody who was known is lost.
/// No more than 64 are known.
pub proof fn law_merge_sources(
    rt: Seq<Contact>,
    new: Seq<Contact>,
    own: Seq<u8>,
    after: Seq<Contact>,
    c: Contact,
)
    requires
        is_closest(merged(rt, new, own), own, RT_MAX as nat, after),
    ensures
        after.contains(c) ==> rt.contains(c) || new.contains(c) && c.node_id@ != own,
        after.len() <= 64,
        after.len() < 64 && rt.contains(c) ==> after.contains(c),
{
    let all = merged(rt, new, own);
    lemma_merged_from(rt, new, own, c);
    if after.contains(c) {
        let i = choose|i: int| 0 <= i < after.len() && after[i] == c;
        assert(all.contains(after[i]));
    }
    if after.len() < 64 && rt.contains(c) && !after.contains(c) {
        lemma_none_left(all, own, RT_MAX as nat, after, c);
    }
}

/// Where contacts come from after new ones are added.
proof fn lemma_merged_from(rt: Seq<Contact>, new: Seq<Contact>, own: Seq<u8>, c: Contact)
    ensures
        merged(rt, new, own).contains(c) ==> rt.contains(c) || new.contains(c) && c.node_id@ != own,
        rt.contains(c) ==> merged(rt, new, own).contains(c),
    decreases new.len(),
{
    if new.len() > 0 {
        let init = new.drop_last();
        let m = merged(rt, init, own);
        let all = merged(rt, new, own);
        lemma_merged_from(rt, init, own, c);
        if m.contains(c) {
            let i = choose|i: int| 0 <= i < m.len() && m[i] == c;
            assert(all[i] == c);
        }
        if init.contains(c) {
            let i = choose|i: int| 0 <= i < init.len() && init[i] == c;
            assert(new[i] == c);
        }
        if all.contains(c) && !m.contains(c) {
            let i = choose|i: int| 0 <= i < all.len() && all[i] == c;
            if i < m.len() {
                assert(m[i] == c);
            }
            assert(new[new.len() - 1] == c);
        }
    }
}

/// A descriptor is good for a day, to the second.
pub proof fn law_good_for_a_day(d: Descriptor, now: u64)
    ensures
        is_fresh(d, now) <==> now <= d.ts + 86400,
{
}

/// The answer to a search holds the three known contacts nearest to the key,
/// whether or not a value is wanted, or all where fewer are known, each with its
/// identifier, address and port. It holds a value where one is wanted, kept and no
/// older than a day, and that is the descriptor kept under the key.
pub proof fn law_find_answered(k: Kademlia, key: Seq<u8>, want: bool, now: u64)
    requires
        k.wf(),
        key.len() == 20,
    ensures
        exists|r: Seq<Contact>| #[trigger]
            is_closest(k.rt@, key, 3, r) && (k.found(key, want, now) matches RpcView::Found {
                contacts,
                ..
            } && contacts.len() == r.len() && forall|i: int|
                0 <= i < r.len() ==> (#[trigger] contacts[i]).id == r[i].node_id@ && contacts[i].ip
                    == r[i].ip@ && contacts[i].port == r[i].dht_port),
        k.found(key, want, now) matches RpcView::Found { value, .. } && {
            &&& value is Some <==> want && k.store@.contains_key(key) && now <= k.store@[key].ts
                + 86400
            &&& value matches Some(b) ==> b == k.store@[key].bytes_spec()
        },
{
    law_nearest_exist(k.rt@, key, 3);
    let r = closest_of(k.rt@, key, 3);
    assert(is_closest(k.rt@, key, 3, r));
}

/// Those to be asked are the first of the nearest that were not asked.
proof fn lemma_unasked_all(seen: Seq<Contact>, queried: Seq<NodeId>, c: Contact)
    requires
        seen.contains(c),
        !queried.contains(c.node_id),
    ensures
        unasked(seen, queried).contains(c),
    decreases seen.len(),
{
    let init = seen.drop_last();
    let u = unasked(init, queried);
    let all = unasked(seen, queried);
    let i = choose|i: int| 0 <= i < seen.len() && seen[i] == c;
    if i < init.len() {
        assert(init[i] == c);
        lemma_unasked_all(init, queried, c);
        let j = choose|j: int| 0 <= j < u.len() && u[j] == c;
        assert(all[j] == c);
    } else {
        assert(all[all.len() - 1] == c);
    }
}

/// Those that were not asked keep their order.
proof fn lemma_unasked_order(
    seen: Seq<Contact>,
    queried: Seq<NodeId>,
    a: int,
    b: int,
    i: int,
    j: int,
)
    requires
        unique_ids(seen),
        0 <= a < b < unasked(seen, queried).len(),
        0 <= i < seen.len(),
        0 <= j < seen.len(),
        seen[i] == unasked(seen, queried)[a],
        seen[j] == unasked(seen, queried)[b],
    ensures
        i < j,
    decreases seen.len(),
{
    let init = seen.drop_last();
    let u = unasked(init, queried);
    let all = unasked(seen, queried);
    assert(unique_ids(init)) by {
        assert forall|p: int, q: int| 0 <= p < q < init.len() implies (#[trigger] init[p]).node_id@
            != (#[trigger] init[q]).node_id@ by {
            assert(seen[p].node_id@ != seen[q].node_id@);
        }
    }
    lemma_unasked(init, queried);
    assert(u[a] == all[a]);
    assert(init.contains(u[a]));
    let x = choose|x: int| 0 <= x < init.len() && init[x] == u[a];
    if x != i {
        assert(seen[x].node_id@ != seen[i].node_id@);
    }
    if b < u.len() {
        assert(u[b] == all[b]);
        assert(init.contains(u[b]));
        let y = choose|y: int| 0 <= y < init.len() && init[y] == u[b];
        if y != j {
            assert(seen[y].node_id@ != seen[j].node_id@);
        }
        lemma_unasked_order(init, queried, a, b, i, j);
    } else {
        let last = seen.len() - 1;
        if j != last {
            assert(seen[j].node_id@ != seen[last].node_id@);
        }
    }
}

/// A round asks the nearest that were not asked, up to three: each of them is
/// among the nearest and was not asked, and one who is left out though not asked
/// is farther down than all three.
pub proof fn law_round_asks(seen: Seq<Contact>, queried: Seq<NodeId>, i: int)
    requires
        unique_ids(seen),
        0 <= i < seen.len(),
    ensures
        batch_of(seen, queried).len() <= 3,
        batch_of(seen, queried).contains(seen[i]) ==> !queried.contains(seen[i].node_id),
        forall|a: int|
            0 <= a < batch_of(seen, queried).len() ==> seen.contains(
                #[trigger] batch_of(seen, queried)[a],
            ),
        !queried.contains(seen[i].node_id) && !batch_of(seen, queried).contains(seen[i]) ==> {
            &&& batch_of(seen, queried).len() == 3
            &&& forall|a: int, j: int|
                0 <= a < 3 && 0 <= j < seen.len() && #[trigger] seen[j] == #[trigger] batch_of(
                    seen,
                    queried,
                )[a] ==> j < i
        },
{
    let u = unasked(seen, queried);
    let batch = batch_of(seen, queried);
    lemma_unasked(seen, queried);
    assert forall|a: int| 0 <= a < batch.len() implies seen.contains(#[trigger] batch[a]) by {
        assert(u[a] == batch[a]);
    }
    if batch.contains(seen[i]) {
        let a = choose|a: int| 0 <= a < batch.len() && batch[a] == seen[i];
        assert(u[a] == batch[a]);
    }
    if !queried.contains(seen[i].node_id) && !batch.contains(seen[i]) {
        assert(seen.contains(seen[i]));
        lemma_unasked_all(seen, queried, seen[i]);
        let b = choose|b: int| 0 <= b < u.len() && u[b] == seen[i];
        if b < batch.len() {
            assert(batch[b] == seen[i]);
        }
        assert forall|a: int, j: int|
            0 <= a < 3 && 0 <= j < seen.len() && #[trigger] seen[j] == #[trigger] batch[a] implies j
            < i by {
            assert(u[a] == batch[a]);
            lemma_unasked_order(seen, queried, a, b, j, i);
        }
    }
}

/// A search does not end while there is somebody new to ask. Where no round is
/// open and it ends, each of the three known contacts nearest to the key was in
/// sight when the last round began, or was asked.
pub proof fn law_search_ends(s: LookupView, rt: Seq<Contact>, r: Seq<Contact>, i: int)
    requires
        s.key.len() == 20,
        unique_ids(rt),
        is_closest(rt, s.key, 3, r),
        !s.done,
        s.batch.len() == 0,
        0 <= i < r.len(),
        s.step(rt).1 is None,
    ensures
        (exists|j: int| 0 <= j < s.seen.len() && (#[trigger] s.seen[j]).node_id@ == r[i].node_id@)
            || s.queried.contains(r[i].node_id),
{
    law_nearest_exist(rt, s.key, 3);
    law_closest_unique(rt, s.key, 3, r, closest_of(rt, s.key, 3));
    if !no_change(r, s.seen) && !s.queried.contains(r[i].node_id) {
        assert(r.contains(r[i]));
        lemma_unasked_all(r, s.queried, r[i]);
    }
}

/// Whom a search asks: where a round is open, the next of the round. Else, where
/// the three nearest known contacts are not those of before, one of them who was
/// not asked, and nobody nearer is left out; and where they are those of before,
/// nobody. Who is asked is noted, and nobody else.
pub proof fn law_search_asks(s: LookupView, rt: Seq<Contact>, r: Seq<Contact>)
    requires
        s.wf(),
        s.key.len() == 20,
        unique_ids(rt),
        is_closest(rt, s.key, 3, r),
    ensures
        s.done ==> s.step(rt) == (s, None::<Contact>),
        !s.done && s.batch.len() > 0 ==> s.step(rt).1 == Some(s.batch[0]),
        !s.done && s.batch.len() == 0 && r.len() == s.seen.len() && (forall|i: int|
            0 <= i < r.len() ==> has_id(s.seen, (#[trigger] r[i]).node_id@)) ==> s.step(rt).1
            is None,
        s.step(rt).1 matches Some(c) ==> {
            &&& !s.queried.contains(c.node_id)
            &&& s.step(rt).0.queried == s.queried.push(c.node_id)
            &&& s.batch.len() == 0 ==> r.contains(c) && forall|i: int|
                0 <= i < r.len() && distance((#[trigger] r[i]).node_id@, s.key) < distance(
                    c.node_id@,
                    s.key,
                ) ==> s.queried.contains(r[i].node_id)
        },
        s.step(rt).1 is None ==> s.step(rt).0.queried == s.queried,
        s.step(rt).0.key == s.key,
        s.step(rt).0.want_value == s.want_value,
{
    law_nearest_exist(rt, s.key, 3);
    law_closest_unique(rt, s.key, 3, r, closest_of(rt, s.key, 3));
    lemma_closest_ids(rt, s.key, 3, r);
    let u = unasked(r, s.queried);
    lemma_unasked(r, s.queried);
    if let Some(c) = s.step(rt).1 {
        if s.batch.len() == 0 {
            let batch = batch_of(r, s.queried);
            assert(c == batch[0] && batch[0] == u[0]);
            assert(r.contains(u[0]));
            assert forall|i: int|
                0 <= i < r.len() && distance((#[trigger] r[i]).node_id@, s.key) < distance(
                    c.node_id@,
                    s.key,
                ) implies s.queried.contains(r[i].node_id) by {
                if !s.queried.contains(r[i].node_id) {
                    assert(r.contains(r[i]));
                    lemma_unasked_all(r, s.queried, r[i]);
                    let b = choose|b: int| 0 <= b < u.len() && u[b] == r[i];
                    let x = choose|x: int| 0 <= x < r.len() && r[x] == u[0];
                    if b > 0 {
                        lemma_unasked_order(r, s.queried, 0, b, x, i);
                    }
                }
            }
        }
    }
}

/// Identifiers compare by the first byte in which they differ.
pub(crate) proof fn lemma_be_prefix(a: Seq<u8>, b: Seq<u8>, i: int)
    requires
        a.len() == b.len(),
        0 <= i < a.len(),
        forall|j: int| 0 <= j < i ==> a[j] == b[j],
        a[i] < b[i],
    ensures
        be_value(a) < be_value(b),
    decreases i,
{
    lemma_be_step(a, b);
    if i > 0 {
        let (a1, b1) = (a.drop_first(), b.drop_first());
        assert(a[0] == b[0]);
        assert forall|j: int| 0 <= j < i - 1 implies a1[j] == b1[j] by {
            assert(a[j + 1] == b[j + 1]);
        }
        lemma_be_prefix(a1, b1, i - 1);
    }
}

/// Those that a round asks, it asks in their order.
pub proof fn law_round_in_order(
    seen: Seq<Contact>,
    queried: Seq<NodeId>,
    a: int,
    b: int,
    i: int,
    j: int,
)
    requires
        unique_ids(seen),
        0 <= a < b < batch_of(seen, queried).len(),
        0 <= i < seen.len(),
        0 <= j < seen.len(),
        seen[i] == batch_of(seen, queried)[a],
        seen[j] == batch_of(seen, queried)[b],
    ensures
        i < j,
{
    let u = unasked(seen, queried);
    assert(u[a] == batch_of(seen, queried)[a]);
    assert(u[b] == batch_of(seen, queried)[b]);
    lemma_unasked_order(seen, queried, a, b, i, j);
}

/// What a search keeps: within a round, who is in sight stays in sight, and the
/// one who is asked leaves the round. A new round has the three nearest known
/// contacts in sight. A search that asks nobody has ended.
pub proof fn law_search_keeps(s: LookupView, rt: Seq<Contact>, r: Seq<Contact>)
    requires
        s.key.len() == 20,
        unique_ids(rt),
        is_closest(rt, s.key, 3, r),
        !s.done,
    ensures
        ({
            let (after, asked) = s.step(rt);
            &&& asked is None <==> after.done
            &&& s.batch.len() > 0 ==> {
                &&& after.seen == s.seen
                &&& after.batch == s.batch.skip(1)
            }
            &&& s.batch.len() == 0 && asked is Some ==> {
                &&& after.seen == r
                &&& seq![asked->0] + after.batch == batch_of(r, s.queried)
            }
            &&& s.batch.len() == 0 && asked is None ==> {
                &&& after.batch.len() == 0
                &&& after.seen == r || after.seen == s.seen
            }
        }),
{
    law_nearest_exist(rt, s.key, 3);
    law_closest_unique(rt, s.key, 3, r, closest_of(rt, s.key, 3));
    let (after, asked) = s.step(rt);
    if s.batch.len() > 0 {
        assert(s.batch.drop_first() =~= s.batch.skip(1));
    } else if asked is Some {
        let batch = batch_of(r, s.queried);
        assert(seq![batch[0]] + batch.drop_first() =~= batch);
    }
}

/// Contacts are added one after the other: one that is new stands at the end, and
/// one whose identifier is there, or the node's own, changes nothing.
pub proof fn law_merge_adds(rt: Seq<Contact>, new: Seq<Contact>, c: Contact, own: Seq<u8>)
    ensures
        ({
            let before = merged(rt, new, own);
            let known = exists|i: int|
                0 <= i < before.len() && (#[trigger] before[i]).node_id@ == c.node_id@;
            merged(rt, new.push(c), own) == if known || c.node_id@ == own {
                before
            } else {
                before + seq![c]
            }
        }),
        merged(rt, Seq::empty(), own) == rt,
{
    assert(new.push(c).drop_last() =~= new);
    assert(merged(rt, new, own).push(c) =~= merged(rt, new, own) + seq![c]);
}

/// No identifier is there twice after contacts were added, where none was before,
/// and those that were there stand first, as they stood.
pub proof fn law_merge_once(rt: Seq<Contact>, new: Seq<Contact>, own: Seq<u8>)
    ensures
        merged(rt, new, own).len() >= rt.len(),
        merged(rt, new, own).take(rt.len() as int) == rt,
        unique_ids(rt) ==> unique_ids(merged(rt, new, own)),
    decreases new.len(),
{
    let all = merged(rt, new, own);
    if new.len() > 0 {
        law_merge_once(rt, new.drop_last(), own);
        let before = merged(rt, new.drop_last(), own);
        assert(all.take(rt.len() as int) =~= before.take(rt.len() as int));
    } else {
        assert(all.take(rt.len() as int) =~= rt);
    }
}

/// A node's part of the hash table is bounded: it knows sixty-four contacts at
/// most, none twice, and keeps each descriptor under its own identifier.
pub proof fn law_table_bounded(k: Kademlia, i: int, j: int, key: Seq<u8>)
    requires
        k.wf(),
    ensures
        k.rt@.len() <= 64,
        0 <= i < j < k.rt@.len() ==> k.rt@[i].node_id@ != k.rt@[j].node_id@,
        k.store@.contains_key(key) ==> k.store@[key].node_id@ == key,
{
}

} // verus!
