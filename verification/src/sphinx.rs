//! Sphinx headers: one header sets up a whole circuit.
//!
//! A header for `n` hops is a version (1), the number of hops to go, the tag of
//! the circuit, one point for each hop, and `n` nested layers:
//!
//! ```text
//! [1][n][tag 16][alpha_1 .. alpha_n, 32 each][layers, n * (16 + 1152)]
//! ```
//!
//! A hop multiplies the first point with its private key. From the product come
//! the key of its layer and a blinding factor. It opens its layer, multiplies
//! the points that are left with the blinding factor, and hands the rest on.
//! Who made the header knows the scalars behind the points, and reaches the same
//! products from the hops' public keys. The keys for traffic also depend on a KEM
//! ciphertext inside the layer.

use crate::bytes::{
    append, arr_eq, get_arr, get_u16, le_bytes, le_value, lemma_le_bytes_len,
    lemma_le_bytes_of_value, lemma_le_value_of_bytes, pow256, put_u16, put_zeros, zeros,
};
use crate::identity::{Descriptor, NodeIdentity};
use crate::kdf::{
    bwd_key, derive_hdr_key, derive_traffic_keys, fwd_key, hdr_key, hdr_nonce, hdr_nonce_spec,
    open, opened, seal, sealed,
};
use crate::kem::{kem_decap, kem_encap};
use crate::primitives::{
    base_multiple, mlkem_decapsulate, mlkem_encapsulate, montgomery_mul, montgomery_mul_base,
    point_mul, point_mul_base, scalar_bytes, scalar_mul, scalar_order, scalar_random, scalar_reduce,
    sha256, sha256_digest,
};
use crate::{
    CryptoError, NodeAddr, NodeId, CT_LEN, LAYER_INFO_LEN, LAYER_LEN, MAX_HOPS, TERMINAL_ID,
};
use rand::rngs::StdRng;
use vstd::prelude::*;
use vstd::slice::slice_subrange;

verus! {

/// The length of a header before its points: version, hop count and tag.
pub const HDR_FIXED: usize = 18;

/// A hop of a route.
pub struct RouteNode<'a> {
    pub desc: &'a Descriptor,
}

/// The descriptors of a route.
pub open spec fn descs(route: Seq<RouteNode<'_>>) -> Seq<Descriptor> {
    route.map_values(|r: RouteNode<'_>| *r.desc)
}

/// A header, with what its maker keeps.
pub struct BuiltHeader {
    /// The header for the first hop.
    pub header: Vec<u8>,
    pub tag: [u8; 16],
    /// The forward keys of the hops, in order.
    pub fwd_keys: Vec<[u8; 32]>,
    /// The backward keys of the hops, in order.
    pub bwd_keys: Vec<[u8; 32]>,
    pub first_addr: NodeAddr,
}

/// What a header is made from: the route, the circuit's tag, and for each hop a
/// scalar and an encapsulation (the ciphertext and the secret).
pub struct Plan {
    pub route: Seq<Descriptor>,
    pub tag: Seq<u8>,
    pub xs: Seq<[u8; 32]>,
    pub caps: Seq<([u8; CT_LEN], [u8; 32])>,
}

/// The effective scalar of a hop: its own, blinded by the hops before it.
pub open spec fn eff_of(x: Seq<u8>, blind: Seq<u8>) -> Seq<u8> {
    scalar_bytes(le_value(x) * le_value(blind))
}

/// The blinding factor of a hop, from its secret and the point that it sees.
pub open spec fn factor_of(ss_x: Seq<u8>, alpha: Seq<u8>) -> Seq<u8> {
    scalar_bytes(le_value(sha256(ss_x + alpha)))
}

impl Plan {
    /// There is a scalar and an encapsulation for each hop of a route that is
    /// neither empty nor too long.
    pub open spec fn wf(self) -> bool {
        &&& 1 <= self.route.len() <= MAX_HOPS
        &&& self.tag.len() == 16
        &&& self.xs.len() == self.route.len()
        &&& self.caps.len() == self.route.len()
    }

    /// The scalars are below the group order.
    pub open spec fn reduced(self) -> bool {
        forall|i: int|
            0 <= i < self.xs.len() ==> le_value(#[trigger] self.xs[i]@) < scalar_order()
    }

    /// The product of the blinding factors of the first `i` hops.
    pub open spec fn blind(self, i: nat) -> Seq<u8>
        decreases i,
    {
        if i == 0 {
            le_bytes(1, 32)
        } else {
            let j = (i - 1) as nat;
            let e = eff_of(self.xs[j as int]@, self.blind(j));
            let ss_x = montgomery_mul(self.route[j as int].sphinx_pub@, e);
            let factor = factor_of(ss_x, montgomery_mul_base(e));
            scalar_bytes(le_value(self.blind(j)) * le_value(factor))
        }
    }

    /// The effective scalar of hop `i`.
    pub open spec fn eff(self, i: nat) -> Seq<u8> {
        eff_of(self.xs[i as int]@, self.blind(i))
    }

    /// The X25519 secret of hop `i`.
    pub open spec fn ss_x(self, i: nat) -> Seq<u8> {
        montgomery_mul(self.route[i as int].sphinx_pub@, self.eff(i))
    }

    /// What the layer of hop `i` tells it.
    pub open spec fn info(self, i: nat) -> Seq<u8> {
        if i + 1 < self.route.len() {
            let next = self.route[(i + 1) as int];
            next.node_id@ + next.cell_addr.octets() + le_bytes(
                next.cell_addr.port_spec() as nat,
                2,
            ) + next.link_pub@ + zeros(6) + self.caps[i as int].0@
        } else {
            TERMINAL_ID@ + zeros(44) + self.caps[i as int].0@
        }
    }

    /// The layers from hop `i` on.
    pub open spec fn layer(self, i: nat) -> Seq<u8>
        decreases self.route.len() - i,
    {
        if i >= self.route.len() {
            Seq::empty()
        } else {
            sealed(
                hdr_key(self.ss_x(i), self.tag),
                hdr_nonce_spec(self.tag, (self.route.len() - i) as u8),
                self.info(i) + self.layer(i + 1),
            )
        }
    }

    /// The points from hop `j` on.
    pub open spec fn points(self, j: nat) -> Seq<u8>
        decreases self.xs.len() - j,
    {
        if j >= self.xs.len() {
            Seq::empty()
        } else {
            montgomery_mul_base(self.xs[j as int]@) + self.points(j + 1)
        }
    }

    /// The header.
    pub open spec fn header(self) -> Seq<u8> {
        seq![1u8, self.route.len() as u8] + self.tag + self.points(0) + self.layer(0)
    }

    /// The layer of hop `i` has its length, and opens under the hop's key to what
    /// the hop is told and the layers of the hops behind it.
    pub open spec fn layer_opens(self, i: nat) -> bool {
        &&& self.layer(i).len() == (self.route.len() - i) * LAYER_LEN
        &&& opened(
            hdr_key(self.ss_x(i), self.tag),
            hdr_nonce_spec(self.tag, (self.route.len() - i) as u8),
            self.layer(i),
        ) == Some(self.info(i) + self.layer(i + 1))
    }

    /// Each layer opens for its hop.
    pub open spec fn layers_open(self) -> bool {
        forall|i: nat| i < self.route.len() ==> #[trigger] self.layer_opens(i)
    }

    /// The points of the hops multiply as multiples of the base point do.
    pub open spec fn points_multiply(self) -> bool {
        forall|j: int|
            0 <= j < self.xs.len() ==> base_multiple(
                montgomery_mul_base(#[trigger] self.xs[j]@),
                self.xs[j]@,
            )
    }

    /// A built header is the one of this plan.
    pub open spec fn built(self, b: BuiltHeader) -> bool {
        &&& b.header@ == self.header()
        &&& b.tag@ == self.tag
        &&& b.fwd_keys@.len() == self.route.len()
        &&& b.bwd_keys@.len() == self.route.len()
        &&& forall|i: int|
            0 <= i < self.route.len() ==> (#[trigger] b.fwd_keys@[i])@ == fwd_key(
                self.ss_x(i as nat),
                self.caps[i].1@,
                self.tag,
            )
        &&& forall|i: int|
            0 <= i < self.route.len() ==> (#[trigger] b.bwd_keys@[i])@ == bwd_key(
                self.ss_x(i as nat),
                self.caps[i].1@,
                self.tag,
            )
        &&& b.first_addr == self.route[0].cell_addr
    }
}

/// The header of a route, from a scalar and an encapsulation for each hop.
pub fn assemble_header(
    route: &[RouteNode<'_>],
    tag: [u8; 16],
    xs: &[[u8; 32]],
    caps: &[([u8; CT_LEN], [u8; 32])],
) -> (r: Result<BuiltHeader, CryptoError>)
    requires
        xs@.len() == route@.len(),
        caps@.len() == route@.len(),
    ensures
        match r {
            Ok(b) => {
                let plan = Plan { route: descs(route@), tag: tag@, xs: xs@, caps: caps@ };
                &&& 1 <= route@.len() <= MAX_HOPS
                &&& plan.built(b)
                &&& plan.layers_open()
                &&& plan.points_multiply()
            },
            Err(e) => !(1 <= route@.len() <= MAX_HOPS) && e == CryptoError::BadLength(
                route@.len() as usize,
            ),
        },
{
    if route.len() == 0 || route.len() > MAX_HOPS {
        return Err(CryptoError::BadLength(route.len()));
    }
    let n: usize = route.len();
    let ghost plan = Plan { route: descs(route@), tag: tag@, xs: xs@, caps: caps@ };
    let ss_x = route_secrets(route, xs, Ghost(plan));
    let blob = seal_layers(route, &tag, caps, ss_x.as_slice(), Ghost(plan));

    let mut header: Vec<u8> = Vec::new();
    header.push(1u8);
    header.push(n as u8);
    append(&mut header, &tag);
    let ghost base = header@;
    let mut i: usize = 0;
    while i < n
        invariant
            n == xs@.len(),
            plan.xs == xs@,
            i <= n,
            header@ + plan.points(i as nat) == base + plan.points(0),
            forall|j: int|
                0 <= j < i ==> base_multiple(
                    montgomery_mul_base(#[trigger] plan.xs[j]@),
                    plan.xs[j]@,
                ),
        decreases n - i,
    {
        let ghost before = header@;
        let point = point_mul_base(&xs[i]);
        append(&mut header, &point);
        assert(header@ + plan.points((i + 1) as nat) =~= before + plan.points(i as nat));
        i += 1;
    }
    assert(header@ + plan.points(n as nat) =~= header@);
    append(&mut header, blob.as_slice());
    assert(header@ =~= plan.header());

    let mut fwd_keys: Vec<[u8; 32]> = Vec::with_capacity(n);
    let mut bwd_keys: Vec<[u8; 32]> = Vec::with_capacity(n);
    let mut k: usize = 0;
    while k < n
        invariant
            n == route@.len(),
            caps@.len() == n,
            ss_x@.len() == n,
            plan == (Plan { route: descs(route@), tag: tag@, xs: xs@, caps: caps@ }),
            forall|j: int| 0 <= j < n ==> (#[trigger] ss_x@[j])@ == plan.ss_x(j as nat),
            k <= n,
            fwd_keys@.len() == k,
            bwd_keys@.len() == k,
            forall|j: int|
                0 <= j < k ==> (#[trigger] fwd_keys@[j])@ == fwd_key(
                    plan.ss_x(j as nat),
                    plan.caps[j].1@,
                    plan.tag,
                ),
            forall|j: int|
                0 <= j < k ==> (#[trigger] bwd_keys@[j])@ == bwd_key(
                    plan.ss_x(j as nat),
                    plan.caps[j].1@,
                    plan.tag,
                ),
        decreases n - k,
    {
        let (f, b) = derive_traffic_keys(&ss_x[k], &caps[k].1, &tag);
        fwd_keys.push(f);
        bwd_keys.push(b);
        k += 1;
    }
    Ok(BuiltHeader { header, tag, fwd_keys, bwd_keys, first_addr: route[0].desc.cell_addr })
}

/// The X25519 secret of each hop.
fn route_secrets(route: &[RouteNode<'_>], xs: &[[u8; 32]], plan: Ghost<Plan>) -> (ss_x: Vec<
    [u8; 32],
>)
    requires
        xs@.len() == route@.len(),
        plan@.route == descs(route@),
        plan@.xs == xs@,
    ensures
        ss_x@.len() == route@.len(),
        forall|j: int|
            0 <= j < route@.len() ==> (#[trigger] ss_x@[j])@ == plan@.ss_x(j as nat),
{
    let mut ss_x: Vec<[u8; 32]> = Vec::with_capacity(route.len());
    let mut blind: [u8; 32] = [0u8; 32];
    blind[0] = 1;
    proof {
        reveal_with_fuel(le_bytes, 33);
        assert(blind@ =~= le_bytes(1, 32));
    }
    let mut i: usize = 0;
    while i < route.len()
        invariant
            xs@.len() == route@.len(),
            plan@.route == descs(route@),
            plan@.xs == xs@,
            i <= route@.len(),
            ss_x@.len() == i,
            blind@ == plan@.blind(i as nat),
            forall|j: int| 0 <= j < i ==> (#[trigger] ss_x@[j])@ == plan@.ss_x(j as nat),
        decreases route@.len() - i,
    {
        let e = scalar_mul(&xs[i], &blind);
        let ss = point_mul(&route[i].desc.sphinx_pub, &e);
        let factor = blinding_factor(&ss, &point_mul_base(&e));
        blind = scalar_mul(&blind, &factor);
        ss_x.push(ss);
        i += 1;
    }
    ss_x
}

/// The blinding factor of a hop, from its secret and the point that it sees.
pub fn blinding_factor(ss_x: &[u8; 32], alpha: &[u8; 32]) -> (factor: [u8; 32])
    ensures
        factor@ == factor_of(ss_x@, alpha@),
{
    let mut data: Vec<u8> = Vec::new();
    append(&mut data, ss_x);
    append(&mut data, alpha);
    assert(data@ =~= ss_x@ + alpha@);
    scalar_reduce(&sha256_digest(data.as_slice()))
}

/// What the layer of hop `i` tells it.
fn layer_info(
    route: &[RouteNode<'_>],
    caps: &[([u8; CT_LEN], [u8; 32])],
    i: usize,
    plan: Ghost<Plan>,
) -> (info: Vec<u8>)
    requires
        i < route@.len(),
        caps@.len() == route@.len(),
        plan@.route == descs(route@),
        plan@.caps == caps@,
    ensures
        info@ == plan@.info(i as nat),
        info@.len() == LAYER_INFO_LEN,
{
    assert(route@.len() == route.len());
    let mut info: Vec<u8> = Vec::with_capacity(LAYER_INFO_LEN);
    if i + 1 < route.len() {
        let next = route[i + 1].desc;
        append(&mut info, &next.node_id);
        match next.cell_addr {
            NodeAddr::V4 { ip, .. } => append(&mut info, &ip),
            NodeAddr::V6 { .. } => {
                put_zeros(&mut info, 4);
                assert(zeros(4) =~= next.cell_addr.octets());
            },
        }
        put_u16(&mut info, next.cell_addr.port());
        append(&mut info, &next.link_pub);
        put_zeros(&mut info, 6);
        proof {
            lemma_le_bytes_len(next.cell_addr.port_spec() as nat, 2);
        }
    } else {
        append(&mut info, &TERMINAL_ID);
        put_zeros(&mut info, 44);
    }
    append(&mut info, &caps[i].0);
    assert(info@ =~= plan@.info(i as nat));
    info
}

/// The nested layers, sealed from the last hop to the first.
fn seal_layers(
    route: &[RouteNode<'_>],
    tag: &[u8; 16],
    caps: &[([u8; CT_LEN], [u8; 32])],
    ss_x: &[[u8; 32]],
    plan: Ghost<Plan>,
) -> (blob: Vec<u8>)
    requires
        1 <= route@.len() <= MAX_HOPS,
        caps@.len() == route@.len(),
        ss_x@.len() == route@.len(),
        plan@.route == descs(route@),
        plan@.tag == tag@,
        plan@.caps == caps@,
        forall|j: int|
            0 <= j < route@.len() ==> (#[trigger] ss_x@[j])@ == plan@.ss_x(j as nat),
    ensures
        blob@ == plan@.layer(0),
        plan@.layers_open(),
{
    let n: usize = route.len();
    let mut blob: Vec<u8> = Vec::new();
    let mut t: usize = n;
    while t > 0
        invariant
            n == route@.len(),
            1 <= n <= MAX_HOPS,
            caps@.len() == n,
            ss_x@.len() == n,
            plan@.route == descs(route@),
            plan@.tag == tag@,
            plan@.caps == caps@,
            forall|j: int| 0 <= j < n ==> (#[trigger] ss_x@[j])@ == plan@.ss_x(j as nat),
            t <= n,
            blob@ == plan@.layer(t as nat),
            blob@.len() == (n - t) * LAYER_LEN,
            forall|i: nat| t <= i < n ==> #[trigger] plan@.layer_opens(i),
        decreases t,
    {
        let i: usize = t - 1;
        let mut inner = layer_info(route, caps, i, plan);
        append(&mut inner, blob.as_slice());
        let key = derive_hdr_key(&ss_x[i], tag);
        let nonce = hdr_nonce(tag, (n - i) as u8);
        assert(inner@.len() <= 6000) by (nonlinear_arith)
            requires
                inner@.len() == LAYER_INFO_LEN + (n - t) * LAYER_LEN,
                1 <= t <= n <= 5,
                LAYER_INFO_LEN == 1152,
                LAYER_LEN == 1168,
        ;
        blob = seal(&key, &nonce, inner.as_slice());
        assert((n - i) * LAYER_LEN == (n - t) * LAYER_LEN + LAYER_LEN) by (nonlinear_arith)
            requires
                i == t - 1,
        ;
        assert(plan@.layer_opens(i as nat));
        t = i;
    }
    blob
}

/// Builds the header of a route, with a fresh scalar and a fresh encapsulation
/// for each hop.
pub fn build_header(route: &[RouteNode<'_>], tag: [u8; 16], rng: &mut StdRng) -> (r: Result<
    BuiltHeader,
    CryptoError,
>)
    ensures
        match r {
            Ok(b) => 1 <= route@.len() <= MAX_HOPS && exists|plan: Plan|
                {
                    &&& plan.route == descs(route@)
                    &&& plan.tag == tag@
                    &&& plan.wf()
                    &&& plan.reduced()
                    &&& plan.encapsulated()
                    &&& plan.layers_open()
                    &&& plan.points_multiply()
                    &&& #[trigger] plan.built(b)
                },
            Err(e) => {
                &&& !(1 <= route@.len() <= MAX_HOPS)
                &&& e == CryptoError::BadLength(route@.len() as usize)
                &&& *final(rng) == *old(rng)
            },
        },
{
    if route.len() == 0 || route.len() > MAX_HOPS {
        return Err(CryptoError::BadLength(route.len()));
    }
    let n: usize = route.len();
    let mut xs: Vec<[u8; 32]> = Vec::with_capacity(n);
    while xs.len() < n
        invariant
            xs@.len() <= n,
            forall|j: int| 0 <= j < xs@.len() ==> le_value(#[trigger] xs@[j]@) < scalar_order(),
        decreases n - xs@.len(),
    {
        xs.push(scalar_random(rng));
    }
    let mut caps: Vec<([u8; CT_LEN], [u8; 32])> = Vec::with_capacity(n);
    while caps.len() < n
        invariant
            n == route@.len(),
            1 <= n <= MAX_HOPS,
            caps@.len() <= n,
            forall|j: int|
                0 <= j < caps@.len() ==> is_encapsulation(
                    route@[j].desc.kem_pk@,
                    #[trigger] caps@[j],
                ),
        decreases n - caps@.len(),
    {
        let i: usize = caps.len();
        match kem_encap(&route[i].desc.kem_pk, rng) {
            Ok(cap) => caps.push(cap),
            Err(e) => {
                return Err(e);
            },
        }
    }
    let r = assemble_header(route, tag, xs.as_slice(), caps.as_slice());
    proof {
        let plan = Plan { route: descs(route@), tag: tag@, xs: xs@, caps: caps@ };
        assert(plan.encapsulated());
        assert(plan.reduced());
    }
    r
}

/// A ciphertext and a secret are an encapsulation to a public key.
pub open spec fn is_encapsulation(pk: Seq<u8>, cap: ([u8; CT_LEN], [u8; 32])) -> bool {
    exists|seed: [u8; 32]| (cap.0@, cap.1@) == #[trigger] mlkem_encapsulate(pk, seed@)
}

impl Plan {
    /// Each hop has an encapsulation to its own public key.
    pub open spec fn encapsulated(self) -> bool {
        forall|i: int|
            0 <= i < self.caps.len() ==> is_encapsulation(
                self.route[i].kem_pk@,
                #[trigger] self.caps[i],
            )
    }
}

/// What a hop finds in a header.
pub enum ProcessOutcome {
    /// The hop is the last one.
    Terminal { tag: [u8; 16], k_fwd: [u8; 32], k_bwd: [u8; 32] },
    /// The hop hands `new_header` on to the next one.
    Relay {
        tag: [u8; 16],
        k_fwd: [u8; 32],
        k_bwd: [u8; 32],
        next_id: NodeId,
        next_addr: NodeAddr,
        new_header: Vec<u8>,
    },
}

/// Where a hop hands a header on, and what it hands on.
pub struct Forward {
    pub id: Seq<u8>,
    pub ip: Seq<u8>,
    pub port: nat,
    pub header: Seq<u8>,
}

/// What a hop finds in a header.
pub struct Peeled {
    pub tag: Seq<u8>,
    pub k_fwd: Seq<u8>,
    pub k_bwd: Seq<u8>,
    /// What to hand on, but at the last hop.
    pub next: Option<Forward>,
}

impl View for ProcessOutcome {
    type V = Peeled;

    open spec fn view(&self) -> Peeled {
        match self {
            ProcessOutcome::Terminal { tag, k_fwd, k_bwd } => Peeled {
                tag: tag@,
                k_fwd: k_fwd@,
                k_bwd: k_bwd@,
                next: None,
            },
            ProcessOutcome::Relay { tag, k_fwd, k_bwd, next_id, next_addr, new_header } => Peeled {
                tag: tag@,
                k_fwd: k_fwd@,
                k_bwd: k_bwd@,
                next: Some(
                    Forward {
                        id: next_id@,
                        ip: next_addr.octets(),
                        port: next_addr.port_spec() as nat,
                        header: new_header@,
                    },
                ),
            },
        }
    }
}

/// Points of 32 bytes each, all multiplied with a factor.
pub open spec fn blind_all(points: Seq<u8>, factor: Seq<u8>) -> Seq<u8>
    decreases points.len(),
{
    if points.len() < 32 {
        Seq::empty()
    } else {
        montgomery_mul(points.subrange(0, 32), factor) + blind_all(
            points.subrange(32, points.len() as int),
            factor,
        )
    }
}

/// A byte string has the shape of a header.
pub open spec fn header_shape(h: Seq<u8>) -> bool {
    h.len() >= HDR_FIXED && h[0] == 1 && h[1] != 0 && h.len() == HDR_FIXED + h[1] * 32 + h[1]
        * LAYER_LEN
}

/// What a hop finds in a header with its private key and its decapsulation key.
#[verifier::opaque]
pub open spec fn peel(sphinx_priv: Seq<u8>, kem_sk: Seq<u8>, h: Seq<u8>) -> Option<Peeled> {
    if !header_shape(h) {
        None
    } else {
        let n = h[1];
        let tag = h.subrange(2, 18);
        let alpha = h.subrange(18, 50);
        let ss_x = montgomery_mul(alpha, sphinx_priv);
        let layer = h.subrange(18 + n * 32, h.len() as int);
        match opened(hdr_key(ss_x, tag), hdr_nonce_spec(tag, n), layer) {
            None => None,
            Some(o) => if o.len() != LAYER_INFO_LEN + (n - 1) * LAYER_LEN {
                None
            } else {
                let ss_kem = mlkem_decapsulate(kem_sk, o.subrange(64, 64 + CT_LEN));
                Some(
                    Peeled {
                        tag,
                        k_fwd: fwd_key(ss_x, ss_kem, tag),
                        k_bwd: bwd_key(ss_x, ss_kem, tag),
                        next: if o.subrange(0, 20) == TERMINAL_ID@ {
                            None
                        } else {
                            Some(
                                Forward {
                                    id: o.subrange(0, 20),
                                    ip: o.subrange(20, 24),
                                    port: le_value(o.subrange(24, 26)),
                                    header: seq![1u8, (n - 1) as u8] + tag + blind_all(
                                        h.subrange(50, 18 + n * 32),
                                        factor_of(ss_x, alpha),
                                    ) + o.subrange(LAYER_INFO_LEN as int, o.len() as int),
                                },
                            )
                        },
                    },
                )
            },
        }
    }
}

/// What a node finds in a header: it opens its layer, takes its traffic keys
/// from it, and unless it is the last hop, makes the header for the next one.
pub fn process_header(id: &NodeIdentity, header: &[u8]) -> (r: Result<ProcessOutcome, CryptoError>)
    ensures
        match r {
            Ok(o) => {
                &&& peel(id.sphinx_priv@, id.kem_sk@, header@) == Some(o@)
                &&& o matches ProcessOutcome::Relay { next_addr, .. } ==> next_addr is V4
            },
            Err(e) => peel(id.sphinx_priv@, id.kem_sk@, header@) is None && e
                == CryptoError::Sphinx,
        },
{
    reveal(peel);
    if header.len() < HDR_FIXED {
        return Err(CryptoError::Sphinx);
    }
    let ver = header[0];
    let n_field = header[1];
    if ver != 1 || n_field == 0 {
        return Err(CryptoError::Sphinx);
    }
    let n: usize = n_field as usize;
    assert(n * LAYER_LEN <= 255 * 1168) by (nonlinear_arith)
        requires
            n <= 255,
            LAYER_LEN == 1168,
    ;
    if header.len() != HDR_FIXED + n * 32 + n * LAYER_LEN {
        return Err(CryptoError::Sphinx);
    }
    let tag: [u8; 16] = get_arr(header, 2);
    let alpha: [u8; 32] = get_arr(header, 18);
    let ss_x = point_mul(&alpha, &id.sphinx_priv);
    let key = derive_hdr_key(&ss_x, &tag);
    let nonce = hdr_nonce(&tag, n_field);
    let layer = slice_subrange(header, HDR_FIXED + n * 32, header.len());
    let inner = match open(&key, &nonce, layer) {
        Ok(inner) => inner,
        Err(_) => {
            return Err(CryptoError::Sphinx);
        },
    };
    assert((n - 1) * LAYER_LEN <= n * LAYER_LEN) by (nonlinear_arith);
    if inner.len() != LAYER_INFO_LEN + (n - 1) * LAYER_LEN {
        return Err(CryptoError::Sphinx);
    }
    let o = inner.as_slice();
    let next_id: NodeId = get_arr(o, 0);
    let ip: [u8; 4] = get_arr(o, 20);
    let port = get_u16(o, 24);
    let ct: [u8; CT_LEN] = get_arr(o, 64);
    let ss_kem = match kem_decap(&id.kem_sk, &ct) {
        Ok(ss) => ss,
        Err(e) => {
            return Err(e);
        },
    };
    let (k_fwd, k_bwd) = derive_traffic_keys(&ss_x, &ss_kem, &tag);
    if arr_eq(&next_id, &TERMINAL_ID) {
        return Ok(ProcessOutcome::Terminal { tag, k_fwd, k_bwd });
    }
    let factor = blinding_factor(&ss_x, &alpha);

    let mut new_header: Vec<u8> = Vec::new();
    new_header.push(1u8);
    new_header.push(n_field - 1);
    append(&mut new_header, &tag);
    blind_points(&mut new_header, slice_subrange(header, 50, 18 + n * 32), &factor);
    append(&mut new_header, slice_subrange(o, LAYER_INFO_LEN, o.len()));
    assert(new_header@ =~= seq![1u8, (n_field - 1) as u8] + tag@ + blind_all(
        header@.subrange(50, 18 + n * 32),
        factor@,
    ) + o@.subrange(LAYER_INFO_LEN as int, o@.len() as int));
    Ok(
        ProcessOutcome::Relay {
            tag,
            k_fwd,
            k_bwd,
            next_id,
            next_addr: NodeAddr::V4 { ip, port },
            new_header,
        },
    )
}

/// Appends points of 32 bytes each, all multiplied with a factor.
fn blind_points(out: &mut Vec<u8>, points: &[u8], factor: &[u8; 32])
    ensures
        final(out)@ == old(out)@ + blind_all(points@, factor@),
{
    let ghost base = out@;
    let ghost all = points@;
    assert(points@.len() == points.len());
    let mut i: usize = 0;
    assert(all.subrange(0, all.len() as int) =~= all);
    while points.len() - i >= 32
        invariant
            points@ == all,
            all.len() == points.len(),
            i <= all.len(),
            out@ + blind_all(all.subrange(i as int, all.len() as int), factor@) == base
                + blind_all(all, factor@),
        decreases all.len() - i,
    {
        let ghost before = out@;
        let ghost rest = all.subrange(i as int, all.len() as int);
        let p: [u8; 32] = get_arr(points, i);
        let product = point_mul(&p, factor);
        append(out, &product);
        proof {
            assert(rest.subrange(0, 32) =~= p@);
            assert(rest.subrange(32, rest.len() as int) =~= all.subrange(i + 32, all.len() as int));
            assert(out@ + blind_all(all.subrange(i + 32, all.len() as int), factor@) =~= before
                + blind_all(rest, factor@));
        }
        i += 32;
    }
    assert(out@ + blind_all(all.subrange(i as int, all.len() as int), factor@) =~= out@);
}

impl Plan {
    /// The point of hop `j` as it stands in the header that hop `i` sees.
    pub open spec fn slot(self, i: nat, j: nat) -> Seq<u8> {
        montgomery_mul_base(eff_of(self.xs[j as int]@, self.blind(i)))
    }

    /// The points from hop `j` on as they stand in the header that hop `i` sees.
    pub open spec fn slots(self, i: nat, j: nat) -> Seq<u8>
        decreases self.xs.len() - j,
    {
        if j >= self.xs.len() {
            Seq::empty()
        } else {
            self.slot(i, j) + self.slots(i, j + 1)
        }
    }

    /// The header that hop `i` sees.
    pub open spec fn hop_header(self, i: nat) -> Seq<u8> {
        seq![1u8, (self.route.len() - i) as u8] + self.tag + self.slots(i, i) + self.layer(i)
    }

    /// The blinding factor of hop `i`.
    pub open spec fn factor(self, i: nat) -> Seq<u8> {
        factor_of(self.ss_x(i), self.slot(i, i))
    }

    /// What hop `i` finds in its header: its keys, and for the next hop, if
    /// there is one, its header.
    pub open spec fn finds(self, i: nat) -> Peeled {
        Peeled {
            tag: self.tag,
            k_fwd: fwd_key(self.ss_x(i), self.caps[i as int].1@, self.tag),
            k_bwd: bwd_key(self.ss_x(i), self.caps[i as int].1@, self.tag),
            next: if i + 1 < self.route.len() {
                let next = self.route[(i + 1) as int];
                Some(
                    Forward {
                        id: next.node_id@,
                        ip: next.cell_addr.octets(),
                        port: next.cell_addr.port_spec() as nat,
                        header: self.hop_header(i + 1),
                    },
                )
            } else {
                None
            },
        }
    }
}

/// The number that a scalar's bytes encode.
proof fn lemma_scalar_value(m: nat)
    ensures
        le_value(scalar_bytes(m)) == m % scalar_order(),
        scalar_bytes(m).len() == 32,
{
    assert(scalar_order() < pow256(32)) by {
        reveal_with_fuel(pow256, 33);
    }
    lemma_le_value_of_bytes(m % scalar_order(), 32);
}

/// A blinding factor, and a product of them, has 32 bytes.
proof fn lemma_factor_len(plan: Plan, i: nat)
    ensures
        plan.blind(i).len() == 32,
        plan.factor(i).len() == 32,
{
    lemma_scalar_value(le_value(sha256(plan.ss_x(i) + plan.slot(i, i))));
    if i == 0 {
        lemma_le_bytes_len(1, 32);
    } else {
        let j = (i - 1) as nat;
        lemma_scalar_value(le_value(plan.blind(j)) * le_value(plan.factor(j)));
    }
}

/// Blinding the point that hop `i` sees gives the point that the next hop sees.
proof fn lemma_slot_step(plan: Plan, i: nat, j: nat)
    requires
        plan.points_multiply(),
        j < plan.xs.len(),
    ensures
        montgomery_mul(plan.slot(i, j), plan.factor(i)) == plan.slot(i + 1, j),
        plan.slot(i, j).len() == 32,
{
    let x = plan.xs[j as int]@;
    let p = montgomery_mul_base(x);
    assert(base_multiple(p, x));
    lemma_factor_len(plan, i);
    lemma_factor_len(plan, i + 1);
    assert(montgomery_mul(p, plan.blind(i)) == plan.slot(i, j));
    assert(montgomery_mul(p, plan.blind(i + 1)) == plan.slot(i + 1, j));
    assert(plan.blind(i + 1) == scalar_bytes(le_value(plan.blind(i)) * le_value(plan.factor(i))));
}

/// The point that hop `i` sees, times its private key, is its public key times
/// its effective scalar.
proof fn lemma_agree(plan: Plan, i: nat, id: NodeIdentity)
    requires
        plan.points_multiply(),
        i < plan.xs.len(),
        id.wf(),
        id.sphinx_pub@ == plan.route[i as int].sphinx_pub@,
    ensures
        montgomery_mul(plan.slot(i, i), id.sphinx_priv@) == plan.ss_x(i),
{
    let x = plan.xs[i as int]@;
    let p = montgomery_mul_base(x);
    let (k, b) = (id.sphinx_priv@, plan.blind(i));
    let (xv, kv, bv) = (le_value(x) as int, le_value(k) as int, le_value(b) as int);
    let l = scalar_order() as int;
    assert(base_multiple(p, x));
    lemma_factor_len(plan, i);
    lemma_scalar_value(le_value(x) * le_value(b));
    lemma_scalar_value(le_value(b) * le_value(k));
    assert(montgomery_mul(p, b) == plan.slot(i, i));
    assert(montgomery_mul(plan.slot(i, i), k) == montgomery_mul(
        p,
        scalar_bytes(le_value(b) * le_value(k)),
    ));
    vstd::arithmetic::div_mod::lemma_mul_mod_noop_right(xv, bv * kv, l);
    vstd::arithmetic::div_mod::lemma_mul_mod_noop_right(kv, xv * bv, l);
    assert(xv * (bv * kv) == kv * (xv * bv)) by (nonlinear_arith);
}

/// Blinding all points that hop `i` sees gives those that the next hop sees.
proof fn lemma_slots_step(plan: Plan, i: nat, j: nat)
    requires
        plan.points_multiply(),
    ensures
        blind_all(plan.slots(i, j), plan.factor(i)) == plan.slots(i + 1, j),
        plan.slots(i, j).len() == if j < plan.xs.len() {
            32 * (plan.xs.len() - j)
        } else {
            0
        },
    decreases plan.xs.len() - j,
{
    if j < plan.xs.len() {
        lemma_slot_step(plan, i, j);
        lemma_slots_step(plan, i, j + 1);
        let s = plan.slots(i, j);
        assert(s.subrange(0, 32) =~= plan.slot(i, j));
        assert(s.subrange(32, s.len() as int) =~= plan.slots(i, j + 1));
    }
}

/// The first hop sees the points as they are.
proof fn lemma_slots_first(plan: Plan, j: nat)
    requires
        plan.reduced(),
    ensures
        plan.slots(0, j) == plan.points(j),
    decreases plan.xs.len() - j,
{
    if j < plan.xs.len() {
        lemma_slots_first(plan, j + 1);
        let x = plan.xs[j as int]@;
        assert(1 < pow256(32)) by {
            reveal_with_fuel(pow256, 33);
        }
        lemma_le_value_of_bytes(1, 32);
        assert(le_value(x) * 1 == le_value(x));
        lemma_le_bytes_of_value(x);
        vstd::arithmetic::div_mod::lemma_small_mod(le_value(x), scalar_order());
        assert(eff_of(x, plan.blind(0)) == x);
    }
}

/// The parts of the header that hop `i` sees.
proof fn lemma_hop_header(plan: Plan, i: nat)
    requires
        plan.wf(),
        plan.points_multiply(),
        i < plan.route.len(),
        plan.layer(i).len() == (plan.route.len() - i) * LAYER_LEN,
    ensures
        ({
            let n = plan.route.len() - i;
            let h = plan.hop_header(i);
            &&& header_shape(h)
            &&& h[1] == n
            &&& h.subrange(2, 18) == plan.tag
            &&& h.subrange(18, 50) == plan.slot(i, i)
            &&& h.subrange(50, 18 + n * 32) == plan.slots(i, i + 1)
            &&& h.subrange(18 + n * 32, h.len() as int) == plan.layer(i)
        }),
{
    let n = plan.route.len() - i;
    let h = plan.hop_header(i);
    let layer = plan.layer(i);
    lemma_slots_step(plan, i, i);
    lemma_slots_step(plan, i, i + 1);
    lemma_slot_step(plan, i, i);
    assert(h.len() == 18 + 32 * n + n * LAYER_LEN);
    assert(h[1] == n);
    assert(h.subrange(2, 18) =~= plan.tag);
    assert(h.subrange(18, 50) =~= plan.slot(i, i));
    assert(h.subrange(50, 18 + n * 32) =~= plan.slots(i, i + 1));
    assert(h.subrange(18 + n * 32, h.len() as int) =~= layer);
}

/// The parts of what the layer of hop `i` holds.
proof fn lemma_hop_info(plan: Plan, i: nat)
    requires
        plan.wf(),
        i < plan.route.len(),
    ensures
        ({
            let o = plan.info(i) + plan.layer(i + 1);
            &&& o.len() == LAYER_INFO_LEN + plan.layer(i + 1).len()
            &&& o.subrange(64, 64 + CT_LEN) == plan.caps[i as int].0@
            &&& o.subrange(LAYER_INFO_LEN as int, o.len() as int) == plan.layer(i + 1)
            &&& if i + 1 < plan.route.len() {
                let next = plan.route[(i + 1) as int];
                &&& o.subrange(0, 20) == next.node_id@
                &&& o.subrange(20, 24) == next.cell_addr.octets()
                &&& le_value(o.subrange(24, 26)) == next.cell_addr.port_spec()
            } else {
                o.subrange(0, 20) == TERMINAL_ID@
            }
        }),
{
    let o = plan.info(i) + plan.layer(i + 1);
    if i + 1 < plan.route.len() {
        let next = plan.route[(i + 1) as int];
        crate::bytes::lemma_pow256();
        lemma_le_value_of_bytes(next.cell_addr.port_spec() as nat, 2);
        assert(o.subrange(0, 20) =~= next.node_id@);
        assert(o.subrange(20, 24) =~= next.cell_addr.octets());
        assert(o.subrange(24, 26) =~= le_bytes(next.cell_addr.port_spec() as nat, 2));
    } else {
        assert(o.subrange(0, 20) =~= TERMINAL_ID@);
    }
    assert(plan.info(i).len() == LAYER_INFO_LEN);
    assert(o.subrange(64, 64 + CT_LEN) =~= plan.caps[i as int].0@);
    assert(o.subrange(LAYER_INFO_LEN as int, o.len() as int) =~= plan.layer(i + 1));
}

/// What hop `i` finds in the header that it sees.
#[verifier::spinoff_prover]
proof fn lemma_hop(plan: Plan, i: nat, id: NodeIdentity)
    requires
        plan.wf(),
        plan.layers_open(),
        plan.points_multiply(),
        i < plan.route.len(),
        id.wf(),
        id.sphinx_pub@ == plan.route[i as int].sphinx_pub@,
        mlkem_decapsulate(id.kem_sk@, plan.caps[i as int].0@) == plan.caps[i as int].1@,
        i + 1 < plan.route.len() ==> plan.route[(i + 1) as int].node_id@ != TERMINAL_ID@,
    ensures
        peel(id.sphinx_priv@, id.kem_sk@, plan.hop_header(i)) == Some(plan.finds(i)),
{
    reveal(peel);
    let n = plan.route.len() - i;
    assert(plan.layer_opens(i));
    lemma_hop_header(plan, i);
    lemma_hop_info(plan, i);
    lemma_agree(plan, i, id);
    lemma_slots_step(plan, i, i + 1);
    assert(plan.layer(i + 1).len() == (n - 1) * LAYER_LEN) by {
        if i + 1 < plan.route.len() {
            assert(plan.layer_opens(i + 1));
        } else {
            assert((n - 1) * LAYER_LEN == 0) by (nonlinear_arith)
                requires
                    n == 1,
            ;
        }
    }
}

impl Plan {
    /// The nodes along the route: they hold the keys of their descriptors, each
    /// decapsulates the secret that was meant for it, and none behind the first
    /// has the identifier that marks the end of a route.
    pub open spec fn followed_by(self, ids: Seq<NodeIdentity>) -> bool {
        &&& ids.len() == self.route.len()
        &&& forall|k: int|
            0 <= k < ids.len() ==> {
                &&& (#[trigger] ids[k]).wf()
                &&& ids[k].sphinx_pub@ == self.route[k].sphinx_pub@
                &&& mlkem_decapsulate(ids[k].kem_sk@, self.caps[k].0@) == self.caps[k].1@
                &&& k > 0 ==> self.route[k].node_id@ != TERMINAL_ID@
            }
    }
}

/// The header that reaches hop `i` where each hop before it processes what it
/// gets and hands on what it finds.
pub open spec fn header_at(ids: Seq<NodeIdentity>, header: Seq<u8>, i: nat) -> Option<Seq<u8>>
    decreases i,
{
    if i == 0 {
        Some(header)
    } else {
        let hop = ids[i - 1];
        match header_at(ids, header, (i - 1) as nat) {
            None => None,
            Some(h) => match peel(hop.sphinx_priv@, hop.kem_sk@, h) {
                None => None,
                Some(p) => match p.next {
                    None => None,
                    Some(f) => Some(f.header),
                },
            },
        }
    }
}

/// A built header goes along its route. A header reaches each hop, the hop finds
/// its keys in it, those that the maker kept, and the next hop's identifier and
/// address, and only the last hop finds that it is the last.
pub proof fn law_route(plan: Plan, b: BuiltHeader, ids: Seq<NodeIdentity>, i: nat)
    requires
        plan.wf(),
        plan.reduced(),
        plan.layers_open(),
        plan.points_multiply(),
        plan.built(b),
        plan.followed_by(ids),
        i < plan.route.len(),
    ensures
        header_at(ids, b.header@, i) is Some,
        ({
            let found = peel(
                ids[i as int].sphinx_priv@,
                ids[i as int].kem_sk@,
                header_at(ids, b.header@, i)->0,
            );
            &&& found is Some
            &&& found->0.tag == b.tag@
            &&& found->0.k_fwd == b.fwd_keys@[i as int]@
            &&& found->0.k_bwd == b.bwd_keys@[i as int]@
            &&& found->0.next is Some <==> i + 1 < plan.route.len()
            &&& found->0.next matches Some(f) ==> {
                let next = plan.route[(i + 1) as int];
                &&& f.id == next.node_id@
                &&& f.ip == next.cell_addr.octets()
                &&& f.port == next.cell_addr.port_spec()
            }
        }),
{
    lemma_header_at(plan, b, ids, i);
    let hop = ids[i as int];
    if i + 1 < plan.route.len() {
        let next = ids[(i + 1) as int];
        assert(plan.route[(i + 1) as int].node_id@ != TERMINAL_ID@);
    }
    lemma_hop(plan, i, hop);
}

/// The header that reaches hop `i` is the one that the plan has for it.
proof fn lemma_header_at(plan: Plan, b: BuiltHeader, ids: Seq<NodeIdentity>, i: nat)
    requires
        plan.wf(),
        plan.reduced(),
        plan.layers_open(),
        plan.points_multiply(),
        plan.built(b),
        plan.followed_by(ids),
        i < plan.route.len(),
    ensures
        header_at(ids, b.header@, i) == Some(plan.hop_header(i)),
    decreases i,
{
    if i == 0 {
        lemma_slots_first(plan, 0);
    } else {
        let j = (i - 1) as nat;
        lemma_header_at(plan, b, ids, j);
        let hop = ids[j as int];
        let next = ids[i as int];
        lemma_hop(plan, j, hop);
    }
}

/// The layer of a hop, where it opens, tells the hop the next one's identifier,
/// address and link key, or that there is none, then the KEM ciphertext that is
/// meant for the hop. Behind that lie the layers of the hops to come.
pub proof fn law_layer_tells(plan: Plan, i: nat)
    requires
        plan.wf(),
        plan.layers_open(),
        i < plan.route.len(),
    ensures
        ({
            let n = plan.route.len() - i;
            let o = opened(
                hdr_key(plan.ss_x(i), plan.tag),
                hdr_nonce_spec(plan.tag, n as u8),
                plan.layer(i),
            )->0;
            &&& plan.layer(i).len() == 1168 * n
            &&& o.len() == 1168 * n - 16
            &&& o.subrange(64, 1152) == plan.caps[i as int].0@
            &&& o.subrange(1152, o.len() as int) == plan.layer(i + 1)
            &&& if n > 1 {
                let next = plan.route[(i + 1) as int];
                &&& o.subrange(0, 20) == next.node_id@
                &&& next.cell_addr matches NodeAddr::V4 { ip, .. } ==> o.subrange(20, 24) == ip@
                &&& next.cell_addr is V6 ==> forall|k: int| 20 <= k < 24 ==> #[trigger] o[k] == 0
                &&& le_value(o.subrange(24, 26)) == next.cell_addr.port_spec()
                &&& o.subrange(26, 58) == next.link_pub@
                &&& forall|k: int| 58 <= k < 64 ==> #[trigger] o[k] == 0
            } else {
                &&& o.subrange(0, 20) == TERMINAL_ID@
                &&& forall|k: int| 20 <= k < 64 ==> #[trigger] o[k] == 0
            }
        }),
{
    let n = plan.route.len() - i;
    let o = plan.info(i) + plan.layer(i + 1);
    assert(plan.layer_opens(i));
    assert(n * LAYER_LEN == 1168 * n) by (nonlinear_arith)
        requires
            LAYER_LEN == 1168,
    ;
    lemma_hop_info(plan, i);
    assert(plan.layer(i + 1).len() == 1168 * (n - 1)) by {
        if n > 1 {
            assert(plan.layer_opens(i + 1));
            assert((n - 1) * LAYER_LEN == 1168 * (n - 1)) by (nonlinear_arith)
                requires
                    LAYER_LEN == 1168,
            ;
        }
    }
    if n > 1 {
        let next = plan.route[(i + 1) as int];
        lemma_le_bytes_len(next.cell_addr.port_spec() as nat, 2);
        assert(o.subrange(26, 58) =~= next.link_pub@);
        if next.cell_addr is V6 {
            assert forall|k: int| 20 <= k < 24 implies #[trigger] o[k] == 0 by {
                assert(o.subrange(20, 24)[k - 20] == o[k]);
            }
        }
    }
}

/// The points from hop `j` on lie side by side.
proof fn lemma_points(plan: Plan, j: nat, k: nat)
    requires
        plan.points_multiply(),
        plan.reduced(),
        j <= k < plan.xs.len(),
    ensures
        plan.points(j).len() == 32 * (plan.xs.len() - j),
        plan.points(j).subrange(32 * (k - j), 32 * (k - j) + 32) == montgomery_mul_base(
            plan.xs[k as int]@,
        ),
    decreases plan.xs.len() - j,
{
    lemma_slots_first(plan, j);
    lemma_slots_step(plan, 0, j);
    let p = plan.points(j);
    let first = montgomery_mul_base(plan.xs[j as int]@);
    let rest = plan.points(j + 1);
    lemma_slots_first(plan, j + 1);
    lemma_slots_step(plan, 0, j + 1);
    assert(p == first + rest);
    if k == j {
        assert(p.subrange(0, 32) =~= first);
    } else {
        lemma_points(plan, j + 1, k);
        assert(p.subrange(32 * (k - j), 32 * (k - j) + 32) =~= rest.subrange(
            32 * (k - (j + 1)),
            32 * (k - (j + 1)) + 32,
        ));
    }
}

/// Where everything stands in a header: the version, the number of hops, the
/// tag, a point for each hop, the base point times the hop's scalar, and then the
/// layers. The first hop's layer opens under the key that its public key and
/// its scalar give.
pub proof fn law_header_layout(plan: Plan, b: BuiltHeader, j: int)
    requires
        plan.wf(),
        plan.reduced(),
        plan.layers_open(),
        plan.points_multiply(),
        plan.built(b),
        0 <= j < plan.route.len(),
    ensures
        ({
            let n = plan.route.len() as int;
            let h = b.header@;
            let ss = montgomery_mul(plan.route[0].sphinx_pub@, plan.xs[0]@);
            &&& h.len() == 18 + 1200 * n
            &&& h[0] == 1
            &&& h[1] == n
            &&& h.subrange(2, 18) == b.tag@
            &&& b.tag@ == plan.tag
            &&& h.subrange(18 + 32 * j, 50 + 32 * j) == montgomery_mul_base(plan.xs[j]@)
            &&& opened(
                hdr_key(ss, plan.tag),
                hdr_nonce_spec(plan.tag, n as u8),
                h.subrange(18 + 32 * n, h.len() as int),
            ) is Some
            &&& b.fwd_keys@[0]@ == fwd_key(ss, plan.caps[0].1@, plan.tag)
            &&& b.bwd_keys@[0]@ == bwd_key(ss, plan.caps[0].1@, plan.tag)
            &&& b.first_addr == plan.route[0].cell_addr
        }),
{
    let n = plan.route.len() as int;
    let h = b.header@;
    lemma_points(plan, 0, j as nat);
    assert(plan.layer_opens(0));
    assert(n * LAYER_LEN == 1168 * n) by (nonlinear_arith)
        requires
            LAYER_LEN == 1168,
    ;
    lemma_slots_first(plan, 0);
    let x = plan.xs[0]@;
    assert(1 < pow256(32)) by {
        reveal_with_fuel(pow256, 33);
    }
    lemma_le_value_of_bytes(1, 32);
    assert(le_value(x) * 1 == le_value(x));
    lemma_le_bytes_of_value(x);
    vstd::arithmetic::div_mod::lemma_small_mod(le_value(x), scalar_order());
    assert(plan.eff(0) == x);
    assert(h.subrange(2, 18) =~= plan.tag);
    assert(h.subrange(18 + 32 * j, 50 + 32 * j) =~= plan.points(0).subrange(
        32 * (j - 0),
        32 * (j - 0) + 32,
    ));
    assert(h.subrange(18 + 32 * n, h.len() as int) =~= plan.layer(0));
}

/// Point `j` of those that were multiplied with a factor.
proof fn lemma_blind_at(points: Seq<u8>, factor: Seq<u8>, n: nat, j: int)
    requires
        points.len() == 32 * n,
        0 <= j < n,
        forall|k: int|
            0 <= k < n ==> (#[trigger] montgomery_mul(points.subrange(32 * k, 32 * k + 32), factor)).len()
                == 32,
    ensures
        blind_all(points, factor).len() == 32 * n,
        blind_all(points, factor).subrange(32 * j, 32 * j + 32) == montgomery_mul(
            points.subrange(32 * j, 32 * j + 32),
            factor,
        ),
    decreases n,
{
    let rest = points.subrange(32, points.len() as int);
    let first = points.subrange(0, 32);
    let m = (n - 1) as nat;
    assert(montgomery_mul(points.subrange(32 * 0int, 32 * 0int + 32), factor).len() == 32);
    assert forall|k: int| 0 <= k < m implies (#[trigger] montgomery_mul(
        rest.subrange(32 * k, 32 * k + 32),
        factor,
    )).len() == 32 by {
        assert(rest.subrange(32 * k, 32 * k + 32) =~= points.subrange(
            32 * (k + 1),
            32 * (k + 1) + 32,
        ));
    }
    let all = blind_all(points, factor);
    if n > 1 {
        lemma_blind_at(rest, factor, m, if j > 0 {
            j - 1
        } else {
            0
        });
    } else {
        assert(blind_all(rest, factor).len() == 0);
    }
    if j == 0 {
        assert(all.subrange(0, 32) =~= montgomery_mul(first, factor));
    } else {
        assert(rest.subrange(32 * (j - 1), 32 * (j - 1) + 32) =~= points.subrange(
            32 * j,
            32 * j + 32,
        ));
        assert(all.subrange(32 * j, 32 * j + 32) =~= blind_all(rest, factor).subrange(
            32 * (j - 1),
            32 * (j - 1) + 32,
        ));
    }
}

/// What a hop finds follows from the header and its own keys alone. The header
/// has the version, at least one hop to go, and the length for that number. Its
/// first point times the hop's private key opens the layers behind the points,
/// and gives, with the secret that the KEM ciphertext holds, the keys for traffic.
pub proof fn law_hop_finds(sphinx_priv: Seq<u8>, kem_sk: Seq<u8>, h: Seq<u8>)
    ensures
        peel(sphinx_priv, kem_sk, h) matches Some(p) ==> {
            let n = h[1];
            let tag = h.subrange(2, 18);
            let ss = montgomery_mul(h.subrange(18, 50), sphinx_priv);
            let open = opened(
                hdr_key(ss, tag),
                hdr_nonce_spec(tag, n),
                h.subrange(18 + 32 * n, h.len() as int),
            );
            &&& h[0] == 1
            &&& n > 0
            &&& h.len() == 18 + 1200 * n
            &&& open matches Some(o) && o.len() == 1168 * n - 16 && {
                let kem = mlkem_decapsulate(kem_sk, o.subrange(64, 1152));
                &&& p.tag == tag
                &&& p.k_fwd == fwd_key(ss, kem, tag)
                &&& p.k_bwd == bwd_key(ss, kem, tag)
                &&& p.next is None <==> o.subrange(0, 20) == TERMINAL_ID@
            }
        },
        peel(sphinx_priv, kem_sk, h) is None ==> h.len() < 18 || h[0] != 1 || h[1] == 0 || h.len()
            != 18 + 1200 * h[1] || {
            let n = h[1];
            let tag = h.subrange(2, 18);
            let ss = montgomery_mul(h.subrange(18, 50), sphinx_priv);
            let open = opened(
                hdr_key(ss, tag),
                hdr_nonce_spec(tag, n),
                h.subrange(18 + 32 * n, h.len() as int),
            );
            open is None || open->0.len() != 1168 * n - 16
        },
{
    reveal(peel);
    let n = h[1];
    assert(n * LAYER_LEN == 1168 * n) by (nonlinear_arith)
        requires
            LAYER_LEN == 1168,
    ;
    assert((n - 1) * LAYER_LEN == 1168 * n - 1168) by (nonlinear_arith)
        requires
            LAYER_LEN == 1168,
    ;
    assert(CT_LEN == 1088);
    assert(h.subrange(18 + n * 32, h.len() as int) == h.subrange(18 + 32 * n, h.len() as int));
}

/// What a hop hands on: a header with the same version and tag and one hop less
/// to go, which goes to whom the layer names. Point `j` of it is the point behind
/// the hop's own `j + 1`, times the hop's blinding factor, and the layers are
/// those inside the hop's own.
pub proof fn law_hop_hands_on(sphinx_priv: Seq<u8>, kem_sk: Seq<u8>, h: Seq<u8>, j: int)
    requires
        peel(sphinx_priv, kem_sk, h) is Some,
        peel(sphinx_priv, kem_sk, h)->0.next is Some,
        forall|k: int|
            0 <= k < h[1] - 1 ==> (#[trigger] montgomery_mul(
                h.subrange(50 + 32 * k, 82 + 32 * k),
                factor_of(montgomery_mul(h.subrange(18, 50), sphinx_priv), h.subrange(18, 50)),
            )).len() == 32,
    ensures
        ({
            let n = h[1];
            let tag = h.subrange(2, 18);
            let alpha = h.subrange(18, 50);
            let ss = montgomery_mul(alpha, sphinx_priv);
            let o = opened(
                hdr_key(ss, tag),
                hdr_nonce_spec(tag, n),
                h.subrange(18 + 32 * n, h.len() as int),
            )->0;
            let f = peel(sphinx_priv, kem_sk, h)->0.next->0;
            let factor = scalar_bytes(le_value(sha256(ss + alpha)));
            &&& f.id == o.subrange(0, 20)
            &&& f.ip == o.subrange(20, 24)
            &&& f.port == le_value(o.subrange(24, 26))
            &&& f.header.len() == h.len() - 1200
            &&& f.header[0] == 1
            &&& f.header[1] == n - 1
            &&& f.header.subrange(2, 18) == tag
            &&& 0 <= j < n - 1 ==> f.header.subrange(18 + 32 * j, 50 + 32 * j) == montgomery_mul(
                h.subrange(50 + 32 * j, 82 + 32 * j),
                factor,
            )
            &&& f.header.subrange(18 + 32 * (n - 1), f.header.len() as int) == o.subrange(
                1152,
                o.len() as int,
            )
        }),
{
    reveal(peel);
    let n = h[1];
    let tag = h.subrange(2, 18);
    let alpha = h.subrange(18, 50);
    let ss = montgomery_mul(alpha, sphinx_priv);
    assert(n * LAYER_LEN == 1168 * n) by (nonlinear_arith)
        requires
            LAYER_LEN == 1168,
    ;
    assert((n - 1) * LAYER_LEN == 1168 * n - 1168) by (nonlinear_arith)
        requires
            LAYER_LEN == 1168,
    ;
    let o = opened(
        hdr_key(ss, tag),
        hdr_nonce_spec(tag, n),
        h.subrange(18 + 32 * n, h.len() as int),
    )->0;
    let factor = factor_of(ss, alpha);
    let points = h.subrange(50, 18 + n * 32);
    assert forall|k: int| 0 <= k < n - 1 implies (#[trigger] montgomery_mul(
        points.subrange(32 * k, 32 * k + 32),
        factor,
    )).len() == 32 by {
        assert(points.subrange(32 * k, 32 * k + 32) =~= h.subrange(50 + 32 * k, 82 + 32 * k));
    }
    if n > 1 {
        lemma_blind_at(
            points,
            factor,
            (n - 1) as nat,
            if 0 <= j < n - 1 {
                j
            } else {
                0
            },
        );
    }
    let blinded = blind_all(points, factor);
    let f = peel(sphinx_priv, kem_sk, h)->0.next->0;
    assert(f.header == seq![1u8, (n - 1) as u8] + tag + blinded + o.subrange(
        1152,
        o.len() as int,
    ));
    assert(f.header.subrange(2, 18) =~= tag);
    if 0 <= j < n - 1 {
        assert(points.subrange(32 * j, 32 * j + 32) =~= h.subrange(50 + 32 * j, 82 + 32 * j));
        assert(f.header.subrange(18 + 32 * j, 50 + 32 * j) =~= blinded.subrange(
            32 * j,
            32 * j + 32,
        ));
    }
    assert(f.header.subrange(18 + 32 * (n - 1), f.header.len() as int) =~= o.subrange(
        1152,
        o.len() as int,
    ));
}

/// Each hop's encapsulation is to the hop's own public key.
pub proof fn law_encapsulated_to_hop(plan: Plan, i: int)
    requires
        plan.wf(),
        plan.encapsulated(),
        0 <= i < plan.route.len(),
    ensures
        exists|seed: [u8; 32]|
            (plan.caps[i].0@, plan.caps[i].1@) == #[trigger] mlkem_encapsulate(
                plan.route[i].kem_pk@,
                seed@,
            ),
{
    assert(is_encapsulation(plan.route[i].kem_pk@, plan.caps[i]));
}

/// What a hop is taken to have found is what it found.
pub proof fn law_outcome_shown(o: ProcessOutcome)
    ensures
        match o {
            ProcessOutcome::Terminal { tag, k_fwd, k_bwd } => {
                &&& (o@.tag, o@.k_fwd, o@.k_bwd) == (tag@, k_fwd@, k_bwd@)
                &&& o@.next is None
            },
            ProcessOutcome::Relay { tag, k_fwd, k_bwd, next_id, next_addr, new_header } => {
                &&& (o@.tag, o@.k_fwd, o@.k_bwd) == (tag@, k_fwd@, k_bwd@)
                &&& o@.next matches Some(f) && f.id == next_id@ && f.header == new_header@ && f.port
                    == next_addr.port_spec() && (next_addr matches NodeAddr::V4 { ip, .. } ==> f.ip
                    == ip@)
            },
        },
{
}

} // verus!
