//! What the command line needs: identifiers as text, routes, and the nodes of a
//! demonstration.

use crate::bytes::{arr_eq, copy_arr};
use crate::error::HexError;
use crate::node::{CoverCfg, NodeConfig};
use crate::primitives::{draw_range, hex_decode, hex_digit, hex_encode, hex_value};
use crate::{NodeAddr, NodeId};
use rand::rngs::StdRng;
use vstd::prelude::*;

verus! {

/// Why a text is no identifier.
#[derive(Debug, PartialEq, Eq)]
pub enum TargetError {
    /// It is not hexadecimal.
    Hex(HexError),
    /// It has another number of bytes.
    Length(usize),
}

/// The byte that two hexadecimal digits stand for.
pub open spec fn hex_byte(text: Seq<u8>, i: int) -> int {
    16 * hex_value(text[2 * i])->0 + hex_value(text[2 * i + 1])->0
}

/// Each character is a hexadecimal digit.
pub open spec fn all_hex(text: Seq<u8>) -> bool {
    forall|i: int| 0 <= i < text.len() ==> hex_value(#[trigger] text[i]) is Some
}

/// Reads an identifier from forty hexadecimal digits.
pub fn parse_target(text: &[u8]) -> (r: Result<NodeId, TargetError>)
    ensures
        match r {
            Ok(id) => {
                &&& text@.len() == 40
                &&& all_hex(text@)
                &&& forall|i: int| 0 <= i < 20 ==> #[trigger] id@[i] == hex_byte(text@, i)
            },
            Err(TargetError::Length(n)) => text@.len() == 2 * n && n != 20 && all_hex(text@),
            Err(TargetError::Hex(e)) => match e {
                HexError::OddLength => text@.len() % 2 == 1,
                HexError::Character { c, index } => {
                    &&& text@.len() % 2 == 0
                    &&& index < text@.len()
                    &&& c == text@[index as int] as char
                    &&& hex_value(text@[index as int]) is None
                    &&& forall|i: int| 0 <= i < index ==> hex_value(#[trigger] text@[i]) is Some
                },
                HexError::StringLength => false,
            },
        },
{
    let bytes = match hex_decode(text) {
        Ok(bytes) => bytes,
        Err(e) => {
            return Err(TargetError::Hex(e));
        },
    };
    assert(all_hex(text@)) by {
        assert forall|i: int| 0 <= i < text@.len() implies hex_value(#[trigger] text@[i]) is Some by {
            let b = bytes@[i / 2];
            assert(i == 2 * (i / 2) || i == 2 * (i / 2) + 1);
        }
    }
    if bytes.len() != 20 {
        return Err(TargetError::Length(bytes.len()));
    }
    let id: NodeId = copy_arr(bytes.as_slice());
    Ok(id)
}

/// An identifier as hexadecimal digits.
pub open spec fn id_digits(id: Seq<u8>) -> Seq<char> {
    Seq::new(
        2 * id.len(),
        |i: int|
            if i % 2 == 0 {
                hex_digit(id[i / 2] / 16)
            } else {
                hex_digit(id[i / 2] % 16)
            },
    )
}

/// An identifier as text.
pub fn id_text(id: &NodeId) -> (text: String)
    ensures
        text@ == id_digits(id@),
{
    let text = hex_encode(id);
    assert(text@ =~= id_digits(id@));
    text
}

/// Forty digits that stand for an identifier are read as it: `bytes` are the
/// characters of the text that an identifier is written as.
pub proof fn law_id_text_roundtrip(id: NodeId, bytes: Seq<u8>)
    requires
        bytes.len() == 40,
        forall|i: int| 0 <= i < 40 ==> (#[trigger] bytes[i]) as char == id_digits(id@)[i],
    ensures
        all_hex(bytes),
        forall|i: int| 0 <= i < 20 ==> hex_byte(bytes, i) == #[trigger] id@[i],
{
    assert forall|i: int| 0 <= i < 40 implies hex_value(#[trigger] bytes[i]) == Some(
        if i % 2 == 0 {
            (id@[i / 2] / 16) as u8
        } else {
            (id@[i / 2] % 16) as u8
        },
    ) by {
        assert(bytes[i] as char == id_digits(id@)[i]);
    }
    assert forall|i: int| 0 <= i < 20 implies hex_byte(bytes, i) == #[trigger] id@[i] by {
        assert(hex_value(bytes[2 * i]) == Some((id@[i] / 16) as u8));
        assert(hex_value(bytes[2 * i + 1]) == Some((id@[i] % 16) as u8));
    }
}

/// The identifiers of peers but for one.
pub open spec fn pool_of(peers: Seq<(NodeId, NodeAddr, [u8; 32])>, target: NodeId) -> Seq<NodeId>
    decreases peers.len(),
{
    if peers.len() == 0 {
        Seq::empty()
    } else {
        let init = pool_of(peers.drop_last(), target);
        if peers.last().0 == target {
            init
        } else {
            init.push(peers.last().0)
        }
    }
}

/// The identifiers of peers but for one.
pub fn pool(peers: &[(NodeId, NodeAddr, [u8; 32])], target: &NodeId) -> (ids: Vec<NodeId>)
    ensures
        ids@ == pool_of(peers@, *target),
{
    let mut ids: Vec<NodeId> = Vec::new();
    let mut i: usize = 0;
    assert(peers@.take(0).len() == 0);
    while i < peers.len()
        invariant
            i <= peers@.len(),
            ids@ == pool_of(peers@.take(i as int), *target),
        decreases peers@.len() - i,
    {
        assert(peers@.take(i + 1).drop_last() =~= peers@.take(i as int));
        if !arr_eq(&peers[i].0, target) {
            ids.push(peers[i].0);
        }
        i += 1;
    }
    assert(peers@.take(i as int) =~= peers@);
    ids
}

/// How many hops are picked for a route.
pub const PICKED_HOPS: usize = 3;

/// A route to a node over three others that are picked at random, each once.
/// There is none where fewer than three others are known; their number is then
/// given.
pub fn pick_route(
    peers: &[(NodeId, NodeAddr, [u8; 32])],
    target: &NodeId,
    rng: &mut StdRng,
) -> (r: Result<Vec<NodeId>, usize>)
    ensures
        ({
            let ids = pool_of(peers@, *target);
            match r {
                Ok(route) => {
                    &&& ids.len() >= PICKED_HOPS
                    &&& route@.len() == PICKED_HOPS + 1
                    &&& route@[PICKED_HOPS as int] == *target
                    &&& exists|a: int, b: int, c: int|
                        {
                            &&& 0 <= a < ids.len()
                            &&& 0 <= b < ids.len()
                            &&& 0 <= c < ids.len()
                            &&& a != b
                            &&& b != c
                            &&& a != c
                            &&& route@[0] == #[trigger] ids[a]
                            &&& route@[1] == #[trigger] ids[b]
                            &&& route@[2] == #[trigger] ids[c]
                        }
                },
                Err(n) => ids.len() < PICKED_HOPS && n == ids.len(),
            }
        }),
{
    let mut left = pool(peers, target);
    let ghost ids = left@;
    if left.len() < PICKED_HOPS {
        return Err(left.len());
    }
    let i: usize = draw_range(rng, 0, (left.len() - 1) as u64) as usize;
    let first = left.remove(i);
    let j: usize = draw_range(rng, 0, (left.len() - 1) as u64) as usize;
    let second = left.remove(j);
    let k: usize = draw_range(rng, 0, (left.len() - 1) as u64) as usize;
    let third = left.remove(k);
    proof {
        let a = i as int;
        let b = if j < i {
            j as int
        } else {
            j + 1
        };
        let one = ids.remove(a);
        assert(one[j as int] == ids[b]);
        let two = one.remove(j as int);
        let m = if k < j {
            k as int
        } else {
            k + 1
        };
        assert(two[k as int] == one[m]);
        let c = if m < i {
            m
        } else {
            m + 1
        };
        assert(one[m] == ids[c]);
        assert(first == ids[a] && second == ids[b] && third == ids[c]);
    }
    let mut route: Vec<NodeId> = Vec::with_capacity(4);
    route.push(first);
    route.push(second);
    route.push(third);
    route.push(*target);
    Ok(route)
}

/// The first port of the demonstration.
pub const DEMO_PORT: u16 = 12000;

/// How node `i` of the demonstration is set up. All but the first know the first
/// one.
pub fn demo_config(i: u16, on: bool) -> (c: NodeConfig)
    requires
        DEMO_PORT + i * 2 + 1 <= u16::MAX,
    ensures
        c.cell_port == DEMO_PORT + i * 2,
        c.dht_port == DEMO_PORT + i * 2 + 1,
        c.seeds@.len() == if i == 0 {
            0int
        } else {
            1
        },
        i != 0 ==> c.seeds@[0]@ == "127.0.0.1:12001"@,
        c.cover == (CoverCfg { on, min_interval_ms: 500, max_interval_ms: 2000 }),
        c.rng_seed is None,
{
    let mut seeds: Vec<String> = Vec::new();
    if i != 0 {
        seeds.push("127.0.0.1:12001".to_string());
    }
    NodeConfig {
        cell_port: DEMO_PORT + i * 2,
        dht_port: DEMO_PORT + i * 2 + 1,
        seeds,
        cover: CoverCfg { on, min_interval_ms: 500, max_interval_ms: 2000 },
        rng_seed: None,
    }
}

/// Who can be picked for a route are the peers but for the target, and nobody
/// else.
pub proof fn law_pool(peers: Seq<(NodeId, NodeAddr, [u8; 32])>, target: NodeId, id: NodeId)
    ensures
        pool_of(peers, target).contains(id) <==> id != target && exists|i: int|
            0 <= i < peers.len() && (#[trigger] peers[i]).0 == id,
    decreases peers.len(),
{
    let all = pool_of(peers, target);
    if peers.len() > 0 {
        let init = peers.drop_last();
        let before = pool_of(init, target);
        law_pool(init, target, id);
        if before.contains(id) {
            let j = choose|j: int| 0 <= j < before.len() && before[j] == id;
            assert(all[j] == id);
            let i = choose|i: int| 0 <= i < init.len() && (#[trigger] init[i]).0 == id;
            assert(peers[i].0 == id);
        }
        if all.contains(id) && !before.contains(id) {
            let j = choose|j: int| 0 <= j < all.len() && all[j] == id;
            if j < before.len() {
                assert(before[j] == id);
            }
            assert(peers[peers.len() - 1].0 == id);
        }
        if id != target && exists|i: int| 0 <= i < peers.len() && (#[trigger] peers[i]).0 == id {
            let i = choose|i: int| 0 <= i < peers.len() && (#[trigger] peers[i]).0 == id;
            if i < init.len() {
                assert(init[i].0 == id);
            } else {
                assert(all[all.len() - 1] == id);
            }
        }
    }
}

/// Where no peer is listed twice, nobody can be picked twice.
pub proof fn law_pool_once(peers: Seq<(NodeId, NodeAddr, [u8; 32])>, target: NodeId)
    requires
        forall|i: int, j: int|
            0 <= i < j < peers.len() ==> (#[trigger] peers[i]).0 != (#[trigger] peers[j]).0,
    ensures
        pool_of(peers, target).no_duplicates(),
    decreases peers.len(),
{
    let all = pool_of(peers, target);
    if peers.len() > 0 {
        let init = peers.drop_last();
        let before = pool_of(init, target);
        assert forall|i: int, j: int| 0 <= i < j < init.len() implies (#[trigger] init[i]).0 != (
        #[trigger] init[j]).0 by {
            assert(peers[i].0 != peers[j].0);
        }
        law_pool_once(init, target);
        let last = peers.last().0;
        assert(!before.contains(last)) by {
            law_pool(init, target, last);
            if before.contains(last) {
                let i = choose|i: int| 0 <= i < init.len() && (#[trigger] init[i]).0 == last;
                assert(peers[i].0 != peers[peers.len() - 1].0);
            }
        }
    }
}

/// Who can be picked for a route stands in the order of the peers: those of two
/// lists, one behind the other, are those of the first and then those of the
/// second.
pub proof fn law_pool_order(
    a: Seq<(NodeId, NodeAddr, [u8; 32])>,
    b: Seq<(NodeId, NodeAddr, [u8; 32])>,
    target: NodeId,
)
    ensures
        pool_of(a + b, target) == pool_of(a, target) + pool_of(b, target),
    decreases b.len(),
{
    if b.len() > 0 {
        let init = b.drop_last();
        law_pool_order(a, init, target);
        assert((a + b).drop_last() =~= a + init);
        assert((a + b).last() == b.last());
        assert(pool_of(a + b, target) =~= pool_of(a, target) + pool_of(b, target));
    } else {
        assert(a + b =~= a);
        assert(pool_of(a, target) + pool_of(b, target) =~= pool_of(a, target));
    }
}

} // verus!
