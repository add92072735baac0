//! Which circuit of a node a cell belongs to.
//!
//! A circuit has a number on each link. A node keeps it under the number that
//! the hop before gave it; the hop behind answers under the number that the node
//! gave it.

use crate::addr::{addr_eq, AddrView};
use crate::node::{circuit_views, CircuitEntry, CircuitView, HopView};
use crate::NodeAddr;
use std::collections::HashMap;
use vstd::prelude::*;
use vstd::std_specs::iter::IteratorSpec;

verus! {

/// A circuit passes through to a neighbour, under the neighbour's number.
pub open spec fn leads_to(e: CircuitView, hop: HopView) -> bool {
    e matches CircuitView::Relay { next, .. } && next == hop
}

/// A circuit is the one that leads to a neighbour. Where there are several, it
/// is the one with the lowest number.
pub open spec fn is_behind(circuits: Map<u32, CircuitView>, hop: HopView, k: u32) -> bool {
    &&& circuits.contains_key(k)
    &&& leads_to(circuits[k], hop)
    &&& forall|j: u32| #[trigger]
        circuits.contains_key(j) && leads_to(circuits[j], hop) ==> k <= j
}

/// The circuit that leads to a neighbour, if there is one.
pub open spec fn behind(circuits: Map<u32, CircuitView>, hop: HopView) -> Option<u32> {
    if exists|k: u32| is_behind(circuits, hop, k) {
        Some(choose|k: u32| is_behind(circuits, hop, k))
    } else {
        None
    }
}

/// The circuit that a cell from a neighbour belongs to: the one under the cell's
/// number, or else the one that leads to the neighbour under that number.
pub open spec fn circuit_of(circuits: Map<u32, CircuitView>, cid: u32, from: AddrView) -> Option<
    u32,
> {
    if circuits.contains_key(cid) {
        Some(cid)
    } else {
        behind(circuits, HopView { cid, peer: from })
    }
}

/// The circuit that leads to a neighbour is the only one with the lowest number.
pub(crate) proof fn lemma_behind(circuits: Map<u32, CircuitView>, hop: HopView, k: u32)
    requires
        is_behind(circuits, hop, k),
    ensures
        behind(circuits, hop) == Some(k),
{
    let j = choose|j: u32| is_behind(circuits, hop, j);
    assert(is_behind(circuits, hop, j));
    assert(circuits.contains_key(j) && circuits.contains_key(k));
}

/// Whether a circuit passes through to a neighbour, under the neighbour's number.
fn entry_leads_to(e: &CircuitEntry, cid: u32, from: &NodeAddr) -> (r: bool)
    ensures
        r == leads_to(e@, HopView { cid, peer: from@ }),
{
    match e {
        CircuitEntry::Relay { next, .. } => next.cid == cid && addr_eq(&next.peer, from),
        _ => false,
    }
}

/// The circuit that leads to a neighbour, if there is one.
pub(crate) fn find_behind(circuits: &HashMap<u32, CircuitEntry>, cid: u32, from: &NodeAddr) -> (r:
    Option<u32>)
    ensures
        r == behind(circuit_views(circuits@), HopView { cid, peer: from@ }),
        r matches Some(k) ==> is_behind(
            circuit_views(circuits@),
            HopView { cid, peer: from@ },
            k,
        ),
{
    broadcast use vstd::std_specs::hash::group_hash_axioms;

    let ghost hop = HopView { cid, peer: from@ };
    let ghost views = circuit_views(circuits@);
    let ghost all = vstd::std_specs::hash::spec_hash_map_iter(circuits).remaining();
    let mut best: Option<u32> = None;
    for kv in it: circuits.iter()
        invariant
            hop == (HopView { cid, peer: from@ }),
            all == it.seq(),
            forall|k: u32| #[trigger]
                circuits@.contains_key(k) ==> all.contains((&k, &circuits@[k])),
            forall|j: int|
                0 <= j < it.seq().len() ==> circuits@.contains_key(*(#[trigger] it.seq()[j]).0)
                    && circuits@[*it.seq()[j].0] == *it.seq()[j].1,
            best matches Some(k) ==> circuits@.contains_key(k) && leads_to(circuits@[k]@, hop),
            forall|j: int|
                0 <= j < it.index() && leads_to((#[trigger] it.seq()[j]).1@, hop) ==> best is Some
                    && best->0 <= *it.seq()[j].0,
    {
        if entry_leads_to(kv.1, cid, from) {
            best = match best {
                Some(k) if k <= *kv.0 => Some(k),
                _ => Some(*kv.0),
            };
        }
    }
    proof {
        assert forall|k: u32| #[trigger] views.contains_key(k) && leads_to(views[k], hop) implies
            best is Some && best->0 <= k by {
            assert(circuits@.contains_key(k));
            let j = choose|j: int| 0 <= j < all.len() && all[j] == (&k, &circuits@[k]);
            assert(leads_to(all[j].1@, hop));
        }
        match best {
            Some(k) => {
                assert(is_behind(views, hop, k));
                lemma_behind(views, hop, k);
            },
            None => {
                assert(behind(views, hop) is None);
            },
        }
    }
    best
}

/// The circuit that a cell from a neighbour belongs to.
pub(crate) fn find_circuit(circuits: &HashMap<u32, CircuitEntry>, cid: u32, from: &NodeAddr) -> (r:
    Option<u32>)
    ensures
        r == circuit_of(circuit_views(circuits@), cid, from@),
        r matches Some(k) ==> circuits@.contains_key(k),
{
    broadcast use vstd::std_specs::hash::group_hash_axioms;

    if circuits.contains_key(&cid) {
        Some(cid)
    } else {
        find_behind(circuits, cid, from)
    }
}

/// A cell belongs to a circuit in one of two ways: its number is the circuit's
/// own, whoever sent it, or no circuit has that number, and the circuit passes
/// through to the sender, to whom the node gave that number. It belongs to none
/// only where neither holds of any circuit.
pub proof fn law_cell_finds_circuit(circuits: Map<u32, CircuitView>, cid: u32, from: AddrView)
    ensures
        match circuit_of(circuits, cid, from) {
            Some(k) => {
                &&& circuits.contains_key(k)
                &&& k == cid || {
                    &&& !circuits.contains_key(cid)
                    &&& circuits[k] matches CircuitView::Relay { next, .. } && next.cid == cid
                        && next.peer == from
                }
            },
            None => {
                &&& !circuits.contains_key(cid)
                &&& forall|k: u32| #[trigger]
                    circuits.contains_key(k) ==> (circuits[k] matches CircuitView::Relay {
                        next,
                        ..
                    } ==> next.cid != cid || next.peer != from)
            },
        },
        circuits.contains_key(cid) ==> circuit_of(circuits, cid, from) == Some(cid),
{
    let hop = HopView { cid, peer: from };
    if !circuits.contains_key(cid) {
        match behind(circuits, hop) {
            Some(k) => {
                assert(is_behind(circuits, hop, k));
            },
            None => {
                assert forall|k: u32| #[trigger] circuits.contains_key(k) implies !leads_to(
                    circuits[k],
                    hop,
                ) by {
                    if leads_to(circuits[k], hop) {
                        lemma_lowest(circuits, hop, k);
                    }
                }
            },
        }
    }
}

/// Where a circuit leads to a neighbour, there is one with the lowest number.
proof fn lemma_lowest(circuits: Map<u32, CircuitView>, hop: HopView, k: u32)
    requires
        circuits.contains_key(k),
        leads_to(circuits[k], hop),
    ensures
        exists|j: u32| is_behind(circuits, hop, j),
    decreases k,
{
    if !is_behind(circuits, hop, k) {
        let j = choose|j: u32| #[trigger]
            circuits.contains_key(j) && leads_to(circuits[j], hop) && j < k;
        lemma_lowest(circuits, hop, j);
    }
}

} // verus!
