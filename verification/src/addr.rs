//! Socket addresses.

use crate::bytes::{arr_eq, lemma_arr_ext};
use vstd::prelude::*;

verus! {

/// The address of a socket.
#[derive(Debug, Clone, Copy, PartialEq, Eq)]
pub enum NodeAddr {
    /// An IPv4 address.
    V4 { ip: [u8; 4], port: u16 },
    /// An IPv6 address.
    V6 { ip6: [u8; 16], port: u16, flow_info: u32, scope_id: u32 },
}

/// What an address holds.
pub enum AddrView {
    V4 { ip: Seq<u8>, port: nat },
    V6 { ip6: Seq<u8>, port: nat, flow_info: u32, scope_id: u32 },
}

impl View for NodeAddr {
    type V = AddrView;

    open spec fn view(&self) -> AddrView {
        match self {
            NodeAddr::V4 { ip, port } => AddrView::V4 { ip: ip@, port: *port as nat },
            NodeAddr::V6 { ip6, port, flow_info, scope_id } => AddrView::V6 {
                ip6: ip6@,
                port: *port as nat,
                flow_info: *flow_info,
                scope_id: *scope_id,
            },
        }
    }
}

/// Whether two addresses are the same.
pub fn addr_eq(a: &NodeAddr, b: &NodeAddr) -> (r: bool)
    ensures
        r == (a@ == b@),
{
    match (a, b) {
        (NodeAddr::V4 { ip: p, port: m }, NodeAddr::V4 { ip: q, port: n }) => *m == *n && arr_eq(
            p,
            q,
        ),
        (
            NodeAddr::V6 { ip6: p, port: m, flow_info: f, scope_id: s },
            NodeAddr::V6 { ip6: q, port: n, flow_info: g, scope_id: t },
        ) => *m == *n && *f == *g && *s == *t && arr_eq(p, q),
        _ => false,
    }
}

impl NodeAddr {
    /// The port of an address.
    pub open spec fn port_spec(self) -> u16 {
        match self {
            NodeAddr::V4 { port, .. } => port,
            NodeAddr::V6 { port, .. } => port,
        }
    }

    /// The octets of an IPv4 address, all zero for another.
    pub open spec fn octets(self) -> Seq<u8> {
        match self {
            NodeAddr::V4 { ip, .. } => ip@,
            NodeAddr::V6 { .. } => seq![0u8, 0, 0, 0],
        }
    }

    /// The port of an address.
    pub fn port(&self) -> (p: u16)
        ensures
            p == self.port_spec(),
    {
        match self {
            NodeAddr::V4 { port, .. } => *port,
            NodeAddr::V6 { port, .. } => *port,
        }
    }
}

/// Two addresses are the same where all that they hold is the same: of IPv6
/// addresses, the flow and the scope too.
pub proof fn law_same_address(a: NodeAddr, b: NodeAddr)
    ensures
        a@ == b@ <==> a == b,
{
    if a@ == b@ {
        match (a, b) {
            (NodeAddr::V4 { ip: p, .. }, NodeAddr::V4 { ip: q, .. }) => {
                lemma_arr_ext(p, q);
            },
            (NodeAddr::V6 { ip6: p, .. }, NodeAddr::V6 { ip6: q, .. }) => {
                lemma_arr_ext(p, q);
            },
            _ => {},
        }
    }
}

} // verus!
