//! Never-Been-Found: anonymous routing over a peer-to-peer network.
//!
//! A node reaches another over a circuit of up to five hops. One Sphinx header
//! sets the circuit up in a single pass ([`sphinx`]); each hop opens its own layer.
//! Keys come from X25519 and ML-KEM-768 together ([`kdf`], [`kem`]).
//! Messages travel in layers, in cells of one size ([`cell`], [`relay`]). Nodes
//! make themselves known by signed descriptors ([`identity`]) in a distributed
//! hash table ([`rpc`], [`kademlia`]).
//!
//! Everything here computes on values: what comes in goes in as bytes, and what
//! is to be sent comes out as actions ([`node`]). The outside functions that the
//! library builds on are stated in [`primitives`].

use vstd::prelude::*;

pub mod addr;
pub mod builder;
pub mod bytes;
pub mod cell;
pub mod circuits;
pub mod cli;
pub mod cover;
pub mod error;
pub mod identity;
pub mod kademlia;
pub mod kdf;
pub mod kem;
pub mod link;
pub mod node;
pub mod primitives;
pub mod relay;
pub mod replay;
pub mod rpc;
pub mod sphinx;
pub mod store;

pub use addr::NodeAddr;
pub use builder::{build_circuit, CircuitHandle};
pub use cell::{Cell, Cmd, RCmd};
pub use error::{CryptoError, DhtError, NetError};
pub use identity::{
    node_id_from_ed_pub, x25519_pub_from_clamped, Descriptor, NodeIdentity, DESC_LEN,
};
pub use kademlia::Kademlia;
pub use kdf::{derive_hdr_key, derive_traffic_keys, hdr_nonce, open, relay_nonce, seal};
pub use kem::{kem_decap, kem_encap};
pub use node::{CoverCfg, Node, NodeConfig};
pub use rpc::{
    find_response, ping_response, rpc_decode, rpc_encode, Contact, RpcMsg, RpcType,
};
pub use sphinx::{build_header, process_header, BuiltHeader, ProcessOutcome};

verus! {

/// The identifier of a node: the first 20 bytes of the SHA-256 of its Ed25519 public key.
pub type NodeId = [u8; 20];

/// The length of an ML-KEM-768 ciphertext.
pub const CT_LEN: usize = 1088;

/// The length of an ML-KEM-768 public key.
pub const KEM_PK_LEN: usize = 1184;

/// The length of an encoded ML-KEM-768 private key.
pub const KEM_SK_LEN: usize = 2400;

/// What a Sphinx layer tells its hop: the next hop's identifier (20 bytes), IP (4), port (2) and
/// link key (32), padding (6) and a KEM ciphertext.
pub const LAYER_INFO_LEN: usize = 64 + CT_LEN;

/// The length of a Sphinx layer: the tag of its cipher and its information.
pub const LAYER_LEN: usize = 16 + LAYER_INFO_LEN;

/// The most hops of a route.
pub const MAX_HOPS: usize = 5;

/// The identifier that stands for the next hop where there is none.
pub const TERMINAL_ID: NodeId = [
    255, 255, 255, 255, 255, 255, 255, 255, 255, 255, 255, 255, 255, 255, 255, 255, 255, 255, 255,
    255,
];

/// The direction from the origin to the last hop.
pub const DIR_FWD: u8 = 0;

/// The direction from the last hop to the origin.
pub const DIR_BWD: u8 = 1;

} // verus!
