# Never-Been-Found

Anonymous routing over a peer-to-peer network, verified with Verus.

A node reaches another over a circuit of up to five hops. One Sphinx header sets
the whole circuit up in a single pass; each hop opens one layer of it, with its
private key, and finds its own keys and the next hop there. Keys come from X25519 and ML-KEM-768 together. Messages
travel in layers, in cells of 1280 bytes whatever they hold. Nodes find each other
in a small Kademlia that keeps signed descriptors for a day. Padding and cells
that the last hop drops cover the traffic.

## Layout

- `src/` is the library: everything that computes, with its contracts and proofs.
  It holds no sockets, clocks or tasks. What comes in goes in as bytes or cells,
  and what is to be done comes out as actions.
- `src/primitives.rs` states the outside functions that the library builds on:
  hashes, ciphers, curves, signatures, the KEM, random numbers.
- `app/` is the program around it: UDP sockets, timers, the command line.
- `tests/` runs the library with the real outside crates, up to echoes over whole
  networks of nodes in memory.

| Module | What it holds |
| --- | --- |
| `bytes`, `addr`, `error` | byte strings, socket addresses, errors |
| `kdf`, `kem`, `identity` | keys, nonces, ciphertexts, descriptors |
| `sphinx` | headers of circuits |
| `cell`, `link` | cells, fragments, onions, datagrams |
| `rpc`, `store`, `kademlia` | the distributed hash table |
| `node`, `circuits`, `relay`, `replay` | what a node does with the cells that reach it |
| `builder`, `cover`, `cli` | the origin's side, cover traffic, the command line's needs |

Proof functions whose names begin with `law_` state what holds across functions:
that headers go along their routes and leave the hops ready, that an echo comes
back as it was sent where no hop has another circuit under the circuit's numbers,
that no relay cell has an effect twice in either direction, that a circuit falls
on both sides, that fragments arrive in any order, that encodings are undone by
reading, and more.
