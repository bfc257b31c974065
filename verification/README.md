# blackwood

Greedy routing over a spanning tree, written in Verus: every rule a node follows
is a mathematical function, the executable code is proved to compute it, and
what holds of a network as a whole is proved from those functions.

Nodes address one another by public key rather than by location, and reach each
other across a network where no node is guaranteed a direct link to any other.
The node holding the smallest key in a connected component becomes the root of a
tree; every node announces the path of keys running from that root down to
itself; and a packet is handed to whichever peer stands strictly closer to where
it is going.

## Layout

| Path | What it is |
| --- | --- |
| `src/key.rs`, `cost.rs`, `hash.rs`, `summary.rs`, `signature.rs` | Addresses, link costs, hashes, Bloom filters, and what a node asks of cryptography |
| `src/ed25519.rs` | Identities with real keys behind them, over `ed25519-dalek` |
| `src/tree.rs` | Signed, priced walks down the tree |
| `src/routing/` | Nodes that know their own peers and ask about everybody else: positions that stand on consent (`bargain.rs`, and without prices `tree.rs`), messages, the node's model, the node, and the laws |
| `src/flood/` | Nodes that gossip where everybody sits |
| `src/viewer/` | A simulated network, the commands that drive it, and just enough HTTP to carry them |
| `src/walk.rs`, `order.rs`, `sorted_map.rs`, `text.rs`, `bytes.rs`, `packet.rs` | What the rest is made of |
| `tests/` | The library run: unit by unit, and whole networks |
| `app/` | The server and the page exports: sockets, files, arguments, and nothing else |

A module's `model.rs` says what its nodes do, as mathematics; `node.rs` does it;
`laws.rs` says what follows, `reach.rs` what holds of a node whatever has
happened to it, and `quiet.rs` why gossip comes to rest.

## What is not proved

The contracts of the calls into `ed25519-dalek` are taken on trust, each beside
the call it describes in `src/ed25519.rs`. So is what pushing a character onto a
`String` does, in `src/text.rs`. That signatures cannot be forged is not stated
anywhere: the proofs say what is checked, and with what.
