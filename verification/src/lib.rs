//! Greedy routing over a spanning tree.
//!
//! Nodes address one another by public key rather than by location. The node
//! with the smallest key in a connected component becomes the root of a tree,
//! every node announces the path of keys running from that root down to itself,
//! and a packet is handed to whichever peer stands strictly closer to where it
//! is going.
//!
//! [`routing`] is the protocol: nodes that hold the positions of their own
//! peers and ask the network about everybody else. [`flood`] is the same idea
//! with less machinery: nodes that gossip where everybody sits. [`tree`] holds
//! signed walks down the tree on their own, [`signature`] what a node asks of
//! cryptography and [`ed25519`] one answer, and [`viewer`] a simulated network
//! to look at.
//!
//! A node performs no I/O and reads no clock. Its every input is an argument to
//! a method, and its every effect is the envelopes it hands back.

pub mod bytes;
pub mod cost;
pub mod ed25519;
pub mod flood;
pub mod hash;
pub mod key;
pub mod order;
pub mod packet;
pub mod routing;
pub mod signature;
pub mod sorted_map;
pub mod summary;
pub mod text;
pub mod tree;
pub mod viewer;
pub mod walk;
