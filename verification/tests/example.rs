//! The smallest networks there are: two nodes and a link.

use blackwood::cost::Cost;
use blackwood::flood;
use blackwood::key::PublicKey;
use blackwood::routing::node::{Node, Timing};
use blackwood::signature::Insecure;

#[test]
fn two_nodes_that_know_their_peers() {
    let (a, b) = (PublicKey::new([1; 32]), PublicKey::new([2; 32]));
    let (mut a_node, mut b_node) = (
        Node::new(0, Insecure::for_key(a), Timing::milliseconds()),
        Node::new(0, Insecure::for_key(b), Timing::milliseconds()),
    );

    // Bring up the link, then hand each side what the other offered.
    let to_b = a_node.add_peer(0, b, Cost::unit());
    for envelope in b_node.add_peer(0, a, Cost::unit()) {
        a_node.handle(0, b, envelope.message);
    }
    // Hearing from a moves b below it, and saying so is what tells a where b
    // now sits. Until that reply lands, a still believes b is off on its own.
    for envelope in to_b {
        for reply in b_node.handle(0, a, envelope.message) {
            a_node.handle(0, b, reply.message);
        }
    }

    // The smaller key is the root, and the other sits one link below it.
    assert_eq!(b_node.root(), a);
    assert_eq!(b_node.parent(), Some(a));
    assert_eq!(b_node.cost_to_root(), 1);
    assert_eq!(b_node.depth(), 1);

    // A packet crosses the single hop. b is a's peer, so a already holds its
    // position; anywhere further would have to be found with `lookup` first.
    for envelope in a_node.send(b, b"hello".to_vec()).expect("route is known") {
        b_node.handle(0, a, envelope.message);
    }
    assert_eq!(b_node.take_delivered()[0].payload, b"hello");

    // Let time pass with nothing arriving from a, and b forgets where it sat.
    b_node.tick(Timing::milliseconds().expiry);
    assert_eq!(b_node.root(), b);
}

#[test]
fn two_nodes_that_gossip() {
    let (a, b) = (PublicKey::new([1; 32]), PublicKey::new([2; 32]));
    let (mut a_node, mut b_node) = (flood::node::Node::new(0, a), flood::node::Node::new(0, b));

    let to_b = a_node.add_peer(0, b, Cost::unit());
    for envelope in b_node.add_peer(0, a, Cost::unit()) {
        a_node.handle(0, b, envelope.message);
    }
    for envelope in to_b {
        for reply in b_node.handle(0, a, envelope.message) {
            a_node.handle(0, b, reply.message);
        }
    }

    assert_eq!(b_node.root(), a);
    assert_eq!(b_node.parent(), Some(a));

    for envelope in a_node.send(b, b"hello".to_vec()).expect("route is known") {
        b_node.handle(0, a, envelope.message);
    }
    assert_eq!(b_node.take_delivered()[0].payload, b"hello");

    b_node.tick(flood::node::Timing::default().expiry);
    assert_eq!(b_node.root(), b);
}
