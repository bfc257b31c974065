//! What holds of nodes wherever events have taken them, on concrete values.

use std::cmp::Ordering;

use blackwood::cost::Cost;
use blackwood::flood;
use blackwood::key::{PublicKey, KEY_LEN};
use blackwood::routing::bargain::{Announcement, Consent, Hop};
use blackwood::routing::message::{Message, Nonce, NONCE_LEN};
use blackwood::routing::node::{Node, SendError, Timing};
use blackwood::routing::tree;
use blackwood::signature::Insecure;
use blackwood::summary::Summary;

fn key(n: u8) -> PublicKey {
    PublicKey::new([n; KEY_LEN])
}

fn signer(n: u8) -> Insecure {
    Insecure::for_key(key(n))
}

fn cost(n: u64) -> Cost {
    Cost::new(n).expect("not zero")
}

fn consent(parent: u8, child: u8, price: u64) -> Consent {
    Consent::issue(&signer(parent), key(child), cost(price))
}

/// An announcement by the last of `steps`, the root stamping with `seq` and
/// everybody below it with zero.
fn announcement(root: u8, seq: u64, steps: &[(u8, u64)]) -> Announcement {
    let mut announcement = Announcement::root_of(&signer(root), seq);
    let mut above = root;
    for &(node, price) in steps {
        announcement = announcement
            .extend(&signer(node), &consent(above, node, price), 0)
            .expect("distinct keys");
        above = node;
    }
    announcement
}

fn walk(path: &[Hop]) -> Vec<(PublicKey, u64)> {
    path.iter().map(|hop| (hop.key, hop.cost)).collect()
}

#[test]
fn the_smallest_walk_wins_whatever_its_stamps() {
    let left = announcement(1, 0, &[(3, 1), (5, 1)]);
    let right = announcement(1, 7, &[(2, 1), (5, 1)]);
    assert_eq!(left.preference_cmp(&right), Ordering::Greater);
    assert_eq!(right.preference_cmp(&left), Ordering::Less);

    let stamped = announcement(1, 9, &[(3, 1), (5, 1)]);
    assert_eq!(stamped.preference_cmp(&right), Ordering::Greater);
    assert_eq!(
        left.preference_cmp(&stamped),
        Ordering::Less,
        "copies of one walk are told apart by their stamps"
    );
}

#[test]
fn a_price_decides_between_walks_over_the_same_nodes() {
    let cheap_first = announcement(1, 8, &[(2, 1), (5, 2)]);
    let dear_first = announcement(1, 0, &[(2, 2), (5, 1)]);
    assert_eq!(cheap_first.preference_cmp(&dear_first), Ordering::Less);
    assert_eq!(dear_first.preference_cmp(&cheap_first), Ordering::Greater);
}

#[test]
fn the_smallest_signed_walk_wins_whatever_its_stamps() {
    let place = |seq: u64, through: u8| {
        blackwood::tree::Announcement::root_of(&signer(1), seq)
            .extend(&signer(through), Cost::unit(), 0)
            .and_then(|above| above.extend(&signer(5), Cost::unit(), 0))
            .expect("distinct keys")
    };
    let left = place(0, 3);
    let right = place(7, 2);
    assert_eq!(left.preference_cmp(&right), Ordering::Greater);
    assert_eq!(right.preference_cmp(&left), Ordering::Less);
    assert_eq!(place(9, 3).preference_cmp(&right), Ordering::Greater);
    assert_eq!(left.preference_cmp(&place(9, 3)), Ordering::Less);
    assert_eq!(left.preference_cmp(&left), Ordering::Equal);
}

/// A network of four, none of them linked yet.
fn four() -> Vec<Node<Insecure>> {
    [1, 2, 3, 5]
        .iter()
        .map(|&n| Node::new(0, signer(n), Timing::milliseconds()))
        .collect()
}

fn at(network: &mut [Node<Insecure>], key: PublicKey) -> &mut Node<Insecure> {
    network
        .iter_mut()
        .find(|node| node.key() == key)
        .expect("in the network")
}

/// Hands messages round until the network falls quiet.
fn deliver(
    network: &mut [Node<Insecure>],
    now: u64,
    mut queue: Vec<(PublicKey, PublicKey, Message)>,
) {
    while !queue.is_empty() {
        let (to, from, message) = queue.remove(0);
        for envelope in at(network, to).handle(now, from, message) {
            queue.push((envelope.to, to, envelope.message));
        }
    }
}

fn link(network: &mut [Node<Insecure>], now: u64, a: u8, b: u8) {
    let mut queue = Vec::new();
    for (end, other) in [(key(a), key(b)), (key(b), key(a))] {
        for envelope in at(network, end).add_peer(now, other, Cost::unit()) {
            queue.push((envelope.to, end, envelope.message));
        }
    }
    deliver(network, now, queue);
}

fn tick(network: &mut [Node<Insecure>], now: u64) {
    let mut queue = Vec::new();
    for node in network.iter_mut() {
        let from = node.key();
        for envelope in node.tick(now) {
            queue.push((envelope.to, from, envelope.message));
        }
    }
    deliver(network, now, queue);
}

#[test]
fn a_network_settles_the_same_whatever_its_history() {
    let mut plain = four();
    for (a, b) in [(1, 2), (1, 3), (2, 5), (3, 5)] {
        link(&mut plain, 0, a, b);
    }

    // The same links, but one side of the square comes up only after the root
    // has stamped itself afresh.
    let mut late = four();
    link(&mut late, 0, 1, 3);
    link(&mut late, 0, 3, 5);
    tick(&mut late, 1_000);
    tick(&mut late, 2_000);
    link(&mut late, 2_000, 1, 2);
    link(&mut late, 2_000, 2, 5);

    for (one, other) in plain.iter().zip(&late) {
        assert_eq!(walk(one.path()), walk(other.path()));
    }
    assert_eq!(
        walk(late[3].path()),
        vec![(key(1), 0), (key(2), 1), (key(5), 1)]
    );
    assert_eq!(late[3].parent(), Some(key(2)));
}

/// A node at `5` linked to `2` and `3`, either of which would carry it.
fn node_with_a_choice() -> Node<Insecure> {
    let mut node = Node::new(0, signer(5), Timing::milliseconds());
    for peer in [2, 3] {
        node.add_peer(0, key(peer), Cost::unit());
        node.handle(0, key(peer), Message::Consent(consent(peer, 5, 1)));
    }
    node.handle(0, key(3), Message::Announce(announcement(1, 0, &[(3, 1)])));
    node
}

#[test]
fn the_root_is_the_smallest_on_offer_and_the_parent_offers_it() {
    let mut node = node_with_a_choice();
    assert_eq!(node.root(), key(1));
    assert_eq!(node.parent(), Some(key(3)));

    // A root nobody has leave to sit below is not on offer.
    node.add_peer(0, key(4), Cost::unit());
    node.handle(0, key(4), Message::Announce(announcement(0, 0, &[(4, 1)])));
    assert_eq!(node.root(), key(1));
    node.handle(0, key(4), Message::Consent(consent(4, 5, 1)));
    assert_eq!(node.root(), key(0));
    assert_eq!(node.parent(), Some(key(4)));

    // Nor is a position that runs through the node itself.
    let circular = announcement(0, 1, &[(5, 1), (4, 1)]);
    let circular = circular.with_seq(&signer(4), 1).expect("the author");
    node.handle(0, key(4), Message::Announce(circular));
    assert_eq!(node.root(), key(1));
    assert_eq!(node.parent(), Some(key(3)));

    node.remove_peer(0, key(3));
    node.remove_peer(0, key(4));
    assert_eq!(node.root(), node.key());
    assert_eq!(node.parent(), None);
}

#[test]
fn tree_neighbours_and_nobody_else_have_been_told_what_lies_beyond() {
    let mut node = node_with_a_choice();
    let told = |keys: &[u8]| {
        let mut summary = Summary::new();
        for &n in keys {
            summary.insert(key(n));
        }
        Some(summary)
    };
    assert_eq!(node.summary_for(key(3)), told(&[5]));
    assert_eq!(node.summary_for(key(2)), None, "not a tree neighbour");
    assert_eq!(node.summary_for(key(9)), None, "not a peer");

    let mut below = Summary::new();
    below.insert(key(2));
    below.insert(key(7));
    node.handle(0, key(2), Message::Summary(below));
    assert_eq!(node.summary_for(key(3)), told(&[5]), "not over a tree link");

    let child = announcement(1, 0, &[(3, 1), (5, 1), (2, 1)]);
    node.handle(0, key(2), Message::Announce(child));
    assert_eq!(node.summary_for(key(2)), told(&[5]));
    assert_eq!(node.summary_for(key(3)), told(&[5, 2, 7]));
}

#[test]
fn a_second_tick_at_one_instant_says_nothing() {
    for now in [0, 999, 1_000, 1_001, 3_000, 3_001, 50_000] {
        let mut node = node_with_a_choice();
        node.tick(now);
        let (seq, root) = (node.path().last().expect("a path").seq, node.root());
        assert!(node.tick(now).is_empty());
        assert_eq!(node.path().last().expect("a path").seq, seq);
        assert_eq!(node.root(), root);

        let mut gossip = flood::node::Node::new(0, key(2));
        gossip.add_peer(0, key(1), Cost::unit());
        gossip.handle(
            0,
            key(1),
            flood::message::Message::Announce(flood::claim::Announcement::root_of(key(1), 0)),
        );
        gossip.tick(now);
        let root = gossip.root();
        assert!(gossip.tick(now).is_empty());
        assert_eq!(gossip.root(), root);
    }
}

#[test]
fn announcements_heard_in_either_order_leave_the_same_node() {
    let stamped = |place: Announcement, seq: u64| place.with_seq(&signer(2), seq).expect("the author");
    let words = [
        stamped(announcement(1, 0, &[(2, 1)]), 1),
        stamped(announcement(1, 4, &[(2, 9)]), 2),
        stamped(announcement(0, 0, &[(2, 1)]), 2),
        announcement(2, 3, &[]),
        announcement(2, 0, &[]),
    ];
    for a in &words {
        for b in &words {
            let hear = |first: &Announcement, second: &Announcement| {
                let mut node = node_with_a_choice();
                node.handle(1, key(2), Message::Announce(first.clone()));
                node.handle(1, key(2), Message::Announce(second.clone()));
                node
            };
            let (mut one, mut other) = (hear(a, b), hear(b, a));
            assert_eq!(one.known(), other.known());
            assert_eq!(one.root(), other.root());
            assert_eq!(one.parent(), other.parent());
            assert_eq!(walk(one.path()), walk(other.path()));
            for peer in [2, 3] {
                assert_eq!(one.summary_for(key(peer)), other.summary_for(key(peer)));
            }
            for dst in [2, 3, 5] {
                assert_eq!(one.send(key(dst), vec![7]), other.send(key(dst), vec![7]));
            }
            assert_eq!(one.send(key(8), vec![]), Err(SendError::Unknown));
        }
    }
    let mut node = node_with_a_choice();
    for at in [2, 0, 1] {
        node.handle(1, key(2), Message::Announce(words[at].clone()));
    }
    assert_eq!(node.root(), key(1), "the greater of two walks stamped alike");
    assert_eq!(node.parent(), Some(key(3)), "the cheaper way there");
}

#[test]
fn claims_heard_in_either_order_leave_the_same_node() {
    let claim = |seq: u64, root: u8, steps: &[(u8, u64)]| {
        let mut path = vec![flood::claim::Hop::root(key(root))];
        for &(n, price) in steps {
            path.push(flood::claim::Hop::new(key(n), cost(price)));
        }
        flood::claim::Announcement::new(seq, path).expect("well formed")
    };
    let claims = [
        claim(0, 1, &[(2, 1)]),
        claim(1, 2, &[]),
        claim(1, 0, &[(2, 4)]),
        claim(5, 1, &[(3, 1)]),
        claim(0, 9, &[]),
        claim(8, 5, &[]),
    ];
    for a in &claims {
        for b in &claims {
            let hear = |first: &flood::claim::Announcement, second: &flood::claim::Announcement| {
                let mut node = flood::node::Node::new(0, key(5));
                for peer in [2, 3] {
                    node.add_peer(0, key(peer), Cost::unit());
                }
                for word in [first, second] {
                    node.handle(1, key(2), flood::message::Message::Announce(word.clone()));
                }
                node
            };
            let (mut one, mut other) = (hear(a, b), hear(b, a));
            assert_eq!(one.known(), other.known());
            assert_eq!(one.root(), other.root());
            assert_eq!(one.parent(), other.parent());
            assert_eq!(one.path(), other.path());
            for dst in [1, 2, 3, 5, 9] {
                assert_eq!(one.send(key(dst), vec![1]), other.send(key(dst), vec![1]));
            }
        }
    }
}

#[test]
fn inserting_only_ever_sets_bits() {
    let mut summary = Summary::new();
    for n in 0..40 {
        let before = summary;
        summary.insert(key(n));
        assert!(summary.filled() >= before.filled());
        assert!(summary.filled() <= before.filled() + Summary::HASHES as u32);
        for m in 0..=n {
            assert!(summary.contains(key(m)));
        }
        let once = summary;
        summary.insert(key(n));
        assert_eq!(summary, once);

        let (mut one, mut other) = (before, before);
        one.insert(key(n));
        one.insert(key(99));
        other.insert(key(99));
        other.insert(key(n));
        assert_eq!(one, other);
    }
    assert!(summary.filled() <= Summary::BITS as u32);
}

#[test]
fn an_unpriced_consent_is_nothing_but_its_parts() {
    let genuine = tree::Consent::issue(&signer(1), key(2));
    assert_eq!(
        tree::Consent::new::<Insecure>(genuine.parent(), genuine.child(), genuine.signature()),
        Some(genuine)
    );
    assert_eq!(
        tree::Consent::new::<Insecure>(key(1), key(3), genuine.signature()),
        None
    );
}

#[test]
fn nobody_searches_for_itself() {
    let mut node = node_with_a_choice();
    assert!(node
        .lookup(0, key(5), Nonce::new([1; NONCE_LEN]))
        .is_empty());
    assert_eq!(node.known(), vec![key(3)]);
}

#[test]
fn the_passage_of_time_brings_at_most_a_reissue() {
    // Not due yet: nothing is said and nothing moves.
    let mut node = node_with_a_choice();
    let before = (node.path().to_vec(), node.known(), node.parent());
    assert!(node.tick(999).is_empty());
    assert_eq!((node.path().to_vec(), node.known(), node.parent()), before);

    // Due, and everything held still fresh: the same walk, stamped afresh.
    let said = node.tick(1_000);
    assert_eq!(walk(node.path()), walk(&before.0));
    assert_eq!(node.known(), before.1);
    assert_eq!(
        node.path().last().expect("a path").seq,
        before.0.last().expect("a path").seq + 1
    );
    assert_eq!(said.len(), 2, "one for each peer");
    for envelope in said {
        match envelope.message {
            Message::Announce(position) => assert_eq!(position.path(), node.path()),
            other => panic!("{other:?} is no announcement"),
        }
    }

    // A peer saying again where it sits is filed, and that is all.
    let again = announcement(1, 0, &[(3, 1)])
        .with_seq(&signer(3), 9)
        .expect("the author");
    let before = node.path().to_vec();
    assert!(node.handle(2_900, key(3), Message::Announce(again)).is_empty());
    assert_eq!(node.path(), before);
    assert_eq!(node.tick(3_100).len(), 2);
    assert_eq!(node.known(), vec![key(3)], "heard again, and so kept");
}

#[test]
fn the_passage_of_time_brings_a_gossip_at_most_a_reissue() {
    let root = |seq: u64| flood::claim::Announcement::root_of(key(1), seq);
    let hear = |seq: u64| flood::message::Message::Announce(root(seq));
    let mut node = flood::node::Node::new(0, key(3));
    node.add_peer(0, key(1), Cost::unit());
    node.add_peer(0, key(7), Cost::unit());
    node.handle(0, key(1), hear(0));
    let before = node.path().to_vec();
    assert!(node.tick(999).is_empty());
    let said = node.tick(1_000);
    assert_eq!(said.len(), 2, "one for each peer");
    assert_eq!(node.path(), before);
    assert_eq!(node.known(), vec![key(1)]);

    let passed = node.handle(1_000, key(1), hear(1));
    assert_eq!(passed.len(), 1, "to the other peer, and nobody moves");
    assert_eq!(passed[0].to, key(7));
    assert_eq!(passed[0].message, hear(1));
    assert_eq!(node.path(), before);
}

#[test]
fn gossip_ends() {
    // A ring with a chord, all of it linked before anything is delivered.
    let links = [(1, 2), (2, 3), (3, 4), (4, 5), (5, 1), (2, 5)];
    let mut nodes: Vec<flood::node::Node> =
        (1..=5).map(|n| flood::node::Node::new(0, key(n))).collect();
    let mut queue = Vec::new();
    for (a, b) in links {
        for (near, far) in [(a, b), (b, a)] {
            for envelope in nodes[near as usize - 1].add_peer(0, key(far), Cost::unit()) {
                queue.push((envelope.to, key(near), envelope.message));
            }
        }
    }
    let mut delivered = 0;
    while !queue.is_empty() {
        let (to, from, message) = queue.remove(0);
        let at = to.as_bytes()[0] as usize - 1;
        let most = 2 * nodes[at].peers().len();
        let out = nodes[at].handle(0, from, message.clone());
        assert!(out.len() <= most, "two things to each peer at most");
        for envelope in out {
            queue.push((envelope.to, to, envelope.message));
        }
        assert!(
            nodes[at].handle(0, from, message).is_empty(),
            "heard once, it is no news"
        );
        delivered += 1;
        assert!(delivered < 1_000, "gossip that does not end");
    }
    for node in &nodes {
        assert_eq!(node.root(), key(1));
        assert_eq!(node.known().len(), 4);
    }
}
