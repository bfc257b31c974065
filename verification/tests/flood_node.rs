//! Nodes that gossip where everybody sits.

use blackwood::cost::Cost;
use blackwood::flood::claim::{Announcement, Hop};
use blackwood::flood::message::{Message, Packet};
use blackwood::flood::node::{Node, SendError, Timing};
use blackwood::key::{PublicKey, KEY_LEN};

fn key(n: u8) -> PublicKey {
    PublicKey::new([n; KEY_LEN])
}

fn cost(n: u64) -> Cost {
    Cost::new(n).expect("a test cost is never zero")
}

/// A path rooted at `root`, each later node reached over a link of the cost
/// written beside it.
fn path(root: u8, steps: &[(u8, u64)]) -> Vec<Hop> {
    let mut path = vec![Hop::root(key(root))];
    for &(node, price) in steps {
        path.push(Hop::new(key(node), cost(price)));
    }
    path
}

fn announce(root: u8, steps: &[(u8, u64)]) -> Message {
    Message::Announce(
        Announcement::new(0, path(root, steps)).expect("the test path is well formed"),
    )
}

/// A node linked to a peer holding a smaller key, having just heard where
/// that peer sits, so it has taken up a position below it.
fn node_below_a_peer(now: u64) -> Node {
    let mut node = Node::new(0, key(2));
    node.add_peer(0, key(1), Cost::unit());
    node.handle(
        now,
        key(1),
        Message::Announce(Announcement::root_of(key(1), 0)),
    );
    node
}

#[test]
fn node_a_new_node_is_its_own_root() {
    let node = Node::new(0, key(7));
    assert_eq!(node.root(), key(7));
    assert_eq!(node.parent(), None);
    assert_eq!(node.path(), path(7, &[]));
}

#[test]
fn adding_a_peer_offers_it_everything_known() {
    let mut node = Node::new(0, key(2));
    let out = node.add_peer(0, key(1), Cost::unit());
    assert_eq!(out.len(), 1, "only its own announcement is known so far");
    assert_eq!(out[0].to, key(1));
    assert_eq!(
        out[0].message,
        Message::Announce(Announcement::root_of(key(2), 0))
    );
}

#[test]
fn node_a_node_will_not_peer_with_itself() {
    let mut node = Node::new(0, key(1));
    assert!(node.add_peer(0, key(1), Cost::unit()).is_empty());
    assert_eq!(node.peers().len(), 0);
}

#[test]
fn node_messages_from_strangers_are_ignored() {
    let mut node = Node::new(0, key(2));
    let stranger = Announcement::root_of(key(1), 0);
    assert!(
        node.handle(0, key(1), Message::Announce(stranger))
            .is_empty()
    );
    assert_eq!(node.root(), key(2), "the tree did not move");
}

#[test]
fn node_a_node_adopts_a_peer_holding_a_smaller_key_as_its_root() {
    let node = node_below_a_peer(0);
    assert_eq!(node.root(), key(1));
    assert_eq!(node.parent(), Some(key(1)));
    assert_eq!(node.path(), path(1, &[(2, 1)]));
}

#[test]
fn node_a_node_keeps_a_smaller_key_than_its_peer() {
    let mut node = Node::new(0, key(1));
    node.add_peer(0, key(2), Cost::unit());
    node.handle(
        0,
        key(2),
        Message::Announce(Announcement::root_of(key(2), 0)),
    );

    assert_eq!(node.root(), key(1), "the smaller key stays the root");
    assert_eq!(node.parent(), None);
}

#[test]
fn sending_to_an_unknown_destination_fails() {
    let mut node = Node::new(0, key(1));
    assert_eq!(node.send(key(9), b"hi".to_vec()), Err(SendError::NoRoute));
}

#[test]
fn node_sending_to_oneself_delivers_locally() {
    let mut node = Node::new(0, key(1));
    assert_eq!(node.send(key(1), b"hi".to_vec()), Ok(Vec::new()));
    assert_eq!(
        node.take_delivered(),
        vec![Packet {
            src: key(1),
            dst: key(1),
            payload: b"hi".to_vec(),
        }]
    );
}

#[test]
fn stale_announcements_are_not_gossiped_on() {
    let mut node = Node::new(0, key(2));
    node.add_peer(0, key(1), Cost::unit());
    node.add_peer(0, key(3), Cost::unit());

    let fresh = Announcement::root_of(key(1), 5);
    assert!(!node.handle(0, key(1), Message::Announce(fresh)).is_empty());

    let stale = Announcement::root_of(key(1), 4);
    assert!(
        node.handle(0, key(1), Message::Announce(stale)).is_empty(),
        "old news must not be forwarded, or gossip would never settle"
    );
}

#[test]
fn node_an_announcement_that_is_never_reissued_expires() {
    let mut node = node_below_a_peer(0);
    assert_eq!(node.known().len(), 1);

    let out = node.tick(Timing::default().expiry);

    assert_eq!(node.known().len(), 0, "the announcement was forgotten");
    assert_eq!(node.root(), key(2), "and with it, the route to the root");
    assert_eq!(node.parent(), None);
    assert!(
        out.iter().any(|envelope| envelope.to == key(1)),
        "the peer is told this node moved"
    );
}

#[test]
fn node_a_reissued_announcement_survives() {
    let expiry = Timing::default().expiry;
    let mut node = node_below_a_peer(0);

    // The author reissues just before the deadline, one sequence number on.
    node.handle(
        expiry - 1,
        key(1),
        Message::Announce(Announcement::root_of(key(1), 1)),
    );
    node.tick(expiry);

    assert_eq!(node.root(), key(1), "the reissue kept it alive");
    assert_eq!(node.known().len(), 1);
}

#[test]
fn node_a_repeat_does_not_restart_the_expiry_clock() {
    let expiry = Timing::default().expiry;
    let mut node = node_below_a_peer(0);

    // The same announcement over again, rather than a newer one.
    node.handle(
        expiry - 1,
        key(1),
        Message::Announce(Announcement::root_of(key(1), 0)),
    );
    node.tick(expiry);

    assert_eq!(
        node.root(),
        key(2),
        "an echo is not evidence its author is still there"
    );
}

#[test]
fn node_a_node_reissues_its_own_announcement_on_schedule() {
    let refresh = Timing::default().refresh;
    let mut node = Node::new(0, key(1));
    node.add_peer(0, key(2), Cost::unit());

    assert!(node.tick(refresh - 1).is_empty(), "not due yet");

    let out = node.tick(refresh);
    assert_eq!(out.len(), 1, "one peer, one reissue");
    assert_eq!(out[0].to, key(2));
    assert_eq!(
        out[0].message,
        Message::Announce(Announcement::root_of(key(1), 1)),
        "a fresh sequence number on an unchanged path"
    );
    assert_eq!(
        node.path(),
        path(1, &[]),
        "reissuing does not move the tree"
    );
}

#[test]
fn node_a_node_that_starts_over_is_believed_once_the_old_one_has_expired() {
    let expiry = Timing::default().expiry;
    let mut node = node_below_a_peer(0);

    // The peer had climbed to a high sequence number before it went quiet.
    node.handle(
        1,
        key(1),
        Message::Announce(Announcement::root_of(key(1), 500)),
    );
    node.tick(expiry + 1);
    assert_eq!(node.known().len(), 0);

    // It comes back having started over at zero. Without expiry that would
    // have looked like ancient news and been thrown away.
    node.handle(
        expiry + 1,
        key(1),
        Message::Announce(Announcement::root_of(key(1), 0)),
    );
    assert_eq!(node.root(), key(1), "the returning node is believed");
    assert_eq!(node.parent(), Some(key(1)));
}

#[test]
fn a_node_with_a_custom_schedule_keeps_to_it() {
    let timing = Timing {
        refresh: 10,
        expiry: 40,
    };
    let mut node = Node::with_timing(0, key(2), timing);
    node.add_peer(0, key(1), Cost::unit());
    node.handle(
        0,
        key(1),
        Message::Announce(Announcement::root_of(key(1), 0)),
    );

    node.tick(39);
    assert_eq!(node.root(), key(1), "not yet due to expire");
    node.tick(40);
    assert_eq!(node.root(), key(2), "expired on the caller's own scale");
}

#[test]
fn node_a_node_sits_below_whichever_peer_offers_the_cheapest_walk_to_the_root() {
    let mut node = Node::new(0, key(4));
    node.add_peer(0, key(1), cost(10));
    node.add_peer(0, key(2), cost(1));
    node.handle(0, key(1), announce(1, &[]));
    node.handle(0, key(2), announce(1, &[(2, 1)]));

    assert_eq!(node.root(), key(1));
    assert_eq!(
        node.parent(),
        Some(key(2)),
        "two cheap links beat one expensive one, though the root is a peer"
    );
    assert_eq!(node.path(), path(1, &[(2, 1), (4, 1)]));
    assert_eq!(node.cost_to_root(), 2);
}

#[test]
fn re_pricing_a_link_moves_a_node() {
    let mut node = Node::new(0, key(4));
    node.add_peer(0, key(1), Cost::unit());
    node.add_peer(0, key(2), Cost::unit());
    node.handle(0, key(1), announce(1, &[]));
    node.handle(0, key(2), announce(1, &[(2, 1)]));
    assert_eq!(node.parent(), Some(key(1)), "one hop to the root");

    // The caller measures that link again and finds it much worse.
    let out = node.add_peer(1, key(1), cost(10));

    assert_eq!(node.parent(), Some(key(2)), "the long way round is cheaper");
    assert_eq!(node.cost_to_root(), 2);
    assert_eq!(out.len(), 2, "both peers are told where this node moved to");
}

#[test]
fn node_re_pricing_a_link_to_what_it_already_cost_changes_nothing() {
    let mut node = node_below_a_peer(0);
    let before = node.path().to_vec();

    assert!(
        node.add_peer(1, key(1), Cost::unit()).is_empty(),
        "nothing changed, so there is nothing to say"
    );
    assert_eq!(node.path(), before);
}

/// A node holding key 5, linked to both 2 and 3 — each of them a child of
/// the root — and told that 4 sits below 2, away from 3.
fn node_choosing_between_two_peers(to_two: u64, to_three: u64) -> Node {
    let mut node = Node::new(0, key(5));
    node.add_peer(0, key(2), cost(to_two));
    node.add_peer(0, key(3), cost(to_three));
    node.handle(0, key(2), announce(1, &[(2, 1)]));
    node.handle(0, key(3), announce(1, &[(3, 1)]));
    node.handle(0, key(2), announce(1, &[(2, 1), (4, 1)]));
    node
}

#[test]
fn node_a_packet_crosses_a_shortcut_only_while_it_is_worth_crossing() {
    let mut cheap = node_choosing_between_two_peers(1, 2);
    assert_eq!(cheap.parent(), Some(key(2)));
    let out = cheap
        .send(key(4), b"hi".to_vec())
        .expect("a route is known");
    assert_eq!(out[0].to, key(2), "2 is one cheap hop from the destination");

    // The same network with that one link made expensive. 2 is still the
    // peer nearest the destination, but reaching it now costs more than
    // walking the tree the long way round.
    let mut dear = node_choosing_between_two_peers(10, 1);
    assert_eq!(dear.parent(), Some(key(3)));
    let out = dear.send(key(4), b"hi".to_vec()).expect("a route is known");
    assert_eq!(out[0].to, key(3), "three cheap hops beat one costing ten");
}
