//! Nodes that know their own peers and ask about everybody else.

use blackwood::cost::Cost;
use blackwood::key::{PublicKey, KEY_LEN};
use blackwood::routing::bargain::{distance, Announcement, Consent, Hop};
use blackwood::routing::message::{
    Envelope, Found, Lookup, Message, Nonce, Packet, Traffic, NONCE_LEN,
};
use blackwood::routing::node::{Eviction, Fault, Node, SendError, Timing};
use blackwood::signature::Insecure;
use blackwood::summary::Summary;

fn key(n: u8) -> PublicKey {
    PublicKey::new([n; KEY_LEN])
}

fn signer(n: u8) -> Insecure {
    Insecure::for_key(key(n))
}

fn cost(n: u64) -> Cost {
    Cost::new(n).expect("a test cost is never zero")
}

/// An announcement for the node at the end of `root` + `steps`, each hop
/// signed by the node that added it and consented to by the one above.
fn announcement(root: u8, steps: &[(u8, u64)]) -> Announcement {
    let mut announcement = Announcement::root_of(&signer(root), 0);
    let mut above = root;
    for &(node, price) in steps {
        let consent = Consent::issue(&signer(above), key(node), cost(price));
        announcement = announcement
            .extend(&signer(node), &consent, 0)
            .expect("the test path holds distinct keys");
        above = node;
    }
    announcement
}

fn path(root: u8, steps: &[(u8, u64)]) -> Vec<Hop> {
    announcement(root, steps).path().to_vec()
}

/// The walk a path describes, with the stamps and signatures set aside.
fn walk(path: &[Hop]) -> Vec<(PublicKey, u64)> {
    path.iter().map(|hop| (hop.key, hop.cost)).collect()
}

/// What the node at the end of `root` + `steps` says about itself.
fn announce(root: u8, steps: &[(u8, u64)]) -> Message {
    Message::Announce(announcement(root, steps))
}

/// `parent` agreeing to carry `child` over a link it prices at `price`.
fn consent_from(parent: u8, child: u8, price: u64) -> Message {
    Message::Consent(Consent::issue(&signer(parent), key(child), cost(price)))
}

fn nonce(n: u8) -> Nonce {
    Nonce::new([n; NONCE_LEN])
}

/// An answer to a search, signed over `nonce` by the node it describes,
/// with `trail` as what is left of its way home.
fn answer(seed: u8, trail: &[u8], root: u8, steps: &[(u8, u64)]) -> Message {
    let announcement = announcement(root, steps);
    Message::Found(Found::answer(
        &Insecure::for_key(announcement.author()),
        announcement,
        nonce(seed),
        trail.iter().map(|&n| key(n)).collect(),
    ))
}

/// The answer to a search `node` really made, arriving back home.
///
/// It asks first, because an answer to a question nobody put is not one.
fn found(node: &mut Node<Insecure>, root: u8, steps: &[(u8, u64)]) -> Message {
    let target = announcement(root, steps).author();
    node.lookup(0, target, nonce(0));
    answer(0, &[node.key().as_bytes()[0]], root, steps)
}

fn summary_of(keys: &[u8]) -> Summary {
    let mut summary = Summary::new();
    for &n in keys {
        summary.insert(key(n));
    }
    summary
}

/// A node linked to a peer holding a smaller key, having just heard where
/// that peer sits, so it has taken up a position below it.
fn node_below_a_peer(now: u64) -> Node<Insecure> {
    let mut node = Node::new(0, signer(2), Timing::milliseconds());
    node.add_peer(0, key(1), Cost::unit());
    node.handle(now, key(1), consent_from(1, 2, 1));
    node.handle(now, key(1), announce(1, &[]));
    node
}

/// The middle of the line `1 - 2 - 3`: the root above, one child below,
/// and the child claiming that 3 and 7 lie beyond it.
fn middle_of_a_line() -> Node<Insecure> {
    let mut node = Node::new(0, signer(2), Timing::milliseconds());
    node.add_peer(0, key(1), Cost::unit());
    node.add_peer(0, key(3), Cost::unit());
    node.handle(0, key(1), consent_from(1, 2, 1));
    node.handle(0, key(3), consent_from(3, 2, 1));
    node.handle(0, key(1), announce(1, &[]));
    node.handle(0, key(3), announce(1, &[(2, 1), (3, 1)]));
    node.handle(0, key(3), Message::Summary(summary_of(&[3, 7])));
    node
}

fn announces(out: &[Envelope]) -> Vec<PublicKey> {
    out.iter()
        .filter(|envelope| matches!(envelope.message, Message::Announce(_)))
        .map(|envelope| envelope.to)
        .collect()
}

#[test]
fn a_new_node_is_its_own_root() {
    let node = Node::new(0, signer(7), Timing::milliseconds());
    assert_eq!(node.key(), key(7), "its address is what it signs as");
    assert_eq!(node.root(), key(7));
    assert_eq!(node.parent(), None);
    assert_eq!(node.path(), path(7, &[]));
}

#[test]
fn a_node_signs_where_it_says_it_sits() {
    let node = node_below_a_peer(0);
    let announcement = Announcement::new::<Insecure>(node.path().to_vec());
    assert!(
        announcement.is_ok(),
        "a node's own announcement must check out: {announcement:?}"
    );
}

#[test]
fn adding_a_peer_tells_it_where_this_node_sits() {
    let mut node = Node::new(0, signer(2), Timing::milliseconds());
    let out = node.add_peer(0, key(1), Cost::unit());
    assert_eq!(out.len(), 2, "where it sits, and leave to sit below it");
    assert!(out.iter().all(|envelope| envelope.to == key(1)));
    assert_eq!(
        out[0].message,
        Message::Announce(Announcement::root_of(&signer(2), 0))
    );
    assert_eq!(
        out[1].message,
        Message::Consent(Consent::issue(&signer(2), key(1), Cost::unit())),
        "priced at what this node measured, since it is the one carrying"
    );
}

#[test]
fn a_node_will_not_sit_below_a_peer_that_has_not_agreed() {
    let mut node = Node::new(0, signer(2), Timing::milliseconds());
    node.add_peer(0, key(1), Cost::unit());
    node.handle(0, key(1), announce(1, &[]));

    assert_eq!(node.parent(), None, "a better position, and not on offer");
    assert_eq!(node.root(), key(2), "so it is still its own root");
    assert_eq!(node.consent_from(key(1)), None);

    node.handle(0, key(1), consent_from(1, 2, 1));
    assert_eq!(node.parent(), Some(key(1)), "now it is");
}

#[test]
fn a_node_announces_the_price_its_parent_named() {
    // Both ends measured the link and disagreed about it. What the child
    // announces is the parent's number, because the parent is the one
    // that has to carry the traffic — a child free to pick would pick
    // nothing, and advertise the cheapest walk in the neighbourhood.
    let mut node = Node::new(0, signer(2), Timing::milliseconds());
    node.add_peer(0, key(1), cost(1));
    node.handle(0, key(1), consent_from(1, 2, 9));
    node.handle(0, key(1), announce(1, &[]));

    assert_eq!(node.cost_to_root(), 9, "the parent's price, not its own");
    assert_eq!(walk(node.path()), [(key(1), 0), (key(2), 9)]);
}

#[test]
fn re_pricing_a_link_offers_the_peer_a_new_bargain() {
    let mut node = Node::new(0, signer(2), Timing::milliseconds());
    node.add_peer(0, key(1), Cost::unit());

    let out = node.add_peer(1, key(1), cost(10));

    assert_eq!(
        out,
        vec![Envelope {
            to: key(1),
            message: Message::Consent(Consent::issue(&signer(2), key(1), cost(10))),
        }],
        "the price is part of what was agreed, so it is agreed again"
    );
}

#[test]
fn a_node_will_not_peer_with_itself() {
    let mut node = Node::new(0, signer(1), Timing::milliseconds());
    assert!(node.add_peer(0, key(1), Cost::unit()).is_empty());
    assert_eq!(node.peers().len(), 0);
}

#[test]
fn messages_from_strangers_are_ignored() {
    let mut node = Node::new(0, signer(2), Timing::milliseconds());
    assert!(node.handle(0, key(1), announce(1, &[])).is_empty());
    assert_eq!(node.root(), key(2), "the tree did not move");
    assert_eq!(
        node.known().len(),
        0,
        "nor was a position filed away for somebody there is no link to"
    );
}

#[test]
fn a_node_adopts_a_peer_holding_a_smaller_key_as_its_root() {
    let node = node_below_a_peer(0);
    assert_eq!(node.root(), key(1));
    assert_eq!(node.parent(), Some(key(1)));
    assert_eq!(walk(node.path()), [(key(1), 0), (key(2), 1)]);
}

#[test]
fn a_node_keeps_a_smaller_key_than_its_peer() {
    let mut node = Node::new(0, signer(1), Timing::milliseconds());
    node.add_peer(0, key(2), Cost::unit());
    node.handle(0, key(2), announce(2, &[]));

    assert_eq!(node.root(), key(1), "the smaller key stays the root");
    assert_eq!(node.parent(), None);
}

#[test]
fn a_node_refuses_to_sit_below_a_walk_that_runs_through_it() {
    // 3 still believes it sits below this node, and by way of a root this
    // node would much rather answer to than itself. Taking the offer would
    // make the two of them each other's parent, and the cycle would stand
    // until something outside it happened to break. Because an
    // announcement carries the whole walk, the question is settled here
    // and now, out of what this node can see on its own.
    let mut node = Node::new(0, signer(2), Timing::milliseconds());
    node.add_peer(0, key(3), Cost::unit());
    node.handle(0, key(3), announce(1, &[(2, 1), (3, 1)]));

    assert_eq!(node.root(), key(2), "a tree of one beats a cycle of two");
    assert_eq!(node.parent(), None);
    assert!(
        node.known().into_iter().any(|known| known == key(3)),
        "the offer was refused, not the node that made it"
    );
}

#[test]
fn a_node_will_not_be_told_where_it_sits() {
    // A search answered with this node's own position, arriving back at
    // it: an echo of something it said, or somebody else's idea of where
    // it belongs. A node is the only authority on that, so either way
    // there is nothing here to learn — and it never asked, which stops it
    // one step earlier still.
    let mut node = node_below_a_peer(0);
    let before = node.path().to_vec();

    node.handle(1, key(1), answer(0, &[2], 1, &[(9, 1), (2, 1)]));

    assert_eq!(node.path(), before, "still where it put itself");
    assert!(!node.known().into_iter().any(|known| known == key(2)));
    assert!(node.take_evicted().is_empty(), "and nobody is at fault");
}

#[test]
fn an_answer_to_a_question_nobody_asked_is_refused() {
    // Perfectly signed, and about a node this one would be glad to know
    // where to find. But nothing here asked, so this is a peer pushing a
    // position rather than answering for one — and what it is pushing
    // into is the only thing a node holds that grows with use.
    let mut node = middle_of_a_line();

    let out = node.handle(0, key(3), answer(0, &[2], 1, &[(2, 1), (3, 1), (7, 1)]));

    assert!(out.is_empty());
    assert!(!node.known().into_iter().any(|known| known == key(7)));
    assert_eq!(node.send(key(7), b"hi".to_vec()), Err(SendError::Unknown));
}

#[test]
fn an_answer_to_a_different_question_is_refused() {
    // The nonce is one this node really is waiting on, and the answer
    // really is signed. It is just not an answer to what was asked, which
    // is how a stale position for somebody else would arrive if the nonce
    // did not tie a question to its answer.
    let mut node = middle_of_a_line();
    node.lookup(0, key(7), nonce(0));

    node.handle(0, key(3), answer(0, &[2], 1, &[(2, 1), (3, 1), (9, 1)]));

    assert!(!node.known().into_iter().any(|known| known == key(9)));
}

#[test]
fn an_answer_signed_for_another_search_is_refused() {
    // The recording of an older answer, replayed at a node that is
    // waiting on this target. Everything in it checks out except the one
    // thing that cannot be recorded in advance.
    let mut node = middle_of_a_line();
    node.lookup(0, key(7), nonce(1));

    let out = node.handle(0, key(3), answer(0, &[2], 1, &[(2, 1), (3, 1), (7, 1)]));

    assert!(out.is_empty(), "no nonce of this node's matches it");
    assert!(!node.known().into_iter().any(|known| known == key(7)));
}

#[test]
fn an_answer_serves_the_one_search_that_asked_for_it() {
    let mut node = middle_of_a_line();
    node.lookup(0, key(7), nonce(0));
    node.handle(0, key(3), answer(0, &[2], 1, &[(2, 1), (3, 1), (7, 1)]));
    assert!(node.known().into_iter().any(|known| known == key(7)));

    node.tick(Timing::milliseconds().expiry);
    assert!(!node.known().into_iter().any(|known| known == key(7)), "it expired");

    // The same answer over again. The question it belonged to is closed,
    // so replaying it is not a way to keep a position alive.
    node.handle(
        Timing::milliseconds().expiry,
        key(3),
        answer(0, &[2], 1, &[(2, 1), (3, 1), (7, 1)]),
    );
    assert!(!node.known().into_iter().any(|known| known == key(7)));
}

#[test]
fn a_search_nobody_answered_is_forgotten() {
    let mut node = middle_of_a_line();
    node.lookup(0, key(7), nonce(0));
    node.tick(Timing::milliseconds().expiry);

    node.handle(
        Timing::milliseconds().expiry,
        key(3),
        answer(0, &[2], 1, &[(2, 1), (3, 1), (7, 1)]),
    );

    assert!(
        !node.known().into_iter().any(|known| known == key(7)),
        "an answer this late is to a question no longer being asked"
    );
}

#[test]
fn an_announcement_about_anyone_but_its_sender_is_refused() {
    let mut node = node_below_a_peer(0);
    // The peer describing some third node. Nothing relays announcements,
    // so this could only be a mistake or a lie.
    assert!(node.handle(0, key(1), announce(1, &[(9, 1)])).is_empty());
    assert_eq!(
        node.known(),
        vec![key(1)],
        "a node hears about its peers and nobody else"
    );
    assert_eq!(
        node.take_evicted(),
        vec![Eviction {
            peer: key(1),
            fault: Fault::AnnouncementAboutAnother,
        }],
        "and a peer that relays one is not running this protocol"
    );
    assert_eq!(node.peers().len(), 0, "so it is not a peer any more");
    assert_eq!(node.parent(), None, "and nothing sits below it");
}

#[test]
fn a_position_that_does_not_check_out_is_not_believed() {
    let mut node = Node::new(0, signer(3), Timing::milliseconds());
    node.add_peer(0, key(2), Cost::unit());

    // 2's genuine announcement, with the price of its link to the root
    // rubbed out and a cheaper one written in. That would make 2 a better
    // parent than it has earned, and cost every packet routed through it.
    let mut tampered = path(1, &[(2, 5)]);
    tampered[1].cost = 1;

    let out = node.handle(
        0,
        key(2),
        Message::Announce(Announcement::unchecked(tampered)),
    );

    assert!(out.is_empty());
    assert_eq!(node.known().len(), 0, "nothing was taken on trust");
    assert_eq!(node.parent(), None, "and nothing was sat below");
    assert_eq!(
        node.take_evicted(),
        vec![Eviction {
            peer: key(2),
            fault: Fault::ForgedAnnouncement,
        }],
        "no honest node produces a walk that does not check out"
    );
    assert_eq!(node.peers().len(), 0);
}

#[test]
fn a_consent_meant_for_somebody_else_costs_the_peer_its_link() {
    let mut node = node_below_a_peer(0);
    node.add_peer(0, key(3), Cost::unit());

    // 3 hands over the agreement 1 gave to this node. It checks out
    // perfectly — it just is not 3 agreeing to carry anybody.
    node.handle(0, key(3), consent_from(1, 2, 1));

    assert_eq!(
        node.take_evicted(),
        vec![Eviction {
            peer: key(3),
            fault: Fault::MisdirectedConsent,
        }]
    );
    assert_eq!(node.consent_from(key(3)), None);
}

#[test]
fn a_consent_for_another_node_costs_the_peer_its_link() {
    let mut node = node_below_a_peer(0);
    node.add_peer(0, key(3), Cost::unit());

    // 3 really did sign this, and it really is 3's to give — to 9.
    node.handle(0, key(3), consent_from(3, 9, 1));

    assert_eq!(
        node.take_evicted(),
        vec![Eviction {
            peer: key(3),
            fault: Fault::MisdirectedConsent,
        }]
    );
}

#[test]
fn evicting_a_peer_says_so_to_the_rest() {
    // The evicted peer was this node's parent, so losing it moves the
    // node — and every other peer has to hear where it moved to. An
    // eviction is a link going down, and behaves like one.
    let mut node = middle_of_a_line();
    assert_eq!(node.parent(), Some(key(1)));

    let out = node.handle(0, key(1), announce(1, &[(9, 1)]));

    assert_eq!(node.parent(), None, "its parent is gone");
    assert_eq!(node.root(), key(2));
    assert_eq!(announces(&out), vec![key(3)], "and 3 is told");
    assert_eq!(node.take_evicted().len(), 1);
}

#[test]
fn a_peer_that_is_merely_out_of_date_is_left_alone() {
    // The rule has to be one no honest peer can trip. Stale positions,
    // repeats, announcements that arrive out of order and answers to
    // questions this node has forgotten are all ordinary, and none of
    // them is anybody's fault.
    let mut node = middle_of_a_line();

    node.handle(0, key(1), announce(1, &[]));
    node.handle(0, key(3), announce(1, &[(2, 1), (3, 1)]));
    node.handle(0, key(3), Message::Summary(summary_of(&[3, 7])));
    node.handle(0, key(1), consent_from(1, 2, 1));
    node.handle(0, key(3), answer(9, &[2], 1, &[(2, 1), (3, 1), (7, 1)]));
    node.tick(Timing::milliseconds().expiry);

    assert!(
        node.take_evicted().is_empty(),
        "nothing here is a fault, however wrong or late it is"
    );
}

#[test]
fn an_answer_carrying_a_position_that_does_not_check_out_is_not_believed() {
    let mut node = middle_of_a_line();

    // A search for 7 comes back with 7 placed somewhere it never signed
    // for — the cheapest lie a node relaying an answer could tell.
    let mut tampered = path(1, &[(2, 1), (3, 1), (7, 1)]);
    tampered[3].cost = 9;

    let forged = Announcement::unchecked(tampered);
    let bad = Found::answer(
        &Insecure::for_key(key(7)),
        forged,
        nonce(0),
        vec![key(2)],
    );
    node.lookup(0, key(7), nonce(0));

    node.handle(0, key(3), Message::Found(bad));

    assert!(
        !node.known().into_iter().any(|known| known == key(7)),
        "an answer is checked exactly as an announcement is"
    );
    assert_eq!(node.send(key(7), b"hi".to_vec()), Err(SendError::Unknown));
    assert_eq!(
        node.take_evicted(),
        vec![Eviction {
            peer: key(3),
            fault: Fault::ForgedAnswer,
        }],
        "and whoever handed it over made it up"
    );
}

#[test]
fn a_stale_announcement_changes_nothing() {
    let mut node = Node::new(0, signer(2), Timing::milliseconds());
    node.add_peer(0, key(1), Cost::unit());
    node.handle(0, key(1), consent_from(1, 2, 1));

    let fresh = Announcement::root_of(&signer(1), 5);
    assert!(!node.handle(0, key(1), Message::Announce(fresh)).is_empty());

    let stale = Announcement::root_of(&signer(1), 4);
    assert!(node.handle(0, key(1), Message::Announce(stale)).is_empty());
}

#[test]
fn sending_to_a_node_that_has_not_been_looked_up_fails() {
    let mut node = Node::new(0, signer(1), Timing::milliseconds());
    assert_eq!(node.send(key(9), b"hi".to_vec()), Err(SendError::Unknown));
}

#[test]
fn sending_to_oneself_delivers_locally() {
    let mut node = Node::new(0, signer(1), Timing::milliseconds());
    assert_eq!(node.send(key(1), b"hi".to_vec()), Ok(Vec::new()));
    assert_eq!(
        node.take_delivered(),
        vec![Packet {
            src: key(1),
            dst: key(1),
            payload: b"hi".to_vec(),
        }]
    );
}

#[test]
fn a_packet_carries_the_position_it_is_forwarded_by() {
    let mut node = node_below_a_peer(0);
    let out = node
        .send(key(1), b"up".to_vec())
        .expect("a peer's position is always known");
    assert_eq!(out.len(), 1);
    assert_eq!(out[0].to, key(1));
    assert_eq!(
        out[0].message,
        Message::Traffic(Traffic {
            dst_path: path(1, &[]),
            packet: Packet {
                src: key(2),
                dst: key(1),
                payload: b"up".to_vec(),
            },
        })
    );
}

#[test]
fn a_packet_passing_through_is_handed_on_exactly_as_it_arrived() {
    // The coordinates it is travelling by are the sender's and stay the
    // sender's. A node in the middle re-addresses nothing: it picks the
    // next hop and passes the packet along untouched, which is what has
    // every node on the route measuring against the same target.
    let mut node = middle_of_a_line();
    let traffic = Traffic {
        dst_path: path(1, &[(2, 1), (3, 1)]),
        packet: Packet {
            src: key(1),
            dst: key(3),
            payload: b"onwards".to_vec(),
        },
    };

    let out = node.handle(0, key(1), Message::Traffic(traffic.clone()));

    assert_eq!(out.len(), 1);
    assert_eq!(out[0].to, key(3));
    assert_eq!(out[0].message, Message::Traffic(traffic));
    assert!(
        node.take_delivered().is_empty(),
        "carrying a packet is not being addressed by it"
    );
}

#[test]
fn a_packet_that_has_arrived_is_delivered_rather_than_forwarded() {
    let mut node = middle_of_a_line();
    let packet = Packet {
        src: key(1),
        dst: key(2),
        payload: b"for you".to_vec(),
    };

    let out = node.handle(
        0,
        key(1),
        Message::Traffic(Traffic {
            dst_path: path(1, &[(2, 1)]),
            packet: packet.clone(),
        }),
    );

    assert!(out.is_empty(), "it goes no further");
    assert_eq!(node.take_delivered(), vec![packet]);
}

#[test]
fn a_packet_at_a_dead_end_is_dropped() {
    // 3 has gone and nothing has expired yet, so a packet for it still
    // arrives here addressed to a position nothing leads to any more. No
    // peer stands closer than this node does. Ironwood would report the
    // broken path back through the tree; this core does the same minus
    // the recovery, which is to stop.
    let mut node = middle_of_a_line();
    node.remove_peer(0, key(3));

    let out = node.handle(
        0,
        key(1),
        Message::Traffic(Traffic {
            dst_path: path(1, &[(2, 1), (3, 1)]),
            packet: Packet {
                src: key(1),
                dst: key(3),
                payload: b"nobody home".to_vec(),
            },
        }),
    );

    assert!(out.is_empty(), "dropped, rather than handed backwards");
    assert!(
        node.take_delivered().is_empty(),
        "and not delivered to the wrong node either"
    );
}

#[test]
fn a_peer_exactly_as_far_away_is_not_progress() {
    // 3 has not caught up: it still announces itself below this node,
    // which has since gone off on its own. Measured against 4's
    // coordinates, the two of them are the same distance away — and being
    // no worse is not the test. Handing the packet over on equal terms is
    // how it comes straight back, and it is only strictness that keeps
    // the distance falling at every hop.
    let mut node = Node::new(0, signer(2), Timing::milliseconds());
    node.add_peer(0, key(3), Cost::unit());
    node.handle(0, key(3), announce(1, &[(2, 1), (3, 1)]));
    let answer = found(&mut node, 1, &[(2, 1), (4, 1)]);
    node.handle(0, key(3), answer);

    assert_eq!(node.root(), key(2), "this node sits outside that walk now");
    assert_eq!(
        distance(node.path(), &path(1, &[(2, 1), (4, 1)])),
        distance(&path(1, &[(2, 1), (3, 1)]), &path(1, &[(2, 1), (4, 1)])),
        "a dead heat, which is the case the rule is strict about"
    );
    assert_eq!(node.send(key(4), b"hi".to_vec()), Err(SendError::NoRoute));
}

#[test]
fn a_packet_with_nowhere_closer_to_go_is_refused_at_the_source() {
    // 4 sat below this node until its link went down, and its position is
    // still held. Every peer this node has is further from 4 than it is
    // itself, so there is no hop that makes progress. Saying so beats
    // posting the packet to a peer that would only drop it.
    let mut node = node_below_a_peer(0);
    let answer = found(&mut node, 1, &[(2, 1), (4, 1)]);
    node.handle(0, key(1), answer);
    assert!(node.known().into_iter().any(|known| known == key(4)));

    assert_eq!(
        node.send(key(4), b"hi".to_vec()),
        Err(SendError::NoRoute),
        "the position is known and unreachable, which is not the same as unknown"
    );
}

#[test]
fn an_announcement_that_is_never_reissued_expires() {
    let mut node = node_below_a_peer(0);
    assert_eq!(node.known().len(), 1);

    let out = node.tick(Timing::milliseconds().expiry);

    assert_eq!(node.known().len(), 0, "the announcement was forgotten");
    assert_eq!(node.root(), key(2), "and with it, the route to the root");
    assert_eq!(node.parent(), None);
    assert_eq!(announces(&out), vec![key(1)], "the peer is told it moved");
}

#[test]
fn a_reissued_announcement_survives() {
    let expiry = Timing::milliseconds().expiry;
    let mut node = node_below_a_peer(0);

    // The author reissues just before the deadline, one sequence number on.
    node.handle(
        expiry - 1,
        key(1),
        Message::Announce(Announcement::root_of(&signer(1), 1)),
    );
    node.tick(expiry);

    assert_eq!(node.root(), key(1), "the reissue kept it alive");
    assert_eq!(node.known().len(), 1);
}

#[test]
fn a_repeat_does_not_restart_the_expiry_clock() {
    let expiry = Timing::milliseconds().expiry;
    let mut node = node_below_a_peer(0);

    // The same announcement over again, rather than a newer one.
    node.handle(
        expiry - 1,
        key(1),
        Message::Announce(Announcement::root_of(&signer(1), 0)),
    );
    node.tick(expiry);

    assert_eq!(
        node.root(),
        key(2),
        "an echo is not evidence its author is still there"
    );
}

#[test]
fn a_looked_up_position_is_forgotten_like_any_other() {
    let mut node = Node::new(0, signer(5), Timing::milliseconds());
    node.add_peer(0, key(2), Cost::unit());
    node.handle(0, key(2), consent_from(2, 5, 1));
    node.handle(0, key(2), announce(1, &[(2, 1)]));
    let answer = found(&mut node, 1, &[(2, 1), (4, 1)]);
    node.handle(0, key(2), answer);
    assert!(node.known().into_iter().any(|known| known == key(4)));

    node.tick(Timing::milliseconds().expiry);

    assert!(
        !node.known().into_iter().any(|known| known == key(4)),
        "nothing reissues an answer, so it goes when its time is up"
    );
    assert_eq!(
        node.send(key(4), b"hi".to_vec()),
        Err(SendError::Unknown),
        "and the next packet has to ask again"
    );
}

#[test]
fn a_node_reissues_its_own_announcement_on_schedule() {
    let refresh = Timing::milliseconds().refresh;
    let mut node = Node::new(0, signer(1), Timing::milliseconds());
    node.add_peer(0, key(2), Cost::unit());

    assert!(node.tick(refresh - 1).is_empty(), "not due yet");

    let out = node.tick(refresh);
    assert_eq!(out.len(), 1, "one peer, one reissue");
    assert_eq!(out[0].to, key(2));
    assert_eq!(
        out[0].message,
        Message::Announce(Announcement::root_of(&signer(1), 1)),
        "the same walk, signed afresh for a new sequence number"
    );
    assert_eq!(walk(node.path()), [(key(1), 0)], "the tree did not move");
}

#[test]
fn a_node_that_starts_over_is_believed_once_the_old_one_has_expired() {
    let expiry = Timing::milliseconds().expiry;
    let mut node = node_below_a_peer(0);

    // The peer had climbed to a high sequence number before it went quiet.
    node.handle(
        1,
        key(1),
        Message::Announce(Announcement::root_of(&signer(1), 500)),
    );
    node.tick(expiry + 1);
    assert_eq!(node.known().len(), 0);

    // It comes back having started over at zero. Without expiry that would
    // have looked like ancient news and been thrown away.
    node.handle(
        expiry + 1,
        key(1),
        Message::Announce(Announcement::root_of(&signer(1), 0)),
    );
    assert_eq!(node.root(), key(1), "the returning node is believed");
    assert_eq!(node.parent(), Some(key(1)));
}

#[test]
fn a_node_keeps_to_the_schedule_it_was_given() {
    let timing = Timing {
        refresh: 10,
        expiry: 40,
    };
    let mut node = Node::new(0, signer(2), timing);
    node.add_peer(0, key(1), Cost::unit());
    node.handle(0, key(1), consent_from(1, 2, 1));
    node.handle(0, key(1), announce(1, &[]));

    node.tick(39);
    assert_eq!(node.root(), key(1), "not yet due to expire");
    node.tick(40);
    assert_eq!(node.root(), key(2), "expired on the caller's own scale");
}

#[test]
fn a_node_sits_below_whichever_peer_offers_the_cheapest_walk_to_the_root() {
    let mut node = Node::new(0, signer(4), Timing::milliseconds());
    node.add_peer(0, key(1), cost(10));
    node.add_peer(0, key(2), cost(1));
    node.handle(0, key(1), consent_from(1, 4, 10));
    node.handle(0, key(2), consent_from(2, 4, 1));
    node.handle(0, key(1), announce(1, &[]));
    node.handle(0, key(2), announce(1, &[(2, 1)]));

    assert_eq!(node.root(), key(1));
    assert_eq!(
        node.parent(),
        Some(key(2)),
        "two cheap links beat one expensive one, though the root is a peer"
    );
    assert_eq!(walk(node.path()), [(key(1), 0), (key(2), 1), (key(4), 1)]);
    assert_eq!(node.cost_to_root(), 2);
}

#[test]
fn a_peer_re_pricing_its_side_moves_a_node() {
    let mut node = Node::new(0, signer(4), Timing::milliseconds());
    node.add_peer(0, key(1), Cost::unit());
    node.add_peer(0, key(2), Cost::unit());
    node.handle(0, key(1), consent_from(1, 4, 1));
    node.handle(0, key(2), consent_from(2, 4, 1));
    node.handle(0, key(1), announce(1, &[]));
    node.handle(0, key(2), announce(1, &[(2, 1)]));
    assert_eq!(node.parent(), Some(key(1)), "one hop to the root");

    // The root measures that link again and finds it much worse, so the
    // bargain it is offering changes. The price is the parent's to set,
    // and a node cannot go on announcing one it is no longer being
    // offered, because the price is part of what was signed.
    let out = node.handle(1, key(1), consent_from(1, 4, 10));

    assert_eq!(node.parent(), Some(key(2)), "the long way round is cheaper");
    assert_eq!(node.cost_to_root(), 2);
    assert_eq!(
        announces(&out),
        vec![key(1), key(2)],
        "both peers are told where this node moved to"
    );
}

#[test]
fn re_pricing_a_link_to_what_it_already_cost_changes_nothing() {
    let mut node = node_below_a_peer(0);
    let before = node.path().to_vec();

    assert!(
        node.add_peer(1, key(1), Cost::unit()).is_empty(),
        "nothing changed, so there is nothing to say"
    );
    assert_eq!(node.path(), before);
}

#[test]
fn losing_a_parent_re_roots_a_node_and_tells_the_peers_it_has_left() {
    let mut node = middle_of_a_line();
    assert_eq!(node.parent(), Some(key(1)));

    let out = node.remove_peer(0, key(1));

    assert_eq!(
        node.root(),
        key(2),
        "with the link went the way to the root"
    );
    assert_eq!(node.parent(), None);
    assert_eq!(
        announces(&out),
        vec![key(3)],
        "the peer still there is told at once, rather than waiting to notice"
    );
    assert!(
        node.known().into_iter().any(|known| known == key(1)),
        "nothing is withdrawn here, since a node cannot tell what was only reachable that way"
    );
}

#[test]
fn removing_a_link_that_was_never_up_changes_nothing() {
    let mut node = node_below_a_peer(0);
    let before = node.path().to_vec();

    assert!(node.remove_peer(1, key(8)).is_empty());
    assert_eq!(node.path(), before);
    assert_eq!(node.peers().len(), 1);
}

#[test]
fn a_node_stays_put_when_the_walk_above_it_is_merely_restamped() {
    let mut node = node_below_a_peer(0);
    let before = node.path().to_vec();

    // The parent reissues from the same place. Its announcement is a new
    // value, but the walk it describes is the one this node already sits
    // on, and saying so again would only make work for everybody below.
    let out = node.handle(
        1,
        key(1),
        Message::Announce(
            announcement(1, &[])
                .with_seq(&signer(1), 9)
                .expect("author"),
        ),
    );

    assert!(
        announces(&out).is_empty(),
        "nothing moved, so nothing was said"
    );
    assert_eq!(node.path(), before);
}

/// A node holding key 5, linked to both 2 and 3 — each of them a child of
/// the root — and told that 4 sits below 2, away from 3.
fn node_choosing_between_two_peers(to_two: u64, to_three: u64) -> Node<Insecure> {
    let mut node = Node::new(0, signer(5), Timing::milliseconds());
    node.add_peer(0, key(2), cost(to_two));
    node.add_peer(0, key(3), cost(to_three));
    node.handle(0, key(2), consent_from(2, 5, to_two));
    node.handle(0, key(3), consent_from(3, 5, to_three));
    node.handle(0, key(2), announce(1, &[(2, 1)]));
    node.handle(0, key(3), announce(1, &[(3, 1)]));
    let answer = found(&mut node, 1, &[(2, 1), (4, 1)]);
    node.handle(0, key(2), answer);
    node
}

fn first_hop(out: &[Envelope]) -> PublicKey {
    out.first().expect("the packet went somewhere").to
}

#[test]
fn a_packet_crosses_a_shortcut_only_while_it_is_worth_crossing() {
    let mut cheap = node_choosing_between_two_peers(1, 2);
    assert_eq!(cheap.parent(), Some(key(2)));
    let out = cheap
        .send(key(4), b"hi".to_vec())
        .expect("a route is known");
    assert_eq!(
        first_hop(&out),
        key(2),
        "2 is one cheap hop from the destination"
    );

    // The same network with that one link made expensive. 2 is still the
    // peer nearest the destination, but reaching it now costs more than
    // walking the tree the long way round.
    let mut dear = node_choosing_between_two_peers(10, 1);
    assert_eq!(dear.parent(), Some(key(3)));
    let out = dear.send(key(4), b"hi".to_vec()).expect("a route is known");
    assert_eq!(
        first_hop(&out),
        key(3),
        "three cheap hops beat one costing ten"
    );
}

#[test]
fn a_node_summarises_its_own_side_of_each_tree_link() {
    let node = middle_of_a_line();

    let upwards = node.summary_for(key(1)).expect("the parent is a tree link");
    assert!(upwards.contains(key(2)), "itself");
    assert!(upwards.contains(key(3)), "and what its child claimed");
    assert!(upwards.contains(key(7)), "however far beyond the child");
}

#[test]
fn a_summary_leaves_out_what_the_peer_it_goes_to_said() {
    let node = middle_of_a_line();

    let downwards = node.summary_for(key(3)).expect("the child is a tree link");
    assert!(downwards.contains(key(2)), "itself");
    assert!(
        !downwards.contains(key(3)) && !downwards.contains(key(7)),
        "handing 3 back its own subtree would put everything on both sides"
    );
}

#[test]
fn a_link_outside_the_tree_carries_no_summary() {
    let mut node = middle_of_a_line();
    // A fourth node, linked but sitting elsewhere in the tree: neither this
    // node's parent nor one of its children.
    node.add_peer(0, key(8), Cost::unit());
    node.handle(0, key(8), announce(1, &[(6, 1), (8, 1)]));

    assert_eq!(node.summary_for(key(8)), None);
    assert!(node.summary_for(key(1)).is_some());
}

#[test]
fn a_summary_that_says_nothing_new_ends_where_it_arrives() {
    // This is what brings the exchange to rest. Every summary that lands
    // has a node working out afresh what to tell everybody else, so one
    // that repeats what its link already said has to stop here — and one
    // that does carry news has to travel, or the far side of the tree
    // never hears of the key that turned up.
    let mut node = middle_of_a_line();

    assert!(
        node.handle(0, key(3), Message::Summary(summary_of(&[3, 7])))
            .is_empty(),
        "3 has said this once already"
    );

    let out = node.handle(0, key(3), Message::Summary(summary_of(&[3, 7, 9])));

    assert_eq!(
        out.len(),
        1,
        "upwards, and not back to the peer it came from"
    );
    assert_eq!(out[0].to, key(1));
    assert!(
        node.summary_for(key(1))
            .expect("the parent is a tree link")
            .contains(key(9))
    );
}

#[test]
fn a_search_goes_only_where_a_summary_admits_it_might_be() {
    let mut node = middle_of_a_line();

    let out = node.lookup(0, key(7), nonce(0));
    assert_eq!(out.len(), 1, "one branch could hold it");
    assert_eq!(out[0].to, key(3));
    assert_eq!(
        out[0].message,
        Message::Lookup(Lookup {
            target: key(7),
            nonce: nonce(0),
            trail: vec![key(2)],
        })
    );

    assert!(
        node.lookup(0, key(9), nonce(1)).is_empty(),
        "no summary admits 9, so nothing is asked"
    );
    assert!(
        node.lookup(0, key(2), nonce(2)).is_empty(),
        "and nobody looks for itself"
    );
}

#[test]
fn a_search_is_passed_on_with_this_node_added_to_its_trail() {
    let mut node = middle_of_a_line();
    let out = node.handle(
        0,
        key(1),
        Message::Lookup(Lookup {
            target: key(7),
            nonce: nonce(0),
            trail: vec![key(1)],
        }),
    );

    assert_eq!(out.len(), 1);
    assert_eq!(out[0].to, key(3));
    assert_eq!(
        out[0].message,
        Message::Lookup(Lookup {
            target: key(7),
            nonce: nonce(0),
            trail: vec![key(1), key(2)],
        })
    );
}

#[test]
fn a_link_that_has_left_the_tree_stops_carrying_searches() {
    // What a peer last claimed lies beyond it stays on file — there is
    // nothing to replace it with until the peer says otherwise. But 3 has
    // moved out from under this node, and a summary is a claim about a
    // tree link and worthless off one: folded around the cycle that link
    // now closes, it would hand every key back to where it came from.
    let mut node = middle_of_a_line();
    assert_eq!(
        node.lookup(0, key(7), nonce(0)).len(),
        1,
        "while 3 was still below"
    );

    node.handle(
        0,
        key(3),
        Message::Announce(
            announcement(1, &[(6, 1), (3, 1)])
                .with_seq(&signer(3), 1)
                .expect("the author"),
        ),
    );

    assert_eq!(
        node.summary_for(key(3)),
        None,
        "nothing goes down it either"
    );
    assert!(
        node.lookup(0, key(7), nonce(1)).is_empty(),
        "3 still claims 7, and is no longer anybody this node may ask"
    );
}

#[test]
fn a_search_is_never_handed_back_to_a_node_it_has_already_been_to() {
    // 1's summary admits 7 as readily as 3's does — of course it does,
    // since 7 is not on this node's side of that link either. Handing the
    // search straight back the way it came would still terminate, because
    // 1 would find itself on the trail and refuse it, but the message
    // exists only to be thrown away.
    let mut node = middle_of_a_line();
    node.handle(0, key(1), Message::Summary(summary_of(&[7])));

    let out = node.handle(
        0,
        key(1),
        Message::Lookup(Lookup {
            target: key(7),
            nonce: nonce(0),
            trail: vec![key(1)],
        }),
    );

    assert_eq!(out.len(), 1, "onwards only");
    assert_eq!(out[0].to, key(3));
}

#[test]
fn a_search_that_has_been_here_before_is_refused() {
    let mut node = middle_of_a_line();
    let out = node.handle(
        0,
        key(1),
        Message::Lookup(Lookup {
            target: key(7),
            nonce: nonce(0),
            trail: vec![key(2), key(1)],
        }),
    );
    assert!(out.is_empty(), "a search must not go round in a circle");
}

#[test]
fn the_node_being_looked_for_answers_with_where_it_sits() {
    let mut node = middle_of_a_line();
    let out = node.handle(
        0,
        key(1),
        Message::Lookup(Lookup {
            target: key(2),
            nonce: nonce(3),
            trail: vec![key(1)],
        }),
    );

    assert_eq!(out.len(), 1);
    assert_eq!(out[0].to, key(1), "back the way the search came");
    assert_eq!(
        out[0].message,
        Message::Found(Found::answer(
            &signer(2),
            Announcement::unchecked(node.path().to_vec()),
            nonce(3),
            vec![key(1)],
        )),
        "and vouching for the search it is answering"
    );
    let Message::Found(found) = &out[0].message else {
        panic!("an answer");
    };
    assert!(found.verify::<Insecure>());
}

#[test]
fn an_answer_retraces_the_search_and_stops_where_it_started() {
    let mut node = middle_of_a_line();

    // Passing through: the trail still has the asker on it.
    let out = node.handle(0, key(3), answer(0, &[1, 2], 1, &[(2, 1), (3, 1), (7, 1)]));
    assert_eq!(out.len(), 1);
    assert_eq!(out[0].to, key(1));
    assert_eq!(
        out[0].message,
        answer(0, &[1], 1, &[(2, 1), (3, 1), (7, 1)])
    );
    assert!(
        !node.known().into_iter().any(|known| known == key(7)),
        "carrying an answer is not the same as having asked for it"
    );

    // Arriving home: nothing before this node on the trail, and a
    // question of its own that this answers.
    node.lookup(0, key(7), nonce(0));
    let out = node.handle(0, key(3), answer(0, &[2], 1, &[(2, 1), (3, 1), (7, 1)]));
    assert!(out.is_empty(), "the answer goes no further");
    assert!(node.known().into_iter().any(|known| known == key(7)));
    assert!(node.send(key(7), b"found you".to_vec()).is_ok());
}

#[test]
fn an_answer_that_never_came_through_here_is_dropped() {
    let mut node = middle_of_a_line();
    let out = node.handle(0, key(3), answer(0, &[1, 8], 1, &[(2, 1), (3, 1), (7, 1)]));
    assert!(out.is_empty());
    assert!(!node.known().into_iter().any(|known| known == key(7)));
}
