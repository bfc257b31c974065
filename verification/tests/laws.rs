//! What holds of positions and nodes as a whole, on concrete values.

use std::cmp::Ordering;

use blackwood::cost::Cost;
use blackwood::flood;
use blackwood::key::{PublicKey, KEY_LEN};
use blackwood::routing::bargain::{
    consent_bytes, distance, signed_bytes, Announcement, Consent, Hop, MalformedAnnouncement,
};
use blackwood::routing::message::{Found, Lookup, Message, Nonce, NONCE_LEN};
use blackwood::routing::node::{Eviction, Fault, Node, SendError, Timing};
use blackwood::routing::tree;
use blackwood::signature::{Insecure, Signature, Signer, SIGNATURE_LEN};
use blackwood::summary::Summary;

fn key(n: u8) -> PublicKey {
    PublicKey::new([n; KEY_LEN])
}

fn signer(n: u8) -> Insecure {
    Insecure::for_key(key(n))
}

fn cost(n: u64) -> Cost {
    Cost::new(n).expect("not zero")
}

fn consent(parent: u8, child: u8, price: u64) -> Consent {
    Consent::issue(&signer(parent), key(child), cost(price))
}

fn announcement(root: u8, steps: &[(u8, u64)]) -> Announcement {
    let mut announcement = Announcement::root_of(&signer(root), 0);
    let mut above = root;
    for &(node, price) in steps {
        announcement = announcement
            .extend(&signer(node), &consent(above, node, price), 0)
            .expect("distinct keys");
        above = node;
    }
    announcement
}

fn path(root: u8, steps: &[(u8, u64)]) -> Vec<Hop> {
    announcement(root, steps).path().to_vec()
}

#[test]
fn preference_is_an_order() {
    let places = [
        announcement(1, &[(9, 4), (5, 4)]),
        announcement(2, &[(5, 1)]),
        announcement(1, &[(5, 10)]),
        announcement(1, &[(3, 1), (4, 1), (5, 1)]),
        announcement(1, &[(3, 1), (5, 1)]),
        announcement(1, &[(4, 1), (5, 1)]),
        announcement(1, &[(5, 2)]),
        announcement(5, &[]),
    ];
    for a in &places {
        assert_eq!(a.preference_cmp(a), Ordering::Equal);
        for b in &places {
            assert_eq!(a.preference_cmp(b), b.preference_cmp(a).reverse());
            assert_eq!(a.preference_cmp(b) == Ordering::Equal, a == b);
            for c in &places {
                if a.preference_cmp(b) == Ordering::Less && b.preference_cmp(c) == Ordering::Less {
                    assert_eq!(a.preference_cmp(c), Ordering::Less);
                }
            }
        }
    }
}

#[test]
fn the_last_word_does_not_depend_on_the_order_it_is_heard_in() {
    let words = [
        announcement(1, &[(2, 1), (5, 1)]),
        announcement(1, &[(3, 1), (5, 1)]),
        announcement(1, &[(3, 1), (5, 1)])
            .with_seq(&signer(5), 2)
            .expect("the author"),
    ];
    for a in &words {
        assert!(!a.supersedes(a));
        for b in &words {
            if a != b {
                assert_ne!(a.supersedes(b), b.supersedes(a));
            }
        }
    }
    assert!(words[2].supersedes(&words[0]) && words[2].supersedes(&words[1]));
    assert!(words[1].supersedes(&words[0]), "the greater walk breaks a tie");
}

#[test]
fn distance_is_symmetric_and_nothing_at_home() {
    let here = path(1, &[(2, 5), (3, 7)]);
    let there = path(1, &[(2, 5), (4, 2)]);
    assert_eq!(distance(&here, &there), 7 + 2);
    assert_eq!(distance(&there, &here), 7 + 2);
    assert_eq!(distance(&here, &here), 0);
    assert_eq!(
        distance(&here[..2], &there) + 7,
        distance(&here, &there),
        "a parent is closer by exactly its link"
    );
}

#[test]
fn costs_past_counting_stop_at_the_ceiling() {
    let dear = announcement(1, &[(2, u64::MAX), (3, 5)]);
    assert_eq!(dear.cost_to_root(), u64::MAX);
    assert_eq!(distance(dear.path(), &path(1, &[(4, u64::MAX)])), u64::MAX);

    let claim = flood::claim::Announcement::new(
        0,
        vec![
            flood::claim::Hop::root(key(1)),
            flood::claim::Hop::new(key(2), cost(u64::MAX)),
            flood::claim::Hop::new(key(3), cost(9)),
        ],
    )
    .expect("well formed");
    assert_eq!(claim.cost_to_root(), u64::MAX);
}

#[test]
fn what_is_signed_says_everything_it_is_about() {
    let above = path(1, &[(2, 1)]);
    let plain = signed_bytes(&above, key(3), 4, 5, Some(Signature::new([6; SIGNATURE_LEN])));
    assert_eq!(
        plain.len(),
        "blackwood/hop/2".len() + 2 * (32 + 8 + 8 + 64 + 64) + 32 + 8 + 8 + 64
    );
    assert!(plain.starts_with(b"blackwood/hop/2"));
    for other in [
        signed_bytes(&above[..1], key(3), 4, 5, Some(Signature::new([6; SIGNATURE_LEN]))),
        signed_bytes(&above, key(4), 4, 5, Some(Signature::new([6; SIGNATURE_LEN]))),
        signed_bytes(&above, key(3), 5, 5, Some(Signature::new([6; SIGNATURE_LEN]))),
        signed_bytes(&above, key(3), 4, 6, Some(Signature::new([6; SIGNATURE_LEN]))),
        signed_bytes(&above, key(3), 4, 5, None),
        consent_bytes(key(1), key(3), 4),
    ] {
        assert_ne!(plain, other);
    }
    let mut expected = b"blackwood/consent/2".to_vec();
    expected.extend([1; 32]);
    expected.extend([3; 32]);
    expected.extend([0, 0, 0, 0, 0, 0, 0, 4]);
    assert_eq!(consent_bytes(key(1), key(3), 4), expected);
}

#[test]
fn unpriced_walks_are_signed_over_their_keys_and_stamps() {
    let bytes = tree::signed_bytes(&[], key(3), None, 258);
    let mut expected = b"blackwood/hop/2".to_vec();
    expected.extend([3; 32]);
    expected.extend([0, 0, 0, 0, 0, 0, 1, 2]);
    expected.extend([0; 64]);
    assert_eq!(bytes, expected);
}

#[test]
fn every_flaw_in_a_priced_walk_has_its_name() {
    let refused = |path: Vec<Hop>| Announcement::new::<Insecure>(path).err();

    assert_eq!(refused(vec![]), Some(MalformedAnnouncement::EmptyPath));

    let mut walk = path(1, &[(2, 1)]);
    walk[0].cost = 1;
    assert_eq!(refused(walk), Some(MalformedAnnouncement::CostAtRoot));

    let mut walk = path(1, &[(2, 1)]);
    walk[1].cost = 0;
    assert_eq!(refused(walk), Some(MalformedAnnouncement::FreeLink));

    let mut walk = path(1, &[(2, 1)]);
    let again = Hop {
        key: key(1),
        ..walk[1]
    };
    walk.push(again);
    assert_eq!(refused(walk), Some(MalformedAnnouncement::RepeatedKey));

    let mut walk = path(1, &[]);
    walk[0].consent = Some(consent(2, 1, 1).signature());
    assert_eq!(refused(walk), Some(MalformedAnnouncement::ConsentAtRoot));

    let mut walk = path(1, &[(2, 1)]);
    walk[1].consent = None;
    assert_eq!(refused(walk), Some(MalformedAnnouncement::MissingConsent));

    let mut walk = path(1, &[(2, 1)]);
    walk[1].seq = 7;
    assert_eq!(refused(walk), Some(MalformedAnnouncement::BadSignature));

    let above = path(1, &[(2, 1)]);
    let elsewhere = Some(consent(5, 9, 1).signature());
    let mut walk = above.clone();
    walk.push(Hop {
        key: key(9),
        cost: 1,
        seq: 0,
        consent: elsewhere,
        signature: signer(9).sign(&signed_bytes(&above, key(9), 1, 0, elsewhere)),
    });
    assert_eq!(refused(walk), Some(MalformedAnnouncement::BadConsent));

    assert_eq!(refused(path(1, &[(2, 1), (3, 9)])), None);
}

#[test]
fn every_flaw_in_a_claim_has_its_name() {
    refuses_claim(&[], Some(flood::claim::MalformedAnnouncement::EmptyPath));
    refuses_claim(
        &[(1, 1)],
        Some(flood::claim::MalformedAnnouncement::CostAtRoot),
    );
    refuses_claim(
        &[(1, 0), (2, 0)],
        Some(flood::claim::MalformedAnnouncement::FreeLink),
    );
    refuses_claim(
        &[(1, 0), (2, 1), (1, 1)],
        Some(flood::claim::MalformedAnnouncement::RepeatedKey),
    );
    refuses_claim(&[(1, 0), (2, 1)], None);
}

fn refuses_claim(hops: &[(u8, u64)], flaw: Option<flood::claim::MalformedAnnouncement>) {
    let path = hops
        .iter()
        .map(|&(n, cost)| flood::claim::Hop { key: key(n), cost })
        .collect();
    assert_eq!(flood::claim::Announcement::new(0, path).err(), flaw);
}

#[test]
fn flaws_and_faults_are_told_in_words() {
    assert_eq!(
        MalformedAnnouncement::BadConsent.text(),
        "announcement hop's consent was not given by the node above it"
    );
    assert_eq!(
        tree::MalformedAnnouncement::MissingConsent.text(),
        "announcement hop sits below a node that did not consent"
    );
    assert_eq!(
        blackwood::tree::MalformedAnnouncement::FreeLink.text(),
        "announcement path contains a link costing nothing"
    );
    assert_eq!(
        flood::claim::MalformedAnnouncement::RepeatedKey.text(),
        "announcement path repeats a key"
    );
    assert_eq!(
        SendError::Unknown.text(),
        "destination has not been looked up"
    );
    assert_eq!(SendError::NoRoute.text(), "no route to destination");
    assert_eq!(
        Eviction {
            peer: key(0xab),
            fault: Fault::ForgedAnswer,
        }
        .text(),
        format!(
            "{} answered a search with something unsigned",
            "ab".repeat(32)
        )
    );
    assert_eq!(
        Fault::MisdirectedConsent.text(),
        "gave a consent meant for somebody else"
    );
}

#[test]
fn a_consent_is_rebuilt_only_if_its_parent_signed_it() {
    let genuine = consent(1, 2, 7);
    assert_eq!(
        Consent::new::<Insecure>(key(1), key(2), cost(7), genuine.signature()),
        Some(genuine)
    );
    for (parent, child, price) in [(2, 2, 7), (1, 3, 7), (1, 2, 8)] {
        assert_eq!(
            Consent::new::<Insecure>(key(parent), key(child), cost(price), genuine.signature()),
            None
        );
    }
    assert_eq!(genuine.cost(), cost(7));
}

fn node_below_the_root() -> Node<Insecure> {
    let mut node = Node::new(0, signer(2), Timing::milliseconds());
    node.add_peer(0, key(1), Cost::unit());
    node.handle(0, key(1), Message::Consent(consent(1, 2, 1)));
    node.handle(0, key(1), Message::Announce(announcement(1, &[])));
    node
}

#[test]
fn a_settled_node_has_nothing_left_to_say() {
    let mut node = node_below_the_root();
    assert!(node.tick(0).is_empty());
    assert!(node.tick(1).is_empty());
    assert_eq!(node.parent(), Some(key(1)));
}

#[test]
fn stamps_only_climb() {
    let mut node = node_below_the_root();
    let mut last = node.path()[1].seq;
    for now in 1..=5 {
        node.tick(now * Timing::milliseconds().refresh);
        let seq = node.path().last().expect("a path").seq;
        assert!(seq > last, "reissued or moved, and stamped afresh");
        last = seq;
    }
}

#[test]
fn a_forgotten_peer_starts_over() {
    let mut node = node_below_the_root();
    let late = announcement(1, &[])
        .with_seq(&signer(1), 900)
        .expect("the author");
    node.handle(1, key(1), Message::Announce(late));
    let expiry = Timing::milliseconds().expiry + 1;
    node.tick(expiry);
    assert!(node.known().is_empty());
    node.handle(expiry, key(1), Message::Announce(announcement(1, &[])));
    assert_eq!(node.known(), vec![key(1)]);
    assert_eq!(node.root(), key(1));
}

#[test]
fn claims_heard_in_either_order_leave_the_same_beliefs() {
    let first = flood::claim::Announcement::root_of(key(9), 4);
    let second = flood::claim::Announcement::root_of(key(9), 5);
    let hear = |claims: [&flood::claim::Announcement; 2]| {
        let mut node = flood::node::Node::new(0, key(2));
        node.add_peer(0, key(1), Cost::unit());
        for claim in claims {
            node.handle(0, key(1), flood::message::Message::Announce(claim.clone()));
        }
        // What a node believes is what it tells a newcomer.
        node.add_peer(0, key(7), Cost::unit())
    };
    assert_eq!(hear([&first, &second]), hear([&second, &first]));
}

/// Hands messages round a line of nodes until it falls quiet.
fn settle(line: &mut [Node<Insecure>], mut queue: Vec<(PublicKey, PublicKey, Message)>) {
    while !queue.is_empty() {
        let (to, from, message) = queue.remove(0);
        let node = line
            .iter_mut()
            .find(|node| node.key() == to)
            .expect("on the line");
        for envelope in node.handle(0, from, message) {
            queue.push((envelope.to, to, envelope.message));
        }
    }
}

#[test]
fn a_search_along_a_line_is_answered_and_the_answer_comes_home() {
    let mut line: Vec<_> = (1..=4)
        .map(|n| Node::new(0, signer(n), Timing::milliseconds()))
        .collect();
    let mut queue = Vec::new();
    for n in 1..4u8 {
        for (near, far) in [(n, n + 1), (n + 1, n)] {
            for envelope in line[near as usize - 1].add_peer(0, key(far), Cost::unit()) {
                queue.push((envelope.to, key(near), envelope.message));
            }
        }
    }
    settle(&mut line, queue);
    assert!(!line[3].known().contains(&key(1)));

    let nonce = Nonce::new([7; NONCE_LEN]);
    let search = line[3].lookup(0, key(1), nonce);
    assert_eq!(search.len(), 1);
    assert_eq!(
        search[0].message,
        Message::Lookup(Lookup {
            target: key(1),
            nonce,
            trail: vec![key(4)],
        })
    );
    let queue = search
        .into_iter()
        .map(|envelope| (envelope.to, key(4), envelope.message))
        .collect();
    settle(&mut line, queue);
    assert!(line[3].known().contains(&key(1)), "the answer came home");

    // And a packet sent on the strength of it gets there.
    let queue = line[3]
        .send(key(1), b"found you".to_vec())
        .expect("a route")
        .into_iter()
        .map(|envelope| (envelope.to, key(4), envelope.message))
        .collect();
    settle(&mut line, queue);
    assert_eq!(line[0].take_delivered()[0].payload, b"found you");
    for node in &mut line {
        assert!(node.take_evicted().is_empty());
    }
}

#[test]
fn an_answer_serves_one_search_and_no_other() {
    let mut node = node_below_the_root();
    let nonce = Nonce::new([1; NONCE_LEN]);
    let found = Found::answer(
        &signer(3),
        announcement(1, &[(3, 1)]),
        nonce,
        vec![key(2)],
    );
    node.handle(0, key(1), Message::Found(found.clone()));
    assert!(!node.known().contains(&key(3)), "nobody asked");

    node.lookup(0, key(3), nonce);
    node.handle(0, key(1), Message::Found(found.clone()));
    assert!(node.known().contains(&key(3)));

    node.tick(Timing::milliseconds().expiry);
    node.handle(0, key(1), Message::Found(found));
    assert!(!node.known().contains(&key(3)), "a spent answer is no answer");
}

#[test]
fn an_answer_that_is_nobodys_costs_the_peer_its_link() {
    let mut node = node_below_the_root();
    let nonce = Nonce::new([1; NONCE_LEN]);
    node.lookup(0, key(3), nonce);
    let mut found = Found::answer(
        &signer(3),
        announcement(1, &[(3, 1)]),
        nonce,
        vec![key(2)],
    );
    found.proof = Signature::new([0; SIGNATURE_LEN]);
    assert!(!found.verify::<Insecure>());
    node.handle(0, key(1), Message::Found(found));
    assert_eq!(
        node.take_evicted(),
        vec![Eviction {
            peer: key(1),
            fault: Fault::ForgedAnswer,
        }]
    );
    assert!(node.peers().is_empty());
}

#[test]
fn a_summary_claims_the_node_that_sends_it() {
    let node = node_below_the_root();
    let told = node.summary_for(key(1)).expect("a tree link");
    let mut expected = Summary::new();
    expected.insert(key(2));
    assert_eq!(told, expected);
}
