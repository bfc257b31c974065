//! Walks that stand on consent, measured in links.

use blackwood::key::{PublicKey, KEY_LEN};
use blackwood::routing::tree::{
    distance, signed_bytes, Announcement, Consent, Hop, MalformedAnnouncement,
};
use blackwood::signature::{Insecure, Signature, Signer, SIGNATURE_LEN};

fn key(n: u8) -> PublicKey {
    PublicKey::new([n; KEY_LEN])
}

fn signer(n: u8) -> Insecure {
    Insecure::for_key(key(n))
}

/// `parent` agreeing to carry `child`.
fn consent(parent: u8, child: u8) -> Consent {
    Consent::issue(&signer(parent), key(child))
}

/// An announcement for the node at the end of `root` + `steps`, built the
/// way a real one is: each node attaching below the last on that node's
/// consent, and signing its own hop as it goes.
fn announcement(root: u8, steps: &[u8]) -> Announcement {
    let mut announcement = Announcement::root_of(&signer(root), 0);
    let mut above = root;
    for &node in steps {
        announcement = announcement
            .extend(&signer(node), &consent(above, node), 0)
            .expect("the test path holds distinct keys");
        above = node;
    }
    announcement
}

fn path(root: u8, steps: &[u8]) -> Vec<Hop> {
    announcement(root, steps).path().to_vec()
}

/// The walk a path describes, with the stamps and signatures set aside.
fn walk(path: &[Hop]) -> Vec<PublicKey> {
    path.iter().map(|hop| hop.key).collect()
}

#[test]
fn tree_rejects_malformed_paths() {
    assert_eq!(
        Announcement::new::<Insecure>(vec![]),
        Err(MalformedAnnouncement::EmptyPath)
    );

    let mut repeated = path(1, &[2]);
    repeated.push(Hop {
        key: key(1),
        ..repeated[1]
    });
    assert_eq!(
        Announcement::new::<Insecure>(repeated),
        Err(MalformedAnnouncement::RepeatedKey)
    );

    assert!(Announcement::new::<Insecure>(path(1, &[2])).is_ok());
}

#[test]
fn tree_rejects_a_walk_that_was_altered_after_it_was_signed() {
    // Structurally perfect, and a lie: a hop cut out of the middle, which
    // would put 3 one link from the root instead of two and pull towards
    // it every node choosing a parent nearby.
    let mut shortened = path(1, &[2, 3]);
    shortened.remove(1);
    assert_eq!(
        Announcement::new::<Insecure>(shortened),
        Err(MalformedAnnouncement::BadSignature)
    );

    let mut renamed = path(1, &[2]);
    renamed[1].key = key(9);
    assert_eq!(
        Announcement::new::<Insecure>(renamed),
        Err(MalformedAnnouncement::BadSignature)
    );

    let mut restamped = path(1, &[2]);
    restamped[1].seq = 500;
    assert_eq!(
        Announcement::new::<Insecure>(restamped),
        Err(MalformedAnnouncement::BadSignature)
    );
}

#[test]
fn rejects_a_walk_altered_above_the_node_that_would_gain_by_it() {
    // The lie worth telling is not about one's own hop. 3 rewrites the
    // stamp on 2's hop, above it, so that its own copy of the walk outranks
    // the copy everybody else is holding when the two are compared — and
    // then signs its own hop over the altered walk, perfectly properly,
    // because that hop is the one thing here it is entitled to sign.
    //
    // Every hop below an alteration can be re-made like this by whoever
    // holds the key it names. What cannot be re-made is the signature on
    // the altered hop itself, which is why the check is per hop and not
    // merely a matter of following the chain down from the bottom.
    let mut above = path(1, &[2]);
    above[1].seq = 900;
    let forged = Announcement::unchecked(above)
        .extend(&signer(3), &consent(2, 3), 0)
        .expect("distinct key attaches");

    assert!(
        Insecure::verify(
            forged.path()[2].key,
            &signed_bytes(&forged.path()[..2], key(3), forged.path()[2].consent, 0),
            &forged.path()[2].signature,
        ),
        "3's own hop is beyond reproach"
    );
    assert!(
        !forged.verify::<Insecure>(),
        "and 2's, which it rewrote, is not"
    );
    assert_eq!(
        Announcement::new::<Insecure>(forged.path().to_vec()),
        Err(MalformedAnnouncement::BadSignature)
    );
}

#[test]
fn tree_every_hop_is_signed_by_the_node_it_names() {
    let announcement = announcement(1, &[2, 3]);
    assert!(announcement.verify::<Insecure>());

    // Not one signature over the whole thing by the author: three, one per
    // node, so no single node's word covers anybody else's position.
    let signatures: Vec<_> = announcement
        .path()
        .iter()
        .map(|hop| hop.signature)
        .collect();
    assert_eq!(signatures.len(), 3);
    assert!(
        signatures[0] != signatures[1] && signatures[1] != signatures[2],
        "hops signed alike would mean they were not signed separately"
    );
}

#[test]
fn tree_a_hop_cannot_be_lifted_out_of_one_walk_into_another() {
    // 3 sits below 2 in one tree and below 4 in another, stamped the same.
    // The two hops for 3 describe an identical step, but each signature
    // commits to the whole walk above it, so neither hop is any use in the
    // other's announcement.
    let below_two = announcement(1, &[2, 3]);
    let below_four = announcement(1, &[4, 3]);

    let mut spliced = below_four.path().to_vec();
    spliced[2] = below_two.path()[2];
    assert_eq!(spliced[2].key, below_four.path()[2].key);
    assert_eq!(spliced[2].seq, below_four.path()[2].seq);

    assert!(!Announcement::unchecked(spliced).verify::<Insecure>());
}

#[test]
fn extending_adds_one_link_to_the_walk() {
    let root = Announcement::root_of(&signer(1), 0);
    assert_eq!(root.depth(), 0, "the root is already there");

    let child = root
        .extend(&signer(2), &consent(1, 2), 0)
        .expect("distinct key attaches");
    assert_eq!(walk(child.path()), [key(1), key(2)]);
    assert_eq!(child.parent(), Some(key(1)));
    assert_eq!(child.author(), key(2));
    assert_eq!(child.root(), key(1));
    assert_eq!(child.depth(), 1);
    assert!(child.verify::<Insecure>());

    let grandchild = child
        .extend(&signer(3), &consent(2, 3), 0)
        .expect("distinct key attaches");
    assert_eq!(grandchild.depth(), 2, "links add up the path");
    assert!(grandchild.verify::<Insecure>());
}

#[test]
fn tree_extending_refuses_to_form_a_loop() {
    let child = announcement(1, &[2]);
    assert_eq!(child.extend(&signer(1), &consent(2, 1), 0), None);
    assert_eq!(child.extend(&signer(2), &consent(2, 2), 0), None);
}

#[test]
fn extending_refuses_a_consent_meant_for_somebody_else() {
    let child = announcement(1, &[2]);
    assert_eq!(
        child.extend(&signer(3), &consent(2, 4), 0),
        None,
        "2 agreed to carry 4, not 3"
    );
    assert_eq!(
        child.extend(&signer(3), &consent(1, 3), 0),
        None,
        "1 is not the node 3 would be sitting below"
    );
    assert!(
        child.extend(&signer(3), &consent(2, 3), 0).is_some(),
        "the bargain 3 actually holds"
    );
}

#[test]
fn a_walk_stands_on_consent_at_every_hop() {
    // A node that has seen somebody else's announcement — from a lookup
    // answer, say — holds every signature in it, and can sign its own hop
    // onto the end perfectly properly. What it cannot supply is the other
    // half of the bargain, and that is what stops it.
    let stranger = announcement(1, &[2]);
    let mut spliced = stranger.path().to_vec();
    spliced.push(Hop {
        key: key(9),
        seq: 0,
        consent: Some(consent(2, 9).signature()),
        signature: Signature::new([0; SIGNATURE_LEN]),
    });
    // With a consent 2 really gave, only the intruder's own hop is wrong.
    assert_eq!(
        Announcement::new::<Insecure>(spliced.clone()),
        Err(MalformedAnnouncement::BadSignature)
    );

    // Signed properly by the intruder, but sitting on nobody's agreement.
    let unwelcome = Announcement::unchecked(stranger.path().to_vec())
        .extend(&signer(9), &consent(2, 9), 0)
        .expect("the intruder can sign its own hop");
    assert!(unwelcome.verify::<Insecure>(), "2 did agree to this one");

    let mut without = unwelcome.path().to_vec();
    without[2].consent = None;
    assert_eq!(
        Announcement::new::<Insecure>(without),
        Err(MalformedAnnouncement::MissingConsent)
    );

    // A consent from somebody other than the node above. The intruder
    // signs its own hop perfectly properly over it — that hop is the one
    // thing here it is entitled to sign — so nothing about the walk gives
    // it away except the agreement it is standing on.
    let above = announcement(1, &[2]).path().to_vec();
    let elsewhere = consent(5, 9).signature();
    let mut borrowed = above.clone();
    borrowed.push(Hop {
        key: key(9),
        seq: 0,
        consent: Some(elsewhere),
        signature: signer(9).sign(&signed_bytes(&above, key(9), Some(elsewhere), 0)),
    });
    assert_eq!(
        Announcement::new::<Insecure>(borrowed),
        Err(MalformedAnnouncement::BadConsent),
        "5 is not the node 9 is sitting below"
    );

    let mut at_root = announcement(1, &[]).path().to_vec();
    at_root[0].consent = Some(consent(2, 1).signature());
    assert_eq!(
        Announcement::new::<Insecure>(at_root),
        Err(MalformedAnnouncement::ConsentAtRoot)
    );
}

#[test]
fn tree_a_root_has_no_parent() {
    assert_eq!(Announcement::root_of(&signer(1), 0).parent(), None);
}

#[test]
fn tree_restamping_leaves_the_walk_where_it_was_and_still_checks_out() {
    let before = announcement(1, &[2, 3]);
    let after = before
        .with_seq(&signer(3), 7)
        .expect("the author may restamp");

    assert_eq!(after.seq(), 7);
    assert!(after.same_position(&before), "the walk did not move");
    assert_eq!(walk(after.path()), walk(before.path()));
    assert!(
        after.verify::<Insecure>(),
        "and it is signed for the new one"
    );
    assert!(after.supersedes(&before));

    // The hops above are untouched: only their author can restamp them,
    // and only the last hop had anything to restamp.
    assert_eq!(after.path()[..2], before.path()[..2]);
}

#[test]
fn tree_only_the_author_can_restamp() {
    let announcement = announcement(1, &[2, 3]);
    assert_eq!(announcement.with_seq(&signer(2), 7), None, "its parent");
    assert_eq!(announcement.with_seq(&signer(9), 7), None, "a stranger");
}

#[test]
fn tree_the_same_walk_is_the_same_position_however_it_was_stamped() {
    let announcement = announcement(1, &[2]);
    let restamped = announcement
        .with_seq(&signer(2), 99)
        .expect("the author may restamp");

    assert!(announcement.same_position(&restamped));
    assert_ne!(announcement, restamped, "the values themselves differ");
    assert!(!announcement.same_position(&Announcement::root_of(&signer(1), 0)));
}

#[test]
fn a_position_is_the_nodes_and_nothing_else() {
    // Which nodes, in which order, is the whole of where a node sits, so
    // the only way to move is to change them. What a link costs is not in
    // here to change: it is each node's own measurement of its own links,
    // and re-measuring one never leaves a node with something to say.
    let position = announcement(1, &[2, 3]);
    assert!(position.same_position(&announcement(1, &[2, 3])));
    assert!(!position.same_position(&announcement(1, &[4, 3])));
    assert!(!position.same_position(&announcement(1, &[2])));
}

#[test]
fn tree_later_sequence_numbers_supersede() {
    let old = Announcement::root_of(&signer(1), 4);
    let new = Announcement::root_of(&signer(1), 5);
    assert!(new.supersedes(&old));
    assert!(!old.supersedes(&new));
    assert!(!new.supersedes(&new));
}

#[test]
fn a_tie_on_sequence_numbers_is_broken_by_the_walk() {
    // One author, one sequence number, two different walks: a node that
    // moved without restamping, or two copies of one that crossed. The
    // rule has to answer anyway and answer the same way everywhere, or
    // two nodes holding both would keep different ones and disagree
    // about where their common neighbour sits.
    let through_two = announcement(1, &[2, 5]);
    let through_three = announcement(1, &[3, 5]);
    assert_eq!(through_two.seq(), through_three.seq());

    assert!(through_three.supersedes(&through_two));
    assert!(
        !through_two.supersedes(&through_three),
        "and not the reverse"
    );
}

#[test]
fn distance_counts_the_links_through_the_common_ancestor() {
    let root = path(1, &[]);
    let child = path(1, &[2]);
    let grandchild = path(1, &[2, 3]);
    let cousin = path(1, &[4]);

    assert_eq!(distance(&root, &root), 0);
    assert_eq!(distance(&root, &child), 1);
    assert_eq!(distance(&root, &grandchild), 2);
    assert_eq!(
        distance(&grandchild, &cousin),
        3,
        "up to the root and back down"
    );
    assert_eq!(distance(&cousin, &grandchild), 3, "distance is symmetric");
}

#[test]
fn two_walks_that_disagree_about_the_root_share_no_prefix() {
    // Nothing is comparable across two trees. What comes out is the two
    // walks laid end to end, each counted from its own root, and the root
    // hops are in there because neither walk shares them. The number is
    // well defined and means nothing, which is exactly the transient state
    // forwarding survives by demanding strict progress: offered a figure
    // like this one, a node drops the packet rather than trusting it.
    let mine = path(1, &[2]);
    let theirs = path(4, &[5]);

    assert_eq!(distance(&mine, &theirs), 2 + 2);
}

#[test]
fn tree_distance_ignores_how_a_shared_prefix_was_stamped() {
    // Two nodes holding differently stamped copies of the same walk must
    // agree on where it forks, or a packet would appear to make progress
    // it had not made. The stamp that has to be overlooked is one *inside*
    // the shared part: 2 reissued, and only one of these two walks was
    // built after it did.
    let mine = announcement(1, &[2, 3]);
    let reissued = announcement(1, &[2])
        .with_seq(&signer(2), 300)
        .expect("the author may restamp");
    let theirs = reissued
        .extend(&signer(4), &consent(2, 4), 0)
        .expect("distinct key attaches");

    assert_ne!(
        mine.path()[1],
        theirs.path()[1],
        "the same hop, stamped twice"
    );
    assert_eq!(mine.path()[1].key, theirs.path()[1].key);
    assert_eq!(
        distance(mine.path(), theirs.path()),
        2,
        "they still fork below 2, not at it"
    );
}
