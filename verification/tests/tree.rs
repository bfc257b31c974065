//! Signed walks down the tree, and what crossing them costs.

use std::cmp::Ordering;

use blackwood::cost::Cost;
use blackwood::key::{PublicKey, KEY_LEN};
use blackwood::signature::Insecure;
use blackwood::tree::{distance, Announcement, Hop, MalformedAnnouncement};

fn key(n: u8) -> PublicKey {
    PublicKey::new([n; KEY_LEN])
}

fn signer(n: u8) -> Insecure {
    Insecure::for_key(key(n))
}

fn cost(n: u64) -> Cost {
    Cost::new(n).expect("a test cost is never zero")
}

/// An announcement for the node at the end of `root` + `steps`, built the
/// way a real one is: each node attaching below the last over a link of the
/// cost written beside it, and signing its own hop as it goes.
fn announcement(root: u8, steps: &[(u8, u64)]) -> Announcement {
    let mut announcement = Announcement::root_of(&signer(root), 0);
    for &(node, price) in steps {
        announcement = announcement
            .extend(&signer(node), cost(price), 0)
            .expect("the test path holds distinct keys");
    }
    announcement
}

fn path(root: u8, steps: &[(u8, u64)]) -> Vec<Hop> {
    announcement(root, steps).path().to_vec()
}

/// The walk a path describes, with the stamps and signatures set aside.
fn walk(path: &[Hop]) -> Vec<(PublicKey, u64)> {
    path.iter().map(|hop| (hop.key, hop.cost)).collect()
}

#[test]
fn a_cost_is_never_zero() {
    assert_eq!(Cost::new(0), None);
    assert_eq!(Cost::new(1), Some(Cost::unit()));
    assert_eq!(cost(7).get(), 7);
}

#[test]
fn rejects_malformed_paths() {
    assert_eq!(
        Announcement::new::<Insecure>(vec![]),
        Err(MalformedAnnouncement::EmptyPath)
    );

    let mut repeated = path(1, &[(2, 1)]);
    repeated.push(Hop {
        key: key(1),
        ..repeated[1]
    });
    assert_eq!(
        Announcement::new::<Insecure>(repeated),
        Err(MalformedAnnouncement::RepeatedKey)
    );

    let mut priced_root = path(1, &[]);
    priced_root[0].cost = 1;
    assert_eq!(
        Announcement::new::<Insecure>(priced_root),
        Err(MalformedAnnouncement::CostAtRoot)
    );

    let mut free = path(1, &[(2, 1)]);
    free[1].cost = 0;
    assert_eq!(
        Announcement::new::<Insecure>(free),
        Err(MalformedAnnouncement::FreeLink)
    );

    assert!(Announcement::new::<Insecure>(path(1, &[(2, 3)])).is_ok());
}

#[test]
fn rejects_a_walk_that_was_altered_after_it_was_signed() {
    // Structurally perfect, and a lie: the price of the link into 2 rubbed
    // out and a cheaper one written in, which would put 2 nearer the root
    // than it has any right to be.
    let mut cheaper = path(1, &[(2, 5)]);
    cheaper[1].cost = 1;
    assert_eq!(
        Announcement::new::<Insecure>(cheaper),
        Err(MalformedAnnouncement::BadSignature)
    );

    let mut renamed = path(1, &[(2, 1)]);
    renamed[1].key = key(9);
    assert_eq!(
        Announcement::new::<Insecure>(renamed),
        Err(MalformedAnnouncement::BadSignature)
    );

    let mut restamped = path(1, &[(2, 1)]);
    restamped[1].seq = 500;
    assert_eq!(
        Announcement::new::<Insecure>(restamped),
        Err(MalformedAnnouncement::BadSignature)
    );
}

#[test]
fn every_hop_is_signed_by_the_node_it_names() {
    let announcement = announcement(1, &[(2, 1), (3, 1)]);
    assert!(announcement.verify::<Insecure>());

    // Not one signature over the whole thing by the author: three, one per
    // node, so no single node's word covers anybody else's position.
    let signatures: Vec<_> = announcement
        .path()
        .iter()
        .map(|hop| hop.signature)
        .collect();
    assert_eq!(signatures.len(), 3);
    assert!(
        signatures[0] != signatures[1] && signatures[1] != signatures[2],
        "hops signed alike would mean they were not signed separately"
    );
}

#[test]
fn a_hop_cannot_be_lifted_out_of_one_walk_into_another() {
    // 3 sits below 2 in one tree and below 4 in another, at the same price
    // and stamped the same. The two hops for 3 describe an identical step,
    // but each signature commits to the whole walk above it, so neither
    // hop is any use in the other's announcement.
    let below_two = announcement(1, &[(2, 1), (3, 1)]);
    let below_four = announcement(1, &[(4, 1), (3, 1)]);

    let mut spliced = below_four.path().to_vec();
    spliced[2] = below_two.path()[2];
    assert_eq!(spliced[2].key, below_four.path()[2].key);
    assert_eq!(spliced[2].cost, below_four.path()[2].cost);
    assert_eq!(spliced[2].seq, below_four.path()[2].seq);

    assert!(!Announcement::unchecked(spliced).verify::<Insecure>());
}

#[test]
fn extending_records_what_the_link_cost() {
    let root = Announcement::root_of(&signer(1), 0);
    assert_eq!(root.cost_to_root(), 0, "the root is already there");

    let child = root
        .extend(&signer(2), cost(4), 0)
        .expect("distinct key attaches");
    assert_eq!(walk(child.path()), [(key(1), 0), (key(2), 4)]);
    assert_eq!(child.parent(), Some(key(1)));
    assert_eq!(child.author(), key(2));
    assert_eq!(child.root(), key(1));
    assert_eq!(child.cost_to_root(), 4);
    assert!(child.verify::<Insecure>());

    let grandchild = child
        .extend(&signer(3), cost(5), 0)
        .expect("distinct key attaches");
    assert_eq!(grandchild.cost_to_root(), 9, "costs add up the path");
    assert!(grandchild.verify::<Insecure>());
}

#[test]
fn extending_refuses_to_form_a_loop() {
    let child = announcement(1, &[(2, 1)]);
    assert_eq!(child.extend(&signer(1), Cost::unit(), 0), None);
    assert_eq!(child.extend(&signer(2), Cost::unit(), 0), None);
}

#[test]
fn a_root_has_no_parent() {
    assert_eq!(Announcement::root_of(&signer(1), 0).parent(), None);
}

#[test]
fn restamping_leaves_the_walk_where_it_was_and_still_checks_out() {
    let before = announcement(1, &[(2, 1), (3, 1)]);
    let after = before
        .with_seq(&signer(3), 7)
        .expect("the author may restamp");

    assert_eq!(after.seq(), 7);
    assert!(after.same_position(&before), "the walk did not move");
    assert_eq!(walk(after.path()), walk(before.path()));
    assert!(
        after.verify::<Insecure>(),
        "and it is signed for the new one"
    );
    assert!(after.supersedes(&before));

    // The hops above are untouched: only their author can restamp them,
    // and only the last hop had anything to restamp.
    assert_eq!(after.path()[..2], before.path()[..2]);
}

#[test]
fn only_the_author_can_restamp() {
    let announcement = announcement(1, &[(2, 1), (3, 1)]);
    assert_eq!(announcement.with_seq(&signer(2), 7), None, "its parent");
    assert_eq!(announcement.with_seq(&signer(9), 7), None, "a stranger");
}

#[test]
fn the_same_walk_is_the_same_position_however_it_was_stamped() {
    let announcement = announcement(1, &[(2, 1)]);
    let restamped = announcement
        .with_seq(&signer(2), 99)
        .expect("the author may restamp");

    assert!(announcement.same_position(&restamped));
    assert_ne!(announcement, restamped, "the values themselves differ");
    assert!(!announcement.same_position(&Announcement::root_of(&signer(1), 0)));
}

#[test]
fn later_sequence_numbers_supersede() {
    let old = Announcement::root_of(&signer(1), 4);
    let new = Announcement::root_of(&signer(1), 5);
    assert!(new.supersedes(&old));
    assert!(!old.supersedes(&new));
    assert!(!new.supersedes(&new));
}

#[test]
fn preference_favours_the_smallest_root_then_the_cheapest_walk_to_it() {
    let low_root_dear = announcement(1, &[(9, 4), (5, 4)]);
    let high_root_cheap = announcement(2, &[(5, 1)]);
    assert_eq!(
        low_root_dear.preference_cmp(&high_root_cheap),
        Ordering::Less,
        "a smaller root outweighs any price"
    );

    let cheap = announcement(1, &[(5, 1)]);
    assert_eq!(cheap.preference_cmp(&low_root_dear), Ordering::Less);
}

#[test]
fn preference_takes_the_long_way_round_when_it_is_cheaper() {
    let direct = announcement(1, &[(5, 10)]);
    let round_about = announcement(1, &[(3, 1), (4, 1), (5, 1)]);
    assert_eq!(
        round_about.preference_cmp(&direct),
        Ordering::Less,
        "three cheap links beat one expensive one"
    );
}

#[test]
fn preference_breaks_a_priced_tie_on_hops() {
    let two_hops = announcement(1, &[(3, 1), (5, 1)]);
    let one_hop = announcement(1, &[(5, 2)]);
    assert_eq!(two_hops.cost_to_root(), one_hop.cost_to_root());
    assert_eq!(one_hop.preference_cmp(&two_hops), Ordering::Less);
}

#[test]
fn preference_does_not_move_when_a_sequence_number_does() {
    // Two candidates always part company at some hop's key, which is
    // compared before anything a restamp could reach. If they did not, a
    // node would change its mind every time somebody above it reissued.
    let left = announcement(1, &[(3, 1), (5, 1)]);
    let right = announcement(1, &[(4, 1), (5, 1)]);
    let before = left.preference_cmp(&right);

    let restamped = left.with_seq(&signer(5), 400).expect("the author");
    assert_eq!(restamped.preference_cmp(&right), before);
}

#[test]
fn distance_counts_hops_when_every_link_costs_the_same() {
    let root = path(1, &[]);
    let child = path(1, &[(2, 1)]);
    let grandchild = path(1, &[(2, 1), (3, 1)]);
    let cousin = path(1, &[(4, 1)]);

    assert_eq!(distance(&root, &root), 0);
    assert_eq!(distance(&root, &child), 1);
    assert_eq!(distance(&root, &grandchild), 2);
    assert_eq!(distance(&grandchild, &cousin), 3);
    assert_eq!(distance(&cousin, &grandchild), 3, "distance is symmetric");
}

#[test]
fn distance_adds_up_the_links_through_the_common_ancestor() {
    let grandchild = path(1, &[(2, 5), (3, 7)]);
    let cousin = path(1, &[(4, 2)]);

    assert_eq!(distance(&grandchild, &grandchild), 0);
    assert_eq!(distance(&path(1, &[(2, 5)]), &grandchild), 7);
    assert_eq!(
        distance(&grandchild, &cousin),
        7 + 5 + 2,
        "up to the root and back down"
    );
}

#[test]
fn distance_ignores_how_a_shared_prefix_was_stamped() {
    // Two nodes holding differently stamped copies of the same walk must
    // agree on where it forks, or a packet would appear to make progress
    // it had not made.
    let mine = announcement(1, &[(2, 1), (3, 1)]);
    let theirs = announcement(1, &[(2, 1), (4, 1)]);
    let restamped = theirs.with_seq(&signer(4), 300).expect("the author");

    assert_eq!(
        distance(mine.path(), theirs.path()),
        distance(mine.path(), restamped.path())
    );
}
