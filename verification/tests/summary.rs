//! Bloom filters over keys.

use blackwood::key::{PublicKey, KEY_LEN};
use blackwood::summary::Summary;

fn key(n: u8) -> PublicKey {
    PublicKey::new([n; KEY_LEN])
}

#[test]
fn an_empty_summary_claims_nothing() {
    let summary = Summary::new();
    assert_eq!(summary.filled(), 0);
    assert!(!summary.contains(key(1)));
}

#[test]
fn what_was_inserted_is_never_missed() {
    let mut summary = Summary::new();
    for n in 0..32 {
        summary.insert(key(n));
    }
    for n in 0..32 {
        assert!(summary.contains(key(n)), "{n} went missing");
    }
}

#[test]
fn keys_land_on_different_bits() {
    let mut summary = Summary::new();
    for n in 0..32 {
        summary.insert(key(n));
    }
    // Thirty-two keys setting four bits each land on 128 positions out of
    // 256. Some collide; a hash that spread them badly would show up here
    // as a summary far emptier than this bound allows.
    assert!(
        summary.filled() > 80,
        "only {} bits set, so keys are colliding",
        summary.filled()
    );
    assert!(summary.filled() <= 128);
}

#[test]
fn a_union_claims_what_either_side_did() {
    let mut left = Summary::new();
    left.insert(key(1));
    let mut right = Summary::new();
    right.insert(key(2));

    left.union(&right);
    assert!(left.contains(key(1)));
    assert!(left.contains(key(2)));
    assert!(right.contains(key(2)));
    assert!(!right.contains(key(1)), "the union went one way only");
}

#[test]
fn a_summary_holding_few_keys_says_no_to_the_rest() {
    let mut summary = Summary::new();
    for n in 0..8 {
        summary.insert(key(n));
    }
    // Eight keys leave the filter sparse enough that a false positive here
    // would mean the hash, not the mathematics, had gone wrong.
    let wrong = (8..=255).filter(|&n| summary.contains(key(n))).count();
    assert_eq!(wrong, 0, "{wrong} keys tested present by mistake");
}

#[test]
fn a_full_summary_says_yes_to_everything() {
    // Nothing here breaks when a summary saturates; it just stops pruning,
    // which is the graceful end of the trade rather than a failure.
    let mut summary = Summary::new();
    for n in 0..=255 {
        summary.insert(key(n));
    }
    // 256 keys setting four bits apiece leave about e^-4 of the filter
    // clear, so it saturates without ever quite filling.
    assert!(summary.filled() > 240, "only {} bits set", summary.filled());
    assert!(summary.contains(key(7)));
    let wrong = (0..=255).filter(|&n| !summary.contains(key(n))).count();
    assert_eq!(wrong, 0, "a saturated summary still misses nothing");
}
