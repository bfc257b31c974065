//! Keys, hashes, costs and summaries, by exact value.

use blackwood::cost::Cost;
use blackwood::ed25519::Ed25519;
use blackwood::hash::{fnv1a, mix};
use blackwood::key::{PublicKey, KEY_LEN};
use blackwood::routing::message::{Nonce, NONCE_LEN};
use blackwood::signature::{Insecure, Signature, Signer, SIGNATURE_LEN};
use blackwood::summary::Summary;

fn key(n: u8) -> PublicKey {
    PublicKey::new([n; KEY_LEN])
}

#[test]
fn the_hash_is_fnv_1a_salted() {
    assert_eq!(fnv1a(0, &[]), 0xaf63_bd4c_8601_b7df);
    assert_eq!(fnv1a(3, b"abc"), 0x3418_6a89_cedc_1e56);
    assert_ne!(fnv1a(0, b"abc"), fnv1a(1, b"abc"));
}

#[test]
fn the_mix_finishes_a_hash() {
    assert_eq!(mix(0), 0);
    assert_eq!(mix(1), 0xff51_afd7_92fd_5b26);
    assert_eq!(mix(fnv1a(0, key(1).as_bytes())), 0xc067_0452_0eb2_0905);
}

#[test]
fn a_key_sets_four_bits() {
    let mut summary = Summary::new();
    summary.insert(key(1));
    assert_eq!(summary.filled(), 4);
    summary.insert(key(1));
    assert_eq!(summary.filled(), 4, "inserting twice changes nothing");
    assert_eq!(summary.label(), "Summary(4/256 bits)");
}

#[test]
fn folding_summaries_is_a_join() {
    let summary_of = |keys: &[u8]| {
        let mut summary = Summary::default();
        for &n in keys {
            summary.insert(key(n));
        }
        summary
    };
    let (one, two, three) = (summary_of(&[1]), summary_of(&[2]), summary_of(&[3]));

    let mut left = one;
    left.union(&two);
    let mut right = two;
    right.union(&one);
    assert_eq!(left, right, "either way round");

    let mut all = left;
    all.union(&three);
    assert_eq!(all, summary_of(&[3, 2, 1]), "in any order");

    let before = all;
    all.union(&one);
    assert_eq!(all, before, "and as often as one likes");
}

#[test]
fn a_stamp_is_a_hash_of_the_key_and_the_message() {
    let signature = Insecure::for_key(key(1)).sign(b"hi");
    assert_eq!(signature.label(), "sig:ab0d55eb…");
    assert_eq!(
        signature.as_bytes()[56..],
        [0x2a, 0x48, 0xd9, 0x40, 0x19, 0x04, 0x23, 0x39]
    );
    assert!(Insecure::verify(key(1), b"hi", &signature));
}

#[test]
fn labels_are_short_and_legible() {
    assert_eq!(key(0x0a).label(), "0a".repeat(32));
    assert_eq!(Nonce::new([0xbe; NONCE_LEN]).label(), "nonce:bebebebe…");
    assert_eq!(
        Signature::new([0x01; SIGNATURE_LEN]).label(),
        "sig:01010101…"
    );
}

#[test]
fn a_cost_is_what_it_was_made_from() {
    assert_eq!(Cost::new(0), None);
    assert_eq!(Cost::new(u64::MAX).map(Cost::get), Some(u64::MAX));
    assert_eq!(Cost::unit().get(), 1);
    assert_eq!(Cost::default(), Cost::unit());
}

/// The first test vector published for ed25519.
const SEED: [u8; 32] = [
    0x9d, 0x61, 0xb1, 0x9d, 0xef, 0xfd, 0x5a, 0x60, 0xba, 0x84, 0x4a, 0xf4, 0x92, 0xec, 0x2c, 0xc4,
    0x44, 0x49, 0xc5, 0x69, 0x7b, 0x32, 0x69, 0x19, 0x70, 0x3b, 0xac, 0x03, 0x1c, 0xae, 0x7f, 0x60,
];

#[test]
fn ed25519_keys_and_signatures_are_the_published_ones() {
    let signer = Ed25519::from_seed(SEED);
    assert_eq!(
        signer.key().label(),
        "d75a980182b10ab7d54bfed3c964073a0ee172f3daa62325af021a68f707511a"
    );
    let signature = signer.sign(b"");
    assert_eq!(signature.label(), "sig:e5564300…");
    assert_eq!(
        signature.as_bytes()[60..],
        [0x8e, 0x7a, 0x10, 0x0b],
        "to the last byte"
    );
    assert!(Ed25519::verify(signer.key(), b"", &signature));
    assert!(!Ed25519::verify(signer.key(), b"x", &signature));
}

#[test]
fn an_identity_built_from_a_signing_key_is_the_same_one() {
    let signing = ed25519_dalek::SigningKey::from_bytes(&SEED);
    let signer = Ed25519::from_signing_key(signing);
    assert_eq!(signer.key(), Ed25519::from_seed(SEED).key());
    assert_eq!(signer.clone().sign(b"a"), signer.sign(b"a"));
    assert_eq!(signer.public_key(), signer.key());
    assert_eq!(
        signer.label(),
        "Ed25519(d75a980182b10ab7d54bfed3c964073a0ee172f3daa62325af021a68f707511a)"
    );
}

#[test]
fn a_signature_altered_anywhere_does_not_check_out() {
    let signer = Ed25519::from_seed([4; 32]);
    let signature = signer.sign(b"where i sit");
    for at in [0, 31, 32, 63] {
        let mut bytes = *signature.as_bytes();
        bytes[at] ^= 1;
        assert!(!Ed25519::verify(
            signer.key(),
            b"where i sit",
            &Signature::new(bytes)
        ));
    }
}
