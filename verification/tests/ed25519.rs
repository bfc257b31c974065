//! Identities with real keys behind them.

use blackwood::ed25519::{Ed25519, SEED_LEN};
use blackwood::key::PublicKey;
use blackwood::signature::Signer;

#[test]
fn lib_a_signature_checks_out_against_what_was_signed() {
    let signer = Ed25519::from_seed([1; SEED_LEN]);
    let signature = signer.sign(b"where i sit");

    assert!(Ed25519::verify(signer.key(), b"where i sit", &signature));
    assert!(!Ed25519::verify(signer.key(), b"where i sat", &signature));
}

#[test]
fn one_key_cannot_sign_for_another() {
    let mallory = Ed25519::from_seed([9; SEED_LEN]);
    let alice = Ed25519::from_seed([1; SEED_LEN]);

    let forged = mallory.sign(b"alice sits at the root");
    assert!(
        !Ed25519::verify(alice.key(), b"alice sits at the root", &forged),
        "this is the whole difference from the stand-in"
    );
}

#[test]
fn a_seed_gives_the_same_identity_every_time() {
    assert_eq!(
        Ed25519::from_seed([7; SEED_LEN]).key(),
        Ed25519::from_seed([7; SEED_LEN]).key()
    );
    assert_ne!(
        Ed25519::from_seed([7; SEED_LEN]).key(),
        Ed25519::from_seed([8; SEED_LEN]).key()
    );
}

#[test]
fn a_key_is_not_chosen_but_derived() {
    // The seed is all a caller supplies, and the address that comes out
    // looks nothing like it. Picking a key to impersonate would mean
    // finding a seed that produced it.
    let seed = [3; SEED_LEN];
    assert_ne!(Ed25519::from_seed(seed).key().as_bytes(), &seed);
}

#[test]
fn nothing_verifies_against_a_key_that_is_not_a_point() {
    // Most 32-byte strings are not ed25519 public keys. Handing one over
    // must be answered rather than blown up on.
    let nonsense = PublicKey::new([0xff; 32]);
    let signature = Ed25519::from_seed([1; SEED_LEN]).sign(b"anything");
    assert!(!Ed25519::verify(nonsense, b"anything", &signature));
}

#[test]
fn the_secret_stays_out_of_the_debug_output() {
    let signer = Ed25519::from_seed([5; SEED_LEN]);
    let printed = signer.label();
    let secret = format!("{:02x?}", [5u8; SEED_LEN]);
    assert!(!printed.contains(&secret));
    assert!(printed.contains(&signer.key().label()));
}
