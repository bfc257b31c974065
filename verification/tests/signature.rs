//! A signer with the cryptography taken out.

use blackwood::key::{PublicKey, KEY_LEN};
use blackwood::signature::{Insecure, Signer};

fn key(n: u8) -> PublicKey {
    PublicKey::new([n; KEY_LEN])
}

#[test]
fn signature_a_signature_checks_out_against_what_was_signed() {
    let signer = Insecure::for_key(key(1));
    let signature = signer.sign(b"where i sit");

    assert!(Insecure::verify(key(1), b"where i sit", &signature));
    assert!(!Insecure::verify(key(1), b"where i sat", &signature));
    assert!(!Insecure::verify(key(2), b"where i sit", &signature));
}

#[test]
fn signature_a_signature_changes_when_anything_about_it_does() {
    let signer = Insecure::for_key(key(1));
    let signature = signer.sign(b"a");

    assert_ne!(signature, signer.sign(b"b"), "a different message");
    assert_ne!(
        signature,
        Insecure::for_key(key(2)).sign(b"a"),
        "a different signer"
    );
    assert_eq!(signature, signer.sign(b"a"), "and the same one twice");
}

#[test]
fn signature_a_signature_fills_its_whole_length() {
    // Eight rounds of hashing, one per eight bytes. A bug that left the
    // tail zeroed would still verify, so nothing else would catch it.
    let signature = Insecure::for_key(key(1)).sign(b"anything");
    assert!(signature.as_bytes()[56..].iter().any(|&byte| byte != 0));
    assert_ne!(signature.as_bytes()[..8], signature.as_bytes()[8..16]);
}

#[test]
fn anyone_can_forge_an_insecure_signature() {
    // Stated as a test because it is the whole point of the type: there is
    // no secret here, and a caller who wants one has to bring it.
    let mine = Insecure::for_key(key(1)).sign(b"i am the root");
    let forged = Insecure::for_key(key(1));
    assert_eq!(forged.sign(b"i am the root"), mine);
}

#[test]
fn stand_in_a_signature_checks_out_against_what_was_signed() {
    let signer = Insecure::for_key(key(1));
    let signature = signer.sign(b"where i sit");

    assert!(Insecure::verify(key(1), b"where i sit", &signature));
    assert!(!Insecure::verify(key(1), b"where i sat", &signature));
    assert!(!Insecure::verify(key(2), b"where i sit", &signature));
}

#[test]
fn stand_in_a_signature_changes_when_anything_about_it_does() {
    let signer = Insecure::for_key(key(1));
    let signature = signer.sign(b"a");

    assert_ne!(signature, signer.sign(b"b"), "a different message");
    assert_ne!(
        signature,
        Insecure::for_key(key(2)).sign(b"a"),
        "a different signer"
    );
    assert_eq!(signature, signer.sign(b"a"), "and the same one twice");
}

#[test]
fn stand_in_a_signature_fills_its_whole_length() {
    // Eight rounds of hashing, one per eight bytes. A bug that left the
    // tail zeroed would still verify, so nothing else would catch it.
    let signature = Insecure::for_key(key(1)).sign(b"anything");
    assert!(signature.as_bytes()[56..].iter().any(|&byte| byte != 0));
    assert_ne!(signature.as_bytes()[..8], signature.as_bytes()[8..16]);
}

#[test]
fn anyone_can_forge_a_stand_in_signature() {
    // Stated as a test because it is the whole point of the type, and the
    // reason it does not leave this crate: there is no secret here, and a
    // caller who wants one has to bring it.
    let mine = Insecure::for_key(key(1)).sign(b"i am the root");
    let forged = Insecure::for_key(key(1));
    assert_eq!(forged.sign(b"i am the root"), mine);
}
