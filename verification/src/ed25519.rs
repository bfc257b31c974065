//! ed25519 as the cryptography a node speaks with.
//!
//! Routing says what has to be signed and what has to be checked, and takes the
//! algorithm as a type parameter. This is one such algorithm, over real keys.

use vstd::prelude::*;
use ed25519_dalek::{
    Signature as DalekSignature, Signer as DalekSigner, SigningKey, Verifier, VerifyingKey,
};
use crate::key::{PublicKey, KEY_LEN};
use crate::signature;
use crate::signature::{Signature, Signer, SIGNATURE_LEN};
use crate::text;
use crate::text::push_hex;

verus! {

/// The number of bytes in the seed an identity is built from.
pub const SEED_LEN: usize = 32;

/// A key to sign with, as `ed25519_dalek` holds one.
#[verifier::external_type_specification]
#[verifier::external_body]
pub struct ExSigningKey(SigningKey);

/// A key to check signatures against, as `ed25519_dalek` holds one.
#[verifier::external_type_specification]
#[verifier::external_body]
pub struct ExVerifyingKey(VerifyingKey);

/// The secret seed a signing key holds.
pub uninterp spec fn seed_of(signing: SigningKey) -> Seq<u8>;

/// The bytes a verifying key is encoded as.
pub uninterp spec fn encoding_of(verifying: VerifyingKey) -> Seq<u8>;

/// The public key that belongs to a seed.
pub uninterp spec fn public_half(seed: Seq<u8>) -> Seq<u8>;

/// The signature the holder of a seed puts under a message.
pub uninterp spec fn signature_of(seed: Seq<u8>, message: Seq<u8>) -> Seq<u8>;

/// Whether some bytes encode a point on the curve, and so name anybody at all.
pub uninterp spec fn is_point(bytes: Seq<u8>) -> bool;

/// Whether a signature over a message checks out against an encoded point.
///
/// That what a seed's holder signs does so is known. That nothing anybody else
/// makes up does is not: it is hard, not impossible.
pub uninterp spec fn holds_for(point: Seq<u8>, message: Seq<u8>, signature: Seq<u8>) -> bool;

/// `Clone::clone` of a `SigningKey`: a key holding the same seed.
pub assume_specification[ <SigningKey as Clone>::clone ](signing: &SigningKey) -> (copy: SigningKey)
    ensures
        seed_of(copy) == seed_of(*signing),
;

/// `SigningKey::from_bytes`: the key holding exactly this seed.
#[verifier::external_body]
fn signing_key(seed: &[u8; SEED_LEN]) -> (signing: SigningKey)
    ensures
        seed_of(signing) == seed@,
{
    SigningKey::from_bytes(seed)
}

/// `SigningKey::verifying_key`, taken to its bytes: the public half of the
/// seed, which is always an encoded point.
#[verifier::external_body]
fn public_bytes(signing: &SigningKey) -> (public: [u8; KEY_LEN])
    ensures
        public@ == public_half(seed_of(*signing)),
        is_point(public@),
{
    signing.verifying_key().to_bytes()
}

/// `Signer::sign` of a `SigningKey`: a function of the seed and the message
/// alone, whose result checks out against the seed's public half.
#[verifier::external_body]
fn sign_bytes(signing: &SigningKey, message: &[u8]) -> (signature: [u8; SIGNATURE_LEN])
    ensures
        signature@ == signature_of(seed_of(*signing), message@),
        holds_for(public_half(seed_of(*signing)), message@, signature@),
{
    signing.sign(message).to_bytes()
}

/// `VerifyingKey::from_bytes`: the key these bytes encode, if they encode a
/// point at all.
#[verifier::external_body]
fn decode_key(bytes: &[u8; KEY_LEN]) -> (verifying: Option<VerifyingKey>)
    ensures
        verifying is Some <==> is_point(bytes@),
        verifying matches Some(key) ==> encoding_of(key) == bytes@,
{
    VerifyingKey::from_bytes(bytes).ok()
}

/// `Verifier::verify` of a `VerifyingKey`: whether the signature checks out, a
/// function of the encoded point, the message and the signature alone.
#[verifier::external_body]
fn check_bytes(
    verifying: &VerifyingKey,
    message: &[u8],
    signature: &[u8; SIGNATURE_LEN],
) -> (accepted: bool)
    ensures
        accepted == holds_for(encoding_of(*verifying), message@, signature@),
{
    verifying.verify(message, &DalekSignature::from_bytes(signature)).is_ok()
}

/// An ed25519 identity: a key to sign as, and the algorithm to check others.
///
/// The public half is derived from the secret, so a node cannot choose the
/// address it answers to, which is what makes a public key worth using as one.
pub struct Ed25519 {
    signing: SigningKey,
    /// The public half, worked out once. Routing asks for it constantly.
    public: PublicKey,
}

impl Clone for Ed25519 {
    fn clone(&self) -> (copy: Self)
        ensures
            copy.seed() == self.seed(),
            copy.speaks_for() == self.speaks_for(),
    {
        proof {
            use_type_invariant(self);
        }
        Ed25519 { signing: self.signing.clone(), public: self.public }
    }
}

impl Ed25519 {
    /// The seed it was built from.
    pub closed spec fn seed(&self) -> Seq<u8> {
        seed_of(self.signing)
    }

    /// The public half is the seed's, and a point.
    #[verifier::type_invariant]
    closed spec fn is_matched(self) -> bool {
        self.public@ == public_half(seed_of(self.signing)) && is_point(self.public@)
    }

    /// The identity belonging to a secret seed.
    ///
    /// No randomness is drawn here. Where the seed comes from is the caller's
    /// problem, which is the only place that decision can sensibly be made:
    /// a real node wants bytes from the operating system, and a simulation
    /// wants bytes it can write down and repeat.
    pub fn from_seed(seed: [u8; SEED_LEN]) -> (identity: Self)
        ensures
            identity.seed() == seed@,
            identity.speaks_for()@ == public_half(seed@),
    {
        Self::from_signing_key(signing_key(&seed))
    }

    /// The identity belonging to a key that was made elsewhere.
    pub fn from_signing_key(signing: SigningKey) -> (identity: Self)
        ensures
            identity.seed() == seed_of(signing),
            identity.speaks_for()@ == public_half(seed_of(signing)),
    {
        let public = PublicKey::new(public_bytes(&signing));
        Ed25519 { signing, public }
    }

    /// The key it signs as, without needing [`Signer`] in scope.
    pub fn key(&self) -> (key: PublicKey)
        ensures
            key == self.speaks_for(),
            key@ == public_half(self.seed()),
    {
        proof {
            use_type_invariant(self);
        }
        self.public
    }

    /// The identity for a person to read: the public half only. The secret must
    /// never turn up in a log line by accident.
    pub fn label(&self) -> (label: String)
        ensures
            label@ == "Ed25519("@ + text::hex(self.speaks_for()@) + ")"@,
    {
        let mut label = String::from_str("Ed25519(");
        push_hex(&mut label, self.public.as_bytes());
        label.append(")");
        label
    }
}

impl Signer for Ed25519 {
    closed spec fn speaks_for(&self) -> PublicKey {
        self.public
    }

    closed spec fn signs(&self, message: Seq<u8>) -> Signature {
        choose|signature: Signature| signature@ == signature_of(self.seed(), message)
    }

    open spec fn accepts(key: PublicKey, message: Seq<u8>, signature: Signature) -> bool {
        is_point(key@) && holds_for(key@, message, signature@)
    }

    fn public_key(&self) -> (key: PublicKey) {
        self.public
    }

    fn sign(&self, message: &[u8]) -> (signature: Signature)
        ensures
            signature@ == signature_of(self.seed(), message@),
    {
        proof {
            use_type_invariant(self);
        }
        let signature = Signature::new(sign_bytes(&self.signing, message));
        proof {
            signature::lemma_signature_is_its_bytes(signature, self.signs(message@));
        }
        signature
    }

    fn verify(key: PublicKey, message: &[u8], signature: &Signature) -> (accepted: bool) {
        // A `PublicKey` is any 32 bytes at all, so most of them are not points
        // on the curve and name nobody. Saying so is a plain "no", not an
        // error: routing has no route for one and needs none.
        match decode_key(key.as_bytes()) {
            Some(verifying) => check_bytes(&verifying, message, signature.as_bytes()),
            None => false,
        }
    }
}

/// Nothing checks out against bytes that are not a point.
pub proof fn law_nobody_speaks_for_nonsense(
    key: PublicKey,
    message: Seq<u8>,
    signature: Signature,
)
    requires
        !is_point(key@),
    ensures
        !Ed25519::accepts(key, message, signature),
{
}

/// A seed signs a message the same way every time.
pub proof fn law_a_seed_signs_alike(a: Ed25519, b: Ed25519, message: Seq<u8>)
    requires
        a.seed() == b.seed(),
    ensures
        a.signs(message) == b.signs(message),
{
}

} // verus!
