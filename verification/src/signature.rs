//! Signing, without saying with what.

use vstd::prelude::*;
use crate::bytes;
use crate::bytes::{append, to_be_bytes};
use crate::hash;
use crate::hash::fnv1a;
use crate::key::PublicKey;
use crate::order::{compare_bytes, Standing};
use crate::text;
use crate::text::push_hex;

verus! {

/// The length of a signature in bytes, matching ed25519.
pub const SIGNATURE_LEN: usize = 64;

/// A signature over some bytes by the holder of a [`PublicKey`].
#[derive(Clone, Copy, Eq, PartialOrd, Ord, Hash, Debug)]
pub struct Signature(pub [u8; SIGNATURE_LEN]);

impl View for Signature {
    type V = Seq<u8>;

    open spec fn view(&self) -> Seq<u8> {
        self.0@
    }
}

impl PartialEq for Signature {
    fn eq(&self, other: &Self) -> (same: bool) {
        let standing = compare_bytes(&self.0, &other.0);
        proof {
            lemma_signature_is_its_bytes(*self, *other);
        }
        standing == Standing::Same
    }
}

impl vstd::std_specs::cmp::PartialEqSpecImpl for Signature {
    open spec fn obeys_eq_spec() -> bool {
        true
    }

    open spec fn eq_spec(&self, other: &Self) -> bool {
        *self == *other
    }
}

/// A signature is nothing but its bytes.
pub proof fn lemma_signature_is_its_bytes(a: Signature, b: Signature)
    ensures
        a@ == b@ <==> a == b,
{
    if a@ == b@ {
        assert(a.0 =~= b.0);
    }
}

impl Signature {
    /// Wraps raw signature bytes.
    pub fn new(bytes: [u8; SIGNATURE_LEN]) -> (signature: Self)
        ensures
            signature@ == bytes@,
            signature == Signature(bytes),
    {
        Signature(bytes)
    }

    /// The raw signature bytes.
    pub fn as_bytes(&self) -> (bytes: &[u8; SIGNATURE_LEN])
        ensures
            bytes@ == self@,
            *bytes == self.0,
    {
        &self.0
    }

    /// The signature abbreviated, since one is never read and printing all of
    /// it only buries whatever is next to it.
    pub fn label(&self) -> (label: String)
        ensures
            label@ == "sig:"@ + text::hex(self@.take(4)) + "…"@,
    {
        let mut label = String::from_str("sig:");
        let head = vstd::slice::slice_subrange(&self.0, 0, 4);
        assert(head@ =~= self@.take(4));
        push_hex(&mut label, head);
        label.append("…");
        label
    }
}

/// The cryptography a node speaks with.
///
/// Routing performs none of its own. It says what has to be signed and what
/// has to be checked, and the algorithm arrives from outside. There is no
/// default and no way to opt out: a node cannot be built without one.
///
/// One type serves both halves. Signing needs a secret and so takes `&self`;
/// checking somebody else's signature needs nothing of one's own, only the
/// algorithm, so [`verify`](Signer::verify) takes no receiver. Every node in a
/// network has to be using the same one.
///
/// Signing draws on nothing but the key and the message: one signer always puts
/// the same signature under the same message, so that what a node says is
/// settled by what has happened to it.
pub trait Signer: Sized {
    /// The key this signer speaks for.
    spec fn speaks_for(&self) -> PublicKey;

    /// What this signer puts under `message`.
    spec fn signs(&self, message: Seq<u8>) -> Signature;

    /// Whether `signature` counts as `key`'s under `message`.
    spec fn accepts(key: PublicKey, message: Seq<u8>, signature: Signature) -> bool;

    /// The key this signer speaks for.
    fn public_key(&self) -> (key: PublicKey)
        ensures
            key == self.speaks_for(),
    ;

    /// Signs `message` as that key.
    fn sign(&self, message: &[u8]) -> (signature: Signature)
        ensures
            signature == self.signs(message@),
            Self::accepts(self.speaks_for(), message@, signature),
    ;

    /// Whether `signature` is `key`'s signature over `message`.
    fn verify(key: PublicKey, message: &[u8], signature: &Signature) -> (accepted: bool)
        ensures
            accepted == Self::accepts(key, message@, *signature),
    ;
}

/// Whether everything a signer signs checks out as the key it speaks for.
pub open spec fn sound<S: Signer>(signer: S) -> bool {
    forall|message: Seq<u8>|
        S::accepts(signer.speaks_for(), message, #[trigger] signer.signs(message))
}

/// A [`Signer`] with the cryptography taken out.
///
/// A signature here is a hash of the key and the message, so anyone can produce
/// one for anyone: it notices a path that was altered in passing and stops
/// nothing that was altered on purpose. What it buys is that a network can be
/// driven with legible keys and no secrets to keep.
///
/// It is not a weak cipher. There is no secret anywhere in it. Carrying real
/// traffic with it means trusting every node not to lie.
#[derive(Clone, Copy, PartialEq, Eq, Hash, Debug)]
pub struct Insecure(pub PublicKey);

impl Insecure {
    /// A signer speaking for `key`, with nothing to stop anybody else doing
    /// the same.
    pub fn for_key(key: PublicKey) -> (signer: Self)
        ensures
            signer == Insecure(key),
            signer.speaks_for() == key,
    {
        Insecure(key)
    }
}

/// The bytes of a stamp: eight salted hashes of key and message, end to end.
pub open spec fn stamped_bytes(key: PublicKey, message: Seq<u8>, rounds: nat) -> Seq<u8>
    decreases rounds,
{
    if rounds == 0 {
        Seq::empty()
    } else {
        let round = (rounds - 1) as nat;
        stamped_bytes(key, message, round) + bytes::be_bytes(hash::salted_fnv1a(round as u8, key@ + message))
    }
}

/// A stamp, as a signature.
pub open spec fn stamped(key: PublicKey, message: Seq<u8>) -> Signature {
    choose|signature: Signature| signature@ == stamped_bytes(key, message, 8)
}

/// A hash of key and message, run enough times to fill a signature.
fn stamp(key: PublicKey, message: &[u8]) -> (signature: Signature)
    ensures
        signature == stamped(key, message@),
        signature@ == stamped_bytes(key, message@, 8),
{
    let mut hashed: Vec<u8> = Vec::new();
    append(&mut hashed, key.as_bytes());
    append(&mut hashed, message);
    assert(hashed@ =~= key@ + message@);
    let mut bytes: [u8; SIGNATURE_LEN] = [0; SIGNATURE_LEN];
    let mut round: usize = 0;
    while round < 8
        invariant
            hashed@ == key@ + message@,
            0 <= round <= 8,
            stamped_bytes(key, message@, round as nat).len() == 8 * round,
            forall|i: int|
                0 <= i < 8 * round ==> bytes@[i] == stamped_bytes(key, message@, round as nat)[i],
        decreases 8 - round,
    {
        let hash = to_be_bytes(fnv1a(round as u8, hashed.as_slice()));
        let ghost before = stamped_bytes(key, message@, round as nat);
        let ghost after = stamped_bytes(key, message@, (round + 1) as nat);
        assert(after == before + hash@);
        let mut i: usize = 0;
        while i < 8
            invariant
                0 <= i <= 8,
                0 <= round < 8,
                before.len() == 8 * round,
                after == before + hash@,
                hash@.len() == 8,
                forall|j: int| 0 <= j < 8 * round + i ==> bytes@[j] == after[j],
            decreases 8 - i,
        {
            bytes[8 * round + i] = hash[i];
            i += 1;
        }
        round += 1;
    }
    let signature = Signature(bytes);
    proof {
        assert(signature@ =~= stamped_bytes(key, message@, 8));
        lemma_signature_is_its_bytes(signature, stamped(key, message@));
    }
    signature
}

impl Signer for Insecure {
    open spec fn speaks_for(&self) -> PublicKey {
        self.0
    }

    open spec fn signs(&self, message: Seq<u8>) -> Signature {
        stamped(self.0, message)
    }

    open spec fn accepts(key: PublicKey, message: Seq<u8>, signature: Signature) -> bool {
        signature == stamped(key, message)
    }

    fn public_key(&self) -> (key: PublicKey) {
        self.0
    }

    fn sign(&self, message: &[u8]) -> (signature: Signature) {
        stamp(self.0, message)
    }

    fn verify(key: PublicKey, message: &[u8], signature: &Signature) -> (accepted: bool) {
        stamp(key, message) == *signature
    }
}

/// Anyone can sign as anyone: whatever a stamp says, any signer for the same
/// key says too.
pub proof fn law_stamps_check_out(signer: Insecure)
    ensures
        sound(signer),
{
}

/// A stamp is eight hashes of the key and the message, each salted with its
/// place and laid out in eight bytes, and it checks out exactly for that key and
/// under that message.
pub proof fn law_a_stamp_is_eight_hashes(
    key: PublicKey,
    message: Seq<u8>,
    signature: Signature,
    round: u8,
)
    requires
        signature@ == stamped_bytes(key, message, 8),
        round < 8,
    ensures
        signature@.subrange(8 * round, 8 * round + 8) == bytes::be_bytes(
            hash::salted_fnv1a(round, key@ + message),
        ),
        Insecure::accepts(key, message, signature),
        Insecure(key).speaks_for() == key,
        Insecure(key).signs(message) == signature,
{
    lemma_stamp_rounds(key, message, 8, round as nat);
    lemma_signature_is_its_bytes(signature, stamped(key, message));
}

/// Where each round of a stamp stands.
proof fn lemma_stamp_rounds(key: PublicKey, message: Seq<u8>, rounds: nat, round: nat)
    requires
        round < rounds <= 8,
    ensures
        stamped_bytes(key, message, rounds).len() == 8 * rounds,
        stamped_bytes(key, message, rounds).subrange(8 * round as int, 8 * round as int + 8)
            == bytes::be_bytes(hash::salted_fnv1a(round as u8, key@ + message)),
    decreases rounds,
{
    let fewer = (rounds - 1) as nat;
    let before = stamped_bytes(key, message, fewer);
    let added = bytes::be_bytes(hash::salted_fnv1a(fewer as u8, key@ + message));
    let after = stamped_bytes(key, message, rounds);
    assert(added.len() == 8);
    assert(after == before + added);
    if fewer > 0 {
        lemma_stamp_rounds(key, message, fewer, if round < fewer { round } else { 0 });
    }
    if round < fewer {
        assert(after.subrange(8 * round as int, 8 * round as int + 8) =~= before.subrange(
            8 * round as int,
            8 * round as int + 8,
        ));
    } else {
        assert(after.subrange(8 * round as int, 8 * round as int + 8) =~= added);
    }
}

} // verus!
