//! The spanning tree: what nodes announce, and the metric derived from it.
//!
//! A position here is agreed to by both ends of every link in it, and says
//! nothing about what any of them cost.

use vstd::prelude::*;
use vstd::slice::slice_subrange;
use crate::bytes;
use crate::bytes::{append, append_number};
use crate::key::PublicKey;
use crate::order;
use crate::order::{compare_bytes, compare_numbers, compare_slices, Ordered, Standing};
use crate::routing::bargain;
use crate::routing::bargain::{append_consent, compare_consents};
use crate::signature;
use crate::signature::{Signature, Signer};
use crate::sorted_map::Ranked;
use crate::walk;

verus! {

/// One step down the tree: a node, and its own hand on the whole walk down
/// to it.
#[derive(Clone, Copy, PartialEq, Eq, PartialOrd, Ord, Hash, Debug)]
pub struct Hop {
    /// The node this step arrives at.
    pub key: PublicKey,
    /// The sequence number this hop's node stamped it with.
    ///
    /// Every hop carries its own, because every hop was signed separately by
    /// the node that added it, and the number is part of what it signed.
    pub seq: u64,
    /// The hop above's agreement that this node may sit below it.
    ///
    /// `None` at the root, which nothing precedes, and `Some` at every other
    /// hop: the signature of the node named in the hop above, over this node's
    /// key. It is what makes a position a bargain struck by both ends rather
    /// than a claim made by one, and so what stops a node signing itself onto
    /// a walk it has no link to.
    pub consent: Option<Signature>,
    /// That node's signature over this hop and every hop above it.
    ///
    /// The signature covers the hops above exactly as they stand, their own
    /// signatures included, so a hop is bound to the particular walk it was
    /// made for and cannot be lifted out of one announcement into another.
    pub signature: Signature,
}

impl Ordered for Hop {
    open spec fn before(self, other: Self) -> bool {
        ||| self.key.rank() < other.key.rank()
        ||| self.key == other.key && self.seq < other.seq
        ||| self.key == other.key && self.seq == other.seq
            && bargain::consent_rank(self.consent) < bargain::consent_rank(other.consent)
        ||| self.key == other.key && self.seq == other.seq
            && self.consent == other.consent && order::rank(self.signature@) < order::rank(other.signature@)
    }

    proof fn order_is_total(a: Self, b: Self) {
        if a.key.rank() == b.key.rank() {
            PublicKey::rank_tells_apart(a.key, b.key);
        }
        if bargain::consent_rank(a.consent) == bargain::consent_rank(b.consent) {
            bargain::lemma_consent_rank_tells_apart(a.consent, b.consent);
        }
        if order::rank(a.signature@) == order::rank(b.signature@) {
            order::lemma_rank_tells_apart(a.signature@, b.signature@);
            signature::lemma_signature_is_its_bytes(a.signature, b.signature);
        }
    }

    proof fn order_is_transitive(a: Self, b: Self, c: Self) {
    }

    fn compare(&self, other: &Self) -> (standing: Standing) {
        proof {
            Self::order_is_total(*self, *other);
            signature::lemma_signature_is_its_bytes(self.signature, other.signature);
        }
        match self.key.compare_rank(&other.key) {
            Standing::Same => {},
            decided => return decided,
        }
        match compare_numbers(self.seq, other.seq) {
            Standing::Same => {},
            decided => return decided,
        }
        match compare_consents(&self.consent, &other.consent) {
            Standing::Same => {},
            decided => return decided,
        }
        compare_bytes(self.signature.as_bytes(), other.signature.as_bytes())
    }
}

/// The nodes a walk names, root first.
pub open spec fn keys(walk: Seq<Hop>) -> Seq<PublicKey> {
    walk.map_values(|hop: Hop| hop.key)
}

/// Whether no node appears in a walk twice.
pub open spec fn acyclic(walk: Seq<Hop>) -> bool {
    forall|i: int, j: int|
        0 <= i < j < walk.len() ==> (#[trigger] walk[i]).key != (#[trigger] walk[j]).key
}

/// Whether a walk has the shape every announcement's has: it starts somewhere,
/// names nobody twice, and is agreed to at every step but the first.
pub open spec fn shaped(walk: Seq<Hop>) -> bool {
    &&& walk.len() > 0
    &&& acyclic(walk)
    &&& walk[0].consent is None
    &&& forall|i: int| 0 < i < walk.len() ==> (#[trigger] walk[i]).consent is Some
}

/// What a node is putting its name to when it signs its own hop.
///
/// Every kind of statement a node makes starts with one of these, so that
/// bytes signed as one thing can never be read back as another.
pub open spec fn hop_domain() -> Seq<u8> {
    vstd::utf8::encode_utf8("blackwood/hop/2"@)
}

/// What a node is putting its name to when it agrees to carry a child.
pub open spec fn consent_domain() -> Seq<u8> {
    vstd::utf8::encode_utf8("blackwood/consent/2"@)
}

/// The bytes a whole hop is laid out as.
pub open spec fn hop_bytes(hop: Hop) -> Seq<u8> {
    hop.key@ + bytes::be_bytes(hop.seq) + bargain::consent_field(hop.consent) + hop.signature@
}

/// The bytes a walk is laid out as, hop after hop.
pub open spec fn walk_bytes(walk: Seq<Hop>) -> Seq<u8>
    decreases walk.len(),
{
    if walk.len() == 0 {
        Seq::empty()
    } else {
        walk_bytes(walk.drop_last()) + hop_bytes(walk.last())
    }
}

/// The statement a node signs when it adds its own hop below `above`.
pub open spec fn statement(
    above: Seq<Hop>,
    key: PublicKey,
    consent: Option<Signature>,
    seq: u64,
) -> Seq<u8> {
    hop_domain() + walk_bytes(above) + key@ + bytes::be_bytes(seq) + bargain::consent_field(consent)
}

/// The statement a parent signs to agree to carry `child`.
pub open spec fn agreement(parent: PublicKey, child: PublicKey) -> Seq<u8> {
    consent_domain() + parent@ + child@
}

/// Whether one hop was signed by the node it names, over the walk down to it.
pub open spec fn hop_signed<S: Signer>(walk: Seq<Hop>, at: int) -> bool {
    let hop = walk[at];
    S::accepts(
        hop.key,
        statement(walk.take(at), hop.key, hop.consent, hop.seq),
        hop.signature,
    )
}

/// Whether every hop was signed by the node it names.
pub open spec fn hops_signed<S: Signer>(walk: Seq<Hop>) -> bool {
    forall|i: int| 0 <= i < walk.len() ==> #[trigger] hop_signed::<S>(walk, i)
}

/// Whether one hop stands on the consent of the hop above it, or is the root
/// and stands on none.
pub open spec fn consent_given<S: Signer>(walk: Seq<Hop>, at: int) -> bool {
    match walk[at].consent {
        Some(consent) => at > 0 && S::accepts(
            walk[at - 1].key,
            agreement(walk[at - 1].key, walk[at].key),
            consent,
        ),
        None => at == 0,
    }
}

/// Whether every hop stands on the consent of the hop above it.
pub open spec fn consents_given<S: Signer>(walk: Seq<Hop>) -> bool {
    forall|i: int| 0 <= i < walk.len() ==> #[trigger] consent_given::<S>(walk, i)
}

/// Whether a walk is signed and agreed to at every step.
pub open spec fn checks_out<S: Signer>(walk: Seq<Hop>) -> bool {
    hops_signed::<S>(walk) && consents_given::<S>(walk)
}

/// The node at the end of a walk.
pub open spec fn author(walk: Seq<Hop>) -> PublicKey {
    walk.last().key
}

/// The node above the one at the end of a walk.
pub open spec fn parent(walk: Seq<Hop>) -> Option<PublicKey> {
    if walk.len() >= 2 {
        Some(walk[walk.len() - 2].key)
    } else {
        None
    }
}

/// The walk `above` with `signer`'s node signed onto the end of it.
pub open spec fn signed_onto<S: Signer>(
    signer: S,
    above: Seq<Hop>,
    consent: Option<Signature>,
    seq: u64,
) -> Seq<Hop> {
    let key = signer.speaks_for();
    above.push(
        Hop {
            key,
            seq,
            consent,
            signature: signer.signs(statement(above, key, consent, seq)),
        },
    )
}

/// The walk of a node that considers itself the root.
pub open spec fn rooted<S: Signer>(signer: S, seq: u64) -> Seq<Hop> {
    signed_onto(signer, Seq::empty(), None, seq)
}

/// The walk `signer`'s node takes up below `walk` on the strength of
/// `consent`, if the consent is between the two of them and the walk does not
/// already run through it.
pub open spec fn extended<S: Signer>(
    walk: Seq<Hop>,
    signer: S,
    consent: Consent,
    seq: u64,
) -> Option<Seq<Hop>> {
    if consent.given_by() != author(walk) || consent.given_to() != signer.speaks_for() || keys(
        walk,
    ).contains(signer.speaks_for()) {
        None
    } else {
        Some(signed_onto(signer, walk, Some(consent.signed()), seq))
    }
}

/// The same walk stamped afresh by its author.
pub open spec fn restamped<S: Signer>(walk: Seq<Hop>, signer: S, seq: u64) -> Seq<Hop> {
    signed_onto(signer, walk.drop_last(), walk.last().consent, seq)
}

/// Whether the walk `a` replaces `b` as the last word of their author: the
/// later stamp wins, and the greater walk breaks a tie.
pub open spec fn supersedes(a: Seq<Hop>, b: Seq<Hop>) -> bool {
    ||| b.last().seq < a.last().seq
    ||| b.last().seq == a.last().seq && order::precedes(b, a)
}

/// A node's agreement that another may sit below it in the tree.
///
/// A position in the tree is the only thing a node says that is really about
/// two nodes rather than one, and this is the other end's half of it. The
/// parent signs the child's key; the child carries that signature in its own
/// hop, where anybody reading its walk down the tree can check it.
///
/// What a consent does not carry is a price. What a link costs is measured by
/// each end for itself and spent on that end's own decisions, so there is
/// nothing here for the two of them to agree about beyond the link's existence.
///
/// A value of this type has always been checked. It is either one this node
/// signed itself, through [`issue`](Self::issue), or one that verified when it
/// was decoded, through [`new`](Self::new).
#[derive(Clone, Copy, PartialEq, Eq, PartialOrd, Ord, Hash, Debug)]
pub struct Consent {
    parent: PublicKey,
    child: PublicKey,
    signature: Signature,
}

impl Consent {
    /// The node that gave it.
    pub closed spec fn given_by(self) -> PublicKey {
        self.parent
    }

    /// The node it was given to.
    pub closed spec fn given_to(self) -> PublicKey {
        self.child
    }

    /// The parent's signature.
    pub closed spec fn signed(self) -> Signature {
        self.signature
    }

    /// Whether the node it names as the parent signed it.
    pub open spec fn holds<S: Signer>(self) -> bool {
        S::accepts(
            self.given_by(),
            agreement(self.given_by(), self.given_to()),
            self.signed(),
        )
    }

    /// A consent is nothing but its parts, so rebuilding one from its parts
    /// gives back the same one.
    pub proof fn lemma_is_its_parts(a: Consent, b: Consent)
        ensures
            (a.given_by() == b.given_by() && a.given_to() == b.given_to() && a.signed()
                == b.signed()) <==> a == b,
    {
    }

    /// The consent `signer`'s node gives `child` to sit below it.
    pub fn issue<S: Signer>(signer: &S, child: PublicKey) -> (consent: Self)
        ensures
            consent.given_by() == signer.speaks_for(),
            consent.given_to() == child,
            consent.signed() == signer.signs(agreement(signer.speaks_for(), child)),
            consent.holds::<S>(),
    {
        let parent = signer.public_key();
        let signature = signer.sign(consent_bytes(parent, child).as_slice());
        Consent { parent, child, signature }
    }

    /// Rebuilds a consent from its parts, rejecting one `parent` did not sign.
    ///
    /// The entry point a wire format decodes through, and the only way into
    /// this type from outside that does not involve signing.
    pub fn new<S: Signer>(parent: PublicKey, child: PublicKey, signature: Signature) -> (consent:
        Option<Self>)
        ensures
            consent is Some <==> S::accepts(parent, agreement(parent, child), signature),
            consent matches Some(c) ==> c.given_by() == parent && c.given_to() == child
                && c.signed() == signature,
    {
        if S::verify(parent, consent_bytes(parent, child).as_slice(), &signature) {
            Some(Consent { parent, child, signature })
        } else {
            None
        }
    }

    /// The node that gave this consent.
    pub fn parent(&self) -> (key: PublicKey)
        ensures
            key == self.given_by(),
    {
        self.parent
    }

    /// The node it was given to.
    pub fn child(&self) -> (key: PublicKey)
        ensures
            key == self.given_to(),
    {
        self.child
    }

    /// The parent's signature, as it travels in the child's hop.
    pub fn signature(&self) -> (signature: Signature)
        ensures
            signature == self.signed(),
    {
        self.signature
    }
}

/// The bytes a parent signs to agree that `child` may sit below it.
///
/// Both keys are named, so a consent cannot be handed to a different child or
/// presented as coming from a different parent. Nothing else is in there:
/// agreeing to carry a node is the whole of what a parent is agreeing to.
fn consent_bytes(parent: PublicKey, child: PublicKey) -> (bytes: Vec<u8>)
    ensures
        bytes@ == agreement(parent, child),
{
    let mut bytes: Vec<u8> = Vec::new();
    append(&mut bytes, "blackwood/consent/2".as_bytes());
    assert(bytes@ =~= consent_domain());
    append(&mut bytes, parent.as_bytes());
    append(&mut bytes, child.as_bytes());
    bytes
}

/// The bytes a hop is signed over: every hop above it exactly as it stands,
/// signatures and all, followed by its own key, sequence number and the
/// consent it sits on.
///
/// Including the hops above by their signatures is what chains them. A hop
/// commits to the particular walk it was added to, so no part of one
/// announcement can be spliced into another.
pub fn signed_bytes(
    above: &[Hop],
    key: PublicKey,
    consent: Option<Signature>,
    seq: u64,
) -> (bytes: Vec<u8>)
    ensures
        bytes@ == statement(above@, key, consent, seq),
{
    let mut bytes: Vec<u8> = Vec::new();
    append(&mut bytes, "blackwood/hop/2".as_bytes());
    assert(bytes@ =~= hop_domain());
    let mut i: usize = 0;
    assert(above@.take(0) =~= Seq::empty());
    assert(bytes@ =~= hop_domain() + walk_bytes(above@.take(0)));
    while i < above.len()
        invariant
            0 <= i <= above@.len(),
            bytes@ == hop_domain() + walk_bytes(above@.take(i as int)),
        decreases above@.len() - i,
    {
        let hop = above[i];
        append(&mut bytes, hop.key.as_bytes());
        append_number(&mut bytes, hop.seq);
        append_consent(&mut bytes, &hop.consent);
        append(&mut bytes, hop.signature.as_bytes());
        proof {
            let taken = above@.take(i + 1);
            assert(taken.drop_last() =~= above@.take(i as int));
            assert(taken.last() == hop);
            assert(bytes@ =~= hop_domain() + walk_bytes(taken));
        }
        i += 1;
    }
    assert(above@.take(i as int) =~= above@);
    append(&mut bytes, key.as_bytes());
    append_number(&mut bytes, seq);
    append_consent(&mut bytes, &consent);
    bytes
}

/// A node's claimed position in the spanning tree.
///
/// The path runs from the root down to the announcing node, inclusive, so
/// `path[0]` is the root and the last element is the author. Each hop carries
/// the consent of the node above it, the one that agreed to carry it, along
/// with its own signature. Carrying the whole path rather than just a parent pointer is what
/// makes routing decisions local: a node can compute its distance to any other
/// node it has heard of without consulting anyone.
///
/// Every constructor guarantees the path is non-empty, free of repeated keys,
/// and consented to at every hop but the first. It is only as
/// *current* as whoever handed it over: see [`verify`](Self::verify) for what a
/// signature does and does not settle.
#[derive(PartialEq, Eq, Debug)]
pub struct Announcement {
    path: Vec<Hop>,
}

/// Why a path could not be made into an [`Announcement`].
#[derive(Clone, Copy, PartialEq, Eq, Debug, Structural)]
pub enum MalformedAnnouncement {
    /// The path had no hops, so it named no author.
    EmptyPath,
    /// A key appeared twice, which would describe a loop rather than a path.
    RepeatedKey,
    /// Some hop was not signed by the node it names.
    BadSignature,
    /// The root hop carried a consent, though no node sits above the root to
    /// have given it one.
    ConsentAtRoot,
    /// A hop below the root carried no consent, so it claimed a place nobody
    /// agreed to.
    MissingConsent,
    /// Some hop's consent was not signed by the node in the hop above it, or
    /// was given to another node.
    BadConsent,
}

impl MalformedAnnouncement {
    /// What went wrong, in words.
    pub open spec fn words(self) -> Seq<char> {
        match self {
            MalformedAnnouncement::EmptyPath => "announcement path is empty"@,
            MalformedAnnouncement::RepeatedKey => "announcement path repeats a key"@,
            MalformedAnnouncement::BadSignature => "announcement hop is not signed by the node it names"@,
            MalformedAnnouncement::ConsentAtRoot => "announcement root carries a consent"@,
            MalformedAnnouncement::MissingConsent => "announcement hop sits below a node that did not consent"@,
            MalformedAnnouncement::BadConsent => "announcement hop's consent was not given by the node above it"@,
        }
    }

    /// What went wrong, in words.
    pub fn text(&self) -> (text: &'static str)
        ensures
            text@ == self.words(),
    {
        match self {
            MalformedAnnouncement::EmptyPath => "announcement path is empty",
            MalformedAnnouncement::RepeatedKey => "announcement path repeats a key",
            MalformedAnnouncement::BadSignature => "announcement hop is not signed by the node it names",
            MalformedAnnouncement::ConsentAtRoot => "announcement root carries a consent",
            MalformedAnnouncement::MissingConsent => "announcement hop sits below a node that did not consent",
            MalformedAnnouncement::BadConsent => "announcement hop's consent was not given by the node above it",
        }
    }
}

/// Whether some hop below the root stands on nobody's consent.
pub open spec fn lacks_consent(walk: Seq<Hop>) -> bool {
    exists|i: int| 0 < i < walk.len() && (#[trigger] walk[i]).consent is None
}

/// The first thing wrong with a walk, or `None` if nothing is.
pub open spec fn flaw<S: Signer>(walk: Seq<Hop>) -> Option<MalformedAnnouncement> {
    if walk.len() == 0 {
        Some(MalformedAnnouncement::EmptyPath)
    } else if walk[0].consent is Some {
        Some(MalformedAnnouncement::ConsentAtRoot)
    } else if lacks_consent(walk) {
        Some(MalformedAnnouncement::MissingConsent)
    } else if !acyclic(walk) {
        Some(MalformedAnnouncement::RepeatedKey)
    } else if !hops_signed::<S>(walk) {
        Some(MalformedAnnouncement::BadSignature)
    } else if !consents_given::<S>(walk) {
        Some(MalformedAnnouncement::BadConsent)
    } else {
        None
    }
}

/// Whether any of `hops` names `key`.
pub fn names(hops: &[Hop], key: PublicKey) -> (named: bool)
    ensures
        named == keys(hops@).contains(key),
{
    let mut i: usize = 0;
    while i < hops.len()
        invariant
            0 <= i <= hops@.len(),
            forall|j: int| 0 <= j < i ==> (#[trigger] hops@[j]).key != key,
        decreases hops@.len() - i,
    {
        if hops[i].key == key {
            assert(keys(hops@)[i as int] == key);
            return true;
        }
        i += 1;
    }
    assert(!keys(hops@).contains(key)) by {
        if keys(hops@).contains(key) {
            let j = choose|j: int| 0 <= j < keys(hops@).len() && keys(hops@)[j] == key;
            assert(hops@[j].key == key);
        }
    }
    false
}

fn some_consent_missing(hops: &[Hop]) -> (found: bool)
    ensures
        found == lacks_consent(hops@),
{
    let mut i: usize = 1;
    while i < hops.len()
        invariant
            1 <= i,
            forall|j: int| 0 < j < i && j < hops@.len() ==> (#[trigger] hops@[j]).consent is Some,
        decreases hops@.len() - i,
    {
        if hops[i].consent.is_none() {
            return true;
        }
        i += 1;
    }
    false
}

fn some_key_repeated(hops: &[Hop]) -> (found: bool)
    ensures
        found == !acyclic(hops@),
{
    let mut i: usize = 0;
    while i < hops.len()
        invariant
            0 <= i <= hops@.len(),
            acyclic(hops@.take(i as int)),
        decreases hops@.len() - i,
    {
        let above = slice_subrange(hops, 0, i);
        if names(above, hops[i].key) {
            proof {
                let at = choose|j: int|
                    0 <= j < keys(above@).len() && keys(above@)[j] == hops@[i as int].key;
                assert(hops@[at].key == hops@[i as int].key);
            }
            return true;
        }
        proof {
            let longer = hops@.take(i + 1);
            assert forall|a: int, b: int| 0 <= a < b < longer.len() implies (
            #[trigger] longer[a]).key != (#[trigger] longer[b]).key by {
                let shorter = hops@.take(i as int);
                if b < i {
                    assert(shorter[a].key != shorter[b].key);
                } else {
                    assert(keys(above@)[a] == longer[a].key);
                }
            }
        }
        i += 1;
    }
    assert(hops@.take(i as int) =~= hops@);
    false
}

/// Whether every hop was signed by the node it names.
fn all_hops_signed<S: Signer>(hops: &[Hop]) -> (signed: bool)
    ensures
        signed == hops_signed::<S>(hops@),
{
    let mut i: usize = 0;
    while i < hops.len()
        invariant
            0 <= i <= hops@.len(),
            forall|j: int| 0 <= j < i ==> #[trigger] hop_signed::<S>(hops@, j),
        decreases hops@.len() - i,
    {
        let hop = hops[i];
        let above = slice_subrange(hops, 0, i);
        assert(above@ =~= hops@.take(i as int));
        let said = signed_bytes(above, hop.key, hop.consent, hop.seq);
        let accepted = S::verify(hop.key, said.as_slice(), &hop.signature);
        assert(accepted == hop_signed::<S>(hops@, i as int));
        if !accepted {
            return false;
        }
        i += 1;
    }
    true
}

/// Whether every hop below the root carries the consent of the hop above it,
/// and the root carries none.
fn all_consents_given<S: Signer>(hops: &[Hop]) -> (given: bool)
    ensures
        given == consents_given::<S>(hops@),
{
    let mut i: usize = 0;
    while i < hops.len()
        invariant
            0 <= i <= hops@.len(),
            forall|j: int| 0 <= j < i ==> #[trigger] consent_given::<S>(hops@, j),
        decreases hops@.len() - i,
    {
        let stands = match hops[i].consent {
            // Nothing sits above the root, so nothing could have agreed to it
            // and nothing may claim to have.
            None => i == 0,
            Some(consent) => if i == 0 {
                false
            } else {
                let parent = hops[i - 1].key;
                let said = consent_bytes(parent, hops[i].key);
                S::verify(parent, said.as_slice(), &consent)
            },
        };
        assert(stands == consent_given::<S>(hops@, i as int));
        if !stands {
            return false;
        }
        i += 1;
    }
    true
}

/// Signing onto a walk that checks out makes one that checks out.
pub proof fn lemma_signed_onto<S: Signer>(above: Seq<Hop>, hop: Hop)
    requires
        S::accepts(
            hop.key,
            statement(above, hop.key, hop.consent, hop.seq),
            hop.signature,
        ),
    ensures
        hops_signed::<S>(above) ==> hops_signed::<S>(above.push(hop)),
        consents_given::<S>(above) && consent_given::<S>(
            above.push(hop),
            above.len() as int,
        ) ==> consents_given::<S>(above.push(hop)),
{
    let walk = above.push(hop);
    if hops_signed::<S>(above) {
        assert forall|i: int| 0 <= i < walk.len() implies #[trigger] hop_signed::<S>(walk, i) by {
            if i < above.len() {
                assert(walk.take(i) =~= above.take(i));
                assert(hop_signed::<S>(above, i));
            } else {
                assert(walk.take(i) =~= above);
            }
        }
    }
    if consents_given::<S>(above) && consent_given::<S>(walk, above.len() as int) {
        assert forall|i: int| 0 <= i < walk.len() implies #[trigger] consent_given::<S>(
            walk,
            i,
        ) by {
            if i < above.len() {
                assert(consent_given::<S>(above, i));
            }
        }
    }
}

/// What is left of a walk that checks out once its author's hop is taken off
/// checks out too.
pub proof fn lemma_above_checks_out<S: Signer>(walk: Seq<Hop>)
    requires
        walk.len() > 0,
    ensures
        hops_signed::<S>(walk) ==> hops_signed::<S>(walk.drop_last()),
        consents_given::<S>(walk) ==> consents_given::<S>(walk.drop_last()),
{
    let above = walk.drop_last();
    if hops_signed::<S>(walk) {
        assert forall|i: int| 0 <= i < above.len() implies #[trigger] hop_signed::<S>(above, i) by {
            assert(walk.take(i) =~= above.take(i));
            assert(hop_signed::<S>(walk, i));
        }
    }
    if consents_given::<S>(walk) {
        assert forall|i: int| 0 <= i < above.len() implies #[trigger] consent_given::<S>(
            above,
            i,
        ) by {
            assert(consent_given::<S>(walk, i));
        }
    }
}

impl View for Announcement {
    type V = Seq<Hop>;

    closed spec fn view(&self) -> Seq<Hop> {
        self.path@
    }
}

impl Clone for Announcement {
    fn clone(&self) -> (copy: Self)
        ensures
            copy@ == self@,
    {
        proof {
            use_type_invariant(self);
        }
        let path = self.path.clone();
        assert(path@ =~= self.path@);
        Announcement { path }
    }
}

impl Announcement {
    /// Every path is shaped like a walk down the tree.
    #[verifier::type_invariant]
    closed spec fn is_shaped(self) -> bool {
        shaped(self.path@)
    }

    /// The announcement of a node that considers itself the root of its own tree.
    pub fn root_of<S: Signer>(signer: &S, seq: u64) -> (announcement: Self)
        ensures
            announcement@ == rooted(*signer, seq),
            shaped(announcement@),
            checks_out::<S>(announcement@),
    {
        let announcement = Self::signed_onto(signer, Vec::new(), None, seq);
        proof {
            let empty = Seq::<Hop>::empty();
            assert(announcement@ =~= empty.push(announcement@.last()));
            lemma_signed_onto::<S>(empty, announcement@.last());
        }
        announcement
    }

    /// Builds an announcement from its parts, rejecting anything malformed or
    /// unsigned.
    ///
    /// Every other constructor preserves the invariants by construction; this
    /// is the entry point a wire format decodes through.
    pub fn new<S: Signer>(path: Vec<Hop>) -> (built: Result<Self, MalformedAnnouncement>)
        ensures
            match flaw::<S>(path@) {
                Some(flaw) => built == Err::<Self, MalformedAnnouncement>(flaw),
                None => built matches Ok(announcement) && announcement@ == path@ && shaped(path@)
                    && checks_out::<S>(path@),
            },
    {
        if path.len() == 0 {
            return Err(MalformedAnnouncement::EmptyPath);
        }
        if path[0].consent.is_some() {
            return Err(MalformedAnnouncement::ConsentAtRoot);
        }
        if some_consent_missing(path.as_slice()) {
            return Err(MalformedAnnouncement::MissingConsent);
        }
        if some_key_repeated(path.as_slice()) {
            return Err(MalformedAnnouncement::RepeatedKey);
        }
        let announcement = Announcement { path };
        if !announcement.hops_signed::<S>() {
            return Err(MalformedAnnouncement::BadSignature);
        }
        if !announcement.consents_given::<S>() {
            return Err(MalformedAnnouncement::BadConsent);
        }
        Ok(announcement)
    }

    /// Builds an announcement whose signatures nobody has looked at.
    pub fn unchecked(path: Vec<Hop>) -> (announcement: Self)
        requires
            shaped(path@),
        ensures
            announcement@ == path@,
    {
        Announcement { path }
    }

    /// The announcement `signer`'s node would make by attaching itself below
    /// this one, on the strength of `consent`.
    ///
    /// Returns `None` when the consent is not this announcement's author
    /// agreeing to this signer, or when the signer's key already appears in
    /// the path. The second check is what keeps the tree loop-free: a node
    /// never adopts a path that runs through itself, so no cycle can form
    /// however stale its view is.
    pub fn extend<S: Signer>(&self, signer: &S, consent: &Consent, seq: u64) -> (extended: Option<
        Self,
    >)
        ensures
            extended is Some <==> self::extended(self@, *signer, *consent, seq) is Some,
            extended matches Some(announcement) ==> {
                &&& Some(announcement@) == self::extended(self@, *signer, *consent, seq)
                &&& shaped(announcement@)
                &&& hops_signed::<S>(self@) ==> hops_signed::<S>(announcement@)
                &&& checks_out::<S>(self@) && consent.holds::<S>() ==> checks_out::<S>(
                    announcement@,
                )
            },
    {
        proof {
            use_type_invariant(self);
        }
        let child = signer.public_key();
        if consent.parent() != self.author() || consent.child() != child {
            return None;
        }
        if names(self.path.as_slice(), child) {
            return None;
        }
        let above = self.path.clone();
        assert(above@ =~= self.path@);
        let announcement = Self::signed_onto(
            signer,
            above,
            Some(consent.signature()),
            seq,
        );
        proof {
            assert(announcement@ =~= self@.push(announcement@.last()));
            lemma_signed_onto::<S>(self@, announcement@.last());
        }
        Some(announcement)
    }

    /// The same walk, stamped with a new sequence number and signed afresh.
    ///
    /// Only the author's own hop is restamped, because only the author can
    /// sign it; the walk down to it stands exactly as the nodes above it
    /// signed. Returns `None` for a signer that is not the author, which is
    /// the only thing it could mean.
    pub fn with_seq<S: Signer>(&self, signer: &S, seq: u64) -> (restamped: Option<Self>)
        ensures
            restamped is Some <==> signer.speaks_for() == author(self@),
            restamped matches Some(announcement) ==> {
                &&& announcement@ == self::restamped(self@, *signer, seq)
                &&& shaped(announcement@)
                &&& hops_signed::<S>(self@) ==> hops_signed::<S>(announcement@)
                &&& checks_out::<S>(self@) ==> checks_out::<S>(announcement@)
            },
    {
        proof {
            use_type_invariant(self);
        }
        if signer.public_key() != self.author() {
            return None;
        }
        let mut above = self.path.clone();
        assert(above@ =~= self.path@);
        let own = above[above.len() - 1];
        let _ = above.pop();
        proof {
            assert(above@ =~= self@.drop_last());
            lemma_distinct_after_cut(self@);
        }
        let announcement = Self::signed_onto(signer, above, own.consent, seq);
        proof {
            let cut = self@.drop_last();
            assert(announcement@ =~= cut.push(announcement@.last()));
            lemma_above_checks_out::<S>(self@);
            lemma_signed_onto::<S>(cut, announcement@.last());
            if consents_given::<S>(self@) {
                assert(consent_given::<S>(self@, cut.len() as int));
            }
        }
        Some(announcement)
    }

    /// The walk `above`, with `signer`'s node signed onto the end of it.
    ///
    /// The only place a hop is ever made, so that the three ways of arriving
    /// at an announcement, rooting, extending and restamping, cannot drift
    /// apart in what they put their name to.
    fn signed_onto<S: Signer>(
        signer: &S,
        above: Vec<Hop>,
        consent: Option<Signature>,
        seq: u64,
    ) -> (announcement: Self)
        requires
            above@.len() == 0 ==> consent is None,
            above@.len() > 0 ==> shaped(above@) && consent is Some,
            !keys(above@).contains(signer.speaks_for()),
        ensures
            announcement@ == self::signed_onto(*signer, above@, consent, seq),
            shaped(announcement@),
            S::accepts(
                signer.speaks_for(),
                statement(above@, signer.speaks_for(), consent, seq),
                announcement@.last().signature,
            ),
    {
        let key = signer.public_key();
        let said = signed_bytes(above.as_slice(), key, consent, seq);
        let signature = signer.sign(said.as_slice());
        let mut path = above;
        path.push(Hop { key, seq, consent, signature });
        proof {
            assert forall|i: int, j: int| 0 <= i < j < path@.len() implies (
            #[trigger] path@[i]).key != (#[trigger] path@[j]).key by {
                if j < above@.len() {
                    assert(above@[i].key != above@[j].key);
                } else {
                    assert(keys(above@)[i] == path@[i].key);
                }
            }
        }
        Announcement { path }
    }

    /// Whether every hop was signed by the node it names *and* agreed to by
    /// the node above it.
    ///
    /// What this settles is that every link in the walk is real. What it does
    /// not settle is whether any of it is still true: a signature is as valid
    /// on a long-dead announcement as on a fresh one, which is what sequence
    /// numbers and expiry are for.
    pub fn verify<S: Signer>(&self) -> (verified: bool)
        ensures
            verified == checks_out::<S>(self@),
    {
        self.hops_signed::<S>() && self.consents_given::<S>()
    }

    /// Whether every hop was signed by the node it names.
    fn hops_signed<S: Signer>(&self) -> (signed: bool)
        ensures
            signed == hops_signed::<S>(self@),
    {
        all_hops_signed::<S>(self.path.as_slice())
    }

    /// Whether every hop below the root carries the consent of the hop above
    /// it, and the root carries none.
    fn consents_given<S: Signer>(&self) -> (given: bool)
        ensures
            given == consents_given::<S>(self@),
    {
        all_consents_given::<S>(self.path.as_slice())
    }

    /// The author's own signature, which covers the whole walk down to it and
    /// so stands for the announcement as a whole.
    pub fn author_signature(&self) -> (signature: Signature)
        ensures
            signature == self@.last().signature,
    {
        proof {
            use_type_invariant(self);
        }
        self.path[self.path.len() - 1].signature
    }

    /// The sequence number its author last stamped it with.
    pub fn seq(&self) -> (seq: u64)
        ensures
            seq == self@.last().seq,
    {
        proof {
            use_type_invariant(self);
        }
        self.path[self.path.len() - 1].seq
    }

    /// The path from the root down to the author.
    pub fn path(&self) -> (path: &[Hop])
        ensures
            path@ == self@,
            shaped(self@),
    {
        proof {
            use_type_invariant(self);
        }
        self.path.as_slice()
    }

    /// The root of the tree this announcement belongs to.
    pub fn root(&self) -> (root: PublicKey)
        ensures
            root == self@[0].key,
    {
        proof {
            use_type_invariant(self);
        }
        self.path[0].key
    }

    /// The node that made this announcement.
    pub fn author(&self) -> (author: PublicKey)
        ensures
            author == self::author(self@),
            shaped(self@),
    {
        proof {
            use_type_invariant(self);
        }
        self.path[self.path.len() - 1].key
    }

    /// The author's parent, or `None` if the author is the root.
    pub fn parent(&self) -> (parent: Option<PublicKey>)
        ensures
            parent == self::parent(self@),
    {
        if self.path.len() >= 2 {
            Some(self.path[self.path.len() - 2].key)
        } else {
            None
        }
    }

    /// How many links the walk from the author up to the root crosses.
    ///
    /// This is the number parent selection minimises, and it is zero exactly
    /// for a node that believes it is the root.
    pub fn depth(&self) -> (depth: usize)
        ensures
            depth == self@.len() - 1,
    {
        proof {
            use_type_invariant(self);
        }
        self.path.len() - 1
    }

    /// Whether this describes the same walk as `other`: the same nodes in the
    /// same order, however either of them was stamped and signed.
    ///
    /// This is the question "have I moved?", which the stamps must not answer.
    pub fn same_position(&self, other: &Self) -> (same: bool)
        ensures
            same == (keys(self@) == keys(other@)),
    {
        if self.path.len() != other.path.len() {
            assert(keys(self@).len() != keys(other@).len());
            return false;
        }
        let mut i: usize = 0;
        while i < self.path.len()
            invariant
                self.path@.len() == other.path@.len(),
                0 <= i <= self.path@.len(),
                forall|j: int| 0 <= j < i ==> self.path@[j].key == other.path@[j].key,
            decreases self.path@.len() - i,
        {
            if self.path[i].key != other.path[i].key {
                assert(keys(self@)[i as int] != keys(other@)[i as int]);
                return false;
            }
            i += 1;
        }
        assert(keys(self@) =~= keys(other@));
        true
    }

    /// Whether this announcement replaces `other` in the set of known
    /// announcements.
    ///
    /// Announcements are only ever authored by the node they describe, so per
    /// author this set is a max register: the join is whichever announcement is
    /// greater. Sequence number decides, with the path as a tie-break purely so
    /// that the rule is total and every node reaches the same answer.
    pub fn supersedes(&self, other: &Self) -> (newer: bool)
        ensures
            newer == self::supersedes(self@, other@),
    {
        match compare_numbers(self.seq(), other.seq()) {
            Standing::Before => false,
            Standing::After => true,
            Standing::Same => {
                match compare_slices(other.path.as_slice(), self.path.as_slice()) {
                    Standing::Before => true,
                    Standing::Same => false,
                    Standing::After => false,
                }
            },
        }
    }
}

/// What stands above the author of a walk is shaped like a walk, unless it is
/// nothing, and does not name the author.
proof fn lemma_distinct_after_cut(walk: Seq<Hop>)
    requires
        shaped(walk),
    ensures
        walk.len() > 1 ==> shaped(walk.drop_last()),
        !keys(walk.drop_last()).contains(author(walk)),
{
    let above = walk.drop_last();
    assert forall|i: int, j: int| 0 <= i < j < above.len() implies (#[trigger] above[i]).key != (
    #[trigger] above[j]).key by {
        assert(walk[i].key != walk[j].key);
    }
    if keys(above).contains(author(walk)) {
        let at = choose|i: int| 0 <= i < keys(above).len() && keys(above)[i] == author(walk);
        assert(walk[at].key != walk[walk.len() - 1].key);
    }
}

/// How many links the walk between two nodes crosses along the tree.
///
/// Both paths descend from the root, so they share a prefix ending at the two
/// nodes' lowest common ancestor; the distance is the climb up to it plus the
/// descent back down. Within one tree it is zero only between a node and
/// itself.
///
/// The number is a count of links and nothing else, which is what lets every
/// node on a route agree about it. It is derived from keys that were signed,
/// and there is no measurement anywhere in it for a peer to overstate.
///
/// Two paths that disagree about the root share no prefix at all, so what
/// comes back is the length of both walks, each counted from its own root. The
/// figure is well defined and says nothing about how far apart the two nodes
/// are.
///
/// Only keys are compared to find the shared prefix, so two nodes holding
/// differently stamped copies of the same walk still agree on where it forks.
pub fn distance(a: &[Hop], b: &[Hop]) -> (links: usize)
    requires
        a@.len() + b@.len() <= usize::MAX,
    ensures
        links == walk::links_between(keys(a@), keys(b@)),
{
    let mut shared: usize = 0;
    while shared < a.len() && shared < b.len() && a[shared].key == b[shared].key
        invariant
            shared <= a@.len(),
            shared <= b@.len(),
            forall|i: int| 0 <= i < shared ==> a@[i].key == b@[i].key,
        decreases a@.len() - shared,
    {
        shared += 1;
    }
    proof {
        walk::lemma_shared(keys(a@), keys(b@));
        assert(walk::forks_after(keys(a@), keys(b@), shared as nat));
    }
    (a.len() - shared) + (b.len() - shared)
}

/// Of any two different walks by one author, exactly one is the later word.
pub proof fn law_supersedes_never_ties(a: Seq<Hop>, b: Seq<Hop>)
    ensures
        !supersedes(a, a),
        supersedes(a, b) ==> !supersedes(b, a),
        a == b || supersedes(a, b) || supersedes(b, a),
{
    order::lemma_precedes_is_total(a, b);
    order::lemma_precedes_is_total(b, a);
}

/// What replaces a later word replaces every word that one replaced.
pub proof fn law_supersedes_is_transitive(a: Seq<Hop>, b: Seq<Hop>, c: Seq<Hop>)
    requires
        supersedes(a, b),
        supersedes(b, c),
    ensures
        supersedes(a, c),
{
    if order::precedes(b, a) && order::precedes(c, b) {
        order::lemma_precedes_is_transitive(c, b, a);
    }
}

/// The later of two words.
pub open spec fn later(a: Seq<Hop>, b: Seq<Hop>) -> Seq<Hop> {
    if supersedes(a, b) {
        a
    } else {
        b
    }
}

/// What is held of one author is a max register: the order in which words
/// arrive does not matter, and neither does hearing one twice.
pub proof fn law_last_word_is_a_max_register(a: Seq<Hop>, b: Seq<Hop>, c: Seq<Hop>)
    ensures
        later(a, a) == a,
        later(a, b) == later(b, a),
        later(later(a, b), c) == later(a, later(b, c)),
{
    law_supersedes_never_ties(a, b);
    law_supersedes_never_ties(b, c);
    law_supersedes_never_ties(a, c);
    if supersedes(a, b) && supersedes(b, c) {
        law_supersedes_is_transitive(a, b, c);
    }
    if supersedes(c, b) && supersedes(b, a) {
        law_supersedes_is_transitive(c, b, a);
    }
    if supersedes(b, a) && supersedes(a, c) {
        law_supersedes_is_transitive(b, a, c);
    }
    if supersedes(c, a) && supersedes(a, b) {
        law_supersedes_is_transitive(c, a, b);
    }
    if supersedes(a, c) && supersedes(c, b) {
        law_supersedes_is_transitive(a, c, b);
    }
    if supersedes(b, c) && supersedes(c, a) {
        law_supersedes_is_transitive(b, c, a);
    }
}

/// Attaching below a walk adds one link to it and never forms a loop: the new
/// walk keeps the root and hangs off the old author.
pub proof fn law_extending_adds_one_link<S: Signer>(
    walk: Seq<Hop>,
    signer: S,
    consent: Consent,
    seq: u64,
)
    requires
        shaped(walk),
        extended(walk, signer, consent, seq) is Some,
    ensures
        ({
            let longer = extended(walk, signer, consent, seq)->0;
            &&& shaped(longer)
            &&& longer.len() == walk.len() + 1
            &&& longer.drop_last() == walk
            &&& longer[0].key == walk[0].key
            &&& author(longer) == signer.speaks_for()
            &&& parent(longer) == Some(author(walk))
            &&& longer.last().seq == seq
        }),
{
    let longer = extended(walk, signer, consent, seq)->0;
    assert forall|i: int, j: int| 0 <= i < j < longer.len() implies (#[trigger] longer[i]).key != (
    #[trigger] longer[j]).key by {
        if j < walk.len() {
            assert(walk[i].key != walk[j].key);
        } else {
            assert(keys(walk)[i] == longer[i].key);
        }
    }
    assert(longer.drop_last() =~= walk);
}

/// A node already on a walk cannot attach below its end.
pub proof fn law_extending_refuses_a_loop<S: Signer>(
    walk: Seq<Hop>,
    signer: S,
    consent: Consent,
    seq: u64,
    at: int,
)
    requires
        0 <= at < walk.len(),
        walk[at].key == signer.speaks_for(),
    ensures
        extended(walk, signer, consent, seq) is None,
{
    assert(keys(walk)[at] == signer.speaks_for());
}

/// Restamping leaves the walk where it was and every hop above the author as
/// it stood; a later stamp is the later word.
pub proof fn law_restamping_moves_nothing<S: Signer>(walk: Seq<Hop>, signer: S, seq: u64)
    requires
        shaped(walk),
        signer.speaks_for() == author(walk),
    ensures
        shaped(restamped(walk, signer, seq)),
        keys(restamped(walk, signer, seq)) == keys(walk),
        restamped(walk, signer, seq).drop_last() == walk.drop_last(),
        restamped(walk, signer, seq).last().seq == seq,
        seq > walk.last().seq ==> supersedes(restamped(walk, signer, seq), walk),
{
    let fresh = restamped(walk, signer, seq);
    assert(fresh.drop_last() =~= walk.drop_last());
    assert forall|i: int| 0 <= i < walk.len() implies fresh[i].key == walk[i].key && fresh[i].consent
        == walk[i].consent by {
        if i < walk.len() - 1 {
            assert(fresh.drop_last()[i] == walk.drop_last()[i]);
        }
    }
    assert(keys(fresh) =~= keys(walk));
    assert forall|i: int, j: int| 0 <= i < j < fresh.len() implies (#[trigger] fresh[i]).key != (
    #[trigger] fresh[j]).key by {
        assert(walk[i].key != walk[j].key);
    }
}

/// Distance is the same from either end.
pub proof fn law_distance_is_symmetric(a: Seq<Hop>, b: Seq<Hop>)
    ensures
        walk::links_between(keys(a), keys(b)) == walk::links_between(keys(b), keys(a)),
{
    walk::lemma_links_are_symmetric(keys(a), keys(b));
}

/// Distance is zero only between a node and itself.
pub proof fn law_distance_is_zero_at_home(a: Seq<Hop>, b: Seq<Hop>)
    ensures
        walk::links_between(keys(a), keys(b)) == 0 <==> keys(a) == keys(b),
{
    walk::lemma_links_are_zero_at_home(keys(a), keys(b));
}

/// Two walks that disagree about the root share nothing, so the distance
/// between them is both of them laid end to end.
pub proof fn law_distance_across_trees_is_both_walks(a: Seq<Hop>, b: Seq<Hop>)
    requires
        a.len() > 0,
        b.len() > 0,
        a[0].key != b[0].key,
    ensures
        walk::links_between(keys(a), keys(b)) == a.len() + b.len(),
{
    walk::lemma_shared(keys(a), keys(b));
    assert(walk::forks_after(keys(a), keys(b), 0));
}

/// A parent is one link away from its child.
pub proof fn law_a_parent_is_one_link_away(walk: Seq<Hop>)
    requires
        walk.len() >= 2,
    ensures
        walk::links_between(keys(walk), keys(walk.drop_last())) == 1,
{
    let above = walk.drop_last();
    walk::lemma_shared(keys(walk), keys(above));
    assert(walk::forks_after(keys(walk), keys(above), above.len()));
}

/// How wide a hop lies.
pub open spec fn hop_width() -> nat {
    168
}

proof fn lemma_walk_bytes_len(walk: Seq<Hop>)
    ensures
        walk_bytes(walk).len() == hop_width() * walk.len(),
    decreases walk.len(),
{
    if walk.len() > 0 {
        lemma_walk_bytes_len(walk.drop_last());
        assert(hop_bytes(walk.last()).len() == hop_width());
        assert(hop_width() * walk.len() == hop_width() * (walk.len() - 1) + hop_width())
            by (nonlinear_arith);
    }
}

/// Two hops laid out alike are the same hop, where both or neither carry a
/// consent.
proof fn lemma_hop_bytes_tell_apart(a: Hop, b: Hop)
    requires
        hop_bytes(a) == hop_bytes(b),
        a.consent is Some <==> b.consent is Some,
    ensures
        a == b,
{
    let (x, y) = (bargain::consent_field(a.consent), bargain::consent_field(b.consent));
    let (a1, b1) = (a.key@ + bytes::be_bytes(a.seq), b.key@ + bytes::be_bytes(b.seq));
    bytes::lemma_split(a1 + x, a.signature@, b1 + y, b.signature@);
    bytes::lemma_split(a1, x, b1, y);
    bytes::lemma_split(a.key@, bytes::be_bytes(a.seq), b.key@, bytes::be_bytes(b.seq));
    bytes::lemma_be_bytes_tell_apart(a.seq, b.seq);
    crate::key::lemma_key_is_its_bytes(a.key, b.key);
    signature::lemma_signature_is_its_bytes(a.signature, b.signature);
    if a.consent is Some {
        signature::lemma_signature_is_its_bytes(a.consent->0, b.consent->0);
    }
}

/// Whether a walk carries a consent at exactly the hops below its root.
pub open spec fn consented_below_root(walk: Seq<Hop>) -> bool {
    forall|i: int| 0 <= i < walk.len() ==> ((#[trigger] walk[i]).consent is Some <==> i > 0)
}

proof fn lemma_walk_bytes_tell_apart(a: Seq<Hop>, b: Seq<Hop>)
    requires
        walk_bytes(a) == walk_bytes(b),
        consented_below_root(a),
        consented_below_root(b),
    ensures
        a == b,
    decreases a.len(),
{
    lemma_walk_bytes_len(a);
    lemma_walk_bytes_len(b);
    assert(a.len() == b.len()) by (nonlinear_arith)
        requires
            hop_width() * a.len() == hop_width() * b.len(),
            hop_width() == 168,
    ;
    if a.len() > 0 {
        lemma_walk_bytes_len(a.drop_last());
        lemma_walk_bytes_len(b.drop_last());
        bytes::lemma_split(
            walk_bytes(a.drop_last()),
            hop_bytes(a.last()),
            walk_bytes(b.drop_last()),
            hop_bytes(b.last()),
        );
        lemma_walk_bytes_tell_apart(a.drop_last(), b.drop_last());
        lemma_hop_bytes_tell_apart(a.last(), b.last());
        assert(a =~= a.drop_last().push(a.last()));
        assert(b =~= b.drop_last().push(b.last()));
    } else {
        assert(a =~= b);
    }
}

/// No two different hops can be signed over the same bytes: the bytes give
/// back the whole walk above, the key, the stamp and the consent.
pub proof fn law_statements_are_unambiguous(a: Seq<Hop>, b: Seq<Hop>)
    requires
        a.len() > 0,
        b.len() > 0,
        consented_below_root(a),
        consented_below_root(b),
        statement(a.drop_last(), a.last().key, a.last().consent, a.last().seq) == statement(
            b.drop_last(),
            b.last().key,
            b.last().consent,
            b.last().seq,
        ),
    ensures
        a.drop_last() == b.drop_last(),
        a.last().key == b.last().key,
        a.last().seq == b.last().seq,
        a.last().consent == b.last().consent,
{
    let (p, q) = (a.last(), b.last());
    let (x, y) = (bargain::consent_field(p.consent), bargain::consent_field(q.consent));
    let (above, other) = (walk_bytes(a.drop_last()), walk_bytes(b.drop_last()));
    let (a0, b0) = (hop_domain() + above, hop_domain() + other);
    let (a1, b1) = (a0 + p.key@, b0 + q.key@);
    let (a2, b2) = (a1 + bytes::be_bytes(p.seq), b1 + bytes::be_bytes(q.seq));
    lemma_walk_bytes_len(a.drop_last());
    lemma_walk_bytes_len(b.drop_last());
    assert((a2 + x).len() == a2.len() + 64);
    assert((b2 + y).len() == b2.len() + 64);
    bytes::lemma_split(a2, x, b2, y);
    bytes::lemma_split(a1, bytes::be_bytes(p.seq), b1, bytes::be_bytes(q.seq));
    bytes::lemma_split(a0, p.key@, b0, q.key@);
    bytes::lemma_split(hop_domain(), above, hop_domain(), other);
    lemma_walk_bytes_tell_apart(a.drop_last(), b.drop_last());
    crate::key::lemma_key_is_its_bytes(p.key, q.key);
    bytes::lemma_be_bytes_tell_apart(p.seq, q.seq);
    assert(a.drop_last().len() == b.drop_last().len());
    if p.consent is Some {
        signature::lemma_signature_is_its_bytes(p.consent->0, q.consent->0);
    }
}

/// A consent's bytes give back who gave it and to whom.
pub proof fn law_agreements_are_unambiguous(
    parent: PublicKey,
    child: PublicKey,
    other_parent: PublicKey,
    other_child: PublicKey,
)
    requires
        agreement(parent, child) == agreement(other_parent, other_child),
    ensures
        parent == other_parent,
        child == other_child,
{
    let (a, b) = (consent_domain() + parent@, consent_domain() + other_parent@);
    bytes::lemma_split(a, child@, b, other_child@);
    bytes::lemma_split(consent_domain(), parent@, consent_domain(), other_parent@);
    crate::key::lemma_key_is_its_bytes(parent, other_parent);
    crate::key::lemma_key_is_its_bytes(child, other_child);
}

/// Nothing signed as a hop can be read back as a consent.
pub proof fn law_statements_are_not_agreements(
    above: Seq<Hop>,
    key: PublicKey,
    consent: Option<Signature>,
    seq: u64,
    parent: PublicKey,
    child: PublicKey,
)
    ensures
        statement(above, key, consent, seq) != agreement(parent, child),
{
    reveal_strlit("blackwood/hop/2");
    reveal_strlit("blackwood/consent/2");
    vstd::utf8::is_ascii_chars_encode_utf8("blackwood/hop/2"@);
    vstd::utf8::is_ascii_chars_encode_utf8("blackwood/consent/2"@);
    assert("blackwood/hop/2"@[10] as u8 == hop_domain()[10]);
    assert("blackwood/consent/2"@[10] as u8 == consent_domain()[10]);
    assert(statement(above, key, consent, seq)[10] == hop_domain()[10]);
    assert(agreement(parent, child)[10] == consent_domain()[10]);
}

/// The later stamp is the later word, whatever the walks; under one stamp it is
/// the walk with the greater key where the two first differ, or the longer one
/// where they do not.
pub proof fn law_the_later_stamp_is_the_later_word(a: Seq<Hop>, b: Seq<Hop>, at: int)
    requires
        a.len() > 0,
        b.len() > 0,
    ensures
        a.last().seq > b.last().seq ==> supersedes(a, b) && !supersedes(b, a),
        a.last().seq == b.last().seq && 0 <= at < a.len() && at < b.len() && (forall|i: int|
            0 <= i < at ==> #[trigger] a[i] == b[i]) && a[at].key.rank() > b[at].key.rank()
            ==> supersedes(a, b) && !supersedes(b, a),
        a.last().seq == b.last().seq && a.len() > b.len() && a.take(b.len() as int) == b
            ==> supersedes(a, b) && !supersedes(b, a),
{
    law_supersedes_never_ties(a, b);
    if 0 <= at < a.len() && at < b.len() && (forall|i: int| 0 <= i < at ==> #[trigger] a[i] == b[i])
        && a[at].key.rank() > b[at].key.rank() {
        assert(order::parts_first_at(b, a, at));
    }
    if a.len() > b.len() && a.take(b.len() as int) == b {
        assert forall|i: int| 0 <= i < b.len() implies b[i] == a[i] by {
            assert(a.take(b.len() as int)[i] == a[i]);
        }
        assert(order::parts_first_at(b, a, b.len() as int));
    }
}

/// The distance between two nodes is how many links lie below the last node
/// their walks share, on either side.
pub proof fn law_the_distance_is_what_lies_below_the_fork(a: Seq<Hop>, b: Seq<Hop>, fork: int)
    requires
        0 <= fork <= a.len(),
        fork <= b.len(),
        forall|i: int| 0 <= i < fork ==> (#[trigger] a[i]).key == b[i].key,
        fork == a.len() || fork == b.len() || a[fork].key != b[fork].key,
    ensures
        walk::links_between(keys(a), keys(b)) == a.len() + b.len() - 2 * fork,
{
    walk::lemma_shared(keys(a), keys(b));
    assert(walk::forks_after(keys(a), keys(b), fork as nat));
}

/// A walk is refused for the first of these that is wrong with it, and for
/// nothing else: it names nobody; its root stands on a consent; a hop below the
/// root stands on none; a node is named twice; a hop's signature is not its own
/// node's over everything down to it; its consent is not the node above agreeing
/// to that node.
pub proof fn law_a_walk_is_refused_for_its_first_fault<S: Signer>(walk: Seq<Hop>)
    ensures
        ({
            let fault = flaw::<S>(walk);
            let alone = exists|i: int| 0 < i < walk.len() && (#[trigger] walk[i]).consent is None;
            let twice = exists|i: int, j: int|
                0 <= i < j < walk.len() && (#[trigger] walk[i]).key == (#[trigger] walk[j]).key;
            let unsigned = exists|i: int|
                0 <= i < walk.len() && !S::accepts(
                    (#[trigger] walk[i]).key,
                    statement(walk.take(i), walk[i].key, walk[i].consent, walk[i].seq),
                    walk[i].signature,
                );
            let unwelcome = exists|i: int|
                0 < i < walk.len() && !S::accepts(
                    walk[i - 1].key,
                    agreement(walk[i - 1].key, (#[trigger] walk[i]).key),
                    walk[i].consent->0,
                );
            &&& walk.len() == 0 ==> fault == Some(MalformedAnnouncement::EmptyPath)
            &&& walk.len() > 0 && walk[0].consent is Some ==> fault == Some(
                MalformedAnnouncement::ConsentAtRoot,
            )
            &&& walk.len() > 0 && walk[0].consent is None ==> {
                &&& alone ==> fault == Some(MalformedAnnouncement::MissingConsent)
                &&& !alone && twice ==> fault == Some(MalformedAnnouncement::RepeatedKey)
                &&& !alone && !twice && unsigned ==> fault == Some(
                    MalformedAnnouncement::BadSignature,
                )
                &&& !alone && !twice && !unsigned && unwelcome ==> fault == Some(
                    MalformedAnnouncement::BadConsent,
                )
                &&& !alone && !twice && !unsigned && !unwelcome ==> fault is None
            }
        }),
{
    if exists|i: int|
        0 <= i < walk.len() && !S::accepts(
            (#[trigger] walk[i]).key,
            statement(walk.take(i), walk[i].key, walk[i].consent, walk[i].seq),
            walk[i].signature,
        ) {
        let i = choose|i: int|
            0 <= i < walk.len() && !S::accepts(
                (#[trigger] walk[i]).key,
                statement(walk.take(i), walk[i].key, walk[i].consent, walk[i].seq),
                walk[i].signature,
            );
        assert(!hop_signed::<S>(walk, i));
    }
    if !hops_signed::<S>(walk) {
        let i = choose|i: int| 0 <= i < walk.len() && !#[trigger] hop_signed::<S>(walk, i);
        assert(!S::accepts(
            walk[i].key,
            statement(walk.take(i), walk[i].key, walk[i].consent, walk[i].seq),
            walk[i].signature,
        ));
    }
    if walk.len() > 0 && walk[0].consent is None && !lacks_consent(walk) {
        if exists|i: int|
            0 < i < walk.len() && !S::accepts(
                walk[i - 1].key,
                agreement(walk[i - 1].key, (#[trigger] walk[i]).key),
                walk[i].consent->0,
            ) {
            let i = choose|i: int|
                0 < i < walk.len() && !S::accepts(
                    walk[i - 1].key,
                    agreement(walk[i - 1].key, (#[trigger] walk[i]).key),
                    walk[i].consent->0,
                );
            assert(!consent_given::<S>(walk, i));
        }
        if !consents_given::<S>(walk) {
            let i = choose|i: int| 0 <= i < walk.len() && !#[trigger] consent_given::<S>(walk, i);
            assert(i > 0);
            assert(!(walk[i].consent is None));
            assert(!S::accepts(
                walk[i - 1].key,
                agreement(walk[i - 1].key, walk[i].key),
                walk[i].consent->0,
            ));
        }
    }
}

/// A walk checks out where every hop is signed by its own node over everything
/// down to it, the root stands on no consent, and every other hop on that of the
/// node above.
pub proof fn law_a_walk_checks_out_hop_by_hop<S: Signer>(walk: Seq<Hop>)
    ensures
        checks_out::<S>(walk) <==> forall|i: int|
            0 <= i < walk.len() ==> {
                &&& S::accepts(
                    (#[trigger] walk[i]).key,
                    statement(walk.take(i), walk[i].key, walk[i].consent, walk[i].seq),
                    walk[i].signature,
                )
                &&& i == 0 ==> walk[i].consent is None
                &&& i > 0 ==> walk[i].consent is Some && S::accepts(
                    walk[i - 1].key,
                    agreement(walk[i - 1].key, walk[i].key),
                    walk[i].consent->0,
                )
            },
{
    if checks_out::<S>(walk) {
        assert forall|i: int| 0 <= i < walk.len() implies {
            &&& S::accepts(
                (#[trigger] walk[i]).key,
                statement(walk.take(i), walk[i].key, walk[i].consent, walk[i].seq),
                walk[i].signature,
            )
            &&& i == 0 ==> walk[i].consent is None
            &&& i > 0 ==> walk[i].consent is Some && S::accepts(
                walk[i - 1].key,
                agreement(walk[i - 1].key, walk[i].key),
                walk[i].consent->0,
            )
        } by {
            assert(hop_signed::<S>(walk, i) && consent_given::<S>(walk, i));
        }
    } else if !hops_signed::<S>(walk) {
        let i = choose|i: int| 0 <= i < walk.len() && !#[trigger] hop_signed::<S>(walk, i);
        assert(!S::accepts(
            walk[i].key,
            statement(walk.take(i), walk[i].key, walk[i].consent, walk[i].seq),
            walk[i].signature,
        ));
    } else {
        let i = choose|i: int| 0 <= i < walk.len() && !#[trigger] consent_given::<S>(walk, i);
        let hop = walk[i];
        assert(hop.consent is Some || hop.consent is None);
    }
}

/// A statement is its tag, every hop above as it was signed and its signature,
/// and then the key, the stamp and the consent being signed for, with zeroes for
/// no consent. An agreement is its tag and the two keys.
pub proof fn law_a_statement_holds_everything_above(
    above: Seq<Hop>,
    hop: Hop,
    key: PublicKey,
    consent: Option<Signature>,
    seq: u64,
)
    ensures
        ({
            let given = match consent {
                Some(signature) => signature@,
                None => Seq::new(64, |i: int| 0u8),
            };
            let mine = key@ + bytes::be_bytes(seq) + given;
            &&& statement(Seq::empty(), key, consent, seq) == vstd::utf8::encode_utf8(
                "blackwood/hop/2"@,
            ) + mine
            &&& statement(above.push(hop), key, consent, seq) == statement(
                above,
                hop.key,
                hop.consent,
                hop.seq,
            ) + hop.signature@ + mine
            &&& agreement(hop.key, key) == vstd::utf8::encode_utf8("blackwood/consent/2"@)
                + hop.key@ + key@
        }),
{
    let given = match consent {
        Some(signature) => signature@,
        None => Seq::new(64, |i: int| 0u8),
    };
    let mine = key@ + bytes::be_bytes(seq) + given;
    assert(bargain::consent_field(consent) =~= given);
    assert(above.push(hop).drop_last() =~= above);
    assert(statement(Seq::empty(), key, consent, seq) =~= vstd::utf8::encode_utf8(
        "blackwood/hop/2"@,
    ) + mine);
    assert(statement(above.push(hop), key, consent, seq) =~= statement(
        above,
        hop.key,
        hop.consent,
        hop.seq,
    ) + hop.signature@ + mine);
}

/// A node signs for itself: the hop it adds bears its key, the signature of the
/// consent it stands on, the stamp it was given, and its own signature over the
/// statement of them. It adds none below anybody but the node that consented, nor
/// on a consent to anybody else, nor twice.
pub proof fn law_a_node_signs_for_its_own_hop<S: Signer>(
    walk: Seq<Hop>,
    signer: S,
    consent: Consent,
    seq: u64,
)
    requires
        walk.len() > 0,
    ensures
        ({
            let key = signer.speaks_for();
            let given = Some(consent.signed());
            let last = walk[walk.len() - 1];
            let fits = consent.given_by() == last.key && consent.given_to() == key && forall|i: int|
                0 <= i < walk.len() ==> (#[trigger] walk[i]).key != key;
            &&& rooted(signer, seq) == seq![
                Hop {
                    key,
                    seq,
                    consent: None,
                    signature: signer.signs(statement(Seq::empty(), key, None, seq)),
                },
            ]
            &&& fits <==> extended(walk, signer, consent, seq) is Some
            &&& fits ==> extended(walk, signer, consent, seq) == Some(
                walk.push(
                    Hop {
                        key,
                        seq,
                        consent: given,
                        signature: signer.signs(statement(walk, key, given, seq)),
                    },
                ),
            )
            &&& restamped(walk, signer, seq) == walk.drop_last().push(
                Hop {
                    key,
                    seq,
                    consent: last.consent,
                    signature: signer.signs(
                        statement(walk.drop_last(), key, last.consent, seq),
                    ),
                },
            )
        }),
{
    let key = signer.speaks_for();
    assert(rooted(signer, seq) =~= seq![
        Hop {
            key,
            seq,
            consent: None,
            signature: signer.signs(statement(Seq::empty(), key, None, seq)),
        },
    ]);
    if !(forall|i: int| 0 <= i < walk.len() ==> (#[trigger] walk[i]).key != key) {
        let i = choose|i: int| 0 <= i < walk.len() && (#[trigger] walk[i]).key == key;
        assert(keys(walk)[i] == key);
    }
    if keys(walk).contains(key) {
        let i = choose|i: int| 0 <= i < keys(walk).len() && keys(walk)[i] == key;
        assert(walk[i].key == key);
    }
}

/// A walk runs from its root to its author, whose parent is the step before.
pub proof fn law_a_walk_ends_at_its_author(walk: Seq<Hop>)
    requires
        walk.len() > 0,
    ensures
        author(walk) == walk[walk.len() - 1].key,
        walk.len() == 1 ==> parent(walk) is None,
        walk.len() > 1 ==> parent(walk) == Some(walk[walk.len() - 2].key),
{
}

/// Hops sort by key, stamp, consent and signature, the first of these in which they differ.
pub proof fn law_hops_sort_by_key_stamp_consent_and_signature(a: Hop, b: Hop)
    ensures
        a.key.rank() < b.key.rank() ==> a.before(b),
        a.key == b.key && a.seq < b.seq ==> a.before(b),
        a.key == b.key && a.seq == b.seq && a.consent is None && b.consent is Some ==> a.before(b),
        a.key == b.key && a.seq == b.seq && a.consent is Some && b.consent is Some && order::rank(a.consent->0@)
            < order::rank(b.consent->0@) ==> a.before(b),
        a.key == b.key && a.seq == b.seq && a.consent
            == b.consent && order::rank(a.signature@)
            < order::rank(b.signature@) ==> a.before(b),
{
}

/// Under one stamp the later word is the one whose first hop to differ sorts
/// later.
pub proof fn law_a_tie_goes_to_the_walk_that_sorts_later(a: Seq<Hop>, b: Seq<Hop>, at: int)
    requires
        a.len() > 0,
        b.len() > 0,
        a.last().seq == b.last().seq,
        0 <= at < a.len(),
        at < b.len(),
        forall|i: int| 0 <= i < at ==> #[trigger] a[i] == b[i],
        b[at].before(a[at]),
    ensures
        supersedes(a, b),
        !supersedes(b, a),
{
    assert(order::parts_first_at(b, a, at));
    law_supersedes_never_ties(a, b);
}

/// Every way a walk can be wrong is put in words of its own.
pub proof fn law_every_fault_has_its_own_words(fault: MalformedAnnouncement)
    ensures
        fault.words() == (match fault {
            MalformedAnnouncement::EmptyPath => "announcement path is empty"@,
            MalformedAnnouncement::RepeatedKey => "announcement path repeats a key"@,
            MalformedAnnouncement::BadSignature => "announcement hop is not signed by the node it names"@,
            MalformedAnnouncement::ConsentAtRoot => "announcement root carries a consent"@,
            MalformedAnnouncement::MissingConsent => "announcement hop sits below a node that did not consent"@,
            MalformedAnnouncement::BadConsent => "announcement hop's consent was not given by the node above it"@,
        }),
{
}

/// Two walks name the same nodes where they do so step by step, however they were
/// stamped and agreed to.
pub proof fn law_walks_are_the_same_step_by_step(a: Seq<Hop>, b: Seq<Hop>)
    ensures
        keys(a) == keys(b) <==> a.len() == b.len() && forall|i: int|
            0 <= i < a.len() ==> (#[trigger] a[i]).key == b[i].key,
{
    if keys(a) == keys(b) {
        assert(keys(a).len() == a.len() && keys(b).len() == b.len());
        assert forall|i: int| 0 <= i < a.len() implies (#[trigger] a[i]).key == b[i].key by {
            assert(keys(a)[i] == keys(b)[i]);
        }
    }
    if a.len() == b.len() && forall|i: int|
        0 <= i < a.len() ==> (#[trigger] a[i]).key == b[i].key {
        assert(keys(a) =~= keys(b));
    }
}

} // verus!
