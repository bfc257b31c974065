//! Priced positions in the spanning tree, and the metric derived from them.
//!
//! A position here is a bargain: the node above names the price of the link it
//! is agreeing to carry a child over, and the child announces that price and no
//! other.

use vstd::prelude::*;
use std::cmp::Ordering;
use vstd::slice::slice_subrange;
use crate::bytes;
use crate::bytes::{append, append_number};
use crate::cost::Cost;
use crate::key::PublicKey;
use crate::sorted_map::Ranked;
use crate::order;
use crate::order::{compare_bytes, compare_numbers, compare_slices, Ordered, Standing};
use crate::signature;
use crate::signature::{Signature, Signer, SIGNATURE_LEN};
use crate::walk;
use crate::walk::Leg;

verus! {

/// One step down the tree: a node, what reaching it costs, and its own hand on
/// the whole walk down to it.
#[derive(Clone, Copy, PartialEq, Eq, PartialOrd, Ord, Hash, Debug)]
pub struct Hop {
    /// The node this step arrives at.
    pub key: PublicKey,
    /// What the link from the previous hop to this one costs to cross, as the
    /// node above priced it.
    ///
    /// Zero at the root, which nothing precedes, and at least one at every
    /// other hop.
    pub cost: u64,
    /// The sequence number this hop's node stamped it with.
    pub seq: u64,
    /// The hop above's agreement that this node may sit below it at that
    /// price.
    ///
    /// `None` at the root, which nothing precedes, and `Some` at every other
    /// hop.
    pub consent: Option<Signature>,
    /// That node's signature over this hop and every hop above it.
    pub signature: Signature,
}

/// Where a consent sorts: a missing one before any other.
pub open spec fn consent_rank(consent: Option<Signature>) -> int {
    match consent {
        Some(signature) => order::rank(signature@) as int,
        None => -1,
    }
}

/// Compares two consents, a missing one coming before any other.
pub fn compare_consents(a: &Option<Signature>, b: &Option<Signature>) -> (standing: Standing)
    ensures
        standing == Standing::Before <==> consent_rank(*a) < consent_rank(*b),
        standing == Standing::Same <==> *a == *b,
        standing == Standing::After <==> consent_rank(*b) < consent_rank(*a),
{
    match (a, b) {
        (None, None) => Standing::Same,
        (None, Some(_)) => Standing::Before,
        (Some(_), None) => Standing::After,
        (Some(x), Some(y)) => {
            proof {
                signature::lemma_signature_is_its_bytes(*x, *y);
            }
            compare_bytes(x.as_bytes(), y.as_bytes())
        },
    }
}

/// No two consents sort alike.
pub proof fn lemma_consent_rank_tells_apart(a: Option<Signature>, b: Option<Signature>)
    requires
        consent_rank(a) == consent_rank(b),
    ensures
        a == b,
{
    if a is Some && b is Some {
        order::lemma_rank_tells_apart(a->0@, b->0@);
        signature::lemma_signature_is_its_bytes(a->0, b->0);
    }
}

impl Ordered for Hop {
    open spec fn before(self, other: Self) -> bool {
        ||| self.key.rank() < other.key.rank()
        ||| self.key == other.key && self.cost < other.cost
        ||| self.key == other.key && self.cost == other.cost && self.seq < other.seq
        ||| self.key == other.key && self.cost == other.cost && self.seq == other.seq
            && consent_rank(self.consent) < consent_rank(other.consent)
        ||| self.key == other.key && self.cost == other.cost && self.seq == other.seq
            && self.consent == other.consent && order::rank(self.signature@) < order::rank(other.signature@)
    }

    proof fn order_is_total(a: Self, b: Self) {
        if a.key.rank() == b.key.rank() {
            PublicKey::rank_tells_apart(a.key, b.key);
        }
        if consent_rank(a.consent) == consent_rank(b.consent) {
            lemma_consent_rank_tells_apart(a.consent, b.consent);
        }
        if order::rank(a.signature@) == order::rank(b.signature@) {
            order::lemma_rank_tells_apart(a.signature@, b.signature@);
            signature::lemma_signature_is_its_bytes(a.signature, b.signature);
        }
    }

    proof fn order_is_transitive(a: Self, b: Self, c: Self) {
    }

    fn compare(&self, other: &Self) -> (standing: Standing) {
        proof {
            Self::order_is_total(*self, *other);
            signature::lemma_signature_is_its_bytes(self.signature, other.signature);
        }
        match self.key.compare_rank(&other.key) {
            Standing::Same => {},
            decided => return decided,
        }
        match compare_numbers(self.cost, other.cost) {
            Standing::Same => {},
            decided => return decided,
        }
        match compare_numbers(self.seq, other.seq) {
            Standing::Same => {},
            decided => return decided,
        }
        match compare_consents(&self.consent, &other.consent) {
            Standing::Same => {},
            decided => return decided,
        }
        compare_bytes(self.signature.as_bytes(), other.signature.as_bytes())
    }
}

/// The nodes a walk names, root first.
pub open spec fn keys(walk: Seq<Hop>) -> Seq<PublicKey> {
    walk.map_values(|hop: Hop| hop.key)
}

/// What each step of a walk costs.
pub open spec fn prices(walk: Seq<Hop>) -> Seq<u64> {
    walk.map_values(|hop: Hop| hop.cost)
}

/// Whether no node appears in a walk twice.
pub open spec fn acyclic(walk: Seq<Hop>) -> bool {
    forall|i: int, j: int|
        0 <= i < j < walk.len() ==> (#[trigger] walk[i]).key != (#[trigger] walk[j]).key
}

/// Whether a walk has the shape every announcement's has: it starts somewhere,
/// names nobody twice, and is priced and agreed to at every step but the first.
pub open spec fn shaped(walk: Seq<Hop>) -> bool {
    &&& walk.len() > 0
    &&& acyclic(walk)
    &&& walk[0].cost == 0
    &&& walk[0].consent is None
    &&& forall|i: int|
        0 < i < walk.len() ==> (#[trigger] walk[i]).cost != 0 && walk[i].consent is Some
}

/// What a node is putting its name to when it signs its own hop.
///
/// Every kind of statement a node makes starts with one of these, so that
/// bytes signed as one thing can never be read back as another.
pub open spec fn hop_domain() -> Seq<u8> {
    vstd::utf8::encode_utf8("blackwood/hop/2"@)
}

/// What a node is putting its name to when it agrees to carry a child.
pub open spec fn consent_domain() -> Seq<u8> {
    vstd::utf8::encode_utf8("blackwood/consent/2"@)
}

/// A consent as it is laid out: its bytes, or zeroes where there is none, so
/// that every hop occupies the same width.
pub open spec fn consent_field(consent: Option<Signature>) -> Seq<u8> {
    match consent {
        Some(signature) => signature@,
        None => Seq::new(SIGNATURE_LEN as nat, |i: int| 0u8),
    }
}

/// The bytes a whole hop is laid out as.
pub open spec fn hop_bytes(hop: Hop) -> Seq<u8> {
    hop.key@ + bytes::be_bytes(hop.cost) + bytes::be_bytes(hop.seq) + consent_field(hop.consent)
        + hop.signature@
}

/// The bytes a walk is laid out as, hop after hop.
pub open spec fn walk_bytes(walk: Seq<Hop>) -> Seq<u8>
    decreases walk.len(),
{
    if walk.len() == 0 {
        Seq::empty()
    } else {
        walk_bytes(walk.drop_last()) + hop_bytes(walk.last())
    }
}

/// The statement a node signs when it adds its own hop below `above`.
pub open spec fn statement(
    above: Seq<Hop>,
    key: PublicKey,
    cost: u64,
    seq: u64,
    consent: Option<Signature>,
) -> Seq<u8> {
    hop_domain() + walk_bytes(above) + key@ + bytes::be_bytes(cost) + bytes::be_bytes(seq) + consent_field(
        consent,
    )
}

/// The statement a parent signs to agree to carry `child` at `cost`.
pub open spec fn agreement(parent: PublicKey, child: PublicKey, cost: u64) -> Seq<u8> {
    consent_domain() + parent@ + child@ + bytes::be_bytes(cost)
}

/// Whether one hop was signed by the node it names, over the walk down to it.
pub open spec fn hop_signed<S: Signer>(walk: Seq<Hop>, at: int) -> bool {
    let hop = walk[at];
    S::accepts(
        hop.key,
        statement(walk.take(at), hop.key, hop.cost, hop.seq, hop.consent),
        hop.signature,
    )
}

/// Whether every hop was signed by the node it names.
pub open spec fn hops_signed<S: Signer>(walk: Seq<Hop>) -> bool {
    forall|i: int| 0 <= i < walk.len() ==> #[trigger] hop_signed::<S>(walk, i)
}

/// Whether one hop stands on the consent of the hop above it at the price it
/// carries, or is the root and stands on none.
pub open spec fn consent_given<S: Signer>(walk: Seq<Hop>, at: int) -> bool {
    match walk[at].consent {
        Some(consent) => at > 0 && S::accepts(
            walk[at - 1].key,
            agreement(walk[at - 1].key, walk[at].key, walk[at].cost),
            consent,
        ),
        None => at == 0,
    }
}

/// Whether every hop stands on the consent of the hop above it.
pub open spec fn consents_given<S: Signer>(walk: Seq<Hop>) -> bool {
    forall|i: int| 0 <= i < walk.len() ==> #[trigger] consent_given::<S>(walk, i)
}

/// Whether a walk is signed and agreed to at every step.
pub open spec fn checks_out<S: Signer>(walk: Seq<Hop>) -> bool {
    hops_signed::<S>(walk) && consents_given::<S>(walk)
}

/// The node at the end of a walk.
pub open spec fn author(walk: Seq<Hop>) -> PublicKey {
    walk.last().key
}

/// The node above the one at the end of a walk.
pub open spec fn parent(walk: Seq<Hop>) -> Option<PublicKey> {
    if walk.len() >= 2 {
        Some(walk[walk.len() - 2].key)
    } else {
        None
    }
}

/// The walk `above` with `signer`'s node signed onto the end of it.
pub open spec fn signed_onto<S: Signer>(
    signer: S,
    above: Seq<Hop>,
    cost: u64,
    consent: Option<Signature>,
    seq: u64,
) -> Seq<Hop> {
    let key = signer.speaks_for();
    above.push(
        Hop {
            key,
            cost,
            seq,
            consent,
            signature: signer.signs(statement(above, key, cost, seq, consent)),
        },
    )
}

/// The walk of a node that considers itself the root.
pub open spec fn rooted<S: Signer>(signer: S, seq: u64) -> Seq<Hop> {
    signed_onto(signer, Seq::empty(), 0, None, seq)
}

/// The walk `signer`'s node takes up below `walk` on the strength of
/// `consent`, if the consent is between the two of them and the walk does not
/// already run through it.
pub open spec fn extended<S: Signer>(
    walk: Seq<Hop>,
    signer: S,
    consent: Consent,
    seq: u64,
) -> Option<Seq<Hop>> {
    if consent.given_by() != author(walk) || consent.given_to() != signer.speaks_for() || keys(
        walk,
    ).contains(signer.speaks_for()) {
        None
    } else {
        Some(signed_onto(signer, walk, consent.price(), Some(consent.signed()), seq))
    }
}

/// The same walk stamped afresh by its author.
pub open spec fn restamped<S: Signer>(walk: Seq<Hop>, signer: S, seq: u64) -> Seq<Hop> {
    signed_onto(signer, walk.drop_last(), walk.last().cost, walk.last().consent, seq)
}

/// Whether two walks name the same nodes at the same prices.
pub open spec fn same_walk(a: Seq<Hop>, b: Seq<Hop>) -> bool {
    keys(a) == keys(b) && prices(a) == prices(b)
}

/// The nodes and prices of a walk, without its stamps and signatures.
pub open spec fn legs(walk: Seq<Hop>) -> Seq<Leg> {
    walk.map_values(|hop: Hop| Leg { key: hop.key, cost: hop.cost })
}

/// Whether the walk `a` sorts before `b`: by the first node or price in which
/// they differ, and by how they were stamped and signed only where they differ
/// in neither.
pub open spec fn lesser(a: Seq<Hop>, b: Seq<Hop>) -> bool {
    if same_walk(a, b) {
        order::precedes(a, b)
    } else {
        order::precedes(legs(a), legs(b))
    }
}

/// Whether the walk `a` replaces `b` as the last word of their author: the
/// later stamp wins, and the greater walk breaks a tie.
pub open spec fn supersedes(a: Seq<Hop>, b: Seq<Hop>) -> bool {
    ||| b.last().seq < a.last().seq
    ||| b.last().seq == a.last().seq && order::precedes(b, a)
}

/// What the walk up to the root costs.
pub open spec fn cost_to_root(walk: Seq<Hop>) -> u64 {
    walk::capped(walk::total(prices(walk)))
}

/// Whether the position `a` is preferred to `b`: the smaller root, then the
/// cheaper walk to it, then the fewer hops, then the lesser walk.
pub open spec fn preferred(a: Seq<Hop>, b: Seq<Hop>) -> bool {
    ||| a[0].key.rank() < b[0].key.rank()
    ||| a[0].key == b[0].key && cost_to_root(a) < cost_to_root(b)
    ||| a[0].key == b[0].key && cost_to_root(a) == cost_to_root(b) && a.len() < b.len()
    ||| a[0].key == b[0].key && cost_to_root(a) == cost_to_root(b) && a.len() == b.len()
        && lesser(a, b)
}

/// What the walk between two nodes costs along the tree.
pub open spec fn separation(a: Seq<Hop>, b: Seq<Hop>) -> u64 {
    walk::capped(walk::toll_between(keys(a), prices(a), keys(b), prices(b)))
}

/// A node's agreement that another may sit below it in the tree, and at what
/// price.
///
/// A position in the tree is the only thing a node says that is really about
/// two nodes rather than one, and this is the other end's half of it. The
/// parent signs the child's key and the price of the link; the child carries
/// that signature in its own hop, where anybody reading its walk down the tree
/// can check it.
///
/// A value of this type has always been checked. It is either one this node
/// signed itself, through [`issue`](Self::issue), or one that verified when it
/// was decoded, through [`new`](Self::new).
#[derive(Clone, Copy, PartialEq, Eq, PartialOrd, Ord, Hash, Debug)]
pub struct Consent {
    parent: PublicKey,
    child: PublicKey,
    cost: Cost,
    signature: Signature,
}

impl Consent {
    /// The node that gave it.
    pub closed spec fn given_by(self) -> PublicKey {
        self.parent
    }

    /// The node it was given to.
    pub closed spec fn given_to(self) -> PublicKey {
        self.child
    }

    /// The price in it.
    pub closed spec fn price(self) -> u64 {
        self.cost.value()
    }

    /// The parent's signature.
    pub closed spec fn signed(self) -> Signature {
        self.signature
    }

    /// Whether the node it names as the parent signed it.
    pub open spec fn holds<S: Signer>(self) -> bool {
        S::accepts(
            self.given_by(),
            agreement(self.given_by(), self.given_to(), self.price()),
            self.signed(),
        )
    }

    /// A consent is nothing but its parts.
    pub proof fn lemma_is_its_parts(a: Consent, b: Consent)
        ensures
            (a.given_by() == b.given_by() && a.given_to() == b.given_to() && a.price() == b.price()
                && a.signed() == b.signed()) <==> a == b,
    {
        crate::cost::lemma_cost_is_its_value(a.cost, b.cost);
    }

    /// The consent `signer`'s node gives `child` to sit below it at `cost`.
    pub fn issue<S: Signer>(signer: &S, child: PublicKey, cost: Cost) -> (consent: Self)
        ensures
            consent == issued(*signer, child, cost),
            consent.given_by() == signer.speaks_for(),
            consent.given_to() == child,
            consent.price() == cost.value(),
            consent.signed() == signer.signs(
                agreement(signer.speaks_for(), child, cost.value()),
            ),
            consent.holds::<S>(),
    {
        let parent = signer.public_key();
        let signature = signer.sign(consent_bytes(parent, child, cost.get()).as_slice());
        let consent = Consent { parent, child, cost, signature };
        proof {
            Self::lemma_is_its_parts(consent, issued(*signer, child, cost));
        }
        consent
    }

    /// Rebuilds a consent from its parts, rejecting one `parent` did not sign.
    pub fn new<S: Signer>(
        parent: PublicKey,
        child: PublicKey,
        cost: Cost,
        signature: Signature,
    ) -> (consent: Option<Self>)
        ensures
            consent is Some <==> S::accepts(
                parent,
                agreement(parent, child, cost.value()),
                signature,
            ),
            consent matches Some(c) ==> c.given_by() == parent && c.given_to() == child
                && c.price() == cost.value() && c.signed() == signature,
    {
        if S::verify(parent, consent_bytes(parent, child, cost.get()).as_slice(), &signature) {
            Some(Consent { parent, child, cost, signature })
        } else {
            None
        }
    }

    /// The node that gave this consent.
    pub fn parent(&self) -> (key: PublicKey)
        ensures
            key == self.given_by(),
    {
        self.parent
    }

    /// The node it was given to.
    pub fn child(&self) -> (key: PublicKey)
        ensures
            key == self.given_to(),
    {
        self.child
    }

    /// What crossing the link costs, as the parent priced it.
    pub fn cost(&self) -> (cost: Cost)
        ensures
            cost.value() == self.price(),
    {
        self.cost
    }

    /// The parent's signature, as it travels in the child's hop.
    pub fn signature(&self) -> (signature: Signature)
        ensures
            signature == self.signed(),
    {
        self.signature
    }

    /// Whether two consents are the same bargain under the same signature.
    pub fn same_as(&self, other: &Consent) -> (same: bool)
        ensures
            same == (*self == *other),
    {
        proof {
            Self::lemma_is_its_parts(*self, *other);
        }
        self.parent == other.parent && self.child == other.child && self.cost.get()
            == other.cost.get() && self.signature == other.signature
    }
}

/// The consent `signer`'s node gives `child` at `cost`.
pub closed spec fn issued<S: Signer>(signer: S, child: PublicKey, cost: Cost) -> Consent {
    Consent {
        parent: signer.speaks_for(),
        child,
        cost,
        signature: signer.signs(agreement(signer.speaks_for(), child, cost.value())),
    }
}

/// A consent says who gave it, to whom and at what price, over the signature of
/// the node that gave it.
pub proof fn law_an_issued_consent_says_what_was_agreed<S: Signer>(signer: S, child: PublicKey, cost: Cost)
    ensures
        issued(signer, child, cost).given_by() == signer.speaks_for(),
        issued(signer, child, cost).given_to() == child,
        issued(signer, child, cost).price() == cost.value(),
        issued(signer, child, cost).signed() == signer.signs(
            agreement(signer.speaks_for(), child, cost.value()),
        ),
{
}

/// The bytes a parent signs to agree that `child` may sit below it at `cost`.
///
/// Both keys are named, so a consent cannot be handed to a different child or
/// presented as coming from a different parent; and the price is in there, so
/// neither end can go on naming another.
pub fn consent_bytes(parent: PublicKey, child: PublicKey, cost: u64) -> (bytes: Vec<u8>)
    ensures
        bytes@ == agreement(parent, child, cost),
{
    let mut bytes: Vec<u8> = Vec::new();
    append(&mut bytes, "blackwood/consent/2".as_bytes());
    assert(bytes@ =~= consent_domain());
    append(&mut bytes, parent.as_bytes());
    append(&mut bytes, child.as_bytes());
    append_number(&mut bytes, cost);
    bytes
}

/// Writes a consent onto the end of `bytes`, or as many zeroes where there is
/// none.
pub(crate) fn append_consent(bytes: &mut Vec<u8>, consent: &Option<Signature>)
    ensures
        final(bytes)@ == old(bytes)@ + consent_field(*consent),
{
    match consent {
        Some(signature) => append(bytes, signature.as_bytes()),
        None => {
            let blank: [u8; SIGNATURE_LEN] = [0; SIGNATURE_LEN];
            assert(blank@ =~= consent_field(None));
            append(bytes, &blank);
        },
    }
}

/// The bytes a hop is signed over: every hop above it exactly as it stands,
/// signatures and all, followed by its own key, price, sequence number and the
/// consent it sits on.
///
/// Including the hops above by their signatures is what chains them. A hop
/// commits to the particular walk it was added to, so no part of one
/// announcement can be spliced into another.
pub fn signed_bytes(
    above: &[Hop],
    key: PublicKey,
    cost: u64,
    seq: u64,
    consent: Option<Signature>,
) -> (bytes: Vec<u8>)
    ensures
        bytes@ == statement(above@, key, cost, seq, consent),
{
    let mut bytes: Vec<u8> = Vec::new();
    append(&mut bytes, "blackwood/hop/2".as_bytes());
    assert(bytes@ =~= hop_domain());
    let mut i: usize = 0;
    assert(above@.take(0) =~= Seq::empty());
    assert(bytes@ =~= hop_domain() + walk_bytes(above@.take(0)));
    while i < above.len()
        invariant
            0 <= i <= above@.len(),
            bytes@ == hop_domain() + walk_bytes(above@.take(i as int)),
        decreases above@.len() - i,
    {
        let hop = above[i];
        append(&mut bytes, hop.key.as_bytes());
        append_number(&mut bytes, hop.cost);
        append_number(&mut bytes, hop.seq);
        append_consent(&mut bytes, &hop.consent);
        append(&mut bytes, hop.signature.as_bytes());
        proof {
            let taken = above@.take(i + 1);
            assert(taken.drop_last() =~= above@.take(i as int));
            assert(taken.last() == hop);
            assert(bytes@ =~= hop_domain() + walk_bytes(taken));
        }
        i += 1;
    }
    assert(above@.take(i as int) =~= above@);
    append(&mut bytes, key.as_bytes());
    append_number(&mut bytes, cost);
    append_number(&mut bytes, seq);
    append_consent(&mut bytes, &consent);
    bytes
}

/// A node's claimed position in the spanning tree.
///
/// The path runs from the root down to the announcing node, inclusive, so
/// `path[0]` is the root and the last element is the author. Each hop carries
/// the price and the consent of the node above it along with its own
/// signature. Carrying the whole path rather than just a parent pointer is what
/// makes routing decisions local: a node can compute its distance to any other
/// node it has heard of without consulting anyone.
///
/// Every constructor guarantees the path is non-empty, free of repeated keys,
/// and priced and consented to at every hop but the first. It is only as
/// *current* as whoever handed it over: see [`verify`](Self::verify) for what a
/// signature does and does not settle.
#[derive(PartialEq, Eq, Debug)]
pub struct Announcement {
    path: Vec<Hop>,
}

/// Why a path could not be made into an [`Announcement`].
#[derive(Clone, Copy, PartialEq, Eq, Debug, Structural)]
pub enum MalformedAnnouncement {
    /// The path had no hops, so it named no author.
    EmptyPath,
    /// A key appeared twice, which would describe a loop rather than a path.
    RepeatedKey,
    /// The root hop carried a cost, though no link reaches the root.
    CostAtRoot,
    /// A link below the root cost nothing, so crossing it would be no progress.
    FreeLink,
    /// Some hop was not signed by the node it names.
    BadSignature,
    /// The root hop carried a consent, though no node sits above the root to
    /// have given it one.
    ConsentAtRoot,
    /// A hop below the root carried no consent, so it claimed a place nobody
    /// agreed to.
    MissingConsent,
    /// Some hop's consent was not signed by the node in the hop above it, or
    /// was given to another node, or at another price.
    BadConsent,
}

impl MalformedAnnouncement {
    /// What went wrong, in words.
    pub open spec fn words(self) -> Seq<char> {
        match self {
            MalformedAnnouncement::EmptyPath => "announcement path is empty"@,
            MalformedAnnouncement::RepeatedKey => "announcement path repeats a key"@,
            MalformedAnnouncement::CostAtRoot => "announcement prices the link into its root"@,
            MalformedAnnouncement::FreeLink => "announcement path contains a link costing nothing"@,
            MalformedAnnouncement::BadSignature => "announcement hop is not signed by the node it names"@,
            MalformedAnnouncement::ConsentAtRoot => "announcement root carries a consent"@,
            MalformedAnnouncement::MissingConsent => "announcement hop sits below a node that did not consent"@,
            MalformedAnnouncement::BadConsent => "announcement hop's consent was not given by the node above it"@,
        }
    }

    /// What went wrong, in words.
    pub fn text(&self) -> (text: &'static str)
        ensures
            text@ == self.words(),
    {
        match self {
            MalformedAnnouncement::EmptyPath => "announcement path is empty",
            MalformedAnnouncement::RepeatedKey => "announcement path repeats a key",
            MalformedAnnouncement::CostAtRoot => "announcement prices the link into its root",
            MalformedAnnouncement::FreeLink => "announcement path contains a link costing nothing",
            MalformedAnnouncement::BadSignature => "announcement hop is not signed by the node it names",
            MalformedAnnouncement::ConsentAtRoot => "announcement root carries a consent",
            MalformedAnnouncement::MissingConsent => "announcement hop sits below a node that did not consent",
            MalformedAnnouncement::BadConsent => "announcement hop's consent was not given by the node above it",
        }
    }
}

/// Whether some link below the root is priced at nothing.
pub open spec fn has_free_link(walk: Seq<Hop>) -> bool {
    exists|i: int| 0 < i < walk.len() && (#[trigger] walk[i]).cost == 0
}

/// Whether some hop below the root stands on nobody's consent.
pub open spec fn lacks_consent(walk: Seq<Hop>) -> bool {
    exists|i: int| 0 < i < walk.len() && (#[trigger] walk[i]).consent is None
}

/// The first thing wrong with a walk, or `None` if nothing is.
pub open spec fn flaw<S: Signer>(walk: Seq<Hop>) -> Option<MalformedAnnouncement> {
    if walk.len() == 0 {
        Some(MalformedAnnouncement::EmptyPath)
    } else if walk[0].cost != 0 {
        Some(MalformedAnnouncement::CostAtRoot)
    } else if walk[0].consent is Some {
        Some(MalformedAnnouncement::ConsentAtRoot)
    } else if has_free_link(walk) {
        Some(MalformedAnnouncement::FreeLink)
    } else if lacks_consent(walk) {
        Some(MalformedAnnouncement::MissingConsent)
    } else if !acyclic(walk) {
        Some(MalformedAnnouncement::RepeatedKey)
    } else if !hops_signed::<S>(walk) {
        Some(MalformedAnnouncement::BadSignature)
    } else if !consents_given::<S>(walk) {
        Some(MalformedAnnouncement::BadConsent)
    } else {
        None
    }
}

/// Whether any of `hops` names `key`.
pub fn names(hops: &[Hop], key: PublicKey) -> (named: bool)
    ensures
        named == keys(hops@).contains(key),
{
    let mut i: usize = 0;
    while i < hops.len()
        invariant
            0 <= i <= hops@.len(),
            forall|j: int| 0 <= j < i ==> (#[trigger] hops@[j]).key != key,
        decreases hops@.len() - i,
    {
        if hops[i].key == key {
            assert(keys(hops@)[i as int] == key);
            return true;
        }
        i += 1;
    }
    assert(!keys(hops@).contains(key)) by {
        if keys(hops@).contains(key) {
            let j = choose|j: int| 0 <= j < keys(hops@).len() && keys(hops@)[j] == key;
            assert(hops@[j].key == key);
        }
    }
    false
}

fn some_free_link(hops: &[Hop]) -> (found: bool)
    ensures
        found == has_free_link(hops@),
{
    let mut i: usize = 1;
    while i < hops.len()
        invariant
            1 <= i,
            forall|j: int| 0 < j < i && j < hops@.len() ==> (#[trigger] hops@[j]).cost != 0,
        decreases hops@.len() - i,
    {
        if hops[i].cost == 0 {
            return true;
        }
        i += 1;
    }
    false
}

fn some_consent_missing(hops: &[Hop]) -> (found: bool)
    ensures
        found == lacks_consent(hops@),
{
    let mut i: usize = 1;
    while i < hops.len()
        invariant
            1 <= i,
            forall|j: int| 0 < j < i && j < hops@.len() ==> (#[trigger] hops@[j]).consent is Some,
        decreases hops@.len() - i,
    {
        if hops[i].consent.is_none() {
            return true;
        }
        i += 1;
    }
    false
}

fn some_key_repeated(hops: &[Hop]) -> (found: bool)
    ensures
        found == !acyclic(hops@),
{
    let mut i: usize = 0;
    while i < hops.len()
        invariant
            0 <= i <= hops@.len(),
            acyclic(hops@.take(i as int)),
        decreases hops@.len() - i,
    {
        let above = slice_subrange(hops, 0, i);
        if names(above, hops[i].key) {
            proof {
                let at = choose|j: int|
                    0 <= j < keys(above@).len() && keys(above@)[j] == hops@[i as int].key;
                assert(hops@[at].key == hops@[i as int].key);
            }
            return true;
        }
        proof {
            let longer = hops@.take(i + 1);
            assert forall|a: int, b: int| 0 <= a < b < longer.len() implies (
            #[trigger] longer[a]).key != (#[trigger] longer[b]).key by {
                let shorter = hops@.take(i as int);
                if b < i {
                    assert(shorter[a].key != shorter[b].key);
                } else {
                    assert(keys(above@)[a] == longer[a].key);
                }
            }
        }
        i += 1;
    }
    assert(hops@.take(i as int) =~= hops@);
    false
}

/// Whether every hop was signed by the node it names.
fn all_hops_signed<S: Signer>(hops: &[Hop]) -> (signed: bool)
    ensures
        signed == hops_signed::<S>(hops@),
{
    let mut i: usize = 0;
    while i < hops.len()
        invariant
            0 <= i <= hops@.len(),
            forall|j: int| 0 <= j < i ==> #[trigger] hop_signed::<S>(hops@, j),
        decreases hops@.len() - i,
    {
        let hop = hops[i];
        let above = slice_subrange(hops, 0, i);
        assert(above@ =~= hops@.take(i as int));
        let said = signed_bytes(above, hop.key, hop.cost, hop.seq, hop.consent);
        let accepted = S::verify(hop.key, said.as_slice(), &hop.signature);
        assert(accepted == hop_signed::<S>(hops@, i as int));
        if !accepted {
            return false;
        }
        i += 1;
    }
    true
}

/// Whether every hop below the root carries the consent of the hop above it,
/// and the root carries none.
fn all_consents_given<S: Signer>(hops: &[Hop]) -> (given: bool)
    ensures
        given == consents_given::<S>(hops@),
{
    let mut i: usize = 0;
    while i < hops.len()
        invariant
            0 <= i <= hops@.len(),
            forall|j: int| 0 <= j < i ==> #[trigger] consent_given::<S>(hops@, j),
        decreases hops@.len() - i,
    {
        let stands = match hops[i].consent {
            // Nothing sits above the root, so nothing could have agreed to it
            // and nothing may claim to have.
            None => i == 0,
            Some(consent) => if i == 0 {
                false
            } else {
                let parent = hops[i - 1].key;
                let said = consent_bytes(parent, hops[i].key, hops[i].cost);
                S::verify(parent, said.as_slice(), &consent)
            },
        };
        assert(stands == consent_given::<S>(hops@, i as int));
        if !stands {
            return false;
        }
        i += 1;
    }
    true
}

/// Signing onto a walk that checks out makes one that checks out.
pub proof fn lemma_signed_onto<S: Signer>(above: Seq<Hop>, hop: Hop)
    requires
        S::accepts(
            hop.key,
            statement(above, hop.key, hop.cost, hop.seq, hop.consent),
            hop.signature,
        ),
    ensures
        hops_signed::<S>(above) ==> hops_signed::<S>(above.push(hop)),
        consents_given::<S>(above) && consent_given::<S>(
            above.push(hop),
            above.len() as int,
        ) ==> consents_given::<S>(above.push(hop)),
{
    let walk = above.push(hop);
    if hops_signed::<S>(above) {
        assert forall|i: int| 0 <= i < walk.len() implies #[trigger] hop_signed::<S>(walk, i) by {
            if i < above.len() {
                assert(walk.take(i) =~= above.take(i));
                assert(hop_signed::<S>(above, i));
            } else {
                assert(walk.take(i) =~= above);
            }
        }
    }
    if consents_given::<S>(above) && consent_given::<S>(walk, above.len() as int) {
        assert forall|i: int| 0 <= i < walk.len() implies #[trigger] consent_given::<S>(
            walk,
            i,
        ) by {
            if i < above.len() {
                assert(consent_given::<S>(above, i));
            }
        }
    }
}

/// What is left of a walk that checks out once its author's hop is taken off
/// checks out too.
pub proof fn lemma_above_checks_out<S: Signer>(walk: Seq<Hop>)
    requires
        walk.len() > 0,
    ensures
        hops_signed::<S>(walk) ==> hops_signed::<S>(walk.drop_last()),
        consents_given::<S>(walk) ==> consents_given::<S>(walk.drop_last()),
{
    let above = walk.drop_last();
    if hops_signed::<S>(walk) {
        assert forall|i: int| 0 <= i < above.len() implies #[trigger] hop_signed::<S>(above, i) by {
            assert(walk.take(i) =~= above.take(i));
            assert(hop_signed::<S>(walk, i));
        }
    }
    if consents_given::<S>(walk) {
        assert forall|i: int| 0 <= i < above.len() implies #[trigger] consent_given::<S>(
            above,
            i,
        ) by {
            assert(consent_given::<S>(walk, i));
        }
    }
}

impl View for Announcement {
    type V = Seq<Hop>;

    closed spec fn view(&self) -> Seq<Hop> {
        self.path@
    }
}

impl Clone for Announcement {
    fn clone(&self) -> (copy: Self)
        ensures
            copy@ == self@,
    {
        proof {
            use_type_invariant(self);
        }
        let path = self.path.clone();
        assert(path@ =~= self.path@);
        Announcement { path }
    }
}

impl Announcement {
    /// Every path is shaped like a walk down the tree.
    #[verifier::type_invariant]
    closed spec fn is_shaped(self) -> bool {
        shaped(self.path@)
    }

    /// The announcement of a node that considers itself the root of its own tree.
    pub fn root_of<S: Signer>(signer: &S, seq: u64) -> (announcement: Self)
        ensures
            announcement@ == rooted(*signer, seq),
            shaped(announcement@),
            checks_out::<S>(announcement@),
    {
        let announcement = Self::signed_onto(signer, Vec::new(), 0, None, seq);
        proof {
            let empty = Seq::<Hop>::empty();
            assert(announcement@ =~= empty.push(announcement@.last()));
            lemma_signed_onto::<S>(empty, announcement@.last());
        }
        announcement
    }

    /// Builds an announcement from its parts, rejecting anything malformed or
    /// unsigned.
    ///
    /// Every other constructor preserves the invariants by construction; this
    /// is the entry point a wire format decodes through.
    pub fn new<S: Signer>(path: Vec<Hop>) -> (built: Result<Self, MalformedAnnouncement>)
        ensures
            match flaw::<S>(path@) {
                Some(flaw) => built == Err::<Self, MalformedAnnouncement>(flaw),
                None => built matches Ok(announcement) && announcement@ == path@ && shaped(path@)
                    && checks_out::<S>(path@),
            },
    {
        if path.len() == 0 {
            return Err(MalformedAnnouncement::EmptyPath);
        }
        if path[0].cost != 0 {
            return Err(MalformedAnnouncement::CostAtRoot);
        }
        if path[0].consent.is_some() {
            return Err(MalformedAnnouncement::ConsentAtRoot);
        }
        if some_free_link(path.as_slice()) {
            return Err(MalformedAnnouncement::FreeLink);
        }
        if some_consent_missing(path.as_slice()) {
            return Err(MalformedAnnouncement::MissingConsent);
        }
        if some_key_repeated(path.as_slice()) {
            return Err(MalformedAnnouncement::RepeatedKey);
        }
        let announcement = Announcement { path };
        if !announcement.hops_signed::<S>() {
            return Err(MalformedAnnouncement::BadSignature);
        }
        if !announcement.consents_given::<S>() {
            return Err(MalformedAnnouncement::BadConsent);
        }
        Ok(announcement)
    }

    /// Builds an announcement whose signatures nobody has looked at.
    pub fn unchecked(path: Vec<Hop>) -> (announcement: Self)
        requires
            shaped(path@),
        ensures
            announcement@ == path@,
    {
        Announcement { path }
    }

    /// The announcement `signer`'s node would make by attaching itself below
    /// this one, on the strength of `consent`.
    ///
    /// Returns `None` when the consent is not this announcement's author
    /// agreeing to this signer, or when the signer's key already appears in
    /// the path. The second check is what keeps the tree loop-free: a node
    /// never adopts a path that runs through itself, so no cycle can form
    /// however stale its view is.
    pub fn extend<S: Signer>(&self, signer: &S, consent: &Consent, seq: u64) -> (extended: Option<
        Self,
    >)
        ensures
            extended is Some <==> self::extended(self@, *signer, *consent, seq) is Some,
            extended matches Some(announcement) ==> {
                &&& Some(announcement@) == self::extended(self@, *signer, *consent, seq)
                &&& shaped(announcement@)
                &&& hops_signed::<S>(self@) ==> hops_signed::<S>(announcement@)
                &&& checks_out::<S>(self@) && consent.holds::<S>() ==> checks_out::<S>(
                    announcement@,
                )
            },
    {
        proof {
            use_type_invariant(self);
        }
        let child = signer.public_key();
        if consent.parent() != self.author() || consent.child() != child {
            return None;
        }
        if names(self.path.as_slice(), child) {
            return None;
        }
        let above = self.path.clone();
        assert(above@ =~= self.path@);
        let price = consent.cost().get();
        let announcement = Self::signed_onto(
            signer,
            above,
            price,
            Some(consent.signature()),
            seq,
        );
        proof {
            assert(announcement@ =~= self@.push(announcement@.last()));
            lemma_signed_onto::<S>(self@, announcement@.last());
        }
        Some(announcement)
    }

    /// The same walk, stamped with a new sequence number and signed afresh.
    ///
    /// Only the author's own hop is restamped, because only the author can
    /// sign it; the walk down to it stands exactly as the nodes above it
    /// signed. Returns `None` for a signer that is not the author, which is
    /// the only thing it could mean.
    pub fn with_seq<S: Signer>(&self, signer: &S, seq: u64) -> (restamped: Option<Self>)
        ensures
            restamped is Some <==> signer.speaks_for() == author(self@),
            restamped matches Some(announcement) ==> {
                &&& announcement@ == self::restamped(self@, *signer, seq)
                &&& shaped(announcement@)
                &&& hops_signed::<S>(self@) ==> hops_signed::<S>(announcement@)
                &&& checks_out::<S>(self@) ==> checks_out::<S>(announcement@)
            },
    {
        proof {
            use_type_invariant(self);
        }
        if signer.public_key() != self.author() {
            return None;
        }
        let mut above = self.path.clone();
        assert(above@ =~= self.path@);
        let own = above[above.len() - 1];
        let _ = above.pop();
        proof {
            assert(above@ =~= self@.drop_last());
            lemma_distinct_after_cut(self@);
        }
        let announcement = Self::signed_onto(signer, above, own.cost, own.consent, seq);
        proof {
            let cut = self@.drop_last();
            assert(announcement@ =~= cut.push(announcement@.last()));
            lemma_above_checks_out::<S>(self@);
            lemma_signed_onto::<S>(cut, announcement@.last());
            if consents_given::<S>(self@) {
                assert(consent_given::<S>(self@, cut.len() as int));
            }
        }
        Some(announcement)
    }

    /// The walk `above`, with `signer`'s node signed onto the end of it.
    ///
    /// The only place a hop is ever made, so that the three ways of arriving
    /// at an announcement, rooting, extending and restamping, cannot drift
    /// apart in what they put their name to.
    fn signed_onto<S: Signer>(
        signer: &S,
        above: Vec<Hop>,
        cost: u64,
        consent: Option<Signature>,
        seq: u64,
    ) -> (announcement: Self)
        requires
            above@.len() == 0 ==> cost == 0 && consent is None,
            above@.len() > 0 ==> shaped(above@) && cost != 0 && consent is Some,
            !keys(above@).contains(signer.speaks_for()),
        ensures
            announcement@ == self::signed_onto(*signer, above@, cost, consent, seq),
            shaped(announcement@),
            S::accepts(
                signer.speaks_for(),
                statement(above@, signer.speaks_for(), cost, seq, consent),
                announcement@.last().signature,
            ),
    {
        let key = signer.public_key();
        let said = signed_bytes(above.as_slice(), key, cost, seq, consent);
        let signature = signer.sign(said.as_slice());
        let mut path = above;
        path.push(Hop { key, cost, seq, consent, signature });
        proof {
            assert forall|i: int, j: int| 0 <= i < j < path@.len() implies (
            #[trigger] path@[i]).key != (#[trigger] path@[j]).key by {
                if j < above@.len() {
                    assert(above@[i].key != above@[j].key);
                } else {
                    assert(keys(above@)[i] == path@[i].key);
                }
            }
        }
        Announcement { path }
    }

    /// Whether every hop was signed by the node it names *and* agreed to by
    /// the node above it.
    ///
    /// What this settles is that every link in the walk is real. What it does
    /// not settle is whether any of it is still true: a signature is as valid
    /// on a long-dead announcement as on a fresh one, which is what sequence
    /// numbers and expiry are for.
    pub fn verify<S: Signer>(&self) -> (verified: bool)
        ensures
            verified == checks_out::<S>(self@),
    {
        self.hops_signed::<S>() && self.consents_given::<S>()
    }

    /// Whether every hop was signed by the node it names.
    fn hops_signed<S: Signer>(&self) -> (signed: bool)
        ensures
            signed == hops_signed::<S>(self@),
    {
        all_hops_signed::<S>(self.path.as_slice())
    }

    /// Whether every hop below the root carries the consent of the hop above
    /// it, and the root carries none.
    fn consents_given<S: Signer>(&self) -> (given: bool)
        ensures
            given == consents_given::<S>(self@),
    {
        all_consents_given::<S>(self.path.as_slice())
    }

    /// The author's own signature, which covers the whole walk down to it and
    /// so stands for the announcement as a whole.
    pub fn author_signature(&self) -> (signature: Signature)
        ensures
            signature == self@.last().signature,
    {
        proof {
            use_type_invariant(self);
        }
        self.path[self.path.len() - 1].signature
    }

    /// The sequence number its author last stamped it with.
    pub fn seq(&self) -> (seq: u64)
        ensures
            seq == self@.last().seq,
    {
        proof {
            use_type_invariant(self);
        }
        self.path[self.path.len() - 1].seq
    }

    /// The path from the root down to the author.
    pub fn path(&self) -> (path: &[Hop])
        ensures
            path@ == self@,
            shaped(self@),
    {
        proof {
            use_type_invariant(self);
        }
        self.path.as_slice()
    }

    /// The root of the tree this announcement belongs to.
    pub fn root(&self) -> (root: PublicKey)
        ensures
            root == self@[0].key,
    {
        proof {
            use_type_invariant(self);
        }
        self.path[0].key
    }

    /// The node that made this announcement.
    pub fn author(&self) -> (author: PublicKey)
        ensures
            author == self::author(self@),
            shaped(self@),
    {
        proof {
            use_type_invariant(self);
        }
        self.path[self.path.len() - 1].key
    }

    /// The author's parent, or `None` if the author is the root.
    pub fn parent(&self) -> (parent: Option<PublicKey>)
        ensures
            parent == self::parent(self@),
    {
        if self.path.len() >= 2 {
            Some(self.path[self.path.len() - 2].key)
        } else {
            None
        }
    }

    /// What the walk from the author up to the root costs.
    ///
    /// This is the number parent selection minimises, and it is zero exactly
    /// for a node that believes it is the root.
    pub fn cost_to_root(&self) -> (cost: u64)
        ensures
            cost == self::cost_to_root(self@),
            cost == 0 <==> self@.len() == 1,
    {
        proof {
            use_type_invariant(self);
            lemma_cost_is_zero_at_the_root(self@);
            assert(prices(self@).skip(0) =~= prices(self@));
        }
        total_cost(self.path.as_slice(), 0)
    }

    /// How many links the walk from the author up to the root crosses.
    pub fn depth(&self) -> (depth: usize)
        ensures
            depth == self@.len() - 1,
    {
        proof {
            use_type_invariant(self);
        }
        self.path.len() - 1
    }

    /// Whether this describes the same walk as `other`: the same nodes at the
    /// same prices, however either of them was stamped and signed.
    ///
    /// This is the question "have I moved?", which the stamps must not answer.
    pub fn same_position(&self, other: &Self) -> (same: bool)
        ensures
            same == same_walk(self@, other@),
    {
        if self.path.len() != other.path.len() {
            assert(keys(self@).len() != keys(other@).len());
            return false;
        }
        let mut i: usize = 0;
        while i < self.path.len()
            invariant
                self.path@.len() == other.path@.len(),
                0 <= i <= self.path@.len(),
                forall|j: int|
                    0 <= j < i ==> self.path@[j].key == other.path@[j].key && self.path@[j].cost
                        == other.path@[j].cost,
            decreases self.path@.len() - i,
        {
            if self.path[i].key != other.path[i].key || self.path[i].cost != other.path[i].cost {
                proof {
                    let at = i as int;
                    assert(keys(self@)[at] != keys(other@)[at] || prices(self@)[at] != prices(
                        other@,
                    )[at]);
                }
                return false;
            }
            i += 1;
        }
        assert(keys(self@) =~= keys(other@));
        assert(prices(self@) =~= prices(other@));
        true
    }

    /// Whether this announcement replaces `other` in the set of known
    /// announcements.
    ///
    /// Announcements are only ever authored by the node they describe, so per
    /// author this set is a max register: the join is whichever announcement is
    /// greater. Sequence number decides, with the path as a tie-break purely so
    /// that the rule is total and every node reaches the same answer.
    pub fn supersedes(&self, other: &Self) -> (newer: bool)
        ensures
            newer == self::supersedes(self@, other@),
    {
        match compare_numbers(self.seq(), other.seq()) {
            Standing::Before => false,
            Standing::After => true,
            Standing::Same => {
                match compare_slices(other.path.as_slice(), self.path.as_slice()) {
                    Standing::Before => true,
                    Standing::Same => false,
                    Standing::After => false,
                }
            },
        }
    }

    /// How this position stands to `other`, most preferred first: by root, by
    /// cost, by length and then by the nodes and prices along the path. Stamps
    /// and signatures only tell two copies of one walk apart.
    pub fn preference(&self, other: &Self) -> (standing: Standing)
        ensures
            standing == Standing::Before <==> preferred(self@, other@),
            standing == Standing::Same <==> self@ == other@,
            standing == Standing::After <==> preferred(other@, self@),
    {
        proof {
            use_type_invariant(self);
            use_type_invariant(other);
            law_preference_never_ties(self@, other@);
        }
        match self.root().compare_rank(&other.root()) {
            Standing::Same => {},
            decided => return decided,
        }
        match compare_numbers(self.cost_to_root(), other.cost_to_root()) {
            Standing::Same => {},
            decided => return decided,
        }
        if self.path.len() < other.path.len() {
            return Standing::Before;
        }
        if self.path.len() > other.path.len() {
            return Standing::After;
        }
        let (ours, theirs) = (legs_of(self.path.as_slice()), legs_of(other.path.as_slice()));
        proof {
            lemma_legs_are_the_walk(self@, other@);
        }
        match compare_slices(ours.as_slice(), theirs.as_slice()) {
            Standing::Same => {},
            decided => return decided,
        }
        compare_slices(self.path.as_slice(), other.path.as_slice())
    }

    /// Orders candidate parents, most preferred first.
    ///
    /// Smallest root key wins, so the network agrees on one root; then the
    /// cheapest walk to that root, which is the whole point of link cost; then
    /// the fewest hops, since two equally priced walks are not equally cheap to
    /// forward over; then the smallest path, so that ties are broken
    /// identically everywhere and the tree has a single fixed point. Two
    /// candidates always differ by the key of some hop before anything a stamp
    /// could reach, so the ordering does not move when a sequence number does.
    pub fn preference_cmp(&self, other: &Self) -> (ordering: Ordering)
        ensures
            ordering == Ordering::Less <==> preferred(self@, other@),
            ordering == Ordering::Equal <==> self@ == other@,
            ordering == Ordering::Greater <==> preferred(other@, self@),
    {
        match self.preference(other) {
            Standing::Before => Ordering::Less,
            Standing::Same => Ordering::Equal,
            Standing::After => Ordering::Greater,
        }
    }
}

/// What stands above the author of a walk is shaped like a walk, unless it is
/// nothing, and does not name the author.
proof fn lemma_distinct_after_cut(walk: Seq<Hop>)
    requires
        shaped(walk),
    ensures
        walk.len() > 1 ==> shaped(walk.drop_last()),
        !keys(walk.drop_last()).contains(author(walk)),
{
    let above = walk.drop_last();
    assert forall|i: int, j: int| 0 <= i < j < above.len() implies (#[trigger] above[i]).key != (
    #[trigger] above[j]).key by {
        assert(walk[i].key != walk[j].key);
    }
    if keys(above).contains(author(walk)) {
        let at = choose|i: int| 0 <= i < keys(above).len() && keys(above)[i] == author(walk);
        assert(walk[at].key != walk[walk.len() - 1].key);
    }
}

/// Only the root is no distance from the root.
proof fn lemma_cost_is_zero_at_the_root(walk: Seq<Hop>)
    requires
        shaped(walk),
    ensures
        cost_to_root(walk) == 0 <==> walk.len() == 1,
{
    let below = prices(walk).skip(1);
    walk::lemma_total_of_rest(prices(walk), 1);
    walk::lemma_total_at_least_one_each(below);
    assert(prices(walk).take(1) =~= seq![0u64]);
    assert(seq![0u64].drop_last() =~= Seq::empty());
    reveal_with_fuel(walk::total, 2);
    if walk.len() == 1 {
        assert(below =~= Seq::empty());
    }
}

/// What crossing every link from `from` on costs, saturating rather than
/// wrapping.
fn total_cost(hops: &[Hop], from: usize) -> (cost: u64)
    requires
        from <= hops@.len(),
    ensures
        cost == walk::capped(walk::total(prices(hops@).skip(from as int))),
{
    let ghost priced = prices(hops@);
    let mut sum: u64 = 0;
    let mut i: usize = from;
    assert(priced.subrange(from as int, i as int) =~= Seq::empty());
    while i < hops.len()
        invariant
            priced == prices(hops@),
            from <= i <= hops@.len(),
            sum == walk::capped(walk::total(priced.subrange(from as int, i as int))),
        decreases hops@.len() - i,
    {
        let ghost longer = priced.subrange(from as int, i + 1);
        assert(longer.drop_last() =~= priced.subrange(from as int, i as int));
        assert(longer.last() == hops@[i as int].cost);
        sum = sum.saturating_add(hops[i].cost);
        i += 1;
    }
    assert(priced.subrange(from as int, i as int) =~= priced.skip(from as int));
    sum
}

/// What the walk between two nodes costs along the tree.
///
/// Both paths descend from the root, so they share a prefix ending at the two
/// nodes' lowest common ancestor; the distance is the climb up to it plus the
/// descent back down, each link counted at what it costs. Within one tree that
/// is zero only between a node and itself, since no link is free.
///
/// Only keys are compared to find the shared prefix, so two nodes holding
/// differently stamped copies of the same walk still agree on where it forks.
pub fn distance(a: &[Hop], b: &[Hop]) -> (cost: u64)
    ensures
        cost == separation(a@, b@),
{
    let mut shared: usize = 0;
    while shared < a.len() && shared < b.len() && a[shared].key == b[shared].key
        invariant
            shared <= a@.len(),
            shared <= b@.len(),
            forall|i: int| 0 <= i < shared ==> a@[i].key == b@[i].key,
        decreases a@.len() - shared,
    {
        shared += 1;
    }
    proof {
        walk::lemma_shared(keys(a@), keys(b@));
        assert(walk::forks_after(keys(a@), keys(b@), shared as nat));
    }
    total_cost(a, shared).saturating_add(total_cost(b, shared))
}

/// Two walks have the same legs exactly where they name the same nodes at the
/// same prices.
pub proof fn lemma_legs_are_the_walk(a: Seq<Hop>, b: Seq<Hop>)
    ensures
        legs(a) == legs(b) <==> same_walk(a, b),
{
    if legs(a) == legs(b) {
        assert(legs(a).len() == a.len() && legs(b).len() == b.len());
        assert forall|i: int| 0 <= i < a.len() implies a[i].key == b[i].key && a[i].cost
            == b[i].cost by {
            assert(legs(a)[i] == legs(b)[i]);
        }
        assert(keys(a) =~= keys(b));
        assert(prices(a) =~= prices(b));
    }
    if same_walk(a, b) {
        assert(keys(a).len() == a.len() && keys(b).len() == b.len());
        assert forall|i: int| 0 <= i < a.len() implies #[trigger] legs(a)[i] == legs(b)[i] by {
            assert(keys(a)[i] == keys(b)[i]);
            assert(prices(a)[i] == prices(b)[i]);
        }
        assert(legs(a) =~= legs(b));
    }
}

/// The nodes and prices of a walk, without its stamps and signatures.
fn legs_of(hops: &[Hop]) -> (steps: Vec<Leg>)
    ensures
        steps@ == legs(hops@),
{
    let mut steps: Vec<Leg> = Vec::new();
    let mut i: usize = 0;
    while i < hops.len()
        invariant
            i <= hops@.len(),
            steps@ == legs(hops@.take(i as int)),
        decreases hops@.len() - i,
    {
        steps.push(Leg { key: hops[i].key, cost: hops[i].cost });
        i += 1;
        assert(steps@ =~= legs(hops@.take(i as int)));
    }
    assert(hops@.take(i as int) =~= hops@);
    steps
}

/// Preference never ties between two different walks, and never holds both
/// ways.
pub proof fn law_preference_never_ties(a: Seq<Hop>, b: Seq<Hop>)
    requires
        a.len() > 0,
        b.len() > 0,
    ensures
        !preferred(a, a),
        preferred(a, b) ==> !preferred(b, a),
        a == b || preferred(a, b) || preferred(b, a),
{
    order::lemma_precedes_is_total(a, b);
    order::lemma_precedes_is_total(b, a);
    order::lemma_precedes_is_total(legs(a), legs(b));
    order::lemma_precedes_is_total(legs(b), legs(a));
    lemma_legs_are_the_walk(a, b);
    if a[0].key.rank() == b[0].key.rank() {
        PublicKey::rank_tells_apart(a[0].key, b[0].key);
    }
}

/// What is preferred to something preferred is itself preferred.
pub proof fn law_preference_is_transitive(a: Seq<Hop>, b: Seq<Hop>, c: Seq<Hop>)
    requires
        preferred(a, b),
        preferred(b, c),
    ensures
        preferred(a, c),
{
    if lesser(a, b) && lesser(b, c) {
        lemma_lesser_is_transitive(a, b, c);
    }
}

/// What sorts before a lesser walk sorts before everything that one does.
proof fn lemma_lesser_is_transitive(a: Seq<Hop>, b: Seq<Hop>, c: Seq<Hop>)
    requires
        lesser(a, b),
        lesser(b, c),
    ensures
        lesser(a, c),
{
    lemma_legs_are_the_walk(a, b);
    lemma_legs_are_the_walk(b, c);
    lemma_legs_are_the_walk(a, c);
    if same_walk(a, b) && same_walk(b, c) {
        order::lemma_precedes_is_transitive(a, b, c);
    } else if !same_walk(a, b) && !same_walk(b, c) {
        order::lemma_precedes_is_transitive(legs(a), legs(b), legs(c));
        order::lemma_precedes_is_total(legs(a), legs(c));
    }
}

/// Which of two different walks is preferred does not move when either of them
/// is stamped or signed differently.
pub proof fn law_preference_ignores_stamps(
    a: Seq<Hop>,
    fresh_a: Seq<Hop>,
    b: Seq<Hop>,
    fresh_b: Seq<Hop>,
)
    requires
        same_walk(a, fresh_a),
        same_walk(b, fresh_b),
        !same_walk(a, b),
    ensures
        preferred(fresh_a, fresh_b) == preferred(a, b),
{
    lemma_legs_are_the_walk(a, fresh_a);
    lemma_legs_are_the_walk(b, fresh_b);
    assert(keys(a).len() == a.len() && keys(fresh_a).len() == fresh_a.len());
    assert(keys(b).len() == b.len() && keys(fresh_b).len() == fresh_b.len());
    if a.len() > 0 {
        assert(keys(a)[0] == a[0].key && keys(fresh_a)[0] == fresh_a[0].key);
    } else {
        assert(a =~= fresh_a);
    }
    if b.len() > 0 {
        assert(keys(b)[0] == b[0].key && keys(fresh_b)[0] == fresh_b[0].key);
    } else {
        assert(b =~= fresh_b);
    }
}

/// Which of two walks through different parents is preferred does not move
/// when the author of one restamps it.
///
/// Walks of one length through different parents differ by a key above their
/// author, which is before anything the author's stamp could reach.
pub proof fn law_preference_ignores_the_authors_stamp<S: Signer>(
    a: Seq<Hop>,
    b: Seq<Hop>,
    signer: S,
    seq: u64,
)
    requires
        a.len() > 0,
        b.len() > 0,
        signer.speaks_for() == author(a),
        parent(a) != parent(b),
    ensures
        preferred(restamped(a, signer, seq), b) == preferred(a, b),
        preferred(b, restamped(a, signer, seq)) == preferred(b, a),
{
    let fresh = restamped(a, signer, seq);
    assert(keys(fresh) =~= keys(a));
    assert(prices(fresh) =~= prices(a));
    if same_walk(a, b) {
        assert(keys(a).len() == a.len() && keys(b).len() == b.len());
        if a.len() >= 2 {
            assert(keys(a)[a.len() - 2] == keys(b)[a.len() - 2]);
        }
    }
    law_preference_ignores_stamps(a, fresh, b, b);
    law_preference_ignores_stamps(b, b, a, fresh);
}

/// Of any two different walks by one author, exactly one is the later word.
pub proof fn law_supersedes_never_ties(a: Seq<Hop>, b: Seq<Hop>)
    ensures
        !supersedes(a, a),
        supersedes(a, b) ==> !supersedes(b, a),
        a == b || supersedes(a, b) || supersedes(b, a),
{
    order::lemma_precedes_is_total(a, b);
    order::lemma_precedes_is_total(b, a);
}

/// What replaces a later word replaces every word that one replaced.
pub proof fn law_supersedes_is_transitive(a: Seq<Hop>, b: Seq<Hop>, c: Seq<Hop>)
    requires
        supersedes(a, b),
        supersedes(b, c),
    ensures
        supersedes(a, c),
{
    if order::precedes(b, a) && order::precedes(c, b) {
        order::lemma_precedes_is_transitive(c, b, a);
    }
}

/// The later of two words.
pub open spec fn later(a: Seq<Hop>, b: Seq<Hop>) -> Seq<Hop> {
    if supersedes(a, b) {
        a
    } else {
        b
    }
}

/// What is held of one author is a max register: the order in which words
/// arrive does not matter, and neither does hearing one twice.
pub proof fn law_last_word_is_a_max_register(a: Seq<Hop>, b: Seq<Hop>, c: Seq<Hop>)
    ensures
        later(a, a) == a,
        later(a, b) == later(b, a),
        later(later(a, b), c) == later(a, later(b, c)),
{
    law_supersedes_never_ties(a, b);
    law_supersedes_never_ties(b, c);
    law_supersedes_never_ties(a, c);
    if supersedes(a, b) && supersedes(b, c) {
        law_supersedes_is_transitive(a, b, c);
    }
    if supersedes(c, b) && supersedes(b, a) {
        law_supersedes_is_transitive(c, b, a);
    }
    if supersedes(b, a) && supersedes(a, c) {
        law_supersedes_is_transitive(b, a, c);
    }
    if supersedes(c, a) && supersedes(a, b) {
        law_supersedes_is_transitive(c, a, b);
    }
    if supersedes(a, c) && supersedes(c, b) {
        law_supersedes_is_transitive(a, c, b);
    }
    if supersedes(b, c) && supersedes(c, a) {
        law_supersedes_is_transitive(b, c, a);
    }
}

/// Attaching below a walk adds one link to it and never forms a loop: the new
/// walk keeps the root, hangs off the old author, and costs what the old one
/// did and the price of the link on top.
pub proof fn law_extending_adds_one_link<S: Signer>(
    walk: Seq<Hop>,
    signer: S,
    consent: Consent,
    seq: u64,
)
    requires
        shaped(walk),
        consent.price() >= 1,
        extended(walk, signer, consent, seq) is Some,
    ensures
        ({
            let longer = extended(walk, signer, consent, seq)->0;
            &&& shaped(longer)
            &&& longer.len() == walk.len() + 1
            &&& longer.drop_last() == walk
            &&& longer[0].key == walk[0].key
            &&& author(longer) == signer.speaks_for()
            &&& parent(longer) == Some(author(walk))
            &&& longer.last().seq == seq
            &&& walk::total(prices(longer)) == walk::total(prices(walk)) + consent.price()
        }),
{
    let longer = extended(walk, signer, consent, seq)->0;
    assert forall|i: int, j: int| 0 <= i < j < longer.len() implies (#[trigger] longer[i]).key != (
    #[trigger] longer[j]).key by {
        if j < walk.len() {
            assert(walk[i].key != walk[j].key);
        } else {
            assert(keys(walk)[i] == longer[i].key);
        }
    }
    assert(longer.drop_last() =~= walk);
    assert(prices(longer).drop_last() =~= prices(walk));
}

/// A node already on a walk cannot attach below its end.
pub proof fn law_extending_refuses_a_loop<S: Signer>(
    walk: Seq<Hop>,
    signer: S,
    consent: Consent,
    seq: u64,
    at: int,
)
    requires
        0 <= at < walk.len(),
        walk[at].key == signer.speaks_for(),
    ensures
        extended(walk, signer, consent, seq) is None,
{
    assert(keys(walk)[at] == signer.speaks_for());
}

/// Restamping leaves the walk where it was and every hop above the author as
/// it stood; a later stamp is the later word.
pub proof fn law_restamping_moves_nothing<S: Signer>(walk: Seq<Hop>, signer: S, seq: u64)
    requires
        shaped(walk),
        signer.speaks_for() == author(walk),
    ensures
        shaped(restamped(walk, signer, seq)),
        same_walk(restamped(walk, signer, seq), walk),
        restamped(walk, signer, seq).drop_last() == walk.drop_last(),
        restamped(walk, signer, seq).last().seq == seq,
        seq > walk.last().seq ==> supersedes(restamped(walk, signer, seq), walk),
{
    let fresh = restamped(walk, signer, seq);
    assert(fresh.drop_last() =~= walk.drop_last());
    assert forall|i: int| 0 <= i < walk.len() implies fresh[i].key == walk[i].key && fresh[i].cost
        == walk[i].cost && fresh[i].consent == walk[i].consent by {
        if i < walk.len() - 1 {
            assert(fresh.drop_last()[i] == walk.drop_last()[i]);
        }
    }
    assert(keys(fresh) =~= keys(walk));
    assert(prices(fresh) =~= prices(walk));
    assert forall|i: int, j: int| 0 <= i < j < fresh.len() implies (#[trigger] fresh[i]).key != (
    #[trigger] fresh[j]).key by {
        assert(walk[i].key != walk[j].key);
    }
}

/// Distance is the same from either end.
pub proof fn law_distance_is_symmetric(a: Seq<Hop>, b: Seq<Hop>)
    ensures
        separation(a, b) == separation(b, a),
{
    walk::lemma_tolls_are_symmetric(keys(a), prices(a), keys(b), prices(b));
}

/// Within one tree, distance is zero only between a node and itself.
pub proof fn law_distance_is_zero_at_home(a: Seq<Hop>, b: Seq<Hop>)
    requires
        shaped(a),
        shaped(b),
        a[0].key == b[0].key,
    ensures
        separation(a, b) == 0 <==> keys(a) == keys(b),
{
    walk::lemma_tolls_are_zero_at_home(keys(a), prices(a), keys(b), prices(b));
}

/// Distance does not depend on how either walk was stamped or signed.
pub proof fn law_distance_ignores_stamps(a: Seq<Hop>, b: Seq<Hop>, c: Seq<Hop>)
    requires
        same_walk(a, b),
    ensures
        separation(a, c) == separation(b, c),
{
}

/// How wide a hop lies.
pub open spec fn hop_width() -> nat {
    176
}

proof fn lemma_walk_bytes_len(walk: Seq<Hop>)
    ensures
        walk_bytes(walk).len() == hop_width() * walk.len(),
    decreases walk.len(),
{
    if walk.len() > 0 {
        lemma_walk_bytes_len(walk.drop_last());
        assert(hop_bytes(walk.last()).len() == hop_width());
        assert(hop_width() * walk.len() == hop_width() * (walk.len() - 1) + hop_width())
            by (nonlinear_arith);
    }
}

/// Two hops laid out alike are the same hop, where both or neither carry a
/// consent.
proof fn lemma_hop_bytes_tell_apart(a: Hop, b: Hop)
    requires
        hop_bytes(a) == hop_bytes(b),
        a.consent is Some <==> b.consent is Some,
    ensures
        a == b,
{
    let (a1, b1) = (a.key@ + bytes::be_bytes(a.cost), b.key@ + bytes::be_bytes(b.cost));
    let (a2, b2) = (a1 + bytes::be_bytes(a.seq), b1 + bytes::be_bytes(b.seq));
    let (a3, b3) = (a2 + consent_field(a.consent), b2 + consent_field(b.consent));
    bytes::lemma_split(a3, a.signature@, b3, b.signature@);
    bytes::lemma_split(a2, consent_field(a.consent), b2, consent_field(b.consent));
    bytes::lemma_split(a1, bytes::be_bytes(a.seq), b1, bytes::be_bytes(b.seq));
    bytes::lemma_split(a.key@, bytes::be_bytes(a.cost), b.key@, bytes::be_bytes(b.cost));
    bytes::lemma_be_bytes_tell_apart(a.cost, b.cost);
    bytes::lemma_be_bytes_tell_apart(a.seq, b.seq);
    crate::key::lemma_key_is_its_bytes(a.key, b.key);
    signature::lemma_signature_is_its_bytes(a.signature, b.signature);
    if a.consent is Some {
        signature::lemma_signature_is_its_bytes(a.consent->0, b.consent->0);
    }
}

/// Whether a walk carries a consent at exactly the hops below its root.
pub open spec fn consented_below_root(walk: Seq<Hop>) -> bool {
    forall|i: int| 0 <= i < walk.len() ==> ((#[trigger] walk[i]).consent is Some <==> i > 0)
}

proof fn lemma_walk_bytes_tell_apart(a: Seq<Hop>, b: Seq<Hop>)
    requires
        walk_bytes(a) == walk_bytes(b),
        consented_below_root(a),
        consented_below_root(b),
    ensures
        a == b,
    decreases a.len(),
{
    lemma_walk_bytes_len(a);
    lemma_walk_bytes_len(b);
    assert(a.len() == b.len()) by (nonlinear_arith)
        requires
            hop_width() * a.len() == hop_width() * b.len(),
            hop_width() == 176,
    ;
    if a.len() > 0 {
        lemma_walk_bytes_len(a.drop_last());
        lemma_walk_bytes_len(b.drop_last());
        bytes::lemma_split(
            walk_bytes(a.drop_last()),
            hop_bytes(a.last()),
            walk_bytes(b.drop_last()),
            hop_bytes(b.last()),
        );
        lemma_walk_bytes_tell_apart(a.drop_last(), b.drop_last());
        lemma_hop_bytes_tell_apart(a.last(), b.last());
        assert(a =~= a.drop_last().push(a.last()));
        assert(b =~= b.drop_last().push(b.last()));
    } else {
        assert(a =~= b);
    }
}

/// No two different hops can be signed over the same bytes: the bytes give
/// back the whole walk above, the key, the price, the stamp and the consent.
pub proof fn law_statements_are_unambiguous(a: Seq<Hop>, b: Seq<Hop>)
    requires
        a.len() > 0,
        b.len() > 0,
        consented_below_root(a),
        consented_below_root(b),
        statement(
            a.drop_last(),
            a.last().key,
            a.last().cost,
            a.last().seq,
            a.last().consent,
        ) == statement(
            b.drop_last(),
            b.last().key,
            b.last().cost,
            b.last().seq,
            b.last().consent,
        ),
    ensures
        a.drop_last() == b.drop_last(),
        a.last().key == b.last().key,
        a.last().cost == b.last().cost,
        a.last().seq == b.last().seq,
        a.last().consent == b.last().consent,
{
    let (x, y) = (a.last(), b.last());
    let (a0, b0) = (
        hop_domain() + walk_bytes(a.drop_last()),
        hop_domain() + walk_bytes(b.drop_last()),
    );
    let (a1, b1) = (a0 + x.key@, b0 + y.key@);
    let (a2, b2) = (a1 + bytes::be_bytes(x.cost), b1 + bytes::be_bytes(y.cost));
    let (a3, b3) = (a2 + bytes::be_bytes(x.seq), b2 + bytes::be_bytes(y.seq));
    lemma_walk_bytes_len(a.drop_last());
    lemma_walk_bytes_len(b.drop_last());
    assert(consent_field(x.consent).len() == 64 && consent_field(y.consent).len() == 64);
    assert((a3 + consent_field(x.consent)).len() == a3.len() + 64);
    assert((b3 + consent_field(y.consent)).len() == b3.len() + 64);
    bytes::lemma_split(a3, consent_field(x.consent), b3, consent_field(y.consent));
    bytes::lemma_split(a2, bytes::be_bytes(x.seq), b2, bytes::be_bytes(y.seq));
    bytes::lemma_split(a1, bytes::be_bytes(x.cost), b1, bytes::be_bytes(y.cost));
    bytes::lemma_split(a0, x.key@, b0, y.key@);
    bytes::lemma_split(
        hop_domain(),
        walk_bytes(a.drop_last()),
        hop_domain(),
        walk_bytes(b.drop_last()),
    );
    lemma_walk_bytes_tell_apart(a.drop_last(), b.drop_last());
    crate::key::lemma_key_is_its_bytes(x.key, y.key);
    bytes::lemma_be_bytes_tell_apart(x.cost, y.cost);
    bytes::lemma_be_bytes_tell_apart(x.seq, y.seq);
    assert(a.drop_last().len() == b.drop_last().len());
    if x.consent is Some {
        signature::lemma_signature_is_its_bytes(x.consent->0, y.consent->0);
    }
}

/// A consent's bytes give back who gave it, to whom, and at what price.
pub proof fn law_agreements_are_unambiguous(
    parent: PublicKey,
    child: PublicKey,
    cost: u64,
    other_parent: PublicKey,
    other_child: PublicKey,
    other_cost: u64,
)
    requires
        agreement(parent, child, cost) == agreement(other_parent, other_child, other_cost),
    ensures
        parent == other_parent,
        child == other_child,
        cost == other_cost,
{
    let (a, b) = (consent_domain() + parent@, consent_domain() + other_parent@);
    bytes::lemma_split(a + child@, bytes::be_bytes(cost), b + other_child@, bytes::be_bytes(other_cost));
    bytes::lemma_split(a, child@, b, other_child@);
    bytes::lemma_split(consent_domain(), parent@, consent_domain(), other_parent@);
    crate::key::lemma_key_is_its_bytes(parent, other_parent);
    crate::key::lemma_key_is_its_bytes(child, other_child);
    bytes::lemma_be_bytes_tell_apart(cost, other_cost);
}

/// Nothing signed as a hop can be read back as a consent.
pub proof fn law_statements_are_not_agreements(
    above: Seq<Hop>,
    key: PublicKey,
    cost: u64,
    seq: u64,
    consent: Option<Signature>,
    parent: PublicKey,
    child: PublicKey,
    price: u64,
)
    ensures
        statement(above, key, cost, seq, consent) != agreement(parent, child, price),
{
    reveal_strlit("blackwood/hop/2");
    reveal_strlit("blackwood/consent/2");
    vstd::utf8::is_ascii_chars_encode_utf8("blackwood/hop/2"@);
    vstd::utf8::is_ascii_chars_encode_utf8("blackwood/consent/2"@);
    assert("blackwood/hop/2"@[10] as u8 == hop_domain()[10]);
    assert("blackwood/consent/2"@[10] as u8 == consent_domain()[10]);
    assert(statement(above, key, cost, seq, consent)[10] == hop_domain()[10]);
    assert(agreement(parent, child, price)[10] == consent_domain()[10]);
}

/// What the walk up to the root costs is the sum of its prices, as far as that
/// can be counted.
pub proof fn law_the_cost_to_the_root_is_the_sum_of_the_prices(walk: Seq<Hop>)
    ensures
        ({
            let sum = walk.fold_left(0nat, |sum: nat, hop: Hop| sum + hop.cost as nat);
            cost_to_root(walk) == if sum <= u64::MAX {
                sum
            } else {
                u64::MAX as nat
            }
        }),
{
    lemma_total_is_the_sum(walk);
}

proof fn lemma_total_is_the_sum(walk: Seq<Hop>)
    ensures
        walk::total(prices(walk)) == walk.fold_left(
            0nat,
            |sum: nat, hop: Hop| sum + hop.cost as nat,
        ),
    decreases walk.len(),
{
    reveal_with_fuel(Seq::fold_left, 2);
    if walk.len() > 0 {
        assert(prices(walk).drop_last() =~= prices(walk.drop_last()));
        lemma_total_is_the_sum(walk.drop_last());
    }
}

/// The distance between two nodes is what every link below the last node their
/// walks share costs, on either side, as far as that can be counted.
pub proof fn law_the_distance_is_what_lies_below_the_fork(a: Seq<Hop>, b: Seq<Hop>, fork: int)
    requires
        0 <= fork <= a.len(),
        fork <= b.len(),
        forall|i: int| 0 <= i < fork ==> (#[trigger] a[i]).key == b[i].key,
        fork == a.len() || fork == b.len() || a[fork].key != b[fork].key,
    ensures
        ({
            let up = a.skip(fork).fold_left(0nat, |sum: nat, hop: Hop| sum + hop.cost as nat);
            let down = b.skip(fork).fold_left(0nat, |sum: nat, hop: Hop| sum + hop.cost as nat);
            separation(a, b) == if up + down <= u64::MAX {
                up + down
            } else {
                u64::MAX as nat
            }
        }),
{
    walk::lemma_shared(keys(a), keys(b));
    assert(walk::forks_after(keys(a), keys(b), fork as nat));
    assert(prices(a).skip(fork) =~= prices(a.skip(fork)));
    assert(prices(b).skip(fork) =~= prices(b.skip(fork)));
    lemma_total_is_the_sum(a.skip(fork));
    lemma_total_is_the_sum(b.skip(fork));
}

/// Of two positions the one with the smaller root is preferred; of two with one
/// root, the one whose prices add up to less; of two as cheap, the one with
/// fewer hops; and of two as long, the one with the smaller key, or else the
/// smaller price, where their walks first differ.
pub proof fn law_positions_are_preferred_by_root_cost_hops_and_path(
    a: Seq<Hop>,
    b: Seq<Hop>,
    at: int,
)
    requires
        a.len() > 0,
        b.len() > 0,
    ensures
        ({
            let x = walk::capped(a.fold_left(0nat, |sum: nat, hop: Hop| sum + hop.cost as nat));
            let y = walk::capped(b.fold_left(0nat, |sum: nat, hop: Hop| sum + hop.cost as nat));
            let same_root = a[0].key == b[0].key;
            &&& a[0].key.rank() < b[0].key.rank() ==> preferred(a, b)
            &&& same_root && x < y ==> preferred(a, b)
            &&& same_root && x == y && a.len() < b.len() ==> preferred(a, b)
            &&& same_root && x == y && a.len() == b.len() && 0 <= at < a.len() && (forall|i: int|
                0 <= i < at ==> (#[trigger] a[i]).key == b[i].key && a[i].cost == b[i].cost) && (
            a[at].key.rank() < b[at].key.rank() || a[at].key == b[at].key && a[at].cost
                < b[at].cost) ==> preferred(a, b)
        }),
{
    lemma_total_is_the_sum(a);
    lemma_total_is_the_sum(b);
    if a.len() == b.len() && 0 <= at < a.len() && (forall|i: int|
        0 <= i < at ==> (#[trigger] a[i]).key == b[i].key && a[i].cost == b[i].cost) && (
    a[at].key.rank() < b[at].key.rank() || a[at].key == b[at].key && a[at].cost < b[at].cost) {
        assert(order::parts_first_at(legs(a), legs(b), at));
        lemma_legs_are_the_walk(a, b);
        order::lemma_precedes_is_total(legs(a), legs(b));
    }
}

/// The later stamp is the later word, whatever the walks; under one stamp it is
/// the walk with the greater key where the two first differ, or the longer one
/// where they do not.
pub proof fn law_the_later_stamp_is_the_later_word(a: Seq<Hop>, b: Seq<Hop>, at: int)
    requires
        a.len() > 0,
        b.len() > 0,
    ensures
        a.last().seq > b.last().seq ==> supersedes(a, b) && !supersedes(b, a),
        a.last().seq == b.last().seq && 0 <= at < a.len() && at < b.len() && (forall|i: int|
            0 <= i < at ==> #[trigger] a[i] == b[i]) && a[at].key.rank() > b[at].key.rank()
            ==> supersedes(a, b) && !supersedes(b, a),
        a.last().seq == b.last().seq && a.len() > b.len() && a.take(b.len() as int) == b
            ==> supersedes(a, b) && !supersedes(b, a),
{
    law_supersedes_never_ties(a, b);
    if 0 <= at < a.len() && at < b.len() && (forall|i: int| 0 <= i < at ==> #[trigger] a[i] == b[i])
        && a[at].key.rank() > b[at].key.rank() {
        assert(order::parts_first_at(b, a, at));
    }
    if a.len() > b.len() && a.take(b.len() as int) == b {
        assert forall|i: int| 0 <= i < b.len() implies b[i] == a[i] by {
            assert(a.take(b.len() as int)[i] == a[i]);
        }
        assert(order::parts_first_at(b, a, b.len() as int));
    }
}

/// A walk is refused for the first of these that is wrong with it, and for
/// nothing else: it names nobody; its root is priced, or stands on a consent; a
/// link below the root is free, or stands on none; a node is named twice; a
/// hop's signature is not its own node's over everything down to it; its consent
/// is not the node above agreeing to that node at that price.
pub proof fn law_a_walk_is_refused_for_its_first_fault<S: Signer>(walk: Seq<Hop>)
    ensures
        ({
            let fault = flaw::<S>(walk);
            let free = exists|i: int| 0 < i < walk.len() && (#[trigger] walk[i]).cost == 0;
            let alone = exists|i: int| 0 < i < walk.len() && (#[trigger] walk[i]).consent is None;
            let twice = exists|i: int, j: int|
                0 <= i < j < walk.len() && (#[trigger] walk[i]).key == (#[trigger] walk[j]).key;
            let unsigned = exists|i: int|
                0 <= i < walk.len() && !S::accepts(
                    (#[trigger] walk[i]).key,
                    statement(
                        walk.take(i),
                        walk[i].key,
                        walk[i].cost,
                        walk[i].seq,
                        walk[i].consent,
                    ),
                    walk[i].signature,
                );
            let unwelcome = exists|i: int|
                0 < i < walk.len() && !S::accepts(
                    walk[i - 1].key,
                    agreement(walk[i - 1].key, (#[trigger] walk[i]).key, walk[i].cost),
                    walk[i].consent->0,
                );
            &&& walk.len() == 0 ==> fault == Some(MalformedAnnouncement::EmptyPath)
            &&& walk.len() > 0 && walk[0].cost != 0 ==> fault == Some(
                MalformedAnnouncement::CostAtRoot,
            )
            &&& walk.len() > 0 && walk[0].cost == 0 && walk[0].consent is Some ==> fault == Some(
                MalformedAnnouncement::ConsentAtRoot,
            )
            &&& walk.len() > 0 && walk[0].cost == 0 && walk[0].consent is None ==> {
                &&& free ==> fault == Some(MalformedAnnouncement::FreeLink)
                &&& !free && alone ==> fault == Some(MalformedAnnouncement::MissingConsent)
                &&& !free && !alone && twice ==> fault == Some(MalformedAnnouncement::RepeatedKey)
                &&& !free && !alone && !twice && unsigned ==> fault == Some(
                    MalformedAnnouncement::BadSignature,
                )
                &&& !free && !alone && !twice && !unsigned && unwelcome ==> fault == Some(
                    MalformedAnnouncement::BadConsent,
                )
                &&& !free && !alone && !twice && !unsigned && !unwelcome ==> fault is None
            }
        }),
{
    if exists|i: int|
        0 <= i < walk.len() && !S::accepts(
            (#[trigger] walk[i]).key,
            statement(walk.take(i), walk[i].key, walk[i].cost, walk[i].seq, walk[i].consent),
            walk[i].signature,
        ) {
        let i = choose|i: int|
            0 <= i < walk.len() && !S::accepts(
                (#[trigger] walk[i]).key,
                statement(walk.take(i), walk[i].key, walk[i].cost, walk[i].seq, walk[i].consent),
                walk[i].signature,
            );
        assert(!hop_signed::<S>(walk, i));
    }
    if !hops_signed::<S>(walk) {
        let i = choose|i: int| 0 <= i < walk.len() && !#[trigger] hop_signed::<S>(walk, i);
        assert(!S::accepts(
            walk[i].key,
            statement(walk.take(i), walk[i].key, walk[i].cost, walk[i].seq, walk[i].consent),
            walk[i].signature,
        ));
    }
    if walk.len() > 0 && walk[0].consent is None && !lacks_consent(walk) {
        if exists|i: int|
            0 < i < walk.len() && !S::accepts(
                walk[i - 1].key,
                agreement(walk[i - 1].key, (#[trigger] walk[i]).key, walk[i].cost),
                walk[i].consent->0,
            ) {
            let i = choose|i: int|
                0 < i < walk.len() && !S::accepts(
                    walk[i - 1].key,
                    agreement(walk[i - 1].key, (#[trigger] walk[i]).key, walk[i].cost),
                    walk[i].consent->0,
                );
            assert(!consent_given::<S>(walk, i));
        }
        if !consents_given::<S>(walk) {
            let i = choose|i: int| 0 <= i < walk.len() && !#[trigger] consent_given::<S>(walk, i);
            assert(i > 0);
            assert(!(walk[i].consent is None));
            assert(!S::accepts(
                walk[i - 1].key,
                agreement(walk[i - 1].key, walk[i].key, walk[i].cost),
                walk[i].consent->0,
            ));
        }
    }
}

/// A walk checks out where every hop is signed by its own node over everything
/// down to it, the root stands on no consent, and every other hop on that of the
/// node above at the price it bears.
pub proof fn law_a_walk_checks_out_hop_by_hop<S: Signer>(walk: Seq<Hop>)
    ensures
        checks_out::<S>(walk) <==> forall|i: int|
            0 <= i < walk.len() ==> {
                &&& S::accepts(
                    (#[trigger] walk[i]).key,
                    statement(
                        walk.take(i),
                        walk[i].key,
                        walk[i].cost,
                        walk[i].seq,
                        walk[i].consent,
                    ),
                    walk[i].signature,
                )
                &&& i == 0 ==> walk[i].consent is None
                &&& i > 0 ==> walk[i].consent is Some && S::accepts(
                    walk[i - 1].key,
                    agreement(walk[i - 1].key, walk[i].key, walk[i].cost),
                    walk[i].consent->0,
                )
            },
{
    if checks_out::<S>(walk) {
        assert forall|i: int| 0 <= i < walk.len() implies {
            &&& S::accepts(
                (#[trigger] walk[i]).key,
                statement(walk.take(i), walk[i].key, walk[i].cost, walk[i].seq, walk[i].consent),
                walk[i].signature,
            )
            &&& i == 0 ==> walk[i].consent is None
            &&& i > 0 ==> walk[i].consent is Some && S::accepts(
                walk[i - 1].key,
                agreement(walk[i - 1].key, walk[i].key, walk[i].cost),
                walk[i].consent->0,
            )
        } by {
            assert(hop_signed::<S>(walk, i) && consent_given::<S>(walk, i));
        }
    } else if !hops_signed::<S>(walk) {
        let i = choose|i: int| 0 <= i < walk.len() && !#[trigger] hop_signed::<S>(walk, i);
        assert(!S::accepts(
            walk[i].key,
            statement(walk.take(i), walk[i].key, walk[i].cost, walk[i].seq, walk[i].consent),
            walk[i].signature,
        ));
    } else {
        let i = choose|i: int| 0 <= i < walk.len() && !#[trigger] consent_given::<S>(walk, i);
        let hop = walk[i];
        assert(hop.consent is Some || hop.consent is None);
    }
}

/// A statement is its tag, every hop above as it was signed and its signature,
/// and then the key, the cost, the stamp and the consent being signed for, with
/// zeroes for no consent. An agreement is its tag, the two keys and the cost.
pub proof fn law_a_statement_holds_everything_above(
    above: Seq<Hop>,
    hop: Hop,
    key: PublicKey,
    cost: u64,
    seq: u64,
    consent: Option<Signature>,
)
    ensures
        ({
            let given = match consent {
                Some(signature) => signature@,
                None => Seq::new(64, |i: int| 0u8),
            };
            let mine = key@ + bytes::be_bytes(cost) + bytes::be_bytes(seq) + given;
            &&& statement(Seq::empty(), key, cost, seq, consent) == vstd::utf8::encode_utf8(
                "blackwood/hop/2"@,
            ) + mine
            &&& statement(above.push(hop), key, cost, seq, consent) == statement(
                above,
                hop.key,
                hop.cost,
                hop.seq,
                hop.consent,
            ) + hop.signature@ + mine
            &&& agreement(hop.key, key, cost) == vstd::utf8::encode_utf8("blackwood/consent/2"@)
                + hop.key@ + key@ + bytes::be_bytes(cost)
        }),
{
    let given = match consent {
        Some(signature) => signature@,
        None => Seq::new(64, |i: int| 0u8),
    };
    let mine = key@ + bytes::be_bytes(cost) + bytes::be_bytes(seq) + given;
    assert(consent_field(consent) =~= given);
    assert(above.push(hop).drop_last() =~= above);
    assert(statement(Seq::empty(), key, cost, seq, consent) =~= vstd::utf8::encode_utf8(
        "blackwood/hop/2"@,
    ) + mine);
    assert(statement(above.push(hop), key, cost, seq, consent) =~= statement(
        above,
        hop.key,
        hop.cost,
        hop.seq,
        hop.consent,
    ) + hop.signature@ + mine);
}

/// A node signs for itself: the hop it adds bears its key, the price and the
/// signature of the consent it stands on, the stamp it was given, and its own
/// signature over the statement of them. It adds none below anybody but the node
/// that consented, nor on a consent to anybody else, nor twice.
pub proof fn law_a_node_signs_for_its_own_hop<S: Signer>(
    walk: Seq<Hop>,
    signer: S,
    consent: Consent,
    seq: u64,
)
    requires
        walk.len() > 0,
    ensures
        ({
            let key = signer.speaks_for();
            let (cost, given) = (consent.price(), Some(consent.signed()));
            let last = walk[walk.len() - 1];
            let fits = consent.given_by() == last.key && consent.given_to() == key && forall|i: int|
                0 <= i < walk.len() ==> (#[trigger] walk[i]).key != key;
            &&& rooted(signer, seq) == seq![
                Hop {
                    key,
                    cost: 0,
                    seq,
                    consent: None,
                    signature: signer.signs(statement(Seq::empty(), key, 0, seq, None)),
                },
            ]
            &&& fits <==> extended(walk, signer, consent, seq) is Some
            &&& fits ==> extended(walk, signer, consent, seq) == Some(
                walk.push(
                    Hop {
                        key,
                        cost,
                        seq,
                        consent: given,
                        signature: signer.signs(statement(walk, key, cost, seq, given)),
                    },
                ),
            )
            &&& restamped(walk, signer, seq) == walk.drop_last().push(
                Hop {
                    key,
                    cost: last.cost,
                    seq,
                    consent: last.consent,
                    signature: signer.signs(
                        statement(walk.drop_last(), key, last.cost, seq, last.consent),
                    ),
                },
            )
        }),
{
    let key = signer.speaks_for();
    assert(rooted(signer, seq) =~= seq![
        Hop {
            key,
            cost: 0,
            seq,
            consent: None,
            signature: signer.signs(statement(Seq::empty(), key, 0, seq, None)),
        },
    ]);
    if !(forall|i: int| 0 <= i < walk.len() ==> (#[trigger] walk[i]).key != key) {
        let i = choose|i: int| 0 <= i < walk.len() && (#[trigger] walk[i]).key == key;
        assert(keys(walk)[i] == key);
    }
    if keys(walk).contains(key) {
        let i = choose|i: int| 0 <= i < keys(walk).len() && keys(walk)[i] == key;
        assert(walk[i].key == key);
    }
}

/// Two walks are the same where they name the same nodes at the same prices, step
/// by step, however they were stamped.
pub proof fn law_walks_are_the_same_step_by_step(a: Seq<Hop>, b: Seq<Hop>)
    ensures
        same_walk(a, b) <==> a.len() == b.len() && forall|i: int|
            0 <= i < a.len() ==> (#[trigger] a[i]).key == b[i].key && a[i].cost == b[i].cost,
{
    if same_walk(a, b) {
        assert(keys(a).len() == a.len() && keys(b).len() == b.len());
        assert forall|i: int| 0 <= i < a.len() implies (#[trigger] a[i]).key == b[i].key
            && a[i].cost == b[i].cost by {
            assert(keys(a)[i] == keys(b)[i] && prices(a)[i] == prices(b)[i]);
        }
    }
    if a.len() == b.len() && forall|i: int|
        0 <= i < a.len() ==> (#[trigger] a[i]).key == b[i].key && a[i].cost == b[i].cost {
        assert(keys(a) =~= keys(b));
        assert(prices(a) =~= prices(b));
    }
}

/// A walk runs from its root to its author, whose parent is the step before.
pub proof fn law_a_walk_ends_at_its_author(walk: Seq<Hop>)
    requires
        walk.len() > 0,
    ensures
        author(walk) == walk[walk.len() - 1].key,
        walk.len() == 1 ==> parent(walk) is None,
        walk.len() > 1 ==> parent(walk) == Some(walk[walk.len() - 2].key),
{
}

/// Hops sort by key, cost, stamp, consent and signature, the first of these in which they differ.
pub proof fn law_hops_sort_by_key_cost_stamp_consent_and_signature(a: Hop, b: Hop)
    ensures
        a.key.rank() < b.key.rank() ==> a.before(b),
        a.key == b.key && a.cost < b.cost ==> a.before(b),
        a.key == b.key && a.cost == b.cost && a.seq < b.seq ==> a.before(b),
        a.key == b.key && a.cost == b.cost && a.seq == b.seq && a.consent is None && b.consent is Some ==> a.before(b),
        a.key == b.key && a.cost == b.cost && a.seq == b.seq && a.consent is Some && b.consent is Some && order::rank(a.consent->0@)
            < order::rank(b.consent->0@) ==> a.before(b),
        a.key == b.key && a.cost == b.cost && a.seq == b.seq && a.consent
            == b.consent && order::rank(a.signature@)
            < order::rank(b.signature@) ==> a.before(b),
{
}

/// Of two positions that differ only in how they were stamped and signed, the one
/// whose first hop to differ sorts first is preferred, so that no two tie.
pub proof fn law_alike_positions_are_told_apart_by_their_stamps(a: Seq<Hop>, b: Seq<Hop>, at: int)
    requires
        same_walk(a, b),
        0 <= at < a.len(),
        forall|i: int| 0 <= i < at ==> #[trigger] a[i] == b[i],
        a[at].before(b[at]),
    ensures
        preferred(a, b),
        !preferred(b, a),
{
    law_walks_are_the_same_step_by_step(a, b);
    assert(a.len() == b.len());
    assert(a[0].key == b[0].key);
    assert(order::parts_first_at(a, b, at));
    law_preference_never_ties(a, b);
}

/// Under one stamp the later word is the one whose first hop to differ sorts
/// later.
pub proof fn law_a_tie_goes_to_the_walk_that_sorts_later(a: Seq<Hop>, b: Seq<Hop>, at: int)
    requires
        a.len() > 0,
        b.len() > 0,
        a.last().seq == b.last().seq,
        0 <= at < a.len(),
        at < b.len(),
        forall|i: int| 0 <= i < at ==> #[trigger] a[i] == b[i],
        b[at].before(a[at]),
    ensures
        supersedes(a, b),
        !supersedes(b, a),
{
    assert(order::parts_first_at(b, a, at));
    law_supersedes_never_ties(a, b);
}

/// Every way a walk can be wrong is put in words of its own.
pub proof fn law_every_fault_has_its_own_words(fault: MalformedAnnouncement)
    ensures
        fault.words() == (match fault {
            MalformedAnnouncement::EmptyPath => "announcement path is empty"@,
            MalformedAnnouncement::RepeatedKey => "announcement path repeats a key"@,
            MalformedAnnouncement::CostAtRoot => "announcement prices the link into its root"@,
            MalformedAnnouncement::FreeLink => "announcement path contains a link costing nothing"@,
            MalformedAnnouncement::BadSignature => "announcement hop is not signed by the node it names"@,
            MalformedAnnouncement::ConsentAtRoot => "announcement root carries a consent"@,
            MalformedAnnouncement::MissingConsent => "announcement hop sits below a node that did not consent"@,
            MalformedAnnouncement::BadConsent => "announcement hop's consent was not given by the node above it"@,
        }),
{
}

} // verus!
