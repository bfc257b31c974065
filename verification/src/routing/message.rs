//! What nodes hand to one another across a link.

use vstd::prelude::*;
use crate::bytes;
use crate::bytes::append;
use crate::key;
use crate::key::PublicKey;
use crate::sorted_map::Ranked;
use crate::order;
use crate::order::{compare_bytes, Standing};
pub use crate::packet::{Packet, PacketView};
use crate::routing::bargain;
use crate::routing::bargain::{Announcement, Consent, Hop};
use crate::signature;
use crate::signature::{Signature, Signer};
use crate::summary::Summary;
use crate::text;
use crate::text::push_hex;

verus! {

/// The length of a search nonce in bytes.
pub const NONCE_LEN: usize = 16;

/// The one-off number a search carries, so that its answer can be tied to it.
///
/// Nothing here generates one, for the same reason nothing here reads a clock:
/// randomness comes from the operating system, and routing does not touch one.
/// It must be one nobody else can guess, since an answer is only evidence that
/// its subject is alive now because that subject signed a number it cannot have
/// seen coming.
#[derive(Clone, Copy, Eq, PartialOrd, Ord, Hash, Debug)]
pub struct Nonce(pub [u8; NONCE_LEN]);

impl View for Nonce {
    type V = Seq<u8>;

    open spec fn view(&self) -> Seq<u8> {
        self.0@
    }
}

/// A nonce is nothing but its bytes.
pub proof fn lemma_nonce_is_its_bytes(a: Nonce, b: Nonce)
    ensures
        a@ == b@ <==> a == b,
{
    if a@ == b@ {
        assert(a.0 =~= b.0);
    }
}

impl PartialEq for Nonce {
    fn eq(&self, other: &Self) -> (same: bool) {
        let standing = compare_bytes(&self.0, &other.0);
        proof {
            lemma_nonce_is_its_bytes(*self, *other);
        }
        standing == Standing::Same
    }
}

impl vstd::std_specs::cmp::PartialEqSpecImpl for Nonce {
    open spec fn obeys_eq_spec() -> bool {
        true
    }

    open spec fn eq_spec(&self, other: &Self) -> bool {
        *self == *other
    }
}

impl Nonce {
    /// Wraps raw nonce bytes.
    pub fn new(bytes: [u8; NONCE_LEN]) -> (nonce: Self)
        ensures
            nonce@ == bytes@,
            nonce == Nonce(bytes),
    {
        Nonce(bytes)
    }

    /// The raw nonce bytes.
    pub fn as_bytes(&self) -> (bytes: &[u8; NONCE_LEN])
        ensures
            bytes@ == self@,
            *bytes == self.0,
    {
        &self.0
    }

    /// The nonce abbreviated for a person to read.
    pub fn label(&self) -> (label: String)
        ensures
            label@ == "nonce:"@ + text::hex(self@.take(4)) + "…"@,
    {
        let mut label = String::from_str("nonce:");
        let head = vstd::slice::slice_subrange(&self.0, 0, 4);
        assert(head@ =~= self@.take(4));
        push_hex(&mut label, head);
        label.append("…");
        label
    }
}

impl Ranked for Nonce {
    open spec fn rank(self) -> int {
        order::rank(self@) as int
    }

    proof fn rank_tells_apart(a: Self, b: Self) {
        order::lemma_rank_tells_apart(a@, b@);
        lemma_nonce_is_its_bytes(a, b);
    }

    fn compare_rank(&self, other: &Self) -> (standing: Standing) {
        proof {
            lemma_nonce_is_its_bytes(*self, *other);
        }
        compare_bytes(&self.0, &other.0)
    }
}

/// Copies a list of keys.
fn copy_keys(keys: &Vec<PublicKey>) -> (copy: Vec<PublicKey>)
    ensures
        copy@ == keys@,
{
    let copy = keys.clone();
    assert(copy@ =~= keys@);
    copy
}

/// A packet on its way, with the coordinates it is being forwarded by.
///
/// The destination's path travels with the packet rather than being looked up
/// at each hop, because no node along the way holds it: a node knows where its
/// own peers sit and nothing more. It also makes the loop-freedom argument
/// exact, since every node on the route measures its progress against the same
/// target rather than against its own copy of it.
#[derive(PartialEq, Eq, Debug)]
pub struct Traffic {
    /// Where the destination sat when the sender last heard.
    pub dst_path: Vec<Hop>,
    /// The packet itself.
    pub packet: Packet,
}

/// What a [`Traffic`] says.
#[verifier::ext_equal]
pub struct TrafficView {
    pub dst_path: Seq<Hop>,
    pub packet: PacketView,
}

impl View for Traffic {
    type V = TrafficView;

    open spec fn view(&self) -> TrafficView {
        TrafficView { dst_path: self.dst_path@, packet: self.packet@ }
    }
}

impl Clone for Traffic {
    fn clone(&self) -> (copy: Self)
        ensures
            copy@ == self@,
    {
        let dst_path = self.dst_path.clone();
        assert(dst_path@ =~= self.dst_path@);
        Traffic { dst_path, packet: self.packet.clone() }
    }
}

/// A search for a node whose position is not known.
///
/// Tree routing needs the destination's coordinates, and a node holds those
/// only for its peers and for whoever it has already been talking to. This is
/// how it gets the rest: a walk along tree links, steered at every step by
/// what the [`Summary`] on each link claims lies beyond it.
#[derive(PartialEq, Eq, Debug)]
pub struct Lookup {
    /// The node being looked for.
    pub target: PublicKey,
    /// The number this particular search is carrying.
    ///
    /// The node that answers signs it, so an answer belongs to the search that
    /// asked for it and cannot be a recording of an older one.
    pub nonce: Nonce,
    /// Every node this has passed through: the one that asked first, and the
    /// one that just sent it last.
    ///
    /// A node that finds itself already on it refuses to take the search
    /// again, and it is the way home for the answer.
    pub trail: Vec<PublicKey>,
}

/// What a [`Lookup`] says.
#[verifier::ext_equal]
pub struct LookupView {
    pub target: PublicKey,
    pub nonce: Nonce,
    pub trail: Seq<PublicKey>,
}

impl View for Lookup {
    type V = LookupView;

    open spec fn view(&self) -> LookupView {
        LookupView { target: self.target, nonce: self.nonce, trail: self.trail@ }
    }
}

impl Clone for Lookup {
    fn clone(&self) -> (copy: Self)
        ensures
            copy@ == self@,
    {
        Lookup { target: self.target, nonce: self.nonce, trail: copy_keys(&self.trail) }
    }
}

/// The answer to a [`Lookup`], on its way back.
///
/// An announcement on its own settles only who said something, never when. So
/// the answer also carries the subject's signature over the searching node's
/// own nonce, which is the one thing a recording cannot supply. What comes back
/// is therefore evidence that the subject was alive to hear the question, and
/// that this is where it sat when it did.
#[derive(PartialEq, Eq, Debug)]
pub struct Found {
    /// Where the node that was looked for says it sits.
    pub announcement: Announcement,
    /// The nonce of the search being answered.
    pub nonce: Nonce,
    /// The subject's signature over that nonce and over the announcement
    /// above, binding the two together so neither can be paired with another.
    pub proof: Signature,
    /// What is left of the search's trail. Each node hands the answer to
    /// whoever comes before it and drops itself off the end, so the answer
    /// retraces the search exactly rather than needing a route of its own.
    pub trail: Vec<PublicKey>,
}

/// What a [`Found`] says.
#[verifier::ext_equal]
pub struct FoundView {
    pub walk: Seq<Hop>,
    pub nonce: Nonce,
    pub vouch: Signature,
    pub trail: Seq<PublicKey>,
}

impl View for Found {
    type V = FoundView;

    open spec fn view(&self) -> FoundView {
        FoundView {
            walk: self.announcement@,
            nonce: self.nonce,
            vouch: self.proof,
            trail: self.trail@,
        }
    }
}

impl Clone for Found {
    fn clone(&self) -> (copy: Self)
        ensures
            copy@ == self@,
    {
        Found {
            announcement: self.announcement.clone(),
            nonce: self.nonce,
            proof: self.proof,
            trail: copy_keys(&self.trail),
        }
    }
}

/// What a node is putting its name to when it answers a search.
pub open spec fn answer_domain() -> Seq<u8> {
    vstd::utf8::encode_utf8("blackwood/answer/1"@)
}

/// The statement a node signs to answer the search carrying `nonce` with
/// `walk`.
pub open spec fn reply(nonce: Nonce, walk: Seq<Hop>) -> Seq<u8> {
    answer_domain() + nonce@ + bargain::author(walk)@ + walk.last().signature@
}

/// The answer `signer`'s node gives to a search that has reached it.
pub open spec fn answered<S: Signer>(
    signer: S,
    walk: Seq<Hop>,
    nonce: Nonce,
    trail: Seq<PublicKey>,
) -> FoundView {
    FoundView { walk, nonce, vouch: signer.signs(reply(nonce, walk)), trail }
}

/// Whether an answer holds together: a walk that checks out, and the node it
/// describes vouching for both that walk and the search it answers.
pub open spec fn vouched_for<S: Signer>(found: FoundView) -> bool {
    &&& bargain::checks_out::<S>(found.walk)
    &&& S::accepts(bargain::author(found.walk), reply(found.nonce, found.walk), found.vouch)
}

impl Found {
    /// The answer `signer`'s node gives to a search that has reached it.
    pub fn answer<S: Signer>(
        signer: &S,
        announcement: Announcement,
        nonce: Nonce,
        trail: Vec<PublicKey>,
    ) -> (found: Self)
        ensures
            found@ == answered(*signer, announcement@, nonce, trail@),
            signer.speaks_for() == bargain::author(announcement@) && bargain::checks_out::<S>(
                announcement@,
            ) ==> vouched_for::<S>(found@),
    {
        let proof = signer.sign(answer_bytes(nonce, &announcement).as_slice());
        Found { announcement, nonce, proof, trail }
    }

    /// Whether this answer holds together: a well-signed walk, and the node it
    /// describes vouching for both that walk and the search it answers.
    ///
    /// Every node the answer passes through asks this before passing it on, so
    /// an answer that does not hold together never travels.
    pub fn verify<S: Signer>(&self) -> (holds: bool)
        ensures
            holds == vouched_for::<S>(self@),
    {
        self.announcement.verify::<S>() && S::verify(
            self.announcement.author(),
            answer_bytes(self.nonce, &self.announcement).as_slice(),
            &self.proof,
        )
    }
}

/// The bytes an answer is signed over: the search's nonce, the node
/// answering, and the walk it is claiming.
///
/// The walk enters by its author's own signature, which already covers every
/// hop above it, so signing these few bytes commits to the whole announcement.
fn answer_bytes(nonce: Nonce, announcement: &Announcement) -> (bytes: Vec<u8>)
    ensures
        bytes@ == reply(nonce, announcement@),
{
    let mut bytes: Vec<u8> = Vec::new();
    append(&mut bytes, "blackwood/answer/1".as_bytes());
    assert(bytes@ =~= answer_domain());
    append(&mut bytes, nonce.as_bytes());
    append(&mut bytes, announcement.author().as_bytes());
    append(&mut bytes, announcement.author_signature().as_bytes());
    bytes
}

/// Anything one node sends to a directly linked peer.
#[derive(PartialEq, Eq, Debug)]
pub enum Message {
    /// Where the sender sits in the tree.
    ///
    /// Only ever about the sender, and never passed on: a node needs the
    /// coordinates of its own peers and of nobody else.
    Announce(Announcement),
    /// What the sender says can be reached through it.
    ///
    /// Only ever about the sender's side of this one link, and never passed on
    /// as it stands.
    Summary(Summary),
    /// The sender's agreement that the receiver may sit below it.
    ///
    /// Offered when a link comes up and again whenever the sender re-prices
    /// it, because the price is part of what is being agreed to.
    Consent(Consent),
    /// A search for a node, steered by summaries.
    Lookup(Lookup),
    /// The answer to one, retracing the search's steps.
    Found(Found),
    /// Traffic being forwarded towards its destination.
    Traffic(Traffic),
}

/// What a [`Message`] says.
#[verifier::ext_equal]
pub enum MessageView {
    Announce(Seq<Hop>),
    Summary(Set<int>),
    Consent(Consent),
    Lookup(LookupView),
    Found(FoundView),
    Traffic(TrafficView),
}

impl View for Message {
    type V = MessageView;

    open spec fn view(&self) -> MessageView {
        match self {
            Message::Announce(announcement) => MessageView::Announce(announcement@),
            Message::Summary(summary) => MessageView::Summary(summary@),
            Message::Consent(consent) => MessageView::Consent(*consent),
            Message::Lookup(lookup) => MessageView::Lookup(lookup@),
            Message::Found(found) => MessageView::Found(found@),
            Message::Traffic(traffic) => MessageView::Traffic(traffic@),
        }
    }
}

impl Clone for Message {
    fn clone(&self) -> (copy: Self)
        ensures
            copy@ == self@,
    {
        match self {
            Message::Announce(announcement) => Message::Announce(announcement.clone()),
            Message::Summary(summary) => Message::Summary(*summary),
            Message::Consent(consent) => Message::Consent(*consent),
            Message::Lookup(lookup) => Message::Lookup(lookup.clone()),
            Message::Found(found) => Message::Found(found.clone()),
            Message::Traffic(traffic) => Message::Traffic(traffic.clone()),
        }
    }
}

/// A message together with the linked peer it must be handed to.
///
/// Delivering it is the caller's job. Nothing here performs I/O, so a node's
/// entire effect on the world is the envelopes it returns.
#[derive(PartialEq, Eq, Debug)]
pub struct Envelope {
    /// The peer that should receive the message.
    pub to: PublicKey,
    /// The message itself.
    pub message: Message,
}

/// What an [`Envelope`] says.
#[verifier::ext_equal]
pub struct EnvelopeView {
    pub to: PublicKey,
    pub message: MessageView,
}

impl View for Envelope {
    type V = EnvelopeView;

    open spec fn view(&self) -> EnvelopeView {
        EnvelopeView { to: self.to, message: self.message@ }
    }
}

impl Clone for Envelope {
    fn clone(&self) -> (copy: Self)
        ensures
            copy@ == self@,
    {
        Envelope { to: self.to, message: self.message.clone() }
    }
}

/// What a run of envelopes says.
pub open spec fn posted(envelopes: Seq<Envelope>) -> Seq<EnvelopeView> {
    envelopes.map_values(|envelope: Envelope| envelope@)
}

/// Puts one more envelope on the end of a run.
pub(crate) fn post(out: &mut Vec<Envelope>, to: PublicKey, message: Message)
    ensures
        posted(final(out)@) == posted(old(out)@).push(
            (EnvelopeView { to, message: message@ }),
        ),
{
    let ghost before = out@;
    out.push(Envelope { to, message });
    assert(posted(out@) =~= posted(before).push((EnvelopeView { to, message: message@ })));
}

/// An answer's bytes give back the search it answers, the node answering, and
/// that node's signature over the walk it claims.
pub proof fn law_answers_are_unambiguous(
    nonce: Nonce,
    walk: Seq<Hop>,
    other_nonce: Nonce,
    other_walk: Seq<Hop>,
)
    requires
        reply(nonce, walk) == reply(other_nonce, other_walk),
    ensures
        nonce == other_nonce,
        bargain::author(walk) == bargain::author(other_walk),
        walk.last().signature == other_walk.last().signature,
{
    let (a, b) = (walk.last(), other_walk.last());
    let (x, y) = (answer_domain() + nonce@, answer_domain() + other_nonce@);
    bytes::lemma_split(x + a.key@, a.signature@, y + b.key@, b.signature@);
    bytes::lemma_split(x, a.key@, y, b.key@);
    bytes::lemma_split(answer_domain(), nonce@, answer_domain(), other_nonce@);
    lemma_nonce_is_its_bytes(nonce, other_nonce);
    key::lemma_key_is_its_bytes(a.key, b.key);
    signature::lemma_signature_is_its_bytes(a.signature, b.signature);
}

/// Nothing signed as an answer can be read back as a hop or as a consent.
pub proof fn law_answers_are_nothing_else(
    nonce: Nonce,
    walk: Seq<Hop>,
    above: Seq<Hop>,
    key: PublicKey,
    cost: u64,
    seq: u64,
    consent: Option<Signature>,
    parent: PublicKey,
    child: PublicKey,
    price: u64,
)
    ensures
        reply(nonce, walk) != bargain::statement(above, key, cost, seq, consent),
        reply(nonce, walk) != bargain::agreement(parent, child, price),
{
    reveal_strlit("blackwood/answer/1");
    reveal_strlit("blackwood/hop/2");
    reveal_strlit("blackwood/consent/2");
    vstd::utf8::is_ascii_chars_encode_utf8("blackwood/answer/1"@);
    vstd::utf8::is_ascii_chars_encode_utf8("blackwood/hop/2"@);
    vstd::utf8::is_ascii_chars_encode_utf8("blackwood/consent/2"@);
    assert("blackwood/answer/1"@[10] as u8 == answer_domain()[10]);
    assert("blackwood/hop/2"@[10] as u8 == bargain::hop_domain()[10]);
    assert("blackwood/consent/2"@[10] as u8 == bargain::consent_domain()[10]);
    assert(reply(nonce, walk)[10] == answer_domain()[10]);
    assert(bargain::statement(above, key, cost, seq, consent)[10] == bargain::hop_domain()[10]);
    assert(bargain::agreement(parent, child, price)[10] == bargain::consent_domain()[10]);
}

/// An answer is vouched for over its tag, the search's number, the key of the
/// node answering and that node's signature under the walk; and it holds together
/// where the walk checks out and the node at its end has signed just that.
pub proof fn law_an_answer_is_vouched_for_by_its_subject<S: Signer>(found: FoundView)
    requires
        found.walk.len() > 0,
    ensures
        ({
            let last = found.walk[found.walk.len() - 1];
            let said = vstd::utf8::encode_utf8("blackwood/answer/1"@) + found.nonce@ + last.key@
                + last.signature@;
            &&& reply(found.nonce, found.walk) == said
            &&& vouched_for::<S>(found) <==> bargain::checks_out::<S>(found.walk) && S::accepts(
                last.key,
                said,
                found.vouch,
            )
        }),
{
}

} // verus!
