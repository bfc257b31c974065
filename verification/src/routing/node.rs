//! The per-node routing state machine.

use vstd::prelude::*;
use crate::cost;
use crate::cost::Cost;
use crate::key::PublicKey;
use crate::sorted_map;
use crate::sorted_map::{Dated, Ranked, SortedMap};
use crate::order::Standing;
use crate::routing::bargain;
use crate::routing::bargain::{distance, Announcement, Consent, Hop};
use crate::routing::message;
use crate::routing::message::{
    post, Envelope, EnvelopeView, Found, Lookup, Message, MessageView, Nonce, Packet, Traffic,
};
use crate::routing::model;
use crate::routing::model::{InfoView, NodeView, PeerView};
use crate::routing::reach;
use crate::signature::Signer;
use crate::summary;
use crate::summary::Summary;
use crate::text;
use crate::text::push_hex;

verus! {

/// Why a packet could not be handed to the network.
#[derive(Clone, Copy, PartialEq, Eq, Debug, Structural)]
pub enum SendError {
    /// Nothing here knows where the destination sits.
    ///
    /// A node holds the coordinates of its peers and of whoever it has already
    /// looked up; for anything else, ask the network with [`Node::lookup`] and
    /// try again once the answer has arrived.
    Unknown,
    /// The destination's position is known, but no linked peer stands closer to
    /// it than this node does, so the packet has nowhere to go but backwards.
    NoRoute,
}

impl SendError {
    /// What went wrong, in words.
    pub open spec fn words(self) -> Seq<char> {
        match self {
            SendError::Unknown => "destination has not been looked up"@,
            SendError::NoRoute => "no route to destination"@,
        }
    }

    /// What went wrong, in words.
    pub fn text(&self) -> (text: &'static str)
        ensures
            text@ == self.words(),
    {
        match self {
            SendError::Unknown => "destination has not been looked up",
            SendError::NoRoute => "no route to destination",
        }
    }
}

/// Something a peer said that no honest node could have said.
///
/// These are not disagreements. A node whose view is out of date says wrong
/// things constantly and that is what soft state is for; every fault here is
/// either a signature that does not check out or a message that no
/// implementation of this protocol would ever send. Nothing an honest peer
/// does under any timing, any topology change, or any amount of staleness
/// produces one, which is what makes acting on them safe.
#[derive(Clone, Copy, PartialEq, Eq, Debug, Structural)]
pub enum Fault {
    /// An announcement about somebody other than the peer that sent it.
    ///
    /// Announcements cross one link and describe their sender. Relaying one is
    /// not a thing this protocol does.
    AnnouncementAboutAnother,
    /// An announcement with a hop that was not signed by the node it names, or
    /// that sits on a consent that node never gave.
    ForgedAnnouncement,
    /// A consent that was not this peer agreeing to carry this node.
    MisdirectedConsent,
    /// An answer to a search that its own subject did not vouch for.
    ///
    /// Every node on an answer's way home checks it before passing it on, so
    /// an answer that does not hold together cannot have travelled: whoever
    /// handed this one over is where it was made up.
    ForgedAnswer,
}

impl Fault {
    /// What the peer did, in words.
    pub open spec fn words(self) -> Seq<char> {
        match self {
            Fault::AnnouncementAboutAnother => "announced a position for another node"@,
            Fault::ForgedAnnouncement => "announced a position nobody signed for"@,
            Fault::MisdirectedConsent => "gave a consent meant for somebody else"@,
            Fault::ForgedAnswer => "answered a search with something unsigned"@,
        }
    }

    /// What the peer did, in words.
    pub fn text(&self) -> (text: &'static str)
        ensures
            text@ == self.words(),
    {
        match self {
            Fault::AnnouncementAboutAnother => "announced a position for another node",
            Fault::ForgedAnnouncement => "announced a position nobody signed for",
            Fault::MisdirectedConsent => "gave a consent meant for somebody else",
            Fault::ForgedAnswer => "answered a search with something unsigned",
        }
    }
}

/// A peer dropped for committing a [`Fault`], and what it did.
///
/// The routing state is gone by the time a caller sees this: the node stops
/// forwarding to the peer, stops sitting below it, and stops summarising over
/// the link, all before returning. The link itself belongs to whoever brought
/// it up, which is why this is reported as well as acted on.
#[derive(Clone, Copy, PartialEq, Eq, Debug)]
pub struct Eviction {
    /// The peer that was dropped.
    pub peer: PublicKey,
    /// What it did.
    pub fault: Fault,
}

impl Eviction {
    /// Who was dropped and what for, in words.
    pub fn text(&self) -> (text: String)
        ensures
            text@ == text::hex(self.peer@) + " "@ + self.fault.words(),
    {
        let mut text = String::new();
        push_hex(&mut text, self.peer.as_bytes());
        assert(text@ =~= text::hex(self.peer@));
        text.append(" ");
        text.append(self.fault.text());
        text
    }
}

/// What became of an announcement handed to [`Node::remember`].
#[derive(Clone, Copy, PartialEq, Eq, Debug, Structural)]
enum Remembered {
    /// Taken up: it was news, and it checked out.
    Stored,
    /// Set aside, and nobody is at fault: this node is its author, or it is a
    /// repeat or an older copy of something already held.
    Ignored,
    /// Refused, and whoever sent it is at fault.
    Forged,
}

/// How long announcements live, and how often a node renews its own.
///
/// Both are durations in whatever unit the caller counts `now` in. Nothing here
/// interprets them or reads a clock; it only subtracts one instant it was
/// handed from another.
///
/// `refresh` must be comfortably smaller than `expiry`. A node's announcement
/// has to be reissued several times over before its peers would otherwise give
/// up on it.
///
/// `expiry` also bounds how long a looked-up position is kept. A conversation
/// that outlives it costs another lookup, which is the price of not keeping
/// what nobody is using.
#[derive(Clone, Copy, PartialEq, Eq, Debug, Structural)]
pub struct Timing {
    /// How long a node leaves its own announcement alone before reissuing it.
    pub refresh: u64,
    /// How long an announcement from elsewhere is kept without being reissued.
    pub expiry: u64,
}

impl Timing {
    /// Reissue every second and forget after three, for a caller counting in
    /// milliseconds.
    ///
    /// Named for the unit rather than for being usual, since the numbers mean
    /// nothing without it.
    pub fn milliseconds() -> (timing: Self)
        ensures
            timing == (Timing { refresh: 1_000, expiry: 3_000 }),
    {
        Timing { refresh: 1_000, expiry: 3_000 }
    }
}

/// An announcement about another node, and when this node last heard it.
///
/// The instant is local: it records when the announcement *arrived here*, not
/// when its author made it.
#[derive(Clone, Debug)]
pub struct Info {
    announcement: Announcement,
    heard_at: u64,
}

impl View for Info {
    type V = InfoView;

    closed spec fn view(&self) -> InfoView {
        InfoView { walk: self.announcement@, heard_at: self.heard_at }
    }
}

impl Dated for Info {
    open spec fn since(value: InfoView) -> u64 {
        value.heard_at
    }

    fn read_since(&self) -> (since: u64) {
        self.heard_at
    }
}

/// What a node keeps about one link.
///
/// A fixed amount, whatever the network beyond it looks like.
#[derive(Clone, Copy, Debug)]
pub struct Peer {
    /// What crossing the link costs.
    cost: Cost,
    /// What the peer says lies on its side of it.
    beyond: Summary,
    /// What this node last said lies on its own side, or `None` if it has said
    /// nothing because the link is not part of the tree. Keeping it is what
    /// lets a node speak only when something has changed, and so fall quiet.
    told: Option<Summary>,
    /// The peer's agreement that this node may sit below it, and at what
    /// price, or `None` while none has arrived.
    consent: Option<Consent>,
}

/// The bits a summary sets, where there is one.
pub open spec fn bits(summary: Option<Summary>) -> Option<Set<int>> {
    match summary {
        Some(summary) => Some(summary@),
        None => None,
    }
}

impl View for Peer {
    type V = PeerView;

    closed spec fn view(&self) -> PeerView {
        PeerView {
            cost: self.cost,
            beyond: self.beyond@,
            told: bits(self.told),
            consent: self.consent,
        }
    }
}

/// Whether two summaries, where there are any, say the same.
fn same_summary(a: &Option<Summary>, b: &Option<Summary>) -> (same: bool)
    ensures
        same == (bits(*a) == bits(*b)),
{
    match (a, b) {
        (Some(x), Some(y)) => {
            proof {
                summary::lemma_summary_is_its_bits(*x, *y);
            }
            *x == *y
        },
        (None, None) => true,
        _ => false,
    }
}

/// A search this node has asked and not yet had an answer to.
///
/// Keeping it is what tells an answer from an assertion.
#[derive(Clone, Copy, PartialEq, Eq, Debug)]
pub struct Pending {
    /// The node being looked for.
    pub target: PublicKey,
    /// When the search went out, so that unanswered ones do not accumulate.
    pub asked_at: u64,
}

impl View for Pending {
    type V = Pending;

    open spec fn view(&self) -> Pending {
        *self
    }
}

impl Dated for Pending {
    open spec fn since(value: Pending) -> u64 {
        value.asked_at
    }

    fn read_since(&self) -> (since: u64) {
        self.asked_at
    }
}

/// One node's complete routing state.
///
/// A node is a pure state machine: every method takes an event and returns the
/// messages the event produced. It never blocks, never touches the operating
/// system, and never reads a clock. Time enters only as the `now` argument the
/// caller passes in, an opaque count in the caller's own unit, which is only
/// ever subtracted from a later `now`.
///
/// What it holds is a fixed amount per link, its own position, and the
/// positions of the nodes it is currently talking to. Nothing here grows with
/// the size of the network.
///
/// The `S` is the cryptography it speaks with: a node signs everything it says
/// about itself and checks everything it is told about anybody else.
#[derive(Clone, Debug)]
pub struct Node<S> {
    /// What this node signs as. Its public half is `key`, kept beside it
    /// because routing asks for it constantly and asks the signer once.
    signer: S,
    key: PublicKey,
    timing: Timing,
    /// This node's own announcement. It is the sole author of this value.
    announcement: Announcement,
    /// When this node last issued the announcement above.
    announced_at: u64,
    /// The links this node holds.
    peers: SortedMap<PublicKey, Peer>,
    /// Where other nodes sit: every peer, since a peer announces itself across
    /// the link, and whoever else has been looked up and not yet forgotten.
    infos: SortedMap<PublicKey, Info>,
    /// The searches this node has outstanding, by the nonce each went out
    /// with. Expiry bounds it exactly as it bounds `infos`.
    pending: SortedMap<Nonce, Pending>,
    delivered: Vec<Packet>,
    evicted: Vec<Eviction>,
}

impl<S> View for Node<S> {
    type V = NodeView<S>;

    closed spec fn view(&self) -> NodeView<S> {
        NodeView {
            signer: self.signer,
            key: self.key,
            timing: self.timing,
            walk: self.announcement@,
            announced_at: self.announced_at,
            peers: self.peers@,
            infos: self.infos@,
            pending: self.pending@,
            delivered: self.delivered@.map_values(|packet: Packet| packet@),
            evicted: self.evicted@,
        }
    }
}

impl<S: Signer> Node<S> {
    /// Whether what a node holds is in order.
    pub closed spec fn in_order(&self) -> bool {
        self.peers.wf() && self.infos.wf() && self.pending.wf()
    }

    /// What holds of a node at every moment.
    pub open spec fn wf(&self) -> bool {
        self.in_order() && self@.wf()
    }

    /// Whatever a node holds can be gone through in order.
    pub proof fn lemma_is_listed(&self)
        requires
            self.wf(),
        ensures
            sorted_map::is_listed(self@.peers),
            sorted_map::is_listed(self@.infos),
            sorted_map::is_listed(self@.pending),
    {
        self.peers.lemma_is_listed();
        self.infos.lemma_is_listed();
        self.pending.lemma_is_listed();
    }

    /// Creates an isolated node, which necessarily believes it is its own root.
    ///
    /// Its address is whatever key `signer` speaks for, so an identity and the
    /// means of proving it arrive together and cannot come apart. `timing` says
    /// how long state lives, counted in the same unit as `now`.
    pub fn new(now: u64, signer: S, timing: Timing) -> (node: Self)
        ensures
            node.wf(),
            node@.stands_on_consent(),
            node@.is_at_rest(),
            node@ == model::isolated(now, signer, timing),
    {
        let key = signer.public_key();
        let announcement = Announcement::root_of(&signer, 0);
        let node = Node {
            signer,
            key,
            timing,
            announcement,
            announced_at: now,
            peers: SortedMap::new(),
            infos: SortedMap::new(),
            pending: SortedMap::new(),
            delivered: Vec::new(),
            evicted: Vec::new(),
        };
        assert(node@.delivered =~= Seq::empty());
        proof {
            reach::law_a_new_node_is_at_rest(now, signer, timing);
        }
        node
    }

    /// This node's address.
    pub fn key(&self) -> (key: PublicKey)
        ensures
            key == self@.key,
    {
        self.key
    }

    /// The root of the spanning tree this node currently believes in.
    pub fn root(&self) -> (root: PublicKey)
        ensures
            root == self@.walk[0].key,
    {
        self.announcement.root()
    }

    /// This node's parent, or `None` while it believes it is the root.
    pub fn parent(&self) -> (parent: Option<PublicKey>)
        ensures
            parent == bargain::parent(self@.walk),
    {
        self.announcement.parent()
    }

    /// The path from the root down to this node, priced link by link.
    pub fn path(&self) -> (path: &[Hop])
        ensures
            path@ == self@.walk,
    {
        self.announcement.path()
    }

    /// What the walk from this node up to the root costs.
    pub fn cost_to_root(&self) -> (cost: u64)
        ensures
            cost == bargain::cost_to_root(self@.walk),
    {
        self.announcement.cost_to_root()
    }

    /// How many links the walk from this node up to the root crosses.
    pub fn depth(&self) -> (depth: usize)
        ensures
            depth == self@.walk.len() - 1,
    {
        self.announcement.depth()
    }

    /// The peers this node holds a link to, and what each link costs, in order
    /// of their keys.
    pub fn peers(&self) -> (peers: Vec<(PublicKey, Cost)>)
        requires
            self.wf(),
        ensures
            peers@ == sorted_map::ascending(self@.peers).map_values(
                |entry: (PublicKey, PeerView)| (entry.0, entry.1.cost),
            ),
    {
        let ghost listed = sorted_map::ascending(self.peers@);
        let ghost read = |entry: (PublicKey, PeerView)| (entry.0, entry.1.cost);
        let mut peers: Vec<(PublicKey, Cost)> = Vec::new();
        let mut i: usize = 0;
        while i < self.peers.len()
            invariant
                self.wf(),
                listed == sorted_map::ascending(self.peers@),
                0 <= i <= listed.len(),
                read == (|entry: (PublicKey, PeerView)| (entry.0, entry.1.cost)),
                peers@ == listed.take(i as int).map_values(read),
            decreases listed.len() - i,
        {
            peers.push((self.peers.key_at(i), self.peers.value_at(i).cost));
            assert(peers@ =~= listed.take(i + 1).map_values(read));
            i += 1;
        }
        assert(listed.take(i as int) =~= listed);
        peers
    }

    /// What this node last told `peer` lies on its own side of their link.
    ///
    /// `None` when the link is not part of the spanning tree, since that is the
    /// only sort a summary crosses.
    pub fn summary_for(&self, peer: PublicKey) -> (told: Option<Summary>)
        requires
            self.wf(),
        ensures
            bits(told) == (if self@.peers.contains_key(peer) {
                self@.peers[peer].told
            } else {
                None
            }),
    {
        match self.peers.get(&peer) {
            Some(state) => state.told,
            None => None,
        }
    }

    /// The other nodes this one currently holds a position for, in order of
    /// their keys.
    ///
    /// Its peers, and whoever it has looked up and not yet forgotten. It is
    /// exactly the set of destinations [`send`](Self::send) can name without
    /// asking the network first, and expiry is what keeps it from growing.
    pub fn known(&self) -> (known: Vec<PublicKey>)
        requires
            self.wf(),
        ensures
            known@ == sorted_map::ascending(self@.infos).map_values(
                |entry: (PublicKey, InfoView)| entry.0,
            ),
    {
        let ghost listed = sorted_map::ascending(self.infos@);
        let ghost read = |entry: (PublicKey, InfoView)| entry.0;
        let mut known: Vec<PublicKey> = Vec::new();
        let mut i: usize = 0;
        while i < self.infos.len()
            invariant
                self.wf(),
                listed == sorted_map::ascending(self.infos@),
                0 <= i <= listed.len(),
                read == (|entry: (PublicKey, InfoView)| entry.0),
                known@ == listed.take(i as int).map_values(read),
            decreases listed.len() - i,
        {
            known.push(self.infos.key_at(i));
            assert(known@ =~= listed.take(i + 1).map_values(read));
            i += 1;
        }
        assert(listed.take(i as int) =~= listed);
        known
    }

    /// The consent this node holds from `peer`, if any has arrived.
    ///
    /// It is what lets this node sit below that peer, and the price in it is
    /// the one its own hop would carry.
    pub fn consent_from(&self, peer: PublicKey) -> (consent: Option<Consent>)
        requires
            self.wf(),
        ensures
            consent == (if self@.peers.contains_key(peer) {
                self@.peers[peer].consent
            } else {
                None
            }),
    {
        match self.peers.get(&peer) {
            Some(state) => state.consent,
            None => None,
        }
    }

    /// Takes the packets addressed to this node that have arrived so far.
    pub fn take_delivered(&mut self) -> (delivered: Vec<Packet>)
        requires
            old(self).wf(),
        ensures
            final(self).wf(),
            delivered@.map_values(|packet: Packet| packet@) == old(self)@.delivered,
            final(self)@ == (NodeView { delivered: Seq::empty(), ..old(self)@ }),
            old(self)@.stands_on_consent() ==> final(self)@.stands_on_consent(),
            old(self)@.is_at_rest() ==> final(self)@.is_at_rest(),
    {
        let mut taken: Vec<Packet> = Vec::new();
        std::mem::swap(&mut taken, &mut self.delivered);
        assert(self@.delivered =~= Seq::empty());
        proof {
            if old(self)@.is_at_rest() {
                reach::lemma_rest_carries_over(old(self)@, self@);
            }
        }
        taken
    }

    /// Takes the peers dropped for misbehaving since this was last asked.
    ///
    /// The routing state is already gone: a node evicts a peer the moment it
    /// catches it, in the same call that caught it. What is left for the caller
    /// is the link itself.
    pub fn take_evicted(&mut self) -> (evicted: Vec<Eviction>)
        requires
            old(self).wf(),
        ensures
            final(self).wf(),
            evicted@ == old(self)@.evicted,
            final(self)@ == (NodeView { evicted: Seq::empty(), ..old(self)@ }),
            old(self)@.stands_on_consent() ==> final(self)@.stands_on_consent(),
            old(self)@.is_at_rest() ==> final(self)@.is_at_rest(),
    {
        let mut taken: Vec<Eviction> = Vec::new();
        std::mem::swap(&mut taken, &mut self.evicted);
        assert(self@.evicted =~= Seq::empty());
        proof {
            if old(self)@.is_at_rest() {
                reach::lemma_rest_carries_over(old(self)@, self@);
            }
        }
        taken
    }

    /// What this node last heard about `key`, if it still holds it.
    fn info(&self, key: &PublicKey) -> (info: Option<&Announcement>)
        requires
            self.in_order(),
        ensures
            info is Some <==> self@.infos.contains_key(*key),
            info matches Some(announcement) ==> announcement@ == self@.infos[*key].walk,
    {
        match self.infos.get(key) {
            Some(info) => Some(&info.announcement),
            None => None,
        }
    }

    /// The sequence number to stamp the next announcement with.
    ///
    /// Saturating rather than wrapping: sequence numbers only mean anything
    /// while they increase.
    fn next_seq(&self) -> (seq: u64)
        ensures
            seq == self@.next_seq(),
    {
        self.announcement.seq().saturating_add(1)
    }

    /// Takes up `position` and tells every peer.
    fn announce(&mut self, now: u64, position: Announcement, out: &mut Vec<Envelope>)
        requires
            old(self).wf(),
            bargain::author(position@) == old(self)@.key,
            bargain::hops_signed::<S>(position@),
        ensures
            final(self).wf(),
            final(self)@ == old(self)@.announced(now, position@).node,
            message::posted(final(out)@) == message::posted(old(out)@) + old(self)@.announced(
                now,
                position@,
            ).out,
            old(self)@.stands_on_consent() && bargain::consents_given::<S>(position@)
                ==> final(self)@.stands_on_consent(),
    {
        let _ = position.path();
        self.announcement = position;
        self.announced_at = now;
        let ghost listed = sorted_map::ascending(self.peers@);
        let ghost said = MessageView::Announce(position@);
        let ghost address = |entry: (PublicKey, PeerView)|
            EnvelopeView { to: entry.0, message: said };
        let ghost before = message::posted(out@);
        let mut i: usize = 0;
        assert(message::posted(out@) =~= before + listed.take(0).map_values(address));
        while i < self.peers.len()
            invariant
                self.peers.wf(),
                self.announcement@ == position@,
                said == MessageView::Announce(position@),
                listed == sorted_map::ascending(self.peers@),
                address == (|entry: (PublicKey, PeerView)|
                    EnvelopeView { to: entry.0, message: said }),
                0 <= i <= listed.len(),
                message::posted(out@) == before + listed.take(i as int).map_values(address),
            decreases listed.len() - i,
        {
            let to = self.peers.key_at(i);
            post(out, to, Message::Announce(self.announcement.clone()));
            assert(listed.take(i + 1).map_values(address) =~= listed.take(i as int).map_values(
                address,
            ).push(address(listed[i as int])));
            assert(message::posted(out@) =~= before + listed.take(i + 1).map_values(address));
            i += 1;
        }
        assert(listed.take(i as int) =~= listed);
        assert(listed.map_values(address) =~= old(self)@.announced(now, position@).out);
    }

    /// The most preferred position available: below some peer, or self-rooted.
    ///
    /// Every candidate is signed as it is built, since a position this node
    /// cannot sign is not one it could take up, and every candidate below a
    /// peer needs that peer's consent for the same reason. A node with nowhere
    /// it is welcome is the root of its own tree, which is where every node
    /// starts.
    fn best_position(&self, seq: u64) -> (best: Announcement)
        requires
            self.wf(),
        ensures
            best@ == self@.best_position(seq),
            self@.is_best_position(best@, seq),
            bargain::author(best@) == self@.key,
            bargain::hops_signed::<S>(best@),
            self@.stands_on_consent() ==> bargain::consents_given::<S>(best@),
    {
        let ghost listed = sorted_map::ascending(self.peers@);
        let ghost alone = bargain::rooted(self.signer, seq);
        let mut best = Announcement::root_of(&self.signer, seq);
        let mut i: usize = 0;
        while i < self.peers.len()
            invariant
                self.wf(),
                listed == sorted_map::ascending(self.peers@),
                alone == bargain::rooted(self.signer, seq),
                0 <= i <= listed.len(),
                self@.on_offer(best@, seq),
                best@.len() > 0,
                best@ == alone || bargain::preferred(best@, alone),
                forall|j: int|
                    0 <= j < i ==> (self@.candidate((#[trigger] listed[j]).0, seq) matches Some(
                        other,
                    ) ==> other == best@ || bargain::preferred(best@, other)),
                bargain::author(best@) == self@.key,
                bargain::hops_signed::<S>(best@),
                self@.stands_on_consent() ==> bargain::consents_given::<S>(best@),
            decreases listed.len() - i,
        {
            let peer = self.peers.key_at(i);
            let state = self.peers.value_at(i);
            let ghost was = best@;
            if let Some(info) = self.info(&peer) {
                if let Some(consent) = &state.consent {
                    if let Some(candidate) = info.extend(&self.signer, consent, seq) {
                        assert(self@.candidate(peer, seq) == Some(candidate@));
                        let standing = candidate.preference(&best);
                        proof {
                            bargain::law_preference_never_ties(candidate@, was);
                        }
                        if standing == Standing::Before {
                            best = candidate;
                            proof {
                                if was != alone {
                                    bargain::law_preference_is_transitive(best@, was, alone);
                                }
                                assert forall|j: int| 0 <= j < i implies (self@.candidate(
                                    (#[trigger] listed[j]).0,
                                    seq,
                                ) matches Some(other) ==> other == best@ || bargain::preferred(
                                    best@,
                                    other,
                                )) by {
                                    if let Some(other) = self@.candidate(listed[j].0, seq) {
                                        if other != was {
                                            bargain::law_preference_is_transitive(
                                                best@,
                                                was,
                                                other,
                                            );
                                        }
                                    }
                                }
                            }
                        }
                    }
                }
            }
            i += 1;
        }
        proof {
            self.peers.lemma_is_listed();
            assert forall|other: Seq<Hop>| #[trigger] self@.on_offer(other, seq) implies other
                == best@ || bargain::preferred(best@, other) by {
                if other != alone {
                    let peer = choose|peer: PublicKey| #[trigger]
                        self@.candidate(peer, seq) == Some(other);
                    let j = sorted_map::lemma_mapped_key_is_listed(listed, peer);
                    assert(self@.candidate(listed[j].0, seq) == Some(other));
                }
            }
            assert(self@.is_best_position(best@, seq));
            self@.lemma_best_position_is_unique(best@, self@.best_position(seq), seq);
        }
        best
    }

    /// Reconsiders which peer to sit below, announcing the move if it changed.
    fn reparent(&mut self, now: u64, out: &mut Vec<Envelope>)
        requires
            old(self).wf(),
        ensures
            final(self).wf(),
            final(self)@ == old(self)@.reparented(now).node,
            message::posted(final(out)@) == message::posted(old(out)@) + old(self)@.reparented(
                now,
            ).out,
            old(self)@.stands_on_consent() ==> final(self)@.stands_on_consent(),
    {
        let best = self.best_position(self.next_seq());
        // Only a different walk counts as moving. Comparing the announcements
        // whole would count every restamp above as a move, and the network
        // would spend itself telling itself that nothing had happened.
        if !best.same_position(&self.announcement) {
            self.announce(now, best, out);
        } else {
            assert(message::posted(out@) =~= message::posted(old(out)@) + Seq::empty());
        }
    }

    /// Whether the link to `peer` is part of the spanning tree.
    ///
    /// Summaries cross tree links and no others. Over a tree the fixed point is
    /// exactly "what lies on the far side of this link", and a walk guided by
    /// them cannot come back on itself.
    fn is_tree_neighbour(&self, peer: PublicKey) -> (neighbour: bool)
        requires
            self.in_order(),
        ensures
            neighbour == self@.is_tree_neighbour(peer),
    {
        if let Some(parent) = self.parent() {
            if parent == peer {
                return true;
            }
        }
        if let Some(info) = self.info(&peer) {
            if let Some(parent) = info.parent() {
                return parent == self.key;
            }
        }
        false
    }

    /// What this node would tell `peer` lies on its own side of their link:
    /// itself, and whatever the other tree links say lies beyond them.
    ///
    /// Leaving out what `peer` said is the whole of it. Without that, each of
    /// the two would hand the other back the other's own subtree, and they
    /// would end up agreeing that everything was on both sides.
    fn summary_beyond(&self, peer: PublicKey) -> (summary: Summary)
        requires
            self.in_order(),
        ensures
            summary@ == self@.summary_beyond(peer),
    {
        let ghost listed = sorted_map::ascending(self.peers@);
        let mut summary = Summary::new();
        summary.insert(self.key);
        let mut i: usize = 0;
        while i < self.peers.len()
            invariant
                self.in_order(),
                listed == sorted_map::ascending(self.peers@),
                0 <= i <= listed.len(),
                forall|bit: int| #[trigger]
                    summary@.contains(bit) <==> (summary::bits_of(self.key).contains(bit) || exists|
                        j: int,
                    |
                        0 <= j < i && (#[trigger] listed[j]).0 != peer && self@.is_tree_neighbour(
                            listed[j].0,
                        ) && listed[j].1.beyond.contains(bit)),
            decreases listed.len() - i,
        {
            let other = self.peers.key_at(i);
            let state = self.peers.value_at(i);
            let ghost was = summary@;
            if other != peer && self.is_tree_neighbour(other) {
                summary.union(&state.beyond);
            }
            assert forall|bit: int| #[trigger] summary@.contains(bit) implies (summary::bits_of(
                self.key,
            ).contains(bit) || exists|j: int|
                0 <= j < i + 1 && (#[trigger] listed[j]).0 != peer && self@.is_tree_neighbour(
                    listed[j].0,
                ) && listed[j].1.beyond.contains(bit)) by {
                if !was.contains(bit) {
                    assert(listed[i as int].1.beyond.contains(bit));
                } else if !summary::bits_of(self.key).contains(bit) {
                    let j = choose|j: int|
                        0 <= j < i && (#[trigger] listed[j]).0 != peer && self@.is_tree_neighbour(
                            listed[j].0,
                        ) && listed[j].1.beyond.contains(bit);
                    assert(listed[j].0 != peer);
                }
            }
            assert forall|bit: int|
                (summary::bits_of(self.key).contains(bit) || exists|j: int|
                    0 <= j < i + 1 && (#[trigger] listed[j]).0 != peer && self@.is_tree_neighbour(
                        listed[j].0,
                    ) && listed[j].1.beyond.contains(bit)) implies #[trigger] summary@.contains(
                bit,
            ) by {
                if !was.contains(bit) {
                    let j = choose|j: int|
                        0 <= j < i + 1 && (#[trigger] listed[j]).0 != peer
                            && self@.is_tree_neighbour(listed[j].0)
                            && listed[j].1.beyond.contains(bit);
                    assert(j == i);
                }
            }
            i += 1;
        }
        proof {
            self.peers.lemma_is_listed();
            assert forall|bit: int| #[trigger]
                summary@.contains(bit) <==> self@.summary_beyond(peer).contains(bit) by {
                if summary@.contains(bit) && !summary::bits_of(self.key).contains(bit) {
                    let j = choose|j: int|
                        0 <= j < i && (#[trigger] listed[j]).0 != peer && self@.is_tree_neighbour(
                            listed[j].0,
                        ) && listed[j].1.beyond.contains(bit);
                    sorted_map::lemma_entry_is_mapped(listed, j);
                    assert(self@.peers.contains_key(listed[j].0));
                }
                if self@.some_other_link_sets(peer, bit) {
                    let other = choose|other: PublicKey|
                        other != peer && #[trigger] self@.peers.contains_key(other)
                            && self@.is_tree_neighbour(other)
                            && self@.peers[other].beyond.contains(bit);
                    let j = sorted_map::lemma_mapped_key_is_listed(listed, other);
                    assert(listed[j].0 != peer);
                }
            }
            assert(summary@ =~= self@.summary_beyond(peer));
        }
        summary
    }

    /// What this node wants each peer to have been told, in order of their
    /// keys.
    fn all_wanted(&self) -> (wanted: Vec<Option<Summary>>)
        requires
            self.in_order(),
        ensures
            wanted@.len() == sorted_map::ascending(self@.peers).len(),
            forall|j: int|
                0 <= j < wanted@.len() ==> bits(#[trigger] wanted@[j]) == self@.wanted(
                    sorted_map::ascending(self@.peers)[j].0,
                ),
    {
        let ghost listed = sorted_map::ascending(self.peers@);
        let mut wanted: Vec<Option<Summary>> = Vec::new();
        let mut i: usize = 0;
        while i < self.peers.len()
            invariant
                self.in_order(),
                listed == sorted_map::ascending(self.peers@),
                0 <= i <= listed.len(),
                wanted@.len() == i,
                forall|j: int|
                    0 <= j < i ==> bits(#[trigger] wanted@[j]) == self@.wanted(listed[j].0),
            decreases listed.len() - i,
        {
            let peer = self.peers.key_at(i);
            if self.is_tree_neighbour(peer) {
                wanted.push(Some(self.summary_beyond(peer)));
            } else {
                wanted.push(None);
            }
            i += 1;
        }
        wanted
    }

    /// Works out what to say over each tree link, and says it where it changed.
    fn resummarise(&mut self, out: &mut Vec<Envelope>)
        requires
            old(self).wf(),
        ensures
            final(self).wf(),
            final(self)@ == old(self)@.resummarised().node,
            message::posted(final(out)@) == message::posted(old(out)@)
                + old(self)@.resummarised().out,
            old(self)@.stands_on_consent() ==> final(self)@.stands_on_consent(),
    {
        // Every link is decided before any is written back, because deciding
        // one means reading all the others.
        let wanted = self.all_wanted();
        let ghost start = self@;
        let ghost listed = sorted_map::ascending(start.peers);
        let ghost owed = |entry: (PublicKey, PeerView)| start.is_owed(entry);
        let ghost address = |entry: (PublicKey, PeerView)|
            EnvelopeView {
                to: entry.0,
                message: MessageView::Summary(start.summary_beyond(entry.0)),
            };
        let ghost retold = |peer: PublicKey, state: PeerView|
            PeerView { told: start.wanted(peer), ..state };
        let ghost before = message::posted(out@);
        let mut i: usize = 0;
        proof {
            assert(listed.take(0) =~= Seq::empty());
            reveal(Seq::filter);
            assert(message::posted(out@) =~= before + listed.take(0).filter(owed).map_values(
                address,
            ));
        }
        while i < wanted.len()
            invariant
                self.in_order(),
                listed == sorted_map::ascending(start.peers),
                owed == (|entry: (PublicKey, PeerView)| start.is_owed(entry)),
                address == (|entry: (PublicKey, PeerView)|
                    EnvelopeView {
                        to: entry.0,
                        message: MessageView::Summary(start.summary_beyond(entry.0)),
                    }),
                retold == (|peer: PublicKey, state: PeerView|
                    PeerView { told: start.wanted(peer), ..state }),
                wanted@.len() == listed.len(),
                forall|j: int|
                    0 <= j < wanted@.len() ==> bits(#[trigger] wanted@[j]) == start.wanted(
                        listed[j].0,
                    ),
                0 <= i <= listed.len(),
                sorted_map::ascending(self.peers@).len() == listed.len(),
                forall|j: int|
                    0 <= j < i ==> (#[trigger] sorted_map::ascending(self.peers@)[j]) == (
                        listed[j].0,
                        retold(listed[j].0, listed[j].1),
                    ),
                forall|j: int|
                    i <= j < listed.len() ==> (#[trigger] sorted_map::ascending(self.peers@)[j])
                        == listed[j],
                self@ == (NodeView { peers: self.peers@, ..start }),
                message::posted(out@) == before + listed.take(i as int).filter(owed).map_values(
                    address,
                ),
            decreases listed.len() - i,
        {
            let peer = self.peers.key_at(i);
            let state = *self.peers.value_at(i);
            let ghost entry = listed[i as int];
            assert(sorted_map::ascending(self.peers@)[i as int] == entry);
            proof {
                sorted_map::lemma_pick_one_more(listed, i as int, owed);
            }
            if !same_summary(&state.told, &wanted[i]) {
                let told = wanted[i];
                self.peers.set_value_at(i, Peer { told, ..state });
                // A link that has just left the tree is told nothing rather
                // than told it holds nothing: the far end works out the same
                // thing from its own side and stops summarising back.
                if let Some(summary) = told {
                    post(out, peer, Message::Summary(summary));
                    proof {
                        let picked = listed.take(i as int).filter(owed);
                        assert(owed(entry));
                        assert(picked.push(entry).map_values(address) =~= picked.map_values(
                            address,
                        ).push(address(entry)));
                        assert(message::posted(out@) =~= before + listed.take(i + 1).filter(
                            owed,
                        ).map_values(address));
                    }
                } else {
                    assert(!owed(entry));
                }
            } else {
                assert(!owed(entry));
                assert(entry.1 == retold(entry.0, entry.1));
            }
            i += 1;
        }
        proof {
            assert(listed.take(i as int) =~= listed);
            old(self).peers.lemma_is_listed();
            self.peers.lemma_is_listed();
            sorted_map::lemma_values_in_place(
                listed,
                sorted_map::ascending(self.peers@),
                retold,
            );
            assert(self@.peers =~= old(self)@.resummarised().node.peers);
            assert(message::posted(out@) =~= before + old(self)@.resummarised().out);
        }
    }

    /// Reconsiders where this node sits and what lies on its side of each tree
    /// link, saying whatever changed.
    fn settle(&mut self, now: u64, out: &mut Vec<Envelope>)
        requires
            old(self).wf(),
        ensures
            final(self).wf(),
            final(self)@ == old(self)@.settled(now).node,
            message::posted(final(out)@) == message::posted(old(out)@) + old(self)@.settled(
                now,
            ).out,
            old(self)@.stands_on_consent() ==> final(self)@.stands_on_consent(),
            final(self)@.is_at_rest(),
    {
        self.reparent(now, out);
        self.resummarise(out);
        assert(message::posted(out@) =~= message::posted(old(out)@) + old(self)@.settled(now).out);
        proof {
            old(self).lemma_is_listed();
            reach::law_settling_puts_a_node_at_rest(old(self)@, now);
        }
    }

    /// Moves this node's clock to `now`, expiring and reissuing state.
    ///
    /// Three things happen, in that order. Positions not heard again within
    /// [`Timing::expiry`] are forgotten, which is how a node that vanished
    /// stops being remembered as a route to nowhere. Losing them may have cost
    /// this node its parent or changed what it can reach, so it reconsiders
    /// both. Finally, if its own announcement has stood for [`Timing::refresh`]
    /// without being reissued, it reissues it, which is what stops its peers
    /// forgetting *it*.
    ///
    /// This is the only method that involves the passage of time, and a node
    /// that is never ticked behaves exactly as though it did not exist.
    pub fn tick(&mut self, now: u64) -> (out: Vec<Envelope>)
        requires
            old(self).wf(),
        ensures
            final(self).wf(),
            final(self)@ == old(self)@.ticked(now).node,
            message::posted(out@) == old(self)@.ticked(now).out,
            old(self)@.stands_on_consent() ==> final(self)@.stands_on_consent(),
            final(self)@.is_at_rest(),
    {
        let mut out: Vec<Envelope> = Vec::new();
        let expiry = self.timing.expiry;
        self.infos.forget_stale(now, expiry);
        // A search nobody answered is forgotten on the same schedule. Its
        // answer arriving afterwards is not an answer any more, which costs
        // the asker a question it was free to ask again.
        self.pending.forget_stale(now, expiry);
        let ghost kept = self@;
        assert forall|nonce: Nonce| #[trigger] kept.pending.contains_key(nonce) implies kept.pending[nonce].target
            != kept.key by {
            assert(old(self)@.pending.contains_key(nonce));
        }
        self.settle(now, &mut out);
        let ghost settled = self@;
        assert(message::posted(out@) =~= kept.settled(now).out);
        if now.saturating_sub(self.announced_at) >= self.timing.refresh {
            // The same walk over again, freshly stamped and signed. What stops
            // a peer forgetting this node is that the number climbed, not that
            // anything moved. The signer is this node's own, so the restamp
            // cannot be refused.
            if let Some(reissued) = self.announcement.with_seq(&self.signer, self.next_seq()) {
                self.announce(now, reissued, &mut out);
            }
        }
        assert(message::posted(out@) =~= old(self)@.ticked(now).out);
        proof {
            old(self).lemma_is_listed();
            reach::lemma_ticking_rests(old(self)@, now);
        }
        out
    }

    /// Brings up a link to `peer`, costing `cost` to cross.
    ///
    /// The peer is told where this node sits and given leave to sit below it
    /// at `cost`, and nothing else: that is all it needs in order to decide
    /// whether to, and it learns the rest of the network the way anybody does,
    /// by asking.
    ///
    /// Calling this for a link that is already up re-prices it instead, which
    /// is how a caller that keeps measuring its links reports what it found.
    pub fn add_peer(&mut self, now: u64, peer: PublicKey, cost: Cost) -> (out: Vec<Envelope>)
        requires
            old(self).wf(),
        ensures
            final(self).wf(),
            final(self)@ == old(self)@.peer_added(now, peer, cost).node,
            message::posted(out@) == old(self)@.peer_added(now, peer, cost).out,
            old(self)@.stands_on_consent() ==> final(self)@.stands_on_consent(),
            old(self)@.is_at_rest() ==> final(self)@.is_at_rest(),
    {
        let mut out: Vec<Envelope> = Vec::new();
        assert(message::posted(out@) =~= Seq::empty());
        if peer == self.key {
            return out;
        }
        let ghost mut greeting = Seq::<EnvelopeView>::empty();
        match self.peers.get(&peer) {
            Some(state) => {
                let state = *state;
                proof {
                    cost::lemma_cost_is_its_value(state.cost, cost);
                }
                if state.cost.get() == cost.get() {
                    return out;
                }
                self.peers.insert(peer, Peer { cost, ..state });
            },
            None => {
                self.peers.insert(
                    peer,
                    Peer { cost, beyond: Summary::new(), told: None, consent: None },
                );
                post(&mut out, peer, Message::Announce(self.announcement.clone()));
                proof {
                    greeting = greeting.push(
                        EnvelopeView { to: peer, message: MessageView::Announce(self@.walk) },
                    );
                }
            },
        }
        assert(message::posted(out@) =~= greeting);
        // Either way the peer is owed this node's agreement to carry it, at
        // the price this node has just put on the link. A re-priced link is a
        // different bargain, so the old consent is withdrawn by being
        // replaced.
        post(&mut out, peer, Message::Consent(Consent::issue(&self.signer, peer, cost)));
        let ghost linked = self@;
        assert(linked.wf());
        self.settle(now, &mut out);
        proof {
            let offered = greeting.push(old(self)@.offer(peer, cost));
            assert(message::posted(out@) =~= offered + linked.settled(now).out);
            if old(self)@.peers.contains_key(peer) {
                assert(offered =~= seq![old(self)@.offer(peer, cost)]);
            } else {
                assert(offered =~= seq![
                    EnvelopeView { to: peer, message: MessageView::Announce(old(self)@.walk) },
                    old(self)@.offer(peer, cost),
                ]);
            }
        }
        out
    }

    /// Tears down the link to `peer`.
    ///
    /// What this node learned *through* `peer` is not withdrawn here, because
    /// it cannot tell which of those positions were only reachable that way.
    /// They are left to expire on their own, which is what [`tick`](Self::tick)
    /// is for. Until they do, routing towards a departed node fails by dropping
    /// the packet at the dead end.
    pub fn remove_peer(&mut self, now: u64, peer: PublicKey) -> (out: Vec<Envelope>)
        requires
            old(self).wf(),
        ensures
            final(self).wf(),
            final(self)@ == old(self)@.peer_removed(now, peer).node,
            message::posted(out@) == old(self)@.peer_removed(now, peer).out,
            old(self)@.stands_on_consent() ==> final(self)@.stands_on_consent(),
            old(self)@.is_at_rest() ==> final(self)@.is_at_rest(),
    {
        let mut out: Vec<Envelope> = Vec::new();
        assert(message::posted(out@) =~= Seq::empty());
        if self.peers.remove(&peer) {
            assert(self@.pending == old(self)@.pending);
            self.settle(now, &mut out);
        } else {
            assert(self@.peers =~= old(self)@.peers);
        }
        assert(message::posted(out@) =~= old(self)@.peer_removed(now, peer).out);
        out
    }

    /// Drops a peer that has said something no honest node could say, and
    /// notes it for the caller to find with [`take_evicted`](Self::take_evicted).
    ///
    /// Everything the peer was holding up goes with it: this node stops
    /// forwarding to it, stops sitting below it if it was the parent, and
    /// stops summarising over the link. What it learned *through* the peer is
    /// left to expire, exactly as [`remove_peer`](Self::remove_peer) leaves it.
    fn evict(&mut self, now: u64, peer: PublicKey, fault: Fault, out: &mut Vec<Envelope>)
        requires
            old(self).wf(),
        ensures
            final(self).wf(),
            final(self)@ == old(self)@.peer_evicted(now, peer, fault).node,
            message::posted(final(out)@) == message::posted(old(out)@) + old(self)@.peer_evicted(
                now,
                peer,
                fault,
            ).out,
            old(self)@.stands_on_consent() ==> final(self)@.stands_on_consent(),
            old(self)@.is_at_rest() ==> final(self)@.is_at_rest(),
    {
        if !self.peers.remove(&peer) {
            assert(self@.peers =~= old(self)@.peers);
            assert(message::posted(out@) =~= message::posted(old(out)@) + Seq::empty());
            return;
        }
        self.evicted.push(Eviction { peer, fault });
        assert(self@.pending == old(self)@.pending);
        self.settle(now, out);
    }

    /// Whether an announcement is worth looking at twice: not this node's own,
    /// and not something already held in a form that supersedes it.
    ///
    /// Only news restarts the expiry clock. A repeat of a position already held
    /// is not evidence its author is still there, and treating it as such would
    /// let an echo keep a dead node alive.
    fn is_news(&self, announcement: &Announcement) -> (news: bool)
        requires
            self.in_order(),
        ensures
            news == self@.is_news(announcement@),
    {
        // A node is the only authority on where it sits, so anything arriving
        // about this one is at best a stale echo of its own.
        if announcement.author() == self.key {
            return false;
        }
        match self.info(&announcement.author()) {
            Some(known) => announcement.supersedes(known),
            None => true,
        }
    }

    /// Takes note of where another node says it sits, saying what became of it.
    ///
    /// Everything that enters here came off a link, so this is where a forgery
    /// stops: each hop has to be signed by the node it names and agreed to by
    /// the node above it. Cheaper questions are asked first, but nothing is
    /// kept or acted on until this one is answered.
    fn remember(&mut self, now: u64, announcement: Announcement) -> (remembered: Remembered)
        requires
            old(self).wf(),
        ensures
            final(self).wf(),
            remembered == (if !old(self)@.is_news(announcement@) {
                Remembered::Ignored
            } else if !bargain::checks_out::<S>(announcement@) {
                Remembered::Forged
            } else {
                Remembered::Stored
            }),
            final(self)@ == (if remembered == Remembered::Stored {
                old(self)@.keeping(now, announcement@)
            } else {
                old(self)@
            }),
    {
        if !self.is_news(&announcement) {
            return Remembered::Ignored;
        }
        if !announcement.verify::<S>() {
            return Remembered::Forged;
        }
        self.keep(now, announcement);
        Remembered::Stored
    }

    /// The same, for an announcement whose signatures the caller has already
    /// checked, which the answer to a search has, on every hop of its way
    /// home. Reports whether it was news.
    fn remember_checked(&mut self, now: u64, announcement: Announcement) -> (news: bool)
        requires
            old(self).wf(),
            bargain::checks_out::<S>(announcement@),
        ensures
            final(self).wf(),
            news == old(self)@.is_news(announcement@),
            final(self)@ == (if news {
                old(self)@.keeping(now, announcement@)
            } else {
                old(self)@
            }),
    {
        let news = self.is_news(&announcement);
        if news {
            self.keep(now, announcement);
        }
        news
    }

    /// Files an announcement that has passed everything.
    fn keep(&mut self, now: u64, announcement: Announcement)
        requires
            old(self).wf(),
            bargain::checks_out::<S>(announcement@),
            bargain::author(announcement@) != old(self)@.key,
        ensures
            final(self).wf(),
            final(self)@ == old(self)@.keeping(now, announcement@),
    {
        let author = announcement.author();
        self.infos.insert(author, Info { announcement, heard_at: now });
        assert(self@.pending == old(self)@.pending);
    }

    fn receive_announce(
        &mut self,
        now: u64,
        from: PublicKey,
        announcement: Announcement,
        out: &mut Vec<Envelope>,
    )
        requires
            old(self).wf(),
        ensures
            final(self).wf(),
            final(self)@ == old(self)@.told_position(now, from, announcement@).node,
            message::posted(final(out)@) == message::posted(old(out)@) + old(self)@.told_position(
                now,
                from,
                announcement@,
            ).out,
            old(self)@.stands_on_consent() ==> final(self)@.stands_on_consent(),
            old(self)@.is_at_rest() ==> final(self)@.is_at_rest(),
    {
        // An announcement crosses exactly one link and describes whoever sent
        // it. Nothing relays one, so a node hears about its peers and about
        // nobody else, which is the whole of what keeps this state constant,
        // and a peer sending one about anybody else is not a peer running this
        // protocol.
        if announcement.author() != from {
            self.evict(now, from, Fault::AnnouncementAboutAnother, out);
            return;
        }
        match self.remember(now, announcement) {
            Remembered::Stored => self.settle(now, out),
            Remembered::Ignored => {
                assert(message::posted(out@) =~= message::posted(old(out)@) + Seq::empty());
            },
            Remembered::Forged => self.evict(now, from, Fault::ForgedAnnouncement, out),
        }
    }

    fn receive_consent(
        &mut self,
        now: u64,
        from: PublicKey,
        consent: Consent,
        out: &mut Vec<Envelope>,
    )
        requires
            old(self).wf(),
            old(self)@.peers.contains_key(from),
        ensures
            final(self).wf(),
            final(self)@ == old(self)@.told_consent(now, from, consent).node,
            message::posted(final(out)@) == message::posted(old(out)@) + old(self)@.told_consent(
                now,
                from,
                consent,
            ).out,
            old(self)@.stands_on_consent() && consent.holds::<S>()
                ==> final(self)@.stands_on_consent(),
            old(self)@.is_at_rest() ==> final(self)@.is_at_rest(),
    {
        // A consent names both ends, so one meant for somebody else, or coming
        // from somebody other than the node that signed it, is not a thing an
        // honest peer would hand over.
        if consent.parent() != from || consent.child() != self.key {
            self.evict(now, from, Fault::MisdirectedConsent, out);
            return;
        }
        let state = match self.peers.get(&from) {
            Some(state) => *state,
            None => {
                return;
            },
        };
        // Only a change is worth working through, the same as a summary: a
        // peer reissuing the bargain it already offered ends here.
        if let Some(held) = &state.consent {
            if held.same_as(&consent) {
                assert(message::posted(out@) =~= message::posted(old(out)@) + Seq::empty());
                return;
            }
        }
        self.peers.insert(from, Peer { consent: Some(consent), ..state });
        let ghost agreed = self@;
        assert(agreed.wf());
        self.settle(now, out);
    }

    fn receive_summary(
        &mut self,
        now: u64,
        from: PublicKey,
        summary: Summary,
        out: &mut Vec<Envelope>,
    )
        requires
            old(self).wf(),
            old(self)@.peers.contains_key(from),
        ensures
            final(self).wf(),
            final(self)@ == old(self)@.told_summary(now, from, summary@).node,
            message::posted(final(out)@) == message::posted(old(out)@) + old(self)@.told_summary(
                now,
                from,
                summary@,
            ).out,
            old(self)@.stands_on_consent() ==> final(self)@.stands_on_consent(),
            old(self)@.is_at_rest() ==> final(self)@.is_at_rest(),
    {
        let state = match self.peers.get(&from) {
            Some(state) => *state,
            None => {
                return;
            },
        };
        // Only a change is worth working through, which is what brings the
        // exchange to rest: a summary that says nothing new ends here.
        proof {
            summary::lemma_summary_is_its_bits(state.beyond, summary);
        }
        if state.beyond == summary {
            assert(message::posted(out@) =~= message::posted(old(out)@) + Seq::empty());
            return;
        }
        self.peers.insert(from, Peer { beyond: summary, ..state });
        let ghost informed = self@;
        assert(informed.wf());
        self.settle(now, out);
    }

    /// Passes a search on to every tree neighbour that might hold its target.
    fn search(&self, lookup: &Lookup, out: &mut Vec<Envelope>)
        requires
            self.in_order(),
        ensures
            message::posted(final(out)@) == message::posted(old(out)@) + self@.searched(lookup@),
    {
        let ghost listed = sorted_map::ascending(self.peers@);
        let ghost passes = |entry: (PublicKey, PeerView)| self@.passes_over(lookup@, entry);
        let ghost address = |entry: (PublicKey, PeerView)|
            EnvelopeView { to: entry.0, message: MessageView::Lookup(lookup@) };
        let ghost before = message::posted(out@);
        let mut i: usize = 0;
        proof {
            assert(listed.take(0) =~= Seq::empty());
            reveal(Seq::filter);
            assert(message::posted(out@) =~= before + listed.take(0).filter(passes).map_values(
                address,
            ));
        }
        while i < self.peers.len()
            invariant
                self.in_order(),
                listed == sorted_map::ascending(self.peers@),
                passes == (|entry: (PublicKey, PeerView)| self@.passes_over(lookup@, entry)),
                address == (|entry: (PublicKey, PeerView)|
                    EnvelopeView { to: entry.0, message: MessageView::Lookup(lookup@) }),
                0 <= i <= listed.len(),
                message::posted(out@) == before + listed.take(i as int).filter(passes).map_values(
                    address,
                ),
            decreases listed.len() - i,
        {
            let peer = self.peers.key_at(i);
            let state = self.peers.value_at(i);
            let ghost entry = listed[i as int];
            proof {
                sorted_map::lemma_pick_one_more(listed, i as int, passes);
            }
            if !is_on(&lookup.trail, peer) && self.is_tree_neighbour(peer)
                && state.beyond.contains(lookup.target) {
                post(out, peer, Message::Lookup(lookup.clone()));
                proof {
                    let picked = listed.take(i as int).filter(passes);
                    assert(passes(entry));
                    assert(picked.push(entry).map_values(address) =~= picked.map_values(
                        address,
                    ).push(address(entry)));
                    assert(message::posted(out@) =~= before + listed.take(i + 1).filter(
                        passes,
                    ).map_values(address));
                }
            } else {
                assert(!passes(entry));
            }
            i += 1;
        }
        assert(listed.take(i as int) =~= listed);
        assert(message::posted(out@) =~= before + self@.searched(lookup@));
    }

    fn receive_lookup(&mut self, from: PublicKey, lookup: Lookup, out: &mut Vec<Envelope>)
        requires
            old(self).wf(),
        ensures
            *final(self) == *old(self),
            final(self)@ == old(self)@.asked(from, lookup@).node,
            message::posted(final(out)@) == message::posted(old(out)@) + old(self)@.asked(
                from,
                lookup@,
            ).out,
    {
        let mut lookup = lookup;
        // A search that has already been here has gone round in a circle, which
        // a half-settled tree can arrange. Refusing it is the rule that keeps
        // the tree acyclic, applied to a walk rather than to a path.
        if is_on(&lookup.trail, self.key) {
            assert(message::posted(out@) =~= message::posted(old(out)@) + Seq::empty());
            return;
        }
        if lookup.target == self.key {
            // Signing the search's own nonce is what makes this evidence
            // rather than a claim: the walk below is as old as its signatures
            // allow, but nobody could have produced this part in advance.
            let found = Found::answer(
                &self.signer,
                self.announcement.clone(),
                lookup.nonce,
                lookup.trail,
            );
            post(out, from, Message::Found(found));
            assert(message::posted(out@) =~= message::posted(old(out)@) + self@.asked(
                from,
                lookup@,
            ).out);
            return;
        }
        lookup.trail.push(self.key);
        self.search(&lookup, out);
    }

    fn receive_found(
        &mut self,
        now: u64,
        from: PublicKey,
        found: Found,
        out: &mut Vec<Envelope>,
    )
        requires
            old(self).wf(),
        ensures
            final(self).wf(),
            final(self)@ == old(self)@.told_found(now, from, found@).node,
            message::posted(final(out)@) == message::posted(old(out)@) + old(self)@.told_found(
                now,
                from,
                found@,
            ).out,
            old(self)@.stands_on_consent() ==> final(self)@.stands_on_consent(),
            old(self)@.is_at_rest() ==> final(self)@.is_at_rest(),
    {
        assert(message::posted(out@) =~= message::posted(old(out)@) + Seq::empty());
        let ghost arrived = found@;
        let mut found = found;
        // The trail is the way home and this node should be standing on the end
        // of it. Anything else is the answer to a search that never came
        // through here, and this node is not on its way anywhere.
        match found.trail.pop() {
            Some(last) => {
                if last != self.key {
                    return;
                }
            },
            None => {
                return;
            },
        }
        assert(found.trail@ =~= arrived.trail.drop_last());
        if found.trail.len() > 0 {
            let back = found.trail[found.trail.len() - 1];
            if !self.peers.contains_key(&back) {
                // The link the search came in over has gone down since.
                // Dropping the answer costs the asker a retry it was free to
                // make anyway.
                return;
            }
            // Somebody else asked, and this node is a step on the way back.
            // Nothing is passed on unchecked, which is what makes the check
            // worth acting on: one that does not hold together cannot have
            // travelled, and whoever handed it over made it up.
            if !found.verify::<S>() {
                self.evict(now, from, Fault::ForgedAnswer, out);
                return;
            }
            post(out, back, Message::Found(found));
            assert(message::posted(out@) =~= message::posted(old(out)@) + old(self)@.told_found(
                now,
                from,
                arrived,
            ).out);
            return;
        }
        // The trail is spent, so this node is the one that asked, if it asked
        // at all. An answer to a question nobody here put, or to a different
        // question than the nonce says, is not an answer, and recognising that
        // is what stops a peer pushing positions into this node unbidden.
        match self.pending.get(&found.nonce) {
            Some(pending) => {
                if pending.target != found.announcement.author() {
                    return;
                }
            },
            None => {
                return;
            },
        }
        if !found.verify::<S>() {
            self.evict(now, from, Fault::ForgedAnswer, out);
            return;
        }
        // Answered, so the question is closed. Asking again means a new nonce,
        // which is what stops one answer serving twice.
        let _ = self.pending.remove(&found.nonce);
        proof {
            if old(self)@.is_at_rest() {
                reach::lemma_rest_carries_over(old(self)@, self@);
            }
        }
        if self.remember_checked(now, found.announcement) {
            self.settle(now, out);
        }
    }

    /// The peer to hand a packet bound for `dst_path` to, if any is worth
    /// handing it to.
    ///
    /// Only a peer strictly closer to the destination than this node qualifies.
    /// Requiring strict progress is what makes forwarding loop-free without any
    /// per-packet state: distance to the destination falls at every hop and
    /// cannot fall below zero, so a packet either arrives or is dropped.
    ///
    /// Among the peers that qualify, the cheapest wins: the link's own cost
    /// plus the walk left after crossing it. That sum is exactly what the
    /// packet pays if it follows the tree from there, so it is an upper bound
    /// on the real price, and weighing it is what stops a node posting a packet
    /// down an expensive shortcut to save one cheap hop.
    fn next_hop(&self, dst_path: &[Hop]) -> (hop: Option<PublicKey>)
        requires
            self.wf(),
        ensures
            hop == self@.next_hop(dst_path@),
    {
        let here = distance(self.announcement.path(), dst_path);
        let ghost dst = dst_path@;
        let ghost listed = sorted_map::ascending(self.peers@);
        let mut best: Option<(u64, PublicKey)> = None;
        let mut i: usize = 0;
        proof {
            self.peers.lemma_is_listed();
        }
        while i < self.peers.len()
            invariant
                self.wf(),
                dst == dst_path@,
                here == bargain::separation(self@.walk, dst),
                listed == sorted_map::ascending(self.peers@),
                sorted_map::sorted(listed),
                0 <= i <= listed.len(),
                match best {
                    None => forall|j: int|
                        0 <= j < i ==> !self@.is_closer((#[trigger] listed[j]).0, dst),
                    Some((total, peer)) => {
                        &&& self@.is_closer(peer, dst)
                        &&& total == self@.price_through(peer, dst)
                        &&& forall|j: int|
                            i <= j < listed.len() ==> peer.rank() < (#[trigger] listed[j]).0.rank()
                        &&& forall|j: int|
                            0 <= j < i && self@.is_closer((#[trigger] listed[j]).0, dst) ==> {
                                ||| total < self@.price_through(listed[j].0, dst)
                                ||| total == self@.price_through(listed[j].0, dst) && peer.rank()
                                    <= listed[j].0.rank()
                            }
                    },
                },
            decreases listed.len() - i,
        {
            let peer = self.peers.key_at(i);
            let state = self.peers.value_at(i);
            if let Some(info) = self.info(&peer) {
                let remaining = distance(info.path(), dst_path);
                if remaining < here {
                    let total = state.cost.get().saturating_add(remaining);
                    assert(self@.is_closer(peer, dst));
                    assert(total == self@.price_through(peer, dst));
                    let better = match best {
                        Some((cheapest, _)) => total < cheapest,
                        None => true,
                    };
                    if better {
                        best = Some((total, peer));
                    }
                }
            }
            assert forall|j: int| i < j < listed.len() implies listed[i as int].0.rank() < (
            #[trigger] listed[j]).0.rank() by {}
            i += 1;
        }
        match best {
            Some((_, peer)) => {
                proof {
                    assert forall|other: PublicKey| #[trigger] self@.is_closer(other, dst) implies {
                        ||| self@.price_through(peer, dst) < self@.price_through(other, dst)
                        ||| self@.price_through(peer, dst) == self@.price_through(other, dst)
                            && peer.rank() <= other.rank()
                    } by {
                        let j = sorted_map::lemma_mapped_key_is_listed(listed, other);
                        assert(self@.is_closer(listed[j].0, dst));
                    }
                    assert(self@.is_next_hop(peer, dst));
                    self@.lemma_next_hop_is_unique(peer, self@.next_hop(dst)->0, dst);
                }
                Some(peer)
            },
            None => {
                proof {
                    if exists|peer: PublicKey| self@.is_next_hop(peer, dst) {
                        let peer = choose|peer: PublicKey| self@.is_next_hop(peer, dst);
                        let j = sorted_map::lemma_mapped_key_is_listed(listed, peer);
                        assert(self@.is_closer(listed[j].0, dst));
                    }
                }
                None
            },
        }
    }

    fn forward(&mut self, traffic: Traffic, out: &mut Vec<Envelope>)
        requires
            old(self).wf(),
        ensures
            final(self).wf(),
            final(self)@ == old(self)@.forwarded(traffic@).node,
            message::posted(final(out)@) == message::posted(old(out)@) + old(self)@.forwarded(
                traffic@,
            ).out,
            old(self)@.stands_on_consent() ==> final(self)@.stands_on_consent(),
            old(self)@.is_at_rest() ==> final(self)@.is_at_rest(),
    {
        assert(message::posted(out@) =~= message::posted(old(out)@) + Seq::empty());
        if traffic.packet.dst == self.key {
            self.delivered.push(traffic.packet);
            assert(self@.delivered =~= old(self)@.delivered.push(traffic@.packet));
            assert(self@.pending == old(self)@.pending);
            proof {
                if old(self)@.is_at_rest() {
                    reach::lemma_rest_carries_over(old(self)@, self@);
                }
            }
            return;
        }
        // Without a next hop this is a dead end, and the packet is dropped.
        if let Some(peer) = self.next_hop(traffic.dst_path.as_slice()) {
            post(out, peer, Message::Traffic(traffic));
            assert(message::posted(out@) =~= message::posted(old(out)@) + old(self)@.forwarded(
                traffic@,
            ).out);
        }
    }

    /// Hands this node a `message` that arrived from `from`.
    ///
    /// Messages from a node that is not a peer are ignored.
    pub fn handle(&mut self, now: u64, from: PublicKey, message: Message) -> (out: Vec<Envelope>)
        requires
            old(self).wf(),
        ensures
            final(self).wf(),
            final(self)@ == old(self)@.handled(now, from, message@).node,
            message::posted(out@) == old(self)@.handled(now, from, message@).out,
            old(self)@.stands_on_consent() && (message@ matches MessageView::Consent(consent)
                ==> consent.holds::<S>()) ==> final(self)@.stands_on_consent(),
            old(self)@.is_at_rest() ==> final(self)@.is_at_rest(),
    {
        let mut out: Vec<Envelope> = Vec::new();
        assert(message::posted(out@) =~= Seq::empty());
        if !self.peers.contains_key(&from) {
            return out;
        }
        let ghost said = message@;
        match message {
            Message::Announce(announcement) => {
                self.receive_announce(now, from, announcement, &mut out)
            },
            Message::Summary(summary) => self.receive_summary(now, from, summary, &mut out),
            Message::Consent(consent) => self.receive_consent(now, from, consent, &mut out),
            Message::Lookup(lookup) => self.receive_lookup(from, lookup, &mut out),
            Message::Found(found) => self.receive_found(now, from, found, &mut out),
            Message::Traffic(traffic) => self.forward(traffic, &mut out),
        }
        assert(message::posted(out@) =~= old(self)@.handled(now, from, said).out);
        out
    }

    /// Originates a packet addressed to `dst`.
    ///
    /// Fails with [`SendError::Unknown`] unless this node holds `dst`'s
    /// position, which it does for a peer and for anything it has looked up
    /// recently. That position travels with the packet, since no node further
    /// along the way holds it either.
    pub fn send(&mut self, dst: PublicKey, payload: Vec<u8>) -> (sent: Result<
        Vec<Envelope>,
        SendError,
    >)
        requires
            old(self).wf(),
        ensures
            final(self).wf(),
            final(self)@ == old(self)@.sent(dst, payload@).0,
            match old(self)@.sent(dst, payload@).1 {
                Ok(expected) => sent matches Ok(out) && message::posted(out@) == expected,
                Err(error) => sent == Err::<Vec<Envelope>, SendError>(error),
            },
            old(self)@.stands_on_consent() ==> final(self)@.stands_on_consent(),
            old(self)@.is_at_rest() ==> final(self)@.is_at_rest(),
    {
        let packet = Packet { src: self.key, dst, payload };
        if dst == self.key {
            self.delivered.push(packet);
            assert(self@.delivered =~= old(self)@.delivered.push(packet@));
            proof {
                if old(self)@.is_at_rest() {
                    reach::lemma_rest_carries_over(old(self)@, self@);
                }
            }
            let out: Vec<Envelope> = Vec::new();
            assert(message::posted(out@) =~= Seq::empty());
            return Ok(out);
        }
        let dst_path = match self.info(&dst) {
            Some(info) => hops_of(info.path()),
            None => {
                return Err(SendError::Unknown);
            },
        };
        let peer = match self.next_hop(dst_path.as_slice()) {
            Some(peer) => peer,
            None => {
                return Err(SendError::NoRoute);
            },
        };
        let mut out: Vec<Envelope> = Vec::new();
        assert(message::posted(out@) =~= Seq::empty());
        post(&mut out, peer, Message::Traffic(Traffic { dst_path, packet }));
        proof {
            if let Ok(expected) = old(self)@.sent(dst, payload@).1 {
                assert(message::posted(out@) =~= expected);
            }
        }
        Ok(out)
    }

    /// Asks the network where `target` sits.
    ///
    /// The search goes to every tree neighbour whose summary admits the target
    /// might lie beyond it, and each of those does the same, so it fans out
    /// down the branches that could hold it and no others. A summary never
    /// misses a key it holds, so on a settled tree a search cannot fail to find
    /// a node that is there; one that claims a key it does not hold costs the
    /// search a detour and nothing more.
    ///
    /// The answer arrives later, as a message like any other, and is what makes
    /// a subsequent [`send`](Self::send) to `target` work.
    ///
    /// `nonce` must be fresh and unguessable, and comes from the caller for the
    /// same reason `now` does. The search is remembered until it is answered or
    /// expires, so an answer nobody asked for is not mistaken for one.
    ///
    /// A search that finds nothing simply goes unanswered, and this node is
    /// free to ask again with a new nonce.
    pub fn lookup(&mut self, now: u64, target: PublicKey, nonce: Nonce) -> (out: Vec<Envelope>)
        requires
            old(self).wf(),
        ensures
            final(self).wf(),
            final(self)@ == old(self)@.looked_up(now, target, nonce).node,
            message::posted(out@) == old(self)@.looked_up(now, target, nonce).out,
            old(self)@.stands_on_consent() ==> final(self)@.stands_on_consent(),
            old(self)@.is_at_rest() ==> final(self)@.is_at_rest(),
    {
        let mut out: Vec<Envelope> = Vec::new();
        assert(message::posted(out@) =~= Seq::empty());
        if target == self.key {
            return out;
        }
        self.pending.insert(nonce, Pending { target, asked_at: now });
        let lookup = Lookup { target, nonce, trail: vec![self.key] };
        assert(lookup.trail@ =~= seq![self.key]);
        self.search(&lookup, &mut out);
        assert(message::posted(out@) =~= old(self)@.looked_up(now, target, nonce).out);
        proof {
            if old(self)@.is_at_rest() {
                reach::lemma_rest_carries_over(old(self)@, self@);
            }
        }
        out
    }
}

/// Whether `key` is on a trail.
fn is_on(trail: &Vec<PublicKey>, key: PublicKey) -> (found: bool)
    ensures
        found == trail@.contains(key),
{
    let mut i: usize = 0;
    while i < trail.len()
        invariant
            0 <= i <= trail@.len(),
            forall|j: int| 0 <= j < i ==> trail@[j] != key,
        decreases trail@.len() - i,
    {
        if trail[i] == key {
            return true;
        }
        i += 1;
    }
    false
}

/// A copy of a path.
fn hops_of(path: &[Hop]) -> (hops: Vec<Hop>)
    ensures
        hops@ == path@,
{
    let hops = vstd::slice::slice_to_vec(path);
    assert(hops@ =~= path@);
    hops
}

} // verus!
