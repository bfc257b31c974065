//! What a routing node does, as mathematics.
//!
//! A node is a value and every event is a function from one value to the next,
//! together with the envelopes the event produced.

use vstd::prelude::*;
use crate::cost::Cost;
use crate::key::PublicKey;
use crate::sorted_map;
use crate::sorted_map::Ranked;
use crate::routing::bargain;
use crate::routing::bargain::{Consent, Hop};
use crate::routing::message;
use crate::routing::message::{
    EnvelopeView, FoundView, LookupView, MessageView, Nonce, PacketView, TrafficView,
};
use crate::routing::node::{Eviction, Fault, Info, Pending, SendError, Timing};
use crate::signature::Signer;
use crate::summary;
use crate::walk;

verus! {

/// What a node keeps about one link.
#[verifier::ext_equal]
pub struct PeerView {
    /// What crossing the link costs.
    pub cost: Cost,
    /// What the peer says lies on its side of it.
    pub beyond: Set<int>,
    /// What this node last said lies on its own side.
    pub told: Option<Set<int>>,
    /// The peer's agreement that this node may sit below it.
    pub consent: Option<Consent>,
}

/// Where another node said it sat, and when.
#[verifier::ext_equal]
pub struct InfoView {
    /// The walk down to it.
    pub walk: Seq<Hop>,
    /// When it was last heard.
    pub heard_at: u64,
}

/// Everything a node holds.
#[verifier::ext_equal]
pub struct NodeView<S> {
    /// What it signs as.
    pub signer: S,
    /// Its address.
    pub key: PublicKey,
    /// How long state lives.
    pub timing: Timing,
    /// The walk down to it, as it last announced it.
    pub walk: Seq<Hop>,
    /// When it last announced it.
    pub announced_at: u64,
    /// The links it holds.
    pub peers: Map<PublicKey, PeerView>,
    /// Where other nodes sit.
    pub infos: Map<PublicKey, InfoView>,
    /// The searches it has outstanding.
    pub pending: Map<Nonce, Pending>,
    /// The packets that have arrived for it.
    pub delivered: Seq<PacketView>,
    /// The peers it has dropped.
    pub evicted: Seq<Eviction>,
}

/// What an event makes of a node, and what it has it say.
#[verifier::ext_equal]
pub struct Step<S> {
    /// The node afterwards.
    pub node: NodeView<S>,
    /// The envelopes the event produced.
    pub out: Seq<EnvelopeView>,
}

/// How long it is from one instant to another, or nothing if it is not yet.
pub open spec fn elapsed(since: u64, now: u64) -> u64 {
    if now >= since {
        (now - since) as u64
    } else {
        0
    }
}

/// A node that has just come up, knowing nobody.
pub open spec fn isolated<S: Signer>(now: u64, signer: S, timing: Timing) -> NodeView<S> {
    NodeView {
        signer,
        key: signer.speaks_for(),
        timing,
        walk: bargain::rooted(signer, 0),
        announced_at: now,
        peers: Map::empty(),
        infos: Map::empty(),
        pending: Map::empty(),
        delivered: Seq::empty(),
        evicted: Seq::empty(),
    }
}

impl<S: Signer> NodeView<S> {
    /// Whether a node speaks for its own key, holds nothing about itself among
    /// its links, its searches or the positions of others, and holds nothing
    /// about anybody else that does not check out.
    pub open spec fn is_well_informed(self) -> bool {
        &&& self.key == self.signer.speaks_for()
        &&& !self.peers.contains_key(self.key)
        &&& !self.infos.contains_key(self.key)
        &&& forall|peer: PublicKey| #[trigger]
            self.infos.contains_key(peer) ==> bargain::shaped(self.infos[peer].walk)
                && bargain::author(self.infos[peer].walk) == peer && bargain::checks_out::<S>(
                self.infos[peer].walk,
            )
        &&& forall|peer: PublicKey| #[trigger]
            self.peers.contains_key(peer) ==> (self.peers[peer].consent matches Some(consent)
                ==> consent.given_by() == peer && consent.given_to() == self.key)
        &&& forall|nonce: Nonce| #[trigger]
            self.pending.contains_key(nonce) ==> self.pending[nonce].target != self.key
    }

    /// What holds of a node at every moment: it is well informed, and sits
    /// where it has itself signed for.
    pub open spec fn wf(self) -> bool {
        &&& self.is_well_informed()
        &&& bargain::shaped(self.walk)
        &&& bargain::author(self.walk) == self.key
        &&& bargain::hops_signed::<S>(self.walk)
    }

    /// Whether a node has worked through everything it was told: it sits in
    /// the most preferred position available to it, and has told every peer
    /// what it wants that peer to have been told.
    pub open spec fn is_at_rest(self) -> bool {
        &&& self.is_well_informed()
        &&& sorted_map::is_listed(self.peers)
        &&& bargain::same_walk(self.best_position(self.next_seq()), self.walk)
        &&& forall|peer: PublicKey| #[trigger]
            self.peers.contains_key(peer) ==> self.peers[peer].told == self.wanted(peer)
    }

    /// Whether every consent it holds was signed by the node that gave it, and
    /// so is every one it stands on.
    pub open spec fn stands_on_consent(self) -> bool {
        &&& bargain::consents_given::<S>(self.walk)
        &&& forall|peer: PublicKey| #[trigger]
            self.peers.contains_key(peer) ==> (self.peers[peer].consent matches Some(consent)
                ==> consent.holds::<S>())
    }

    /// Nothing happens.
    pub open spec fn still(self) -> Step<S> {
        Step { node: self, out: Seq::empty() }
    }

    /// The sequence number to stamp the next announcement with.
    pub open spec fn next_seq(self) -> u64 {
        if self.walk.last().seq == u64::MAX {
            u64::MAX
        } else {
            (self.walk.last().seq + 1) as u64
        }
    }

    /// The position available below one peer: where the peer says it sits,
    /// with this node below it on the peer's consent.
    pub open spec fn candidate(self, peer: PublicKey, seq: u64) -> Option<Seq<Hop>> {
        if self.peers.contains_key(peer) && self.infos.contains_key(peer) {
            match self.peers[peer].consent {
                Some(consent) => bargain::extended(
                    self.infos[peer].walk,
                    self.signer,
                    consent,
                    seq,
                ),
                None => None,
            }
        } else {
            None
        }
    }

    /// Whether a position is available: below some peer, or self-rooted.
    pub open spec fn on_offer(self, position: Seq<Hop>, seq: u64) -> bool {
        ||| position == bargain::rooted(self.signer, seq)
        ||| exists|peer: PublicKey| #[trigger] self.candidate(peer, seq) == Some(position)
    }

    /// Whether a position is preferred to every other one available.
    pub open spec fn is_best_position(self, position: Seq<Hop>, seq: u64) -> bool {
        &&& self.on_offer(position, seq)
        &&& forall|other: Seq<Hop>| #[trigger]
            self.on_offer(other, seq) ==> other == position || bargain::preferred(position, other)
    }

    /// The most preferred position available.
    pub open spec fn best_position(self, seq: u64) -> Seq<Hop> {
        choose|position: Seq<Hop>| self.is_best_position(position, seq)
    }

    /// No two positions are both the most preferred.
    pub proof fn lemma_best_position_is_unique(self, a: Seq<Hop>, b: Seq<Hop>, seq: u64)
        requires
            self.is_best_position(a, seq),
            self.is_best_position(b, seq),
        ensures
            a == b,
    {
        if a != b {
            bargain::law_preference_never_ties(a, b);
        }
    }

    /// One envelope carrying `message` to every peer, in order of their keys.
    pub open spec fn to_every_peer(self, message: MessageView) -> Seq<EnvelopeView> {
        sorted_map::ascending(self.peers).map_values(
            |entry: (PublicKey, PeerView)| EnvelopeView { to: entry.0, message },
        )
    }

    /// Taking up a position and telling every peer.
    pub open spec fn announced(self, now: u64, position: Seq<Hop>) -> Step<S> {
        Step {
            node: NodeView { walk: position, announced_at: now, ..self },
            out: self.to_every_peer(MessageView::Announce(position)),
        }
    }

    /// Reconsidering which peer to sit below, announcing the move if it
    /// changed.
    pub open spec fn reparented(self, now: u64) -> Step<S> {
        let best = self.best_position(self.next_seq());
        if bargain::same_walk(best, self.walk) {
            self.still()
        } else {
            self.announced(now, best)
        }
    }

    /// Whether the link to `peer` is part of the spanning tree: one of its two
    /// ends is the other's parent.
    pub open spec fn is_tree_neighbour(self, peer: PublicKey) -> bool {
        ||| bargain::parent(self.walk) == Some(peer)
        ||| self.infos.contains_key(peer) && bargain::parent(self.infos[peer].walk) == Some(
            self.key,
        )
    }

    /// Whether some tree link other than the one to `peer` has `bit` set in
    /// what lies beyond it.
    pub open spec fn some_other_link_sets(self, peer: PublicKey, bit: int) -> bool {
        exists|other: PublicKey|
            other != peer && #[trigger] self.peers.contains_key(other) && self.is_tree_neighbour(
                other,
            ) && self.peers[other].beyond.contains(bit)
    }

    /// What lies on this node's own side of its link to `peer`: itself, and
    /// whatever the other tree links say lies beyond them.
    pub open spec fn summary_beyond(self, peer: PublicKey) -> Set<int> {
        Set::new(
            |bit: int|
                summary::bits_of(self.key).contains(bit) || self.some_other_link_sets(peer, bit),
        )
    }

    /// What this node wants `peer` to have been told.
    pub open spec fn wanted(self, peer: PublicKey) -> Option<Set<int>> {
        if self.is_tree_neighbour(peer) {
            Some(self.summary_beyond(peer))
        } else {
            None
        }
    }

    /// Whether one link is owed a summary it has not been told.
    pub open spec fn is_owed(self, entry: (PublicKey, PeerView)) -> bool {
        self.wanted(entry.0) is Some && entry.1.told != self.wanted(entry.0)
    }

    /// Working out what to say over each tree link, and saying it where it
    /// changed.
    pub open spec fn resummarised(self) -> Step<S> {
        Step {
            node: NodeView {
                peers: Map::new(
                    |peer: PublicKey| self.peers.contains_key(peer),
                    |peer: PublicKey|
                        PeerView { told: self.wanted(peer), ..self.peers[peer] },
                ),
                ..self
            },
            out: sorted_map::ascending(self.peers).filter(
                |entry: (PublicKey, PeerView)| self.is_owed(entry),
            ).map_values(
                |entry: (PublicKey, PeerView)|
                    EnvelopeView {
                        to: entry.0,
                        message: MessageView::Summary(self.summary_beyond(entry.0)),
                    },
            ),
        }
    }

    /// Reconsidering where this node sits and what lies on its side of each
    /// tree link.
    pub open spec fn settled(self, now: u64) -> Step<S> {
        let moved = self.reparented(now);
        let said = moved.node.resummarised();
        Step { node: said.node, out: moved.out + said.out }
    }

    /// The clock moving to `now`: what was not heard again is forgotten, the
    /// node reconsiders, and an announcement that has stood long enough is
    /// reissued.
    pub open spec fn ticked(self, now: u64) -> Step<S> {
        let kept = NodeView {
            infos: sorted_map::fresh_part::<PublicKey, Info>(self.infos, now, self.timing.expiry),
            pending: sorted_map::fresh_part::<Nonce, Pending>(self.pending, now, self.timing.expiry),
            ..self
        };
        let settled = kept.settled(now);
        let node = settled.node;
        if elapsed(node.announced_at, now) >= node.timing.refresh {
            let reissued = node.announced(
                now,
                bargain::restamped(node.walk, node.signer, node.next_seq()),
            );
            Step { node: reissued.node, out: settled.out + reissued.out }
        } else {
            settled
        }
    }

    /// The envelope offering `peer` leave to sit below this node at `cost`.
    pub open spec fn offer(self, peer: PublicKey, cost: Cost) -> EnvelopeView {
        EnvelopeView {
            to: peer,
            message: MessageView::Consent(bargain::issued(self.signer, peer, cost)),
        }
    }

    /// A link coming up, or being re-priced.
    pub open spec fn peer_added(self, now: u64, peer: PublicKey, cost: Cost) -> Step<S> {
        if peer == self.key {
            self.still()
        } else if self.peers.contains_key(peer) {
            if self.peers[peer].cost == cost {
                self.still()
            } else {
                let priced = NodeView {
                    peers: self.peers.insert(peer, PeerView { cost, ..self.peers[peer] }),
                    ..self
                };
                let settled = priced.settled(now);
                Step { node: settled.node, out: seq![self.offer(peer, cost)] + settled.out }
            }
        } else {
            let linked = NodeView {
                peers: self.peers.insert(
                    peer,
                    PeerView { cost, beyond: Set::empty(), told: None, consent: None },
                ),
                ..self
            };
            let settled = linked.settled(now);
            let greeting = EnvelopeView { to: peer, message: MessageView::Announce(self.walk) };
            Step {
                node: settled.node,
                out: seq![greeting, self.offer(peer, cost)] + settled.out,
            }
        }
    }

    /// A link going down.
    pub open spec fn peer_removed(self, now: u64, peer: PublicKey) -> Step<S> {
        if self.peers.contains_key(peer) {
            NodeView { peers: self.peers.remove(peer), ..self }.settled(now)
        } else {
            self.still()
        }
    }

    /// Dropping a peer that has said something no honest node could say.
    pub open spec fn peer_evicted(self, now: u64, peer: PublicKey, fault: Fault) -> Step<S> {
        if self.peers.contains_key(peer) {
            NodeView {
                peers: self.peers.remove(peer),
                evicted: self.evicted.push(Eviction { peer, fault }),
                ..self
            }.settled(now)
        } else {
            self.still()
        }
    }

    /// Whether an announcement is worth looking at twice: not this node's own,
    /// and not something already held in a form that it does not supersede.
    pub open spec fn is_news(self, position: Seq<Hop>) -> bool {
        let author = bargain::author(position);
        author != self.key && (self.infos.contains_key(author) ==> bargain::supersedes(
            position,
            self.infos[author].walk,
        ))
    }

    /// Filing an announcement.
    pub open spec fn keeping(self, now: u64, position: Seq<Hop>) -> NodeView<S> {
        NodeView {
            infos: self.infos.insert(
                bargain::author(position),
                InfoView { walk: position, heard_at: now },
            ),
            ..self
        }
    }

    /// Being told by `from` where a node sits.
    pub open spec fn told_position(self, now: u64, from: PublicKey, position: Seq<Hop>) -> Step<
        S,
    > {
        if bargain::author(position) != from {
            self.peer_evicted(now, from, Fault::AnnouncementAboutAnother)
        } else if !self.is_news(position) {
            self.still()
        } else if !bargain::checks_out::<S>(position) {
            self.peer_evicted(now, from, Fault::ForgedAnnouncement)
        } else {
            self.keeping(now, position).settled(now)
        }
    }

    /// Being given leave by `from` to sit below it.
    pub open spec fn told_consent(self, now: u64, from: PublicKey, consent: Consent) -> Step<S> {
        if consent.given_by() != from || consent.given_to() != self.key {
            self.peer_evicted(now, from, Fault::MisdirectedConsent)
        } else if self.peers[from].consent == Some(consent) {
            self.still()
        } else {
            NodeView {
                peers: self.peers.insert(
                    from,
                    PeerView { consent: Some(consent), ..self.peers[from] },
                ),
                ..self
            }.settled(now)
        }
    }

    /// Being told by `from` what lies beyond it.
    pub open spec fn told_summary(self, now: u64, from: PublicKey, beyond: Set<int>) -> Step<S> {
        if self.peers[from].beyond == beyond {
            self.still()
        } else {
            NodeView {
                peers: self.peers.insert(from, PeerView { beyond, ..self.peers[from] }),
                ..self
            }.settled(now)
        }
    }

    /// Whether a search goes on over one link: not back the way it came, along
    /// the tree, and only where the target might lie.
    pub open spec fn passes_over(self, lookup: LookupView, entry: (PublicKey, PeerView)) -> bool {
        &&& !lookup.trail.contains(entry.0)
        &&& self.is_tree_neighbour(entry.0)
        &&& summary::claims(entry.1.beyond, lookup.target)
    }

    /// Passing a search on to every tree neighbour that might hold its target.
    pub open spec fn searched(self, lookup: LookupView) -> Seq<EnvelopeView> {
        sorted_map::ascending(self.peers).filter(
            |entry: (PublicKey, PeerView)| self.passes_over(lookup, entry),
        ).map_values(
            |entry: (PublicKey, PeerView)|
                EnvelopeView { to: entry.0, message: MessageView::Lookup(lookup) },
        )
    }

    /// Being asked by `from` where a node sits.
    pub open spec fn asked(self, from: PublicKey, lookup: LookupView) -> Step<S> {
        if lookup.trail.contains(self.key) {
            self.still()
        } else if lookup.target == self.key {
            let found = message::answered(self.signer, self.walk, lookup.nonce, lookup.trail);
            Step {
                node: self,
                out: seq![EnvelopeView { to: from, message: MessageView::Found(found) }],
            }
        } else {
            Step {
                node: self,
                out: self.searched(
                    LookupView { trail: lookup.trail.push(self.key), ..lookup },
                ),
            }
        }
    }

    /// An answer whose trail is spent arriving at the node that asked, if it
    /// asked at all.
    pub open spec fn answered(self, now: u64, from: PublicKey, found: FoundView) -> Step<S> {
        if !self.pending.contains_key(found.nonce) || self.pending[found.nonce].target
            != bargain::author(found.walk) {
            self.still()
        } else if !message::vouched_for::<S>(found) {
            self.peer_evicted(now, from, Fault::ForgedAnswer)
        } else {
            let closed = NodeView { pending: self.pending.remove(found.nonce), ..self };
            if closed.is_news(found.walk) {
                closed.keeping(now, found.walk).settled(now)
            } else {
                closed.still()
            }
        }
    }

    /// Being handed an answer by `from`, on its way home or arrived there.
    pub open spec fn told_found(self, now: u64, from: PublicKey, found: FoundView) -> Step<S> {
        if found.trail.len() == 0 || found.trail.last() != self.key {
            self.still()
        } else {
            let home = found.trail.drop_last();
            if home.len() == 0 {
                self.answered(now, from, found)
            } else if !self.peers.contains_key(home.last()) {
                self.still()
            } else if !message::vouched_for::<S>(found) {
                self.peer_evicted(now, from, Fault::ForgedAnswer)
            } else {
                Step {
                    node: self,
                    out: seq![
                        EnvelopeView {
                            to: home.last(),
                            message: MessageView::Found(FoundView { trail: home, ..found }),
                        },
                    ],
                }
            }
        }
    }

    /// Whether a peer is strictly closer to `dst` than this node is.
    pub open spec fn is_closer(self, peer: PublicKey, dst: Seq<Hop>) -> bool {
        &&& self.peers.contains_key(peer)
        &&& self.infos.contains_key(peer)
        &&& bargain::separation(self.infos[peer].walk, dst) < bargain::separation(self.walk, dst)
    }

    /// What reaching `dst` through a peer costs: the link to it, and the walk
    /// left after crossing it.
    pub open spec fn price_through(self, peer: PublicKey, dst: Seq<Hop>) -> u64 {
        walk::capped(
            (self.peers[peer].cost.value() + bargain::separation(
                self.infos[peer].walk,
                dst,
            )) as nat,
        )
    }

    /// Whether a peer is the one to hand a packet bound for `dst` to: the
    /// cheapest of those strictly closer, and of equally cheap ones the one
    /// with the smallest key.
    pub open spec fn is_next_hop(self, peer: PublicKey, dst: Seq<Hop>) -> bool {
        &&& self.is_closer(peer, dst)
        &&& forall|other: PublicKey| #[trigger]
            self.is_closer(other, dst) ==> {
                ||| self.price_through(peer, dst) < self.price_through(other, dst)
                ||| self.price_through(peer, dst) == self.price_through(other, dst) && peer.rank()
                    <= other.rank()
            }
    }

    /// The peer to hand a packet bound for `dst` to, if any is worth handing
    /// it to.
    pub open spec fn next_hop(self, dst: Seq<Hop>) -> Option<PublicKey> {
        if exists|peer: PublicKey| self.is_next_hop(peer, dst) {
            Some(choose|peer: PublicKey| self.is_next_hop(peer, dst))
        } else {
            None
        }
    }

    /// No two peers are both the one to hand a packet to.
    pub proof fn lemma_next_hop_is_unique(self, a: PublicKey, b: PublicKey, dst: Seq<Hop>)
        requires
            self.is_next_hop(a, dst),
            self.is_next_hop(b, dst),
        ensures
            a == b,
    {
        assert(self.is_closer(a, dst) && self.is_closer(b, dst));
        PublicKey::rank_tells_apart(a, b);
    }

    /// Being handed traffic.
    pub open spec fn forwarded(self, traffic: TrafficView) -> Step<S> {
        if traffic.packet.dst == self.key {
            NodeView { delivered: self.delivered.push(traffic.packet), ..self }.still()
        } else {
            match self.next_hop(traffic.dst_path) {
                Some(peer) => Step {
                    node: self,
                    out: seq![EnvelopeView { to: peer, message: MessageView::Traffic(traffic) }],
                },
                None => self.still(),
            }
        }
    }

    /// A message arriving from `from`. One from a node that is not a peer is
    /// ignored.
    pub open spec fn handled(self, now: u64, from: PublicKey, message: MessageView) -> Step<S> {
        if !self.peers.contains_key(from) {
            self.still()
        } else {
            match message {
                MessageView::Announce(position) => self.told_position(now, from, position),
                MessageView::Summary(beyond) => self.told_summary(now, from, beyond),
                MessageView::Consent(consent) => self.told_consent(now, from, consent),
                MessageView::Lookup(lookup) => self.asked(from, lookup),
                MessageView::Found(found) => self.told_found(now, from, found),
                MessageView::Traffic(traffic) => self.forwarded(traffic),
            }
        }
    }

    /// What becomes of a packet this node originates, and of the node.
    pub open spec fn sent(self, dst: PublicKey, payload: Seq<u8>) -> (
        NodeView<S>,
        Result<Seq<EnvelopeView>, SendError>,
    ) {
        let packet = PacketView { src: self.key, dst, payload };
        if dst == self.key {
            (NodeView { delivered: self.delivered.push(packet), ..self }, Ok(Seq::empty()))
        } else if !self.infos.contains_key(dst) {
            (self, Err(SendError::Unknown))
        } else {
            let dst_path = self.infos[dst].walk;
            match self.next_hop(dst_path) {
                None => (self, Err(SendError::NoRoute)),
                Some(peer) => (
                    self,
                    Ok(
                        seq![
                            EnvelopeView {
                                to: peer,
                                message: MessageView::Traffic(TrafficView { dst_path, packet }),
                            },
                        ],
                    ),
                ),
            }
        }
    }

    /// Asking the network where `target` sits.
    pub open spec fn looked_up(self, now: u64, target: PublicKey, nonce: Nonce) -> Step<S> {
        if target == self.key {
            self.still()
        } else {
            let asking = NodeView {
                pending: self.pending.insert(nonce, Pending { target, asked_at: now }),
                ..self
            };
            Step {
                node: asking,
                out: asking.searched(LookupView { target, nonce, trail: seq![self.key] }),
            }
        }
    }
}

} // verus!
