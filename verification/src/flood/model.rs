//! What a flooding node does, as mathematics.
//!
//! A node is a value and every event is a function from one value to the next,
//! together with the envelopes the event produced.

use vstd::prelude::*;
use crate::flood::claim;
use crate::flood::claim::{Claim, Hop};
use crate::flood::message::{EnvelopeView, MessageView, PacketView};
use crate::flood::node::{Info, SendError, Timing};
use crate::key::PublicKey;
use crate::sorted_map;
use crate::sorted_map::Ranked;
use crate::walk;

verus! {

/// What another node claimed, and when it was heard.
#[verifier::ext_equal]
pub struct InfoView {
    /// What it claimed.
    pub claim: Claim,
    /// When it was last heard.
    pub heard_at: u64,
}

/// Everything a node holds.
#[verifier::ext_equal]
pub struct NodeView {
    /// Its address.
    pub key: PublicKey,
    /// How long state lives.
    pub timing: Timing,
    /// What it last announced of itself.
    pub claim: Claim,
    /// When it last announced it.
    pub announced_at: u64,
    /// The links it holds, and what each costs.
    pub peers: Map<PublicKey, u64>,
    /// What it has heard about every other node.
    pub infos: Map<PublicKey, InfoView>,
    /// The packets that have arrived for it.
    pub delivered: Seq<PacketView>,
}

/// What an event makes of a node, and what it has it say.
#[verifier::ext_equal]
pub struct Step {
    /// The node afterwards.
    pub node: NodeView,
    /// The envelopes the event produced.
    pub out: Seq<EnvelopeView>,
}

/// How long it is from one instant to another, or nothing if it is not yet.
pub open spec fn elapsed(since: u64, now: u64) -> u64 {
    if now >= since {
        (now - since) as u64
    } else {
        0
    }
}

/// A node that has just come up, knowing nobody.
pub open spec fn isolated(now: u64, key: PublicKey, timing: Timing) -> NodeView {
    NodeView {
        key,
        timing,
        claim: Claim { seq: 0, walk: claim::rooted(key) },
        announced_at: now,
        peers: Map::empty(),
        infos: Map::empty(),
        delivered: Seq::empty(),
    }
}

impl NodeView {
    /// What holds of a node at every moment: it sits at the end of a walk, no
    /// link is free, and it holds nothing about itself among its links or the
    /// claims of others.
    pub open spec fn wf(self) -> bool {
        &&& claim::shaped(self.claim.walk)
        &&& claim::author(self.claim.walk) == self.key
        &&& !self.peers.contains_key(self.key)
        &&& !self.infos.contains_key(self.key)
        &&& forall|peer: PublicKey| #[trigger]
            self.infos.contains_key(peer) ==> claim::shaped(self.infos[peer].claim.walk)
                && claim::author(self.infos[peer].claim.walk) == peer
        &&& forall|peer: PublicKey| #[trigger]
            self.peers.contains_key(peer) ==> self.peers[peer] >= 1
    }

    /// Whether a node has worked through everything it has heard: it sits in
    /// the most preferred position available to it.
    pub open spec fn is_at_rest(self) -> bool {
        &&& self.wf()
        &&& sorted_map::is_listed(self.peers)
        &&& self.is_best_position(self.claim.walk)
    }

    /// Nothing happens.
    pub open spec fn still(self) -> Step {
        Step { node: self, out: Seq::empty() }
    }

    /// The sequence number to stamp the next announcement with.
    pub open spec fn next_seq(self) -> u64 {
        if self.claim.seq == u64::MAX {
            u64::MAX
        } else {
            (self.claim.seq + 1) as u64
        }
    }

    /// One envelope carrying `message` to every peer but `except`, in order of
    /// their keys.
    pub open spec fn gossiped(self, message: MessageView, except: Option<PublicKey>) -> Seq<
        EnvelopeView,
    > {
        sorted_map::ascending(self.peers).filter(
            |entry: (PublicKey, u64)| Some(entry.0) != except,
        ).map_values(|entry: (PublicKey, u64)| EnvelopeView { to: entry.0, message })
    }

    /// Taking up a position, stamping it afresh, and telling every peer.
    pub open spec fn announced(self, now: u64, position: Seq<Hop>) -> Step {
        let claim = Claim { seq: self.next_seq(), walk: position };
        Step {
            node: NodeView { claim, announced_at: now, ..self },
            out: self.gossiped(MessageView::Announce(claim), None),
        }
    }

    /// The position available below one peer.
    pub open spec fn candidate(self, peer: PublicKey) -> Option<Seq<Hop>> {
        if self.peers.contains_key(peer) && self.infos.contains_key(peer) {
            claim::extended(self.infos[peer].claim.walk, self.key, self.peers[peer])
        } else {
            None
        }
    }

    /// Whether a position is available: below some peer, or self-rooted.
    pub open spec fn on_offer(self, position: Seq<Hop>) -> bool {
        ||| position == claim::rooted(self.key)
        ||| exists|peer: PublicKey| #[trigger] self.candidate(peer) == Some(position)
    }

    /// Whether a position is preferred to every other one available.
    pub open spec fn is_best_position(self, position: Seq<Hop>) -> bool {
        &&& self.on_offer(position)
        &&& forall|other: Seq<Hop>| #[trigger]
            self.on_offer(other) ==> other == position || claim::preferred(position, other)
    }

    /// The most preferred position available.
    pub open spec fn best_position(self) -> Seq<Hop> {
        choose|position: Seq<Hop>| self.is_best_position(position)
    }

    /// No two positions are both the most preferred.
    pub proof fn lemma_best_position_is_unique(self, a: Seq<Hop>, b: Seq<Hop>)
        requires
            self.is_best_position(a),
            self.is_best_position(b),
        ensures
            a == b,
    {
        if a != b {
            claim::law_preference_never_ties(a, b);
        }
    }

    /// Reconsidering which peer to sit below, announcing the move if it
    /// changed.
    pub open spec fn reparented(self, now: u64) -> Step {
        let best = self.best_position();
        if best == self.claim.walk {
            self.still()
        } else {
            self.announced(now, best)
        }
    }

    /// The clock moving to `now`: what was not heard again is forgotten, the
    /// node reconsiders where it sits, and an announcement that has stood long
    /// enough is reissued.
    pub open spec fn ticked(self, now: u64) -> Step {
        let kept = NodeView {
            infos: sorted_map::fresh_part::<PublicKey, Info>(self.infos, now, self.timing.expiry),
            ..self
        };
        let moved = kept.reparented(now);
        let node = moved.node;
        if elapsed(node.announced_at, now) >= node.timing.refresh {
            let reissued = node.announced(now, node.claim.walk);
            Step { node: reissued.node, out: moved.out + reissued.out }
        } else {
            moved
        }
    }

    /// Everything this node knows, addressed to `peer`: its own announcement,
    /// and then everybody else's in order of their keys.
    pub open spec fn greeting(self, peer: PublicKey) -> Seq<EnvelopeView> {
        seq![EnvelopeView { to: peer, message: MessageView::Announce(self.claim) }]
            + sorted_map::ascending(self.infos).map_values(
            |entry: (PublicKey, InfoView)|
                EnvelopeView { to: peer, message: MessageView::Announce(entry.1.claim) },
        )
    }

    /// A link coming up, or being re-priced.
    pub open spec fn peer_added(self, now: u64, peer: PublicKey, cost: u64) -> Step {
        let linked = NodeView { peers: self.peers.insert(peer, cost), ..self };
        if peer == self.key {
            self.still()
        } else if !self.peers.contains_key(peer) {
            let moved = linked.reparented(now);
            Step { node: moved.node, out: self.greeting(peer) + moved.out }
        } else if self.peers[peer] != cost {
            linked.reparented(now)
        } else {
            self.still()
        }
    }

    /// A link going down.
    pub open spec fn peer_removed(self, now: u64, peer: PublicKey) -> Step {
        if self.peers.contains_key(peer) {
            NodeView { peers: self.peers.remove(peer), ..self }.reparented(now)
        } else {
            self.still()
        }
    }

    /// Whether a claim is news: about somebody else, and later than whatever
    /// is held of them.
    pub open spec fn is_news(self, claim: Claim) -> bool {
        let author = claim::author(claim.walk);
        author != self.key && (self.infos.contains_key(author) ==> claim::supersedes(
            claim,
            self.infos[author].claim,
        ))
    }

    /// Filing a claim.
    pub open spec fn keeping(self, now: u64, claim: Claim) -> NodeView {
        NodeView {
            infos: self.infos.insert(
                claim::author(claim.walk),
                InfoView { claim, heard_at: now },
            ),
            ..self
        }
    }

    /// Hearing a claim from `from`. Only news travels.
    pub open spec fn told(self, now: u64, from: PublicKey, claim: Claim) -> Step {
        if self.is_news(claim) {
            let moved = self.keeping(now, claim).reparented(now);
            Step {
                node: moved.node,
                out: self.gossiped(MessageView::Announce(claim), Some(from)) + moved.out,
            }
        } else {
            self.still()
        }
    }

    /// Whether a peer is strictly closer to `dst` than this node is.
    pub open spec fn is_closer(self, peer: PublicKey, dst: Seq<Hop>) -> bool {
        &&& self.peers.contains_key(peer)
        &&& self.infos.contains_key(peer)
        &&& claim::separation(self.infos[peer].claim.walk, dst) < claim::separation(
            self.claim.walk,
            dst,
        )
    }

    /// What reaching `dst` through a peer costs: the link to it, and the walk
    /// left after crossing it.
    pub open spec fn price_through(self, peer: PublicKey, dst: Seq<Hop>) -> u64 {
        walk::capped(
            (self.peers[peer] + claim::separation(self.infos[peer].claim.walk, dst)) as nat,
        )
    }

    /// Whether a peer is the one to hand a packet bound for `dst` to: the
    /// cheapest of those strictly closer, and of equally cheap ones the one
    /// with the smallest key.
    pub open spec fn is_next_hop(self, peer: PublicKey, dst: Seq<Hop>) -> bool {
        &&& self.is_closer(peer, dst)
        &&& forall|other: PublicKey| #[trigger]
            self.is_closer(other, dst) ==> {
                ||| self.price_through(peer, dst) < self.price_through(other, dst)
                ||| self.price_through(peer, dst) == self.price_through(other, dst) && peer.rank()
                    <= other.rank()
            }
    }

    /// No two peers are both the one to hand a packet to.
    pub proof fn lemma_next_hop_is_unique(self, a: PublicKey, b: PublicKey, dst: Seq<Hop>)
        requires
            self.is_next_hop(a, dst),
            self.is_next_hop(b, dst),
        ensures
            a == b,
    {
        assert(self.is_closer(a, dst) && self.is_closer(b, dst));
        PublicKey::rank_tells_apart(a, b);
    }

    /// The peer to hand a packet for `dst` to, if any is worth handing it to.
    pub open spec fn next_hop(self, dst: PublicKey) -> Option<PublicKey> {
        let dst_path = self.infos[dst].claim.walk;
        if self.infos.contains_key(dst) && exists|peer: PublicKey|
            self.is_next_hop(peer, dst_path) {
            Some(choose|peer: PublicKey| self.is_next_hop(peer, dst_path))
        } else {
            None
        }
    }

    /// Being handed a packet.
    pub open spec fn forwarded(self, packet: PacketView) -> Step {
        if packet.dst == self.key {
            NodeView { delivered: self.delivered.push(packet), ..self }.still()
        } else {
            match self.next_hop(packet.dst) {
                Some(peer) => Step {
                    node: self,
                    out: seq![EnvelopeView { to: peer, message: MessageView::Packet(packet) }],
                },
                None => self.still(),
            }
        }
    }

    /// A message arriving from `from`. One from a node that is not a peer is
    /// ignored.
    pub open spec fn handled(self, now: u64, from: PublicKey, message: MessageView) -> Step {
        if !self.peers.contains_key(from) {
            self.still()
        } else {
            match message {
                MessageView::Announce(claim) => self.told(now, from, claim),
                MessageView::Packet(packet) => self.forwarded(packet),
            }
        }
    }

    /// What becomes of a packet this node originates, and of the node.
    pub open spec fn sent(self, dst: PublicKey, payload: Seq<u8>) -> (
        NodeView,
        Result<Seq<EnvelopeView>, SendError>,
    ) {
        let packet = PacketView { src: self.key, dst, payload };
        if dst == self.key {
            (NodeView { delivered: self.delivered.push(packet), ..self }, Ok(Seq::empty()))
        } else {
            match self.next_hop(dst) {
                None => (self, Err(SendError::NoRoute)),
                Some(peer) => (
                    self,
                    Ok(seq![EnvelopeView { to: peer, message: MessageView::Packet(packet) }]),
                ),
            }
        }
    }
}

} // verus!
