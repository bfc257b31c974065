//! The per-node routing state machine.

use vstd::prelude::*;
use crate::cost::Cost;
use crate::flood::claim;
use crate::flood::claim::{distance, Announcement, Hop};
use crate::flood::message;
use crate::flood::message::{post, Envelope, EnvelopeView, Message, MessageView, Packet};
use crate::flood::model;
use crate::flood::model::{InfoView, NodeView};
use crate::flood::reach;
use crate::key::PublicKey;
use crate::order::Standing;
use crate::sorted_map;
use crate::sorted_map::{Dated, Ranked, SortedMap};

verus! {

/// Why a packet could not be handed to the network.
#[derive(Clone, Copy, PartialEq, Eq, Debug, Structural)]
pub enum SendError {
    /// Either the destination's position in the tree is unknown, or no linked
    /// peer stands closer to it than this node does.
    NoRoute,
}

impl SendError {
    /// What went wrong, in words.
    pub open spec fn words(self) -> Seq<char> {
        "no route to destination"@
    }

    /// What went wrong, in words.
    pub fn text(&self) -> (text: &'static str)
        ensures
            text@ == self.words(),
    {
        "no route to destination"
    }
}

/// How long announcements live, and how often a node renews its own.
///
/// Both are durations in whatever unit the caller counts `now` in. Nothing here
/// interprets them or reads a clock; it only subtracts one instant it was
/// handed from another.
///
/// `refresh` must be comfortably smaller than `expiry`. A node's announcement
/// has to be reissued, and the reissue flooded, several times over before its
/// peers would otherwise give up on it. Set them too close together and a
/// perfectly healthy network forgets nodes it is about to hear from again.
#[derive(Clone, Copy, PartialEq, Eq, Debug, Structural)]
pub struct Timing {
    /// How long a node leaves its own announcement alone before reissuing it.
    pub refresh: u64,
    /// How long an announcement from elsewhere is kept without being reissued.
    pub expiry: u64,
}

impl Timing {
    /// The usual schedule.
    pub open spec fn usual() -> Self {
        Timing { refresh: 1_000, expiry: 3_000 }
    }
}

impl Default for Timing {
    /// Reissue every second and forget after three, for a caller counting in
    /// milliseconds.
    fn default() -> (timing: Self)
        ensures
            timing == Timing::usual(),
    {
        Timing { refresh: 1_000, expiry: 3_000 }
    }
}

/// An announcement about another node, and when this node last heard it.
///
/// The instant is local: it records when the announcement *arrived here*, not
/// when its author made it. Nothing therefore requires two nodes to agree about
/// what time it is, only that each one's own clock runs forwards.
#[derive(Clone, Debug)]
pub struct Info {
    announcement: Announcement,
    heard_at: u64,
}

impl View for Info {
    type V = InfoView;

    closed spec fn view(&self) -> InfoView {
        InfoView { claim: self.announcement@, heard_at: self.heard_at }
    }
}

impl Dated for Info {
    open spec fn since(value: InfoView) -> u64 {
        value.heard_at
    }

    fn read_since(&self) -> (since: u64) {
        self.heard_at
    }
}

/// One node's complete routing state.
///
/// A node is a pure state machine: every method takes an event and returns the
/// messages the event produced. It never blocks, never touches the operating
/// system, and never reads a clock. Time enters only as the `now` argument the
/// caller passes in, an opaque count in the caller's own unit, which is only
/// ever subtracted from a later `now`, so its origin is arbitrary but it must
/// not go backwards.
#[derive(Clone, Debug)]
pub struct Node {
    key: PublicKey,
    timing: Timing,
    /// This node's own announcement. It is the sole author of this value.
    announcement: Announcement,
    /// When this node last issued the announcement above.
    announced_at: u64,
    /// Peers reachable over a direct link, and what each link costs.
    peers: SortedMap<PublicKey, Cost>,
    /// What this node has heard about every *other* node, and when.
    infos: SortedMap<PublicKey, Info>,
    delivered: Vec<Packet>,
}

impl View for Node {
    type V = NodeView;

    closed spec fn view(&self) -> NodeView {
        NodeView {
            key: self.key,
            timing: self.timing,
            claim: self.announcement@,
            announced_at: self.announced_at,
            peers: self.peers@,
            infos: self.infos@,
            delivered: self.delivered@.map_values(|packet: Packet| packet@),
        }
    }
}

impl Node {
    /// Whether what a node holds is in order.
    pub closed spec fn in_order(&self) -> bool {
        self.peers.wf() && self.infos.wf()
    }

    /// What holds of a node at every moment.
    pub open spec fn wf(&self) -> bool {
        self.in_order() && self@.wf()
    }

    /// Whatever a node holds can be gone through in order.
    pub proof fn lemma_is_listed(&self)
        requires
            self.wf(),
        ensures
            sorted_map::is_listed(self@.peers),
            sorted_map::is_listed(self@.infos),
    {
        self.peers.lemma_is_listed();
        self.infos.lemma_is_listed();
    }

    /// Creates an isolated node, which necessarily believes it is its own root.
    pub fn new(now: u64, key: PublicKey) -> (node: Self)
        ensures
            node.wf(),
            node@ == model::isolated(now, key, Timing::usual()),
            node@.is_at_rest(),
    {
        Self::with_timing(now, key, Timing::default())
    }

    /// Creates an isolated node that keeps and reissues state on its own
    /// schedule rather than the usual one.
    pub fn with_timing(now: u64, key: PublicKey, timing: Timing) -> (node: Self)
        ensures
            node.wf(),
            node@ == model::isolated(now, key, timing),
            node@.is_at_rest(),
    {
        let node = Node {
            key,
            timing,
            announcement: Announcement::root_of(key, 0),
            announced_at: now,
            peers: SortedMap::new(),
            infos: SortedMap::new(),
            delivered: Vec::new(),
        };
        assert(node@.delivered =~= Seq::empty());
        proof {
            reach::law_a_new_node_is_at_rest(now, key, timing);
        }
        node
    }

    /// This node's address.
    pub fn key(&self) -> (key: PublicKey)
        ensures
            key == self@.key,
    {
        self.key
    }

    /// The schedule this node keeps state on.
    pub fn timing(&self) -> (timing: Timing)
        ensures
            timing == self@.timing,
    {
        self.timing
    }

    /// The root of the spanning tree this node currently believes in.
    pub fn root(&self) -> (root: PublicKey)
        ensures
            root == self@.claim.walk[0].key,
    {
        self.announcement.root()
    }

    /// This node's parent, or `None` while it believes it is the root.
    pub fn parent(&self) -> (parent: Option<PublicKey>)
        ensures
            parent == claim::parent(self@.claim.walk),
    {
        self.announcement.parent()
    }

    /// The path from the root down to this node, priced link by link.
    pub fn path(&self) -> (path: &[Hop])
        ensures
            path@ == self@.claim.walk,
    {
        self.announcement.path()
    }

    /// What the walk from this node up to the root costs.
    pub fn cost_to_root(&self) -> (cost: u64)
        ensures
            cost == claim::cost_to_root(self@.claim.walk),
    {
        self.announcement.cost_to_root()
    }

    /// The peers this node holds a link to, and what each link costs, in order
    /// of their keys.
    pub fn peers(&self) -> (peers: Vec<(PublicKey, Cost)>)
        requires
            self.wf(),
        ensures
            peers@.map_values(|entry: (PublicKey, Cost)| (entry.0, entry.1@))
                == sorted_map::ascending(self@.peers),
    {
        let ghost listed = sorted_map::ascending(self.peers@);
        let ghost read = |entry: (PublicKey, Cost)| (entry.0, entry.1@);
        let mut peers: Vec<(PublicKey, Cost)> = Vec::new();
        let mut i: usize = 0;
        while i < self.peers.len()
            invariant
                self.wf(),
                listed == sorted_map::ascending(self.peers@),
                0 <= i <= listed.len(),
                read == (|entry: (PublicKey, Cost)| (entry.0, entry.1@)),
                peers@.map_values(read) == listed.take(i as int),
            decreases listed.len() - i,
        {
            let ghost before = peers@;
            peers.push((self.peers.key_at(i), *self.peers.value_at(i)));
            assert(peers@.map_values(read) =~= before.map_values(read).push(listed[i as int]));
            assert(listed.take(i + 1) =~= listed.take(i as int).push(listed[i as int]));
            i += 1;
        }
        assert(listed.take(i as int) =~= listed);
        peers
    }

    /// The other nodes this one currently holds an announcement for, in order
    /// of their keys.
    ///
    /// This is what expiry shrinks and gossip grows, and it is exactly the set
    /// of destinations [`send`](Self::send) can name.
    pub fn known(&self) -> (known: Vec<PublicKey>)
        requires
            self.wf(),
        ensures
            known@ == sorted_map::ascending(self@.infos).map_values(
                |entry: (PublicKey, InfoView)| entry.0,
            ),
    {
        let ghost listed = sorted_map::ascending(self.infos@);
        let ghost read = |entry: (PublicKey, InfoView)| entry.0;
        let mut known: Vec<PublicKey> = Vec::new();
        let mut i: usize = 0;
        while i < self.infos.len()
            invariant
                self.wf(),
                listed == sorted_map::ascending(self.infos@),
                0 <= i <= listed.len(),
                read == (|entry: (PublicKey, InfoView)| entry.0),
                known@ == listed.take(i as int).map_values(read),
            decreases listed.len() - i,
        {
            known.push(self.infos.key_at(i));
            assert(known@ =~= listed.take(i + 1).map_values(read));
            i += 1;
        }
        assert(listed.take(i as int) =~= listed);
        known
    }

    /// Takes the packets addressed to this node that have arrived so far.
    pub fn take_delivered(&mut self) -> (delivered: Vec<Packet>)
        requires
            old(self).wf(),
        ensures
            final(self).wf(),
            delivered@.map_values(|packet: Packet| packet@) == old(self)@.delivered,
            final(self)@ == (NodeView { delivered: Seq::empty(), ..old(self)@ }),
            old(self)@.is_at_rest() ==> final(self)@.is_at_rest(),
    {
        let mut taken: Vec<Packet> = Vec::new();
        std::mem::swap(&mut taken, &mut self.delivered);
        assert(self@.delivered =~= Seq::empty());
        proof {
            if old(self)@.is_at_rest() {
                reach::lemma_rest_carries_over(old(self)@, self@);
            }
        }
        taken
    }

    /// What this node last heard about `key`, if it still holds it.
    fn info(&self, key: &PublicKey) -> (info: Option<&Announcement>)
        requires
            self.in_order(),
        ensures
            info is Some <==> self@.infos.contains_key(*key),
            info matches Some(announcement) ==> announcement@ == self@.infos[*key].claim,
    {
        match self.infos.get(key) {
            Some(info) => Some(&info.announcement),
            None => None,
        }
    }

    /// Hands `announcement` to every peer but `except`.
    fn gossip(
        &self,
        announcement: &Announcement,
        except: Option<PublicKey>,
        out: &mut Vec<Envelope>,
    )
        requires
            self.in_order(),
        ensures
            message::posted(final(out)@) == message::posted(old(out)@) + self@.gossiped(
                MessageView::Announce(announcement@),
                except,
            ),
    {
        let ghost listed = sorted_map::ascending(self.peers@);
        let ghost said = MessageView::Announce(announcement@);
        let ghost wanted = |entry: (PublicKey, u64)| Some(entry.0) != except;
        let ghost address = |entry: (PublicKey, u64)| EnvelopeView { to: entry.0, message: said };
        let ghost before = message::posted(out@);
        let mut i: usize = 0;
        proof {
            assert(listed.take(0) =~= Seq::empty());
            reveal(Seq::filter);
            assert(message::posted(out@) =~= before + listed.take(0).filter(wanted).map_values(
                address,
            ));
        }
        while i < self.peers.len()
            invariant
                self.in_order(),
                listed == sorted_map::ascending(self.peers@),
                said == MessageView::Announce(announcement@),
                wanted == (|entry: (PublicKey, u64)| Some(entry.0) != except),
                address == (|entry: (PublicKey, u64)| EnvelopeView { to: entry.0, message: said }),
                0 <= i <= listed.len(),
                message::posted(out@) == before + listed.take(i as int).filter(wanted).map_values(
                    address,
                ),
            decreases listed.len() - i,
        {
            let peer = self.peers.key_at(i);
            let ghost entry = listed[i as int];
            proof {
                sorted_map::lemma_pick_one_more(listed, i as int, wanted);
            }
            let skipped = match except {
                Some(skip) => skip == peer,
                None => false,
            };
            if !skipped {
                post(out, peer, Message::Announce(announcement.clone()));
                proof {
                    let picked = listed.take(i as int).filter(wanted);
                    assert(wanted(entry));
                    assert(picked.push(entry).map_values(address) =~= picked.map_values(
                        address,
                    ).push(address(entry)));
                    assert(message::posted(out@) =~= before + listed.take(i + 1).filter(
                        wanted,
                    ).map_values(address));
                }
            } else {
                assert(!wanted(entry));
            }
            i += 1;
        }
        assert(listed.take(i as int) =~= listed);
        assert(message::posted(out@) =~= before + self@.gossiped(said, except));
    }

    /// Takes up `position`, stamps it with a fresh sequence number, and tells
    /// every peer.
    fn announce(&mut self, now: u64, position: &Announcement, out: &mut Vec<Envelope>)
        requires
            old(self).wf(),
            claim::author(position@.walk) == old(self)@.key,
        ensures
            final(self).wf(),
            final(self)@ == old(self)@.announced(now, position@.walk).node,
            message::posted(final(out)@) == message::posted(old(out)@) + old(self)@.announced(
                now,
                position@.walk,
            ).out,
    {
        // Saturating rather than wrapping: sequence numbers only mean anything
        // while they increase, and reissues make them climb with the clock
        // rather than only with topology. The ceiling is unreachable, but a
        // node stuck at it going quiet beats one that starts over at zero.
        let seq = self.announcement.seq().saturating_add(1);
        let _ = position.path();
        self.announcement = position.with_seq(seq);
        self.announced_at = now;
        self.gossip(&self.announcement, None, out);
    }

    /// The most preferred position available: below some peer, or self-rooted.
    fn best_position(&self) -> (best: Announcement)
        requires
            self.wf(),
        ensures
            best@.walk == self@.best_position(),
            self@.is_best_position(best@.walk),
            claim::author(best@.walk) == self@.key,
    {
        // The sequence number is irrelevant to the comparison; the caller
        // stamps the winner with the right one.
        let seq = self.announcement.seq();
        let ghost listed = sorted_map::ascending(self.peers@);
        let ghost alone = claim::rooted(self.key);
        let mut best = Announcement::root_of(self.key, seq);
        let mut i: usize = 0;
        while i < self.peers.len()
            invariant
                self.wf(),
                listed == sorted_map::ascending(self.peers@),
                alone == claim::rooted(self.key),
                0 <= i <= listed.len(),
                self@.on_offer(best@.walk),
                best@.walk.len() > 0,
                best@.walk == alone || claim::preferred(best@.walk, alone),
                forall|j: int|
                    0 <= j < i ==> (self@.candidate((#[trigger] listed[j]).0) matches Some(other)
                        ==> other == best@.walk || claim::preferred(best@.walk, other)),
                claim::author(best@.walk) == self@.key,
            decreases listed.len() - i,
        {
            let peer = self.peers.key_at(i);
            let cost = *self.peers.value_at(i);
            let ghost was = best@.walk;
            if let Some(info) = self.info(&peer) {
                if let Some(candidate) = info.extend(self.key, cost, seq) {
                    assert(self@.candidate(peer) == Some(candidate@.walk));
                    let standing = candidate.preference(&best);
                    proof {
                        claim::law_preference_never_ties(candidate@.walk, was);
                    }
                    if standing == Standing::Before {
                        best = candidate;
                        proof {
                            if was != alone {
                                claim::law_preference_is_transitive(best@.walk, was, alone);
                            }
                            assert forall|j: int| 0 <= j < i implies (self@.candidate(
                                (#[trigger] listed[j]).0,
                            ) matches Some(other) ==> other == best@.walk || claim::preferred(
                                best@.walk,
                                other,
                            )) by {
                                if let Some(other) = self@.candidate(listed[j].0) {
                                    if other != was {
                                        claim::law_preference_is_transitive(
                                            best@.walk,
                                            was,
                                            other,
                                        );
                                    }
                                }
                            }
                        }
                    }
                }
            }
            i += 1;
        }
        proof {
            self.peers.lemma_is_listed();
            assert forall|other: Seq<Hop>| #[trigger] self@.on_offer(other) implies other
                == best@.walk || claim::preferred(best@.walk, other) by {
                if other != alone {
                    let peer = choose|peer: PublicKey| #[trigger]
                        self@.candidate(peer) == Some(other);
                    let j = sorted_map::lemma_mapped_key_is_listed(listed, peer);
                    assert(self@.candidate(listed[j].0) == Some(other));
                }
            }
            assert(self@.is_best_position(best@.walk));
            self@.lemma_best_position_is_unique(best@.walk, self@.best_position());
        }
        best
    }

    /// Reconsiders which peer to sit below, announcing the move if it changed.
    fn reparent(&mut self, now: u64, out: &mut Vec<Envelope>)
        requires
            old(self).wf(),
        ensures
            final(self).wf(),
            final(self)@ == old(self)@.reparented(now).node,
            message::posted(final(out)@) == message::posted(old(out)@) + old(self)@.reparented(
                now,
            ).out,
            final(self)@.is_at_rest(),
    {
        proof {
            self.lemma_is_listed();
            reach::law_reparenting_puts_a_node_at_rest(self@, now);
        }
        let best = self.best_position();
        if !best.same_path(&self.announcement) {
            self.announce(now, &best, out);
        } else {
            assert(message::posted(out@) =~= message::posted(old(out)@) + Seq::empty());
        }
    }

    /// Moves this node's clock to `now`, expiring and reissuing state.
    ///
    /// Three things happen, in that order. Announcements not heard again within
    /// [`Timing::expiry`] are forgotten, which is how a node that vanished
    /// stops being remembered as a route to nowhere. Losing them may have cost
    /// this node its parent, so it reconsiders where it sits. Finally, if its
    /// own announcement has stood for [`Timing::refresh`] without being
    /// reissued, it reissues it, which is what stops peers forgetting *it*.
    ///
    /// This is the only method that involves the passage of time, and a node
    /// that is never ticked behaves exactly as though it did not exist.
    pub fn tick(&mut self, now: u64) -> (out: Vec<Envelope>)
        requires
            old(self).wf(),
        ensures
            final(self).wf(),
            final(self)@ == old(self)@.ticked(now).node,
            message::posted(out@) == old(self)@.ticked(now).out,
            final(self)@.is_at_rest(),
    {
        proof {
            self.lemma_is_listed();
            reach::lemma_ticking_rests(self@, now);
        }
        let mut out: Vec<Envelope> = Vec::new();
        let expiry = self.timing.expiry;
        self.infos.forget_stale(now, expiry);
        let ghost kept = self@;
        self.reparent(now, &mut out);
        assert(message::posted(out@) =~= kept.reparented(now).out);
        if now.saturating_sub(self.announced_at) >= self.timing.refresh {
            let unchanged = self.announcement.clone();
            self.announce(now, &unchanged, &mut out);
        }
        assert(message::posted(out@) =~= old(self)@.ticked(now).out);
        out
    }

    /// Sends `peer` everything this node knows.
    fn greet(&self, peer: PublicKey, out: &mut Vec<Envelope>)
        requires
            self.in_order(),
        ensures
            message::posted(final(out)@) == message::posted(old(out)@) + self@.greeting(peer),
    {
        let ghost listed = sorted_map::ascending(self.infos@);
        let ghost own = EnvelopeView {
            to: peer,
            message: MessageView::Announce(self.announcement@),
        };
        let ghost address = |entry: (PublicKey, InfoView)|
            EnvelopeView { to: peer, message: MessageView::Announce(entry.1.claim) };
        let ghost before = message::posted(out@);
        post(out, peer, Message::Announce(self.announcement.clone()));
        let mut i: usize = 0;
        assert(message::posted(out@) =~= before + (seq![own] + listed.take(0).map_values(
            address,
        )));
        while i < self.infos.len()
            invariant
                self.in_order(),
                listed == sorted_map::ascending(self.infos@),
                address == (|entry: (PublicKey, InfoView)|
                    EnvelopeView { to: peer, message: MessageView::Announce(entry.1.claim) }),
                0 <= i <= listed.len(),
                message::posted(out@) == before + (seq![own] + listed.take(i as int).map_values(
                    address,
                )),
            decreases listed.len() - i,
        {
            post(out, peer, Message::Announce(self.infos.value_at(i).announcement.clone()));
            assert(listed.take(i + 1).map_values(address) =~= listed.take(i as int).map_values(
                address,
            ).push(address(listed[i as int])));
            assert(message::posted(out@) =~= before + (seq![own] + listed.take(i + 1).map_values(
                address,
            )));
            i += 1;
        }
        assert(listed.take(i as int) =~= listed);
    }

    /// Brings up a link to `peer`, costing `cost` to cross.
    ///
    /// The new peer is sent everything this node knows, which is what makes a
    /// fresh link converge without any separate handshake.
    ///
    /// Calling this for a link that is already up re-prices it instead, which
    /// is how a caller that keeps measuring its links reports what it found.
    /// Nothing is resent: the peer already has everything, and what changed is
    /// only this node's own view of what reaching it costs.
    pub fn add_peer(&mut self, now: u64, peer: PublicKey, cost: Cost) -> (out: Vec<Envelope>)
        requires
            old(self).wf(),
        ensures
            final(self).wf(),
            final(self)@ == old(self)@.peer_added(now, peer, cost@).node,
            message::posted(out@) == old(self)@.peer_added(now, peer, cost@).out,
            old(self)@.is_at_rest() ==> final(self)@.is_at_rest(),
    {
        let mut out: Vec<Envelope> = Vec::new();
        assert(message::posted(out@) =~= Seq::empty());
        if peer == self.key {
            return out;
        }
        let price = cost.get();
        match self.peers.get(&peer) {
            Some(previous) => {
                if previous.get() == price {
                    return out;
                }
            },
            None => {
                self.greet(peer, &mut out);
            },
        }
        let ghost greeted = message::posted(out@);
        self.peers.insert(peer, cost);
        let ghost linked = self@;
        assert(linked.wf());
        self.reparent(now, &mut out);
        assert(message::posted(out@) =~= greeted + linked.reparented(now).out);
        assert(message::posted(out@) =~= old(self)@.peer_added(now, peer, cost@).out);
        out
    }

    /// Tears down the link to `peer`.
    ///
    /// What this node learned *through* `peer` is not withdrawn here, because
    /// it cannot tell which of those routes were only reachable that way. Those
    /// announcements are left to expire on their own, which is what
    /// [`tick`](Self::tick) is for. Until they do, routing towards a departed
    /// node fails by dropping the packet at the dead end.
    pub fn remove_peer(&mut self, now: u64, peer: PublicKey) -> (out: Vec<Envelope>)
        requires
            old(self).wf(),
        ensures
            final(self).wf(),
            final(self)@ == old(self)@.peer_removed(now, peer).node,
            message::posted(out@) == old(self)@.peer_removed(now, peer).out,
            old(self)@.is_at_rest() ==> final(self)@.is_at_rest(),
    {
        let mut out: Vec<Envelope> = Vec::new();
        assert(message::posted(out@) =~= Seq::empty());
        if self.peers.remove(&peer) {
            self.reparent(now, &mut out);
        } else {
            assert(self@.peers =~= old(self)@.peers);
        }
        assert(message::posted(out@) =~= old(self)@.peer_removed(now, peer).out);
        out
    }

    fn receive_announce(
        &mut self,
        now: u64,
        from: PublicKey,
        announcement: Announcement,
        out: &mut Vec<Envelope>,
    )
        requires
            old(self).wf(),
        ensures
            final(self).wf(),
            final(self)@ == old(self)@.told(now, from, announcement@).node,
            message::posted(final(out)@) == message::posted(old(out)@) + old(self)@.told(
                now,
                from,
                announcement@,
            ).out,
            old(self)@.is_at_rest() ==> final(self)@.is_at_rest(),
    {
        let author = announcement.author();
        assert(message::posted(out@) =~= message::posted(old(out)@) + Seq::empty());
        // A node is the only authority on where it sits, so an announcement
        // about ourselves is at best a stale echo of our own.
        if author == self.key {
            return;
        }
        if let Some(known) = self.info(&author) {
            if !announcement.supersedes(known) {
                return;
            }
        }
        // Only news travels. Gossip therefore terminates: each hop strictly
        // advances some author's announcement, and that cannot rise forever.
        self.gossip(&announcement, Some(from), out);
        // Only an announcement that was accepted restarts the expiry clock. A
        // repeat of one already held is not evidence its author is still there,
        // and treating it as such would let an echo keep a dead node alive.
        self.infos.insert(author, Info { announcement, heard_at: now });
        let ghost kept = self@;
        assert(kept.wf());
        self.reparent(now, out);
        assert(message::posted(out@) =~= message::posted(old(out)@) + old(self)@.told(
            now,
            from,
            announcement@,
        ).out);
    }

    /// The peer to hand a packet for `dst` to, if any is worth handing it to.
    ///
    /// Only a peer strictly closer to the destination than this node qualifies.
    /// Requiring strict progress is what makes forwarding loop-free without any
    /// per-packet state: distance to the destination falls at every hop and
    /// cannot fall below zero, so a packet either arrives or is dropped.
    ///
    /// Among the peers that qualify, the cheapest wins: the link's own cost
    /// plus the walk left after crossing it. That sum is exactly what the
    /// packet pays if it follows the tree from there, so it is an upper bound
    /// on the real price, and weighing it is what stops a node posting a packet
    /// down an expensive shortcut to save one cheap hop.
    fn next_hop(&self, dst: &PublicKey) -> (hop: Option<PublicKey>)
        requires
            self.wf(),
        ensures
            hop == self@.next_hop(*dst),
    {
        let dst_path = match self.info(dst) {
            Some(info) => info.path(),
            None => {
                return None;
            },
        };
        let here = distance(self.announcement.path(), dst_path);
        let ghost there = dst_path@;
        let ghost listed = sorted_map::ascending(self.peers@);
        let mut best: Option<(u64, PublicKey)> = None;
        let mut i: usize = 0;
        proof {
            self.peers.lemma_is_listed();
        }
        while i < self.peers.len()
            invariant
                self.wf(),
                there == dst_path@,
                here == claim::separation(self@.claim.walk, there),
                listed == sorted_map::ascending(self.peers@),
                sorted_map::sorted(listed),
                0 <= i <= listed.len(),
                match best {
                    None => forall|j: int|
                        0 <= j < i ==> !self@.is_closer((#[trigger] listed[j]).0, there),
                    Some((total, peer)) => {
                        &&& self@.is_closer(peer, there)
                        &&& total == self@.price_through(peer, there)
                        &&& forall|j: int|
                            i <= j < listed.len() ==> peer.rank() < (#[trigger] listed[j]).0.rank()
                        &&& forall|j: int|
                            0 <= j < i && self@.is_closer((#[trigger] listed[j]).0, there) ==> {
                                ||| total < self@.price_through(listed[j].0, there)
                                ||| total == self@.price_through(listed[j].0, there) && peer.rank()
                                    <= listed[j].0.rank()
                            }
                    },
                },
            decreases listed.len() - i,
        {
            let peer = self.peers.key_at(i);
            let cost = *self.peers.value_at(i);
            if let Some(info) = self.info(&peer) {
                let remaining = distance(info.path(), dst_path);
                if remaining < here {
                    let total = cost.get().saturating_add(remaining);
                    assert(self@.is_closer(peer, there));
                    assert(total == self@.price_through(peer, there));
                    let better = match best {
                        Some((cheapest, _)) => total < cheapest,
                        None => true,
                    };
                    if better {
                        best = Some((total, peer));
                    }
                }
            }
            assert forall|j: int| i < j < listed.len() implies listed[i as int].0.rank() < (
            #[trigger] listed[j]).0.rank() by {}
            i += 1;
        }
        match best {
            Some((_, peer)) => {
                proof {
                    assert forall|other: PublicKey| #[trigger]
                        self@.is_closer(other, there) implies {
                        ||| self@.price_through(peer, there) < self@.price_through(other, there)
                        ||| self@.price_through(peer, there) == self@.price_through(other, there)
                            && peer.rank() <= other.rank()
                    } by {
                        let j = sorted_map::lemma_mapped_key_is_listed(listed, other);
                        assert(self@.is_closer(listed[j].0, there));
                    }
                    assert(self@.is_next_hop(peer, there));
                    self@.lemma_next_hop_is_unique(peer, self@.next_hop(*dst)->0, there);
                }
                Some(peer)
            },
            None => {
                proof {
                    if exists|peer: PublicKey| self@.is_next_hop(peer, there) {
                        let peer = choose|peer: PublicKey| self@.is_next_hop(peer, there);
                        let j = sorted_map::lemma_mapped_key_is_listed(listed, peer);
                        assert(self@.is_closer(listed[j].0, there));
                    }
                }
                None
            },
        }
    }

    fn forward(&mut self, packet: Packet, out: &mut Vec<Envelope>)
        requires
            old(self).wf(),
        ensures
            final(self).wf(),
            final(self)@ == old(self)@.forwarded(packet@).node,
            message::posted(final(out)@) == message::posted(old(out)@) + old(self)@.forwarded(
                packet@,
            ).out,
            old(self)@.is_at_rest() ==> final(self)@.is_at_rest(),
    {
        assert(message::posted(out@) =~= message::posted(old(out)@) + Seq::empty());
        if packet.dst == self.key {
            self.delivered.push(packet);
            assert(self@.delivered =~= old(self)@.delivered.push(packet@));
            proof {
                if old(self)@.is_at_rest() {
                    reach::lemma_rest_carries_over(old(self)@, self@);
                }
            }
            return;
        }
        // Without a next hop this is a dead end, and the packet is dropped.
        if let Some(peer) = self.next_hop(&packet.dst) {
            post(out, peer, Message::Packet(packet));
            assert(message::posted(out@) =~= message::posted(old(out)@) + old(self)@.forwarded(
                packet@,
            ).out);
        }
    }

    /// Hands this node a `message` that arrived from `from`.
    ///
    /// Messages from a node that is not a peer are ignored.
    pub fn handle(&mut self, now: u64, from: PublicKey, message: Message) -> (out: Vec<Envelope>)
        requires
            old(self).wf(),
        ensures
            final(self).wf(),
            final(self)@ == old(self)@.handled(now, from, message@).node,
            message::posted(out@) == old(self)@.handled(now, from, message@).out,
            old(self)@.is_at_rest() ==> final(self)@.is_at_rest(),
    {
        let mut out: Vec<Envelope> = Vec::new();
        assert(message::posted(out@) =~= Seq::empty());
        if !self.peers.contains_key(&from) {
            return out;
        }
        let ghost said = message@;
        match message {
            Message::Announce(announcement) => {
                self.receive_announce(now, from, announcement, &mut out)
            },
            Message::Packet(packet) => self.forward(packet, &mut out),
        }
        assert(message::posted(out@) =~= old(self)@.handled(now, from, said).out);
        out
    }

    /// Originates a packet addressed to `dst`.
    pub fn send(&mut self, dst: PublicKey, payload: Vec<u8>) -> (sent: Result<
        Vec<Envelope>,
        SendError,
    >)
        requires
            old(self).wf(),
        ensures
            final(self).wf(),
            final(self)@ == old(self)@.sent(dst, payload@).0,
            match old(self)@.sent(dst, payload@).1 {
                Ok(expected) => sent matches Ok(out) && message::posted(out@) == expected,
                Err(error) => sent == Err::<Vec<Envelope>, SendError>(error),
            },
            old(self)@.is_at_rest() ==> final(self)@.is_at_rest(),
    {
        let packet = Packet { src: self.key, dst, payload };
        let mut out: Vec<Envelope> = Vec::new();
        assert(message::posted(out@) =~= Seq::empty());
        if dst == self.key {
            self.delivered.push(packet);
            assert(self@.delivered =~= old(self)@.delivered.push(packet@));
            proof {
                if old(self)@.is_at_rest() {
                    reach::lemma_rest_carries_over(old(self)@, self@);
                }
            }
            return Ok(out);
        }
        let peer = match self.next_hop(&dst) {
            Some(peer) => peer,
            None => {
                return Err(SendError::NoRoute);
            },
        };
        post(&mut out, peer, Message::Packet(packet));
        proof {
            if let Ok(expected) = old(self)@.sent(dst, payload@).1 {
                assert(message::posted(out@) =~= expected);
            }
        }
        Ok(out)
    }
}

} // verus!
