//! What each event does to a routing node, and what it leaves alone.

use vstd::prelude::*;
use crate::cost::Cost;
use crate::key::PublicKey;
use crate::routing::bargain;
use crate::routing::bargain::{Consent, Hop};
use crate::routing::laws;
use crate::routing::message;
use crate::routing::message::{
    EnvelopeView, FoundView, LookupView, MessageView, Nonce, PacketView, TrafficView,
};
use crate::routing::model;
use crate::routing::model::{InfoView, NodeView, PeerView, Step};
use crate::routing::node::{Eviction, Fault, Info, Pending, SendError, Timing};
use crate::routing::reach;
use crate::signature::Signer;
use crate::sorted_map;
use crate::sorted_map::Ranked;
use crate::summary;

verus! {

/// A packet is handed to a linked peer strictly closer to where it is going,
/// and no other such peer is on a cheaper way there, counting the link to it
/// and the walk left after it; of equally cheap ones it is the smallest key.
pub proof fn law_a_packet_takes_the_cheapest_way_on<S: Signer>(
    node: NodeView<S>,
    dst: Seq<Hop>,
    peer: PublicKey,
    other: PublicKey,
)
    requires
        node.next_hop(dst) == Some(peer),
        node.peers.contains_key(other),
        node.infos.contains_key(other),
        bargain::separation(node.infos[other].walk, dst) < bargain::separation(node.walk, dst),
    ensures
        node.peers.contains_key(peer),
        node.infos.contains_key(peer),
        bargain::separation(node.infos[peer].walk, dst) < bargain::separation(node.walk, dst),
        ({
            let this = node.peers[peer].cost.value() + bargain::separation(
                node.infos[peer].walk,
                dst,
            );
            let that = node.peers[other].cost.value() + bargain::separation(
                node.infos[other].walk,
                dst,
            );
            let this = if this <= u64::MAX { this } else { u64::MAX as int };
            let that = if that <= u64::MAX { that } else { u64::MAX as int };
            this < that || this == that && peer.rank() <= other.rank()
        }),
{
    assert(node.is_next_hop(peer, dst));
    assert(node.is_closer(other, dst));
}

/// There is somebody to hand a packet to exactly where some linked peer is
/// known to sit strictly closer to where it is going.
pub proof fn law_a_packet_goes_on_while_anybody_is_closer<S: Signer>(
    node: NodeView<S>,
    dst: Seq<Hop>,
)
    requires
        sorted_map::is_listed(node.peers),
    ensures
        node.next_hop(dst) is Some <==> exists|peer: PublicKey|
            #[trigger] node.peers.contains_key(peer) && node.infos.contains_key(peer)
                && bargain::separation(node.infos[peer].walk, dst) < bargain::separation(
                node.walk,
                dst,
            ),
{
    if let Some(peer) = node.next_hop(dst) {
        assert(node.is_next_hop(peer, dst));
        assert(node.peers.contains_key(peer));
    }
    if exists|peer: PublicKey|
        #[trigger] node.peers.contains_key(peer) && node.infos.contains_key(peer)
            && bargain::separation(node.infos[peer].walk, dst) < bargain::separation(
            node.walk,
            dst,
        ) {
        let peer = choose|peer: PublicKey|
            #[trigger] node.peers.contains_key(peer) && node.infos.contains_key(peer)
                && bargain::separation(node.infos[peer].walk, dst) < bargain::separation(
                node.walk,
                dst,
            );
        laws::law_a_closer_peer_is_a_next_hop(node, dst, peer);
    }
}

/// Sending a packet to oneself delivers it; to anybody whose position is not
/// held fails as unknown; to anybody nobody is closer to fails for want of a
/// route; and otherwise puts it, whole and under the position held, in one
/// envelope to the peer it takes next. Nothing else changes.
pub proof fn law_a_sent_packet_sets_out_whole<S: Signer>(
    node: NodeView<S>,
    dst: PublicKey,
    payload: Seq<u8>,
)
    ensures
        ({
            let (after, sent) = node.sent(dst, payload);
            let packet = PacketView { src: node.key, dst, payload };
            &&& dst == node.key ==> after == (NodeView {
                delivered: node.delivered.push(packet),
                ..node
            }) && sent == Ok::<Seq<EnvelopeView>, SendError>(Seq::empty())
            &&& dst != node.key ==> after == node
            &&& dst != node.key && !node.infos.contains_key(dst) ==> sent == Err::<
                Seq<EnvelopeView>,
                SendError,
            >(SendError::Unknown)
            &&& dst != node.key && node.infos.contains_key(dst) ==> match node.next_hop(
                node.infos[dst].walk,
            ) {
                None => sent == Err::<Seq<EnvelopeView>, SendError>(SendError::NoRoute),
                Some(peer) => sent matches Ok(out) && out.len() == 1 && out[0].to == peer
                    && out[0].message == MessageView::Traffic(
                    TrafficView { dst_path: node.infos[dst].walk, packet },
                ),
            }
        }),
{
}

/// Traffic handed over by a peer is delivered where it is addressed, and
/// otherwise goes on as it came to the peer it takes next, or is dropped where
/// there is none.
pub proof fn law_traffic_is_delivered_or_passed_on_whole<S: Signer>(
    node: NodeView<S>,
    now: u64,
    from: PublicKey,
    traffic: TrafficView,
)
    requires
        node.peers.contains_key(from),
    ensures
        ({
            let step = node.handled(now, from, MessageView::Traffic(traffic));
            &&& traffic.packet.dst == node.key ==> step.out.len() == 0 && step.node == (NodeView {
                delivered: node.delivered.push(traffic.packet),
                ..node
            })
            &&& traffic.packet.dst != node.key ==> step.node == node && match node.next_hop(
                traffic.dst_path,
            ) {
                None => step.out.len() == 0,
                Some(peer) => step.out.len() == 1 && step.out[0].to == peer && step.out[0].message
                    == MessageView::Traffic(traffic),
            }
        }),
{
}

/// Settling touches where a node sits and what it has told its peers, and
/// nothing else that it holds.
proof fn lemma_settling_leaves_the_rest<S: Signer>(node: NodeView<S>, now: u64)
    ensures
        ({
            let after = node.settled(now).node;
            &&& after.signer == node.signer
            &&& after.key == node.key
            &&& after.timing == node.timing
            &&& after.infos == node.infos
            &&& after.pending == node.pending
            &&& after.delivered == node.delivered
            &&& after.evicted == node.evicted
            &&& after.peers.dom() == node.peers.dom()
            &&& forall|peer: PublicKey| #[trigger]
                node.peers.contains_key(peer) ==> after.peers[peer].cost == node.peers[peer].cost
                    && after.peers[peer].beyond == node.peers[peer].beyond
                    && after.peers[peer].consent == node.peers[peer].consent
        }),
{
    let after = node.settled(now).node;
    assert(after.peers.dom() =~= node.peers.dom());
}

/// Whether two nodes agree on everything they were told and asked: whom they
/// are, what they hold of others, and what has come to them.
pub open spec fn have_heard_the_same<S: Signer>(a: NodeView<S>, b: NodeView<S>) -> bool {
    &&& a.signer == b.signer
    &&& a.key == b.key
    &&& a.timing == b.timing
    &&& a.infos == b.infos
    &&& a.pending == b.pending
    &&& a.delivered == b.delivered
    &&& a.evicted == b.evicted
}

/// A link that comes up, or is measured again, is held at the cost just given,
/// whatever it cost before. What the peer has said over it stays, a new link
/// starts with nothing said, and nobody else's link is touched.
pub proof fn law_a_link_is_held_at_its_latest_cost<S: Signer>(
    node: NodeView<S>,
    now: u64,
    peer: PublicKey,
    cost: Cost,
    other: PublicKey,
)
    requires
        peer != node.key,
    ensures
        ({
            let after = node.peer_added(now, peer, cost).node;
            &&& after.peers.contains_key(peer)
            &&& after.peers[peer].cost == cost
            &&& node.peers.contains_key(peer) ==> after.peers[peer].beyond
                == node.peers[peer].beyond && after.peers[peer].consent == node.peers[peer].consent
            &&& !node.peers.contains_key(peer) ==> after.peers[peer].beyond == Set::<int>::empty()
                && after.peers[peer].consent is None
            &&& other != peer ==> (after.peers.contains_key(other) <==> node.peers.contains_key(
                other,
            ))
            &&& other != peer && node.peers.contains_key(other) ==> after.peers[other].cost
                == node.peers[other].cost && after.peers[other].beyond == node.peers[other].beyond
                && after.peers[other].consent == node.peers[other].consent
            &&& have_heard_the_same(after, node)
        }),
{
    let state = if node.peers.contains_key(peer) {
        PeerView { cost, ..node.peers[peer] }
    } else {
        PeerView { cost, beyond: Set::empty(), told: None, consent: None }
    };
    let linked = NodeView { peers: node.peers.insert(peer, state), ..node };
    lemma_settling_leaves_the_rest(linked, now);
    let after = node.peer_added(now, peer, cost).node;
    if !(node.peers.contains_key(peer) && node.peers[peer].cost == cost) {
        assert(after == linked.settled(now).node);
        assert(after.peers.dom().contains(peer));
        assert(after.peers.dom().contains(other) <==> linked.peers.dom().contains(other));
        assert(linked.peers.contains_key(peer));
        if linked.peers.contains_key(other) {
            assert(after.peers.contains_key(other));
        }
    }
}

/// A peer is offered leave to sit below this node, at what the link costs, when
/// the link comes up and whenever that changes. A new one is first told where
/// this node sits. Linking to oneself, or again at the same cost, says and
/// changes nothing.
pub proof fn law_a_link_is_greeted_and_priced<S: Signer>(
    node: NodeView<S>,
    now: u64,
    peer: PublicKey,
    cost: Cost,
)
    ensures
        ({
            let step = node.peer_added(now, peer, cost);
            let offer = EnvelopeView {
                to: peer,
                message: MessageView::Consent(bargain::issued(node.signer, peer, cost)),
            };
            let known = node.peers.contains_key(peer);
            &&& peer == node.key || known && node.peers[peer].cost == cost ==> step == node.still()
            &&& peer != node.key && known && node.peers[peer].cost != cost ==> step.out.len() > 0
                && step.out[0] == offer
            &&& peer != node.key && !known ==> step.out.len() > 1 && step.out[0] == (EnvelopeView {
                to: peer,
                message: MessageView::Announce(node.walk),
            }) && step.out[1] == offer
        }),
{
}

/// Tearing a link down lets go of that peer and of no other, and of nothing
/// that anybody has said.
pub proof fn law_a_link_torn_down_is_gone<S: Signer>(
    node: NodeView<S>,
    now: u64,
    peer: PublicKey,
    other: PublicKey,
)
    ensures
        ({
            let after = node.peer_removed(now, peer).node;
            &&& !after.peers.contains_key(peer)
            &&& other != peer ==> (after.peers.contains_key(other) <==> node.peers.contains_key(
                other,
            ))
            &&& other != peer && node.peers.contains_key(other) ==> after.peers[other].cost
                == node.peers[other].cost && after.peers[other].beyond == node.peers[other].beyond
                && after.peers[other].consent == node.peers[other].consent
            &&& have_heard_the_same(after, node)
            &&& !node.peers.contains_key(peer) ==> node.peer_removed(now, peer) == node.still()
        }),
{
    let cut = NodeView { peers: node.peers.remove(peer), ..node };
    lemma_settling_leaves_the_rest(cut, now);
    let after = node.peer_removed(now, peer).node;
    if node.peers.contains_key(peer) {
        assert(after.peers.dom().contains(other) <==> cut.peers.dom().contains(other));
        assert(after.peers.dom().contains(peer) <==> cut.peers.dom().contains(peer));
        if cut.peers.contains_key(other) {
            assert(after.peers.contains_key(other));
        }
    }
}

/// Being given leave to sit below a peer is remembered of that peer, and is all
/// that is.
pub proof fn law_leave_given_is_remembered<S: Signer>(
    node: NodeView<S>,
    now: u64,
    from: PublicKey,
    consent: Consent,
    other: PublicKey,
)
    requires
        node.peers.contains_key(from),
        consent.given_by() == from,
        consent.given_to() == node.key,
    ensures
        ({
            let after = node.handled(now, from, MessageView::Consent(consent)).node;
            &&& after.peers.contains_key(from)
            &&& after.peers[from].consent == Some(consent)
            &&& after.peers[from].cost == node.peers[from].cost
            &&& after.peers[from].beyond == node.peers[from].beyond
            &&& other != from ==> (after.peers.contains_key(other) <==> node.peers.contains_key(
                other,
            ))
            &&& other != from && node.peers.contains_key(other) ==> after.peers[other].consent
                == node.peers[other].consent && after.peers[other].cost == node.peers[other].cost
                && after.peers[other].beyond == node.peers[other].beyond
            &&& have_heard_the_same(after, node)
        }),
{
    let state = PeerView { consent: Some(consent), ..node.peers[from] };
    let agreed = NodeView { peers: node.peers.insert(from, state), ..node };
    lemma_settling_leaves_the_rest(agreed, now);
    let after = node.handled(now, from, MessageView::Consent(consent)).node;
    if node.peers[from].consent != Some(consent) {
        assert(after.peers.dom().contains(other) <==> agreed.peers.dom().contains(other));
        assert(after.peers.dom().contains(from));
        assert(agreed.peers.contains_key(from));
        if agreed.peers.contains_key(other) {
            assert(after.peers.contains_key(other));
        }
    }
}

/// What a peer says lies beyond it replaces what it said before, and is all
/// that changes of what was said.
pub proof fn law_what_lies_beyond_is_remembered<S: Signer>(
    node: NodeView<S>,
    now: u64,
    from: PublicKey,
    beyond: Set<int>,
    other: PublicKey,
)
    requires
        node.peers.contains_key(from),
    ensures
        ({
            let after = node.handled(now, from, MessageView::Summary(beyond)).node;
            &&& after.peers.contains_key(from)
            &&& after.peers[from].beyond == beyond
            &&& after.peers[from].cost == node.peers[from].cost
            &&& after.peers[from].consent == node.peers[from].consent
            &&& other != from ==> (after.peers.contains_key(other) <==> node.peers.contains_key(
                other,
            ))
            &&& other != from && node.peers.contains_key(other) ==> after.peers[other].beyond
                == node.peers[other].beyond && after.peers[other].cost == node.peers[other].cost
                && after.peers[other].consent == node.peers[other].consent
            &&& have_heard_the_same(after, node)
        }),
{
    let state = PeerView { beyond, ..node.peers[from] };
    let told = NodeView { peers: node.peers.insert(from, state), ..node };
    lemma_settling_leaves_the_rest(told, now);
    let after = node.handled(now, from, MessageView::Summary(beyond)).node;
    if node.peers[from].beyond != beyond {
        assert(after.peers.dom().contains(other) <==> told.peers.dom().contains(other));
        assert(after.peers.dom().contains(from));
        assert(told.peers.contains_key(from));
        if told.peers.contains_key(other) {
            assert(after.peers.contains_key(other));
        }
    }
}

/// A peer that says something no honest node could is dropped for what it said:
/// for speaking of another, for a forged position, for leave that is not its to
/// give or not this node's to have, or for an answer that does not hold
/// together. Nobody else is, and nothing it said is kept.
pub proof fn law_a_liar_is_dropped_for_the_lie<S: Signer>(
    node: NodeView<S>,
    now: u64,
    from: PublicKey,
    message: MessageView,
    fault: Fault,
    other: PublicKey,
)
    requires
        node.peers.contains_key(from),
        match message {
            MessageView::Announce(position) => if bargain::author(position) != from {
                fault == Fault::AnnouncementAboutAnother
            } else {
                fault == Fault::ForgedAnnouncement && from != node.key
                    && !bargain::checks_out::<S>(position) && (node.infos.contains_key(from)
                    ==> bargain::supersedes(position, node.infos[from].walk))
            },
            MessageView::Consent(consent) => fault == Fault::MisdirectedConsent && (
            consent.given_by() != from || consent.given_to() != node.key),
            MessageView::Found(found) => fault == Fault::ForgedAnswer && !message::vouched_for::<S>(
                found,
            ) && found.trail.len() > 0 && found.trail.last() == node.key && (
            if found.trail.len() == 1 {
                node.pending.contains_key(found.nonce) && node.pending[found.nonce].target
                    == bargain::author(found.walk)
            } else {
                node.peers.contains_key(found.trail[found.trail.len() - 2])
            }),
            _ => false,
        },
    ensures
        ({
            let after = node.handled(now, from, message).node;
            &&& !after.peers.contains_key(from)
            &&& after.evicted == node.evicted.push(Eviction { peer: from, fault })
            &&& other != from ==> (after.peers.contains_key(other) <==> node.peers.contains_key(
                other,
            ))
            &&& after.infos == node.infos
            &&& after.pending == node.pending
            &&& after.delivered == node.delivered
        }),
{
    let cut = NodeView {
        peers: node.peers.remove(from),
        evicted: node.evicted.push(Eviction { peer: from, fault }),
        ..node
    };
    lemma_settling_leaves_the_rest(cut, now);
    let after = node.handled(now, from, message).node;
    if let MessageView::Found(found) = message {
        assert(found.trail.drop_last().len() == found.trail.len() - 1);
        if found.trail.len() > 1 {
            assert(found.trail.drop_last().last() == found.trail[found.trail.len() - 2]);
        }
    }
    assert(after == node.peer_evicted(now, from, fault).node);
    assert(after == cut.settled(now).node);
    assert(after.peers.dom().contains(other) <==> cut.peers.dom().contains(other));
    assert(after.peers.dom().contains(from) <==> cut.peers.dom().contains(from));
}

/// A peer's own word on where it sits is filed, dated now, if it checks out and
/// is later than what was held; anything that is not later changes nothing.
pub proof fn law_a_later_word_is_filed<S: Signer>(
    node: NodeView<S>,
    now: u64,
    from: PublicKey,
    position: Seq<Hop>,
    other: PublicKey,
)
    requires
        node.peers.contains_key(from),
        from != node.key,
        bargain::author(position) == from,
    ensures
        ({
            let step = node.handled(now, from, MessageView::Announce(position));
            let later = node.infos.contains_key(from) ==> bargain::supersedes(
                position,
                node.infos[from].walk,
            );
            &&& !later ==> step == node.still()
            &&& later && bargain::checks_out::<S>(position) ==> {
                &&& step.node.infos.contains_key(from)
                &&& step.node.infos[from].walk == position
                &&& step.node.infos[from].heard_at == now
                &&& other != from ==> (step.node.infos.contains_key(other)
                    <==> node.infos.contains_key(other)) && step.node.infos[other]
                    == node.infos[other]
                &&& step.node.peers.dom() == node.peers.dom()
                &&& step.node.pending == node.pending
                &&& step.node.delivered == node.delivered
                &&& step.node.evicted == node.evicted
            }
        }),
{
    lemma_settling_leaves_the_rest(node.keeping(now, position), now);
}

/// A tick forgets exactly the positions and the searches that are as old as the
/// expiry by then, and keeps every other as it was.
pub proof fn law_a_tick_forgets_exactly_what_is_too_old<S: Signer>(
    node: NodeView<S>,
    now: u64,
    key: PublicKey,
    nonce: Nonce,
)
    ensures
        ({
            let after = node.ticked(now).node;
            &&& after.infos.contains_key(key) <==> node.infos.contains_key(key) && now
                - node.infos[key].heard_at < node.timing.expiry && node.timing.expiry > 0
            &&& after.infos.contains_key(key) ==> after.infos[key] == node.infos[key]
            &&& after.pending.contains_key(nonce) <==> node.pending.contains_key(nonce) && now
                - node.pending[nonce].asked_at < node.timing.expiry && node.timing.expiry > 0
            &&& after.pending.contains_key(nonce) ==> after.pending[nonce] == node.pending[nonce]
            &&& after.peers.dom() == node.peers.dom()
            &&& after.delivered == node.delivered
            &&& after.evicted == node.evicted
        }),
{
    let kept = NodeView {
        infos: sorted_map::fresh_part::<PublicKey, Info>(node.infos, now, node.timing.expiry),
        pending: sorted_map::fresh_part::<Nonce, Pending>(node.pending, now, node.timing.expiry),
        ..node
    };
    lemma_settling_leaves_the_rest(kept, now);
}

/// An announcement that has stood for as long as the refresh is made again, one
/// stamp on; one that has not is left alone unless the node has to move.
pub proof fn law_an_announcement_is_reissued_when_due<S: Signer>(node: NodeView<S>, now: u64)
    requires
        node.is_at_rest(),
        reach::holds_only_fresh(node, now),
        node.timing.refresh > 0,
        node.walk.last().seq < u64::MAX,
    ensures
        ({
            let after = node.ticked(now).node;
            &&& now - node.announced_at >= node.timing.refresh ==> after.announced_at == now
                && after.walk.last().seq == node.walk.last().seq + 1 && forall|peer: PublicKey|
                #[trigger]
                node.peers.contains_key(peer) ==> node.ticked(now).out.contains(
                    EnvelopeView { to: peer, message: MessageView::Announce(after.walk) },
                )
            &&& now - node.announced_at < node.timing.refresh ==> after.walk == node.walk
                && after.announced_at == node.announced_at && node.ticked(now).out.len() == 0
        }),
{
    reach::law_time_disturbs_nobody(node, now);
    let fresh = bargain::restamped(node.walk, node.signer, node.next_seq());
    let waiting = NodeView {
        pending: sorted_map::fresh_part::<Nonce, Pending>(node.pending, now, node.timing.expiry),
        ..node
    };
    assert forall|peer: PublicKey| #[trigger] node.peers.contains_key(peer) implies waiting.announced(
        now,
        fresh,
    ).out.contains(EnvelopeView { to: peer, message: MessageView::Announce(fresh) }) by {
        lemma_every_peer_is_written_to(waiting, MessageView::Announce(fresh), peer);
    }
}

/// What is said to every peer is said to each.
proof fn lemma_every_peer_is_written_to<S: Signer>(
    node: NodeView<S>,
    message: MessageView,
    peer: PublicKey,
)
    requires
        sorted_map::is_listed(node.peers),
        node.peers.contains_key(peer),
    ensures
        node.to_every_peer(message).contains(EnvelopeView { to: peer, message }),
{
    let listed = sorted_map::ascending(node.peers);
    let i = sorted_map::lemma_mapped_key_is_listed(listed, peer);
    assert(node.to_every_peer(message)[i] == (EnvelopeView { to: peer, message }));
}

/// Whenever settling moves a node, it stamps the new position one on, dates it
/// now, and tells every peer; and when it does not, it announces nothing.
pub proof fn law_every_move_is_announced<S: Signer>(node: NodeView<S>, now: u64, peer: PublicKey)
    requires
        node.is_well_informed(),
        sorted_map::is_listed(node.peers),
    ensures
        ({
            let step = node.settled(now);
            let moved = bargain::keys(step.node.walk) != bargain::keys(node.walk)
                || bargain::prices(step.node.walk) != bargain::prices(node.walk);
            &&& moved && node.peers.contains_key(peer) ==> step.out.contains(
                EnvelopeView { to: peer, message: MessageView::Announce(step.node.walk) },
            )
            &&& moved ==> step.node.announced_at == now && step.node.walk.last().seq == (
            if node.walk.last().seq < u64::MAX {
                node.walk.last().seq + 1
            } else {
                u64::MAX as int
            })
            &&& !moved ==> step.node.walk == node.walk && step.node.announced_at
                == node.announced_at && forall|i: int|
                0 <= i < step.out.len() ==> (#[trigger] step.out[i]).message is Summary
        }),
{
    let seq = node.next_seq();
    let best = node.best_position(seq);
    laws::law_some_position_is_best(node, seq);
    let moved = node.reparented(now);
    let said = moved.node.resummarised();
    let step = node.settled(now);
    if !bargain::same_walk(best, node.walk) {
        if node.peers.contains_key(peer) {
            let message = MessageView::Announce(best);
            lemma_every_peer_is_written_to(node, message, peer);
            let i = choose|i: int|
                0 <= i < moved.out.len() && moved.out[i] == (EnvelopeView { to: peer, message });
            assert(step.out[i] == moved.out[i]);
        }
    } else {
        assert forall|i: int| 0 <= i < step.out.len() implies (
        #[trigger] step.out[i]).message is Summary by {
            assert(step.out[i] == said.out[i]);
        }
    }
}

/// Whenever settling changes what a tree neighbour is to be told lies beyond
/// this node, it is told; and nobody is told anything but that.
pub proof fn law_every_change_beyond_is_told<S: Signer>(
    node: NodeView<S>,
    now: u64,
    peer: PublicKey,
    at: int,
)
    requires
        node.is_well_informed(),
        sorted_map::is_listed(node.peers),
    ensures
        ({
            let step = node.settled(now);
            let told = step.node.peers[peer].told;
            &&& node.peers.contains_key(peer) && told is Some && told != node.peers[peer].told
                ==> step.out.contains(
                EnvelopeView { to: peer, message: MessageView::Summary(told->0) },
            )
            &&& 0 <= at < step.out.len() && step.out[at].message is Summary ==> {
                let to = step.out[at].to;
                &&& node.peers.contains_key(to)
                &&& step.node.peers[to].told == Some(step.out[at].message->Summary_0)
                &&& step.node.peers[to].told != node.peers[to].told
            }
        }),
{
    let moved = node.reparented(now);
    let base = moved.node;
    let said = base.resummarised();
    let step = node.settled(now);
    let listed = sorted_map::ascending(base.peers);
    let owed = |entry: (PublicKey, PeerView)| base.is_owed(entry);
    let picked = listed.filter(owed);
    assert(base.peers == node.peers);
    if node.peers.contains_key(peer) && step.node.peers[peer].told is Some
        && step.node.peers[peer].told != node.peers[peer].told {
        let i = sorted_map::lemma_mapped_key_is_listed(listed, peer);
        assert(owed(listed[i]));
        assert(picked.contains(listed[i]));
        let j = choose|j: int| 0 <= j < picked.len() && picked[j] == listed[i];
        assert(said.out[j] == (EnvelopeView {
            to: peer,
            message: MessageView::Summary(base.summary_beyond(peer)),
        }));
        assert(step.out[moved.out.len() + j] == said.out[j]);
    }
    if 0 <= at < step.out.len() && step.out[at].message is Summary {
        if at < moved.out.len() {
            assert(step.out[at] == moved.out[at]);
            assert(false);
        }
        let j = at - moved.out.len();
        assert(step.out[at] == said.out[j]);
        assert(owed(picked[j]));
        assert(picked.contains(picked[j]));
        let i = lemma_picked_from(listed, owed, j);
        sorted_map::lemma_entry_is_mapped(listed, i);
    }
}

/// Whatever is picked out of a sequence is somewhere in it.
proof fn lemma_picked_from<T>(entries: Seq<T>, keep: spec_fn(T) -> bool, at: int) -> (found: int)
    requires
        0 <= at < entries.filter(keep).len(),
    ensures
        0 <= found < entries.len(),
        entries[found] == entries.filter(keep)[at],
        keep(entries[found]),
    decreases entries.len(),
{
    reveal(Seq::filter);
    let head = entries.drop_last();
    if at < head.filter(keep).len() {
        lemma_picked_from(head, keep, at)
    } else {
        entries.len() - 1
    }
}

/// Of the peers in a sorted listing, the ones picked out are sorted too.
proof fn lemma_picked_in_order<V>(
    entries: Seq<(PublicKey, V)>,
    keep: spec_fn((PublicKey, V)) -> bool,
    i: int,
    j: int,
)
    requires
        sorted_map::sorted(entries),
        0 <= i < j < entries.filter(keep).len(),
    ensures
        entries.filter(keep)[i].0.rank() < entries.filter(keep)[j].0.rank(),
    decreases entries.len(),
{
    reveal(Seq::filter);
    let head = entries.drop_last();
    assert(sorted_map::sorted(head)) by {
        assert forall|x: int, y: int| 0 <= x < y < head.len() implies (
        #[trigger] head[x]).0.rank() < (#[trigger] head[y]).0.rank() by {
            assert(entries[x].0.rank() < entries[y].0.rank());
        }
    }
    if j < head.filter(keep).len() {
        lemma_picked_in_order(head, keep, i, j);
    } else {
        let x = lemma_picked_from(head, keep, i);
        assert(entries[x].0.rank() < entries[entries.len() - 1].0.rank());
    }
}

/// A search in hand goes to exactly those peers that are tree neighbours, are
/// not on its way here, and say its target may lie beyond them: once to each,
/// unchanged but for where it has been.
pub proof fn law_a_search_goes_exactly_where_its_target_may_lie<S: Signer>(
    node: NodeView<S>,
    now: u64,
    from: PublicKey,
    lookup: LookupView,
    peer: PublicKey,
    at: int,
    next: int,
)
    requires
        sorted_map::is_listed(node.peers),
        node.peers.contains_key(from),
        !lookup.trail.contains(node.key),
        lookup.target != node.key,
    ensures
        ({
            let step = node.handled(now, from, MessageView::Lookup(lookup));
            let passed = MessageView::Lookup(
                LookupView {
                    target: lookup.target,
                    nonce: lookup.nonce,
                    trail: lookup.trail.push(node.key),
                },
            );
            &&& step.node == node
            &&& node.peers.contains_key(peer) && peer != node.key && !lookup.trail.contains(peer)
                && node.is_tree_neighbour(peer) && summary::claims(
                node.peers[peer].beyond,
                lookup.target,
            ) ==> step.out.contains(EnvelopeView { to: peer, message: passed })
            &&& 0 <= at < step.out.len() ==> {
                let to = step.out[at].to;
                &&& step.out[at].message == passed
                &&& node.peers.contains_key(to)
                &&& !lookup.trail.contains(to)
                &&& node.is_tree_neighbour(to)
                &&& summary::claims(node.peers[to].beyond, lookup.target)
            }
            &&& 0 <= at < next < step.out.len() ==> step.out[at].to.rank()
                < step.out[next].to.rank()
        }),
{
    let passed = LookupView { trail: lookup.trail.push(node.key), ..lookup };
    let step = node.handled(now, from, MessageView::Lookup(lookup));
    assert(step.out == node.searched(passed));
    lemma_searched(node, passed, peer, at, next);
    assert forall|key: PublicKey| #[trigger]
        passed.trail.contains(key) <==> lookup.trail.contains(key) || key == node.key by {
        if lookup.trail.contains(key) {
            let i = choose|i: int| 0 <= i < lookup.trail.len() && lookup.trail[i] == key;
            assert(passed.trail[i] == key);
        }
        if passed.trail.contains(key) {
            let i = choose|i: int| 0 <= i < passed.trail.len() && passed.trail[i] == key;
            if i < lookup.trail.len() {
                assert(lookup.trail[i] == key);
            }
        }
        assert(passed.trail[lookup.trail.len() as int] == node.key);
    }
}

/// Where a search goes from here.
proof fn lemma_searched<S: Signer>(
    node: NodeView<S>,
    lookup: LookupView,
    peer: PublicKey,
    at: int,
    next: int,
)
    requires
        sorted_map::is_listed(node.peers),
    ensures
        ({
            let out = node.searched(lookup);
            let message = MessageView::Lookup(lookup);
            &&& node.peers.contains_key(peer) && !lookup.trail.contains(peer)
                && node.is_tree_neighbour(peer) && summary::claims(
                node.peers[peer].beyond,
                lookup.target,
            ) ==> out.contains(EnvelopeView { to: peer, message })
            &&& 0 <= at < out.len() ==> {
                let to = out[at].to;
                &&& out[at].message == message
                &&& node.peers.contains_key(to)
                &&& !lookup.trail.contains(to)
                &&& node.is_tree_neighbour(to)
                &&& summary::claims(node.peers[to].beyond, lookup.target)
            }
            &&& 0 <= at < next < out.len() ==> out[at].to.rank() < out[next].to.rank()
        }),
{
    let out = node.searched(lookup);
    let listed = sorted_map::ascending(node.peers);
    let passes = |entry: (PublicKey, PeerView)| node.passes_over(lookup, entry);
    let picked = listed.filter(passes);
    if node.peers.contains_key(peer) {
        let i = sorted_map::lemma_mapped_key_is_listed(listed, peer);
        if node.passes_over(lookup, listed[i]) {
            assert(passes(listed[i]));
            assert(picked.contains(listed[i]));
            let j = choose|j: int| 0 <= j < picked.len() && picked[j] == listed[i];
            assert(out[j] == (EnvelopeView { to: peer, message: MessageView::Lookup(lookup) }));
        }
    }
    if 0 <= at < out.len() {
        assert(passes(picked[at]));
        let i = lemma_picked_from(listed, passes, at);
        sorted_map::lemma_entry_is_mapped(listed, i);
        if at < next < out.len() {
            lemma_picked_in_order(listed, passes, at, next);
        }
    }
}

/// A search for this node is answered to whoever brought it, with where this
/// node sits, under the search's own number and along its trail; and one that
/// has been here before is not taken up again.
pub proof fn law_the_node_looked_for_answers<S: Signer>(
    node: NodeView<S>,
    now: u64,
    from: PublicKey,
    lookup: LookupView,
)
    requires
        node.peers.contains_key(from),
    ensures
        ({
            let step = node.handled(now, from, MessageView::Lookup(lookup));
            &&& step.node == node
            &&& lookup.trail.contains(node.key) ==> step.out.len() == 0
            &&& !lookup.trail.contains(node.key) && lookup.target == node.key ==> step.out.len() == 1
                && step.out[0].to == from && (step.out[0].message matches MessageView::Found(found)
                && found.walk == node.walk && found.nonce == lookup.nonce && found.trail
                == lookup.trail && found.vouch == node.signer.signs(
                message::reply(lookup.nonce, node.walk),
            ))
        }),
{
}

/// Asking for a node opens a search for it under the number given, and sends it
/// the way any search goes; asking for oneself does nothing.
pub proof fn law_asking_opens_a_search<S: Signer>(
    node: NodeView<S>,
    now: u64,
    target: PublicKey,
    nonce: Nonce,
    peer: PublicKey,
    at: int,
)
    requires
        sorted_map::is_listed(node.peers),
        !node.peers.contains_key(node.key),
    ensures
        ({
            let step = node.looked_up(now, target, nonce);
            let asked = MessageView::Lookup(LookupView { target, nonce, trail: seq![node.key] });
            &&& target == node.key ==> step == node.still()
            &&& target != node.key ==> step.node == (NodeView {
                pending: node.pending.insert(nonce, Pending { target, asked_at: now }),
                ..node
            })
            &&& target != node.key && node.peers.contains_key(peer) && node.is_tree_neighbour(peer)
                && summary::claims(node.peers[peer].beyond, target) ==> step.out.contains(
                EnvelopeView { to: peer, message: asked },
            )
            &&& 0 <= at < step.out.len() ==> step.out[at].message == asked
                && node.peers.contains_key(step.out[at].to) && node.is_tree_neighbour(
                step.out[at].to,
            ) && summary::claims(node.peers[step.out[at].to].beyond, target)
        }),
{
    if target != node.key {
        let asking = node.looked_up(now, target, nonce).node;
        let lookup = LookupView { target, nonce, trail: seq![node.key] };
        lemma_searched(asking, lookup, peer, at, at);
        assert(asking.is_tree_neighbour(peer) == node.is_tree_neighbour(peer));
        assert forall|key: PublicKey| #[trigger]
            lookup.trail.contains(key) implies key == node.key by {
            let i = choose|i: int| 0 <= i < lookup.trail.len() && lookup.trail[i] == key;
        }
        let out = node.looked_up(now, target, nonce).out;
        if 0 <= at < out.len() {
            assert(asking.is_tree_neighbour(out[at].to) == node.is_tree_neighbour(out[at].to));
        }
    }
}

/// An answer on its way home goes to whoever stands before this node on its
/// trail, shorter by this node and otherwise as it came; one that did not come
/// this way is ignored.
pub proof fn law_an_answer_goes_home_one_step<S: Signer>(
    node: NodeView<S>,
    now: u64,
    from: PublicKey,
    found: FoundView,
)
    requires
        node.peers.contains_key(from),
    ensures
        ({
            let step = node.handled(now, from, MessageView::Found(found));
            let steps = found.trail.len() as int;
            &&& steps == 0 || found.trail[steps - 1] != node.key ==> step == node.still()
            &&& steps > 1 && found.trail[steps - 1] == node.key && !node.peers.contains_key(
                found.trail[steps - 2],
            ) ==> step == node.still()
            &&& steps > 1 && found.trail[steps - 1] == node.key && node.peers.contains_key(
                found.trail[steps - 2],
            ) && message::vouched_for::<S>(found) ==> step.node == node && step.out.len() == 1
                && step.out[0].to == found.trail[steps - 2] && step.out[0].message
                == MessageView::Found(
                FoundView { trail: found.trail.take(steps - 1), ..found },
            )
        }),
{
    let steps = found.trail.len() as int;
    if steps > 0 {
        assert(found.trail.drop_last() =~= found.trail.take(steps - 1));
    }
}

/// A link is part of the tree where one of its ends sits right below the other,
/// as far as this node knows.
pub proof fn law_tree_links_join_parent_and_child<S: Signer>(node: NodeView<S>, peer: PublicKey)
    ensures
        node.is_tree_neighbour(peer) <==> {
            ||| node.walk.len() >= 2 && node.walk[node.walk.len() - 2].key == peer
            ||| {
                let theirs = node.infos[peer].walk;
                node.infos.contains_key(peer) && theirs.len() >= 2 && theirs[theirs.len() - 2].key
                    == node.key
            }
        },
{
}

/// A node that has just come up sits alone: its own root, under the stamp zero,
/// with no links and nothing heard.
pub proof fn law_a_new_node_sits_alone<S: Signer>(now: u64, signer: S, timing: Timing)
    ensures
        ({
            let node = model::isolated(now, signer, timing);
            &&& node.key == signer.speaks_for()
            &&& node.signer == signer
            &&& node.timing == timing
            &&& node.announced_at == now
            &&& node.walk.len() == 1
            &&& node.walk[0].key == signer.speaks_for()
            &&& node.walk[0].cost == 0
            &&& node.walk[0].seq == 0
            &&& node.walk[0].consent is None
            &&& forall|peer: PublicKey| !#[trigger] node.peers.contains_key(peer)
            &&& forall|key: PublicKey| !#[trigger] node.infos.contains_key(key)
            &&& forall|nonce: Nonce| !#[trigger] node.pending.contains_key(nonce)
            &&& node.delivered.len() == 0
            &&& node.evicted.len() == 0
        }),
{
}

/// A node at rest has nowhere better to sit: below any peer with something on
/// offer, its root would be no smaller, and with the same root its way there no
/// cheaper, and as cheap no shorter. Counted are the prices of the peer's walk
/// and the price the peer has agreed to.
pub proof fn law_nobody_could_sit_better<S: Signer>(node: NodeView<S>, peer: PublicKey)
    requires
        node.is_at_rest(),
        reach::offers(node, peer),
    ensures
        ({
            let theirs = node.infos[peer].walk;
            let here = node.walk.fold_left(0nat, |sum: nat, hop: Hop| sum + hop.cost as nat);
            let there = theirs.fold_left(0nat, |sum: nat, hop: Hop| sum + hop.cost as nat)
                + node.peers[peer].consent->0.price() as nat;
            let here = if here <= u64::MAX { here } else { u64::MAX as nat };
            let there = if there <= u64::MAX { there } else { u64::MAX as nat };
            let (root, other) = (node.walk[0].key, theirs[0].key);
            &&& root.rank() <= other.rank()
            &&& root == other ==> here <= there
            &&& root == other && here == there ==> node.walk.len() <= theirs.len() + 1
        }),
{
    let seq = node.next_seq();
    let best = node.best_position(seq);
    laws::law_some_position_is_best(node, seq);
    let position = node.candidate(peer, seq)->0;
    assert(node.candidate(peer, seq) is Some);
    laws::lemma_candidate(node, peer, seq);
    assert(node.on_offer(position, seq));
    let theirs = node.infos[peer].walk;
    reach::law_the_root_is_the_smallest_on_offer(node);
    assert(bargain::keys(best).len() == best.len() && bargain::keys(node.walk).len()
        == node.walk.len());
    assert(best.len() > 0);
    assert(bargain::keys(best)[0] == bargain::keys(node.walk)[0]);
    bargain::law_the_cost_to_the_root_is_the_sum_of_the_prices(node.walk);
    bargain::law_the_cost_to_the_root_is_the_sum_of_the_prices(position);
    let add = |sum: nat, hop: Hop| sum + hop.cost as nat;
    assert(position.fold_left(0nat, add) == theirs.fold_left(0nat, add) + position.last().cost
        as nat) by {
        assert(position.drop_last() =~= theirs);
    }
    assert(position[0] == theirs[0]);
    bargain::law_preference_never_ties(best, position);
}

/// The answer to a search this node asked closes the search, and is filed, dated
/// now, if it is later than what was held. An answer nobody asked for, or to
/// another question, changes nothing.
pub proof fn law_an_answer_home_closes_its_search<S: Signer>(
    node: NodeView<S>,
    now: u64,
    from: PublicKey,
    found: FoundView,
    other: PublicKey,
)
    requires
        node.is_well_informed(),
        node.peers.contains_key(from),
        found.trail.len() == 1,
        found.trail[0] == node.key,
        found.walk.len() > 0,
    ensures
        ({
            let target = found.walk[found.walk.len() - 1].key;
            let after = node.handled(now, from, MessageView::Found(found)).node;
            let asked = node.pending.contains_key(found.nonce) && node.pending[found.nonce].target
                == target;
            let later = node.infos.contains_key(target) ==> bargain::supersedes(
                found.walk,
                node.infos[target].walk,
            );
            &&& !asked ==> node.handled(now, from, MessageView::Found(found)) == node.still()
            &&& asked && message::vouched_for::<S>(found) ==> {
                &&& after.pending == node.pending.remove(found.nonce)
                &&& after.infos == if later {
                    node.infos.insert(target, InfoView { walk: found.walk, heard_at: now })
                } else {
                    node.infos
                }
                &&& after.peers.dom() == node.peers.dom()
                &&& after.delivered == node.delivered
                &&& after.evicted == node.evicted
            }
        }),
{
    let closed = NodeView { pending: node.pending.remove(found.nonce), ..node };
    lemma_settling_leaves_the_rest(closed.keeping(now, found.walk), now);
    assert(found.trail.drop_last() =~= Seq::empty());
}

/// Where a node at rest sits is either alone or right below a peer that agreed:
/// the peer's own walk as it was last heard, step by step, and one step more at
/// the price in the peer's consent.
pub proof fn law_a_node_sits_alone_or_below_a_peer_that_agreed<S: Signer>(node: NodeView<S>, at: int)
    requires
        node.is_at_rest(),
    ensures
        ({
            let mine = node.walk;
            &&& mine.len() > 0
            &&& mine[mine.len() - 1].key == node.key
            &&& mine.len() == 1 ==> mine[0].cost == 0
            &&& mine.len() > 1 ==> {
                let above = mine[mine.len() - 2].key;
                let theirs = node.infos[above].walk;
                &&& node.peers.contains_key(above)
                &&& node.infos.contains_key(above)
                &&& node.peers[above].consent is Some
                &&& theirs.len() == mine.len() - 1
                &&& 0 <= at < theirs.len() ==> mine[at].key == theirs[at].key && mine[at].cost
                    == theirs[at].cost
                &&& mine[mine.len() - 1].cost == node.peers[above].consent->0.price()
            }
        }),
{
    let seq = node.next_seq();
    let best = node.best_position(seq);
    laws::law_some_position_is_best(node, seq);
    bargain::law_walks_are_the_same_step_by_step(best, node.walk);
    assert(best.len() == node.walk.len());
    if best == bargain::rooted(node.signer, seq) {
        assert(best[0].key == node.walk[0].key && best[0].cost == node.walk[0].cost);
    } else {
        let above = choose|above: PublicKey| #[trigger] node.candidate(above, seq) == Some(best);
        assert(node.candidate(above, seq) == Some(best));
        let theirs = node.infos[above].walk;
        assert(best.drop_last() =~= theirs);
        let n = best.len() as int;
        assert(best[n - 1].key == node.walk[n - 1].key && best[n - 1].cost == node.walk[n - 1].cost);
        assert(best[n - 2].key == node.walk[n - 2].key);
        if 0 <= at < theirs.len() {
            assert(best[at].key == node.walk[at].key && best[at].cost == node.walk[at].cost);
        }
    }
}

/// What each end of a link is told lies beyond it is this node together with what
/// lies beyond its other tree links; a link that is not part of the tree is told
/// nothing. Here a link is part of the tree where one end sits right below the
/// other.
pub proof fn law_what_lies_beyond_is_everything_on_this_side<S: Signer>(
    node: NodeView<S>,
    now: u64,
    peer: PublicKey,
    bit: int,
)
    requires
        node.is_well_informed(),
        sorted_map::is_listed(node.peers),
        node.peers.contains_key(peer),
    ensures
        ({
            let after = node.settled(now).node;
            let told = after.peers[peer].told;
            &&& told is Some <==> after.is_tree_neighbour(peer)
            &&& told is Some ==> (told->0.contains(bit) <==> summary::bits_of(node.key).contains(
                bit,
            ) || exists|other: PublicKey|
                other != peer && #[trigger] node.peers.contains_key(other)
                    && after.is_tree_neighbour(other) && node.peers[other].beyond.contains(bit))
        }),
{
    let moved = node.reparented(now).node;
    let after = node.settled(now).node;
    assert(after.peers[peer].told == moved.wanted(peer));
    assert forall|other: PublicKey| #[trigger]
        after.is_tree_neighbour(other) == moved.is_tree_neighbour(other) by {
    }
    if moved.is_tree_neighbour(peer) {
        let told = moved.summary_beyond(peer);
        assert(told.contains(bit) <==> summary::bits_of(node.key).contains(bit)
            || moved.some_other_link_sets(peer, bit));
        if moved.some_other_link_sets(peer, bit) {
            let other = choose|other: PublicKey|
                other != peer && #[trigger] moved.peers.contains_key(other)
                    && moved.is_tree_neighbour(other) && moved.peers[other].beyond.contains(bit);
            assert(node.peers.contains_key(other) && after.is_tree_neighbour(other));
        }
        if exists|other: PublicKey|
            other != peer && #[trigger] node.peers.contains_key(other) && after.is_tree_neighbour(
                other,
            ) && node.peers[other].beyond.contains(bit) {
            let other = choose|other: PublicKey|
                other != peer && #[trigger] node.peers.contains_key(other)
                    && after.is_tree_neighbour(other) && node.peers[other].beyond.contains(bit);
            assert(moved.peers.contains_key(other) && moved.is_tree_neighbour(other));
        }
    }
}

/// Every way a send can fail, and every lie a peer can be dropped for, is put in
/// words of its own.
pub proof fn law_every_failure_has_its_own_words(error: SendError, fault: Fault)
    ensures
        error.words() == (match error {
            SendError::Unknown => "destination has not been looked up"@,
            SendError::NoRoute => "no route to destination"@,
        }),
        fault.words() == (match fault {
            Fault::AnnouncementAboutAnother => "announced a position for another node"@,
            Fault::ForgedAnnouncement => "announced a position nobody signed for"@,
            Fault::MisdirectedConsent => "gave a consent meant for somebody else"@,
            Fault::ForgedAnswer => "answered a search with something unsigned"@,
        }),
{
}

/// What is said in either part is said in the whole.
proof fn lemma_said_in_part(a: Seq<EnvelopeView>, b: Seq<EnvelopeView>, said: EnvelopeView)
    requires
        a.contains(said) || b.contains(said),
    ensures
        (a + b).contains(said),
{
    let whole = a + b;
    if a.contains(said) {
        let i = choose|i: int| 0 <= i < a.len() && a[i] == said;
        assert(whole[i] == said);
    } else {
        let i = choose|i: int| 0 <= i < b.len() && b[i] == said;
        assert(whole[a.len() + i] == said);
    }
}

/// Whether a peer is told of what has changed: where the node now sits, if that
/// is not where it sat, and what now lies on its side of the link, if that is not
/// what the peer was told before.
pub open spec fn is_told_what_changed<S: Signer>(
    node: NodeView<S>,
    step: Step<S>,
    peer: PublicKey,
) -> bool {
    let told = step.node.peers[peer].told;
    step.node.peers.contains_key(peer) ==> {
        &&& step.node.walk != node.walk ==> step.out.contains(
            EnvelopeView { to: peer, message: MessageView::Announce(step.node.walk) },
        )
        &&& told is Some && (node.peers.contains_key(peer) ==> node.peers[peer].told != told)
            ==> step.out.contains(
            EnvelopeView { to: peer, message: MessageView::Summary(told->0) },
        )
    }
}

/// Settling tells a peer of what it changes, whatever else is said first.
proof fn lemma_settling_tells<S: Signer>(
    node: NodeView<S>,
    base: NodeView<S>,
    first: Seq<EnvelopeView>,
    now: u64,
    peer: PublicKey,
)
    requires
        base.is_well_informed(),
        sorted_map::is_listed(base.peers),
        base.walk == node.walk,
        base.peers.contains_key(peer) ==> base.peers[peer].told == (if node.peers.contains_key(
            peer,
        ) {
            node.peers[peer].told
        } else {
            None
        }),
    ensures
        ({
            let settled = base.settled(now);
            is_told_what_changed(node, Step { node: settled.node, out: first + settled.out }, peer)
        }),
{
    let settled = base.settled(now);
    lemma_settling_leaves_the_rest(base, now);
    assert(settled.node.peers.dom().contains(peer) <==> base.peers.dom().contains(peer));
    if base.peers.contains_key(peer) {
        law_every_move_is_announced(base, now, peer);
        law_every_change_beyond_is_told(base, now, peer, 0);
        let moved = EnvelopeView { to: peer, message: MessageView::Announce(settled.node.walk) };
        let told = EnvelopeView {
            to: peer,
            message: MessageView::Summary(settled.node.peers[peer].told->0),
        };
        if settled.out.contains(moved) {
            lemma_said_in_part(first, settled.out, moved);
        }
        if settled.out.contains(told) {
            lemma_said_in_part(first, settled.out, told);
        }
    }
}

/// A link being made or priced tells every peer of what it changes.
proof fn lemma_linking_tells<S: Signer>(
    node: NodeView<S>,
    now: u64,
    peer: PublicKey,
    cost: Cost,
    other: PublicKey,
)
    requires
        node.is_well_informed(),
        sorted_map::is_listed(node.peers),
    ensures
        is_told_what_changed(node, node.peer_added(now, peer, cost), other),
{
    let known = node.peers.contains_key(peer);
    if peer != node.key && !(known && node.peers[peer].cost == cost) {
        let state = if known {
            PeerView { cost, ..node.peers[peer] }
        } else {
            PeerView { cost, beyond: Set::empty(), told: None, consent: None }
        };
        let linked = NodeView { peers: node.peers.insert(peer, state), ..node };
        sorted_map::lemma_insert_is_listed(node.peers, peer, state);
        assert forall|p: PublicKey| #[trigger] linked.peers.contains_key(p) implies (
        linked.peers[p].consent matches Some(consent) ==> consent.given_by() == p
            && consent.given_to() == linked.key) by {
            if p != peer || known {
                assert(node.peers.contains_key(p));
            }
        }
        let greeting = EnvelopeView { to: peer, message: MessageView::Announce(node.walk) };
        let first = if known {
            seq![node.offer(peer, cost)]
        } else {
            seq![greeting, node.offer(peer, cost)]
        };
        lemma_settling_tells(node, linked, first, now, other);
    }
}

/// A link going down, or being dropped for a lie, tells every peer that is left
/// of what it changes.
proof fn lemma_unlinking_tells<S: Signer>(
    node: NodeView<S>,
    now: u64,
    peer: PublicKey,
    fault: Fault,
    other: PublicKey,
)
    requires
        node.is_well_informed(),
        sorted_map::is_listed(node.peers),
    ensures
        is_told_what_changed(node, node.peer_removed(now, peer), other),
        is_told_what_changed(node, node.peer_evicted(now, peer, fault), other),
{
    if node.peers.contains_key(peer) {
        let none = Seq::<EnvelopeView>::empty();
        let cut = NodeView { peers: node.peers.remove(peer), ..node };
        sorted_map::lemma_remove_is_listed(node.peers, peer);
        assert forall|p: PublicKey| #[trigger] cut.peers.contains_key(p) implies (
        cut.peers[p].consent matches Some(consent) ==> consent.given_by() == p
            && consent.given_to() == cut.key) by {
            assert(node.peers.contains_key(p));
        }
        let dropped = NodeView {
            evicted: node.evicted.push(Eviction { peer, fault }),
            ..cut
        };
        lemma_settling_tells(node, cut, none, now, other);
        lemma_settling_tells(node, dropped, none, now, other);
        assert(none + cut.settled(now).out =~= cut.settled(now).out);
        assert(none + dropped.settled(now).out =~= dropped.settled(now).out);
    }
}

/// Filing a position tells every peer of what it changes.
proof fn lemma_filing_tells<S: Signer>(
    node: NodeView<S>,
    base: NodeView<S>,
    now: u64,
    position: Seq<Hop>,
    other: PublicKey,
)
    requires
        node.is_well_informed(),
        base.is_well_informed(),
        sorted_map::is_listed(base.peers),
        base.walk == node.walk,
        base.peers == node.peers,
        bargain::shaped(position),
        bargain::checks_out::<S>(position),
        bargain::author(position) != base.key,
    ensures
        is_told_what_changed(node, base.keeping(now, position).settled(now), other),
{
    let kept = base.keeping(now, position);
    let none = Seq::<EnvelopeView>::empty();
    assert forall|p: PublicKey| #[trigger] kept.infos.contains_key(p) implies bargain::shaped(
        kept.infos[p].walk,
    ) && bargain::author(kept.infos[p].walk) == p && bargain::checks_out::<S>(
        kept.infos[p].walk,
    ) by {
        if p != bargain::author(position) {
            assert(base.infos.contains_key(p));
        }
    }
    lemma_settling_tells(node, kept, none, now, other);
    assert(none + kept.settled(now).out =~= kept.settled(now).out);
}

/// A message tells every peer of what it changes.
#[verifier::rlimit(30)]
proof fn lemma_hearing_tells<S: Signer>(
    node: NodeView<S>,
    now: u64,
    from: PublicKey,
    message: MessageView,
    other: PublicKey,
)
    requires
        node.is_well_informed(),
        sorted_map::is_listed(node.peers),
        message matches MessageView::Announce(position) ==> bargain::shaped(position),
        message matches MessageView::Found(found) ==> bargain::shaped(found.walk),
    ensures
        is_told_what_changed(node, node.handled(now, from, message), other),
{
    let none = Seq::<EnvelopeView>::empty();
    lemma_unlinking_tells(node, now, from, Fault::AnnouncementAboutAnother, other);
    lemma_unlinking_tells(node, now, from, Fault::ForgedAnnouncement, other);
    lemma_unlinking_tells(node, now, from, Fault::MisdirectedConsent, other);
    lemma_unlinking_tells(node, now, from, Fault::ForgedAnswer, other);
    if node.peers.contains_key(from) {
        match message {
            MessageView::Announce(position) => {
                if node.is_news(position) && bargain::checks_out::<S>(position) {
                    lemma_filing_tells(node, node, now, position, other);
                }
            },
            MessageView::Summary(beyond) => {
                let state = PeerView { beyond, ..node.peers[from] };
                let heard = NodeView { peers: node.peers.insert(from, state), ..node };
                sorted_map::lemma_insert_is_listed(node.peers, from, state);
                assert forall|p: PublicKey| #[trigger] heard.peers.contains_key(p) implies (
                heard.peers[p].consent matches Some(consent) ==> consent.given_by() == p
                    && consent.given_to() == heard.key) by {
                    assert(node.peers.contains_key(p));
                }
                lemma_settling_tells(node, heard, none, now, other);
                assert(none + heard.settled(now).out =~= heard.settled(now).out);
            },
            MessageView::Consent(consent) => {
                if consent.given_by() == from && consent.given_to() == node.key {
                    let state = PeerView { consent: Some(consent), ..node.peers[from] };
                    let heard = NodeView { peers: node.peers.insert(from, state), ..node };
                    sorted_map::lemma_insert_is_listed(node.peers, from, state);
                    assert forall|p: PublicKey| #[trigger] heard.peers.contains_key(p) implies (
                    heard.peers[p].consent matches Some(consent) ==> consent.given_by() == p
                        && consent.given_to() == heard.key) by {
                        assert(node.peers.contains_key(p));
                    }
                    lemma_settling_tells(node, heard, none, now, other);
                    assert(none + heard.settled(now).out =~= heard.settled(now).out);
                }
            },
            MessageView::Found(found) => {
                let closed = NodeView { pending: node.pending.remove(found.nonce), ..node };
                if message::vouched_for::<S>(found) && closed.is_news(found.walk) {
                    assert forall|nonce: Nonce| #[trigger]
                        closed.pending.contains_key(nonce) implies closed.pending[nonce].target
                        != closed.key by {
                        assert(node.pending.contains_key(nonce));
                    }
                    lemma_filing_tells(node, closed, now, found.walk, other);
                }
            },
            _ => {},
        }
    }
}

/// A tick tells every peer of what it changes.
proof fn lemma_ticking_tells<S: Signer>(node: NodeView<S>, now: u64, other: PublicKey)
    requires
        node.is_well_informed(),
        sorted_map::is_listed(node.peers),
    ensures
        is_told_what_changed(node, node.ticked(now), other),
{
    let none = Seq::<EnvelopeView>::empty();
    let kept = NodeView {
        infos: sorted_map::fresh_part::<PublicKey, Info>(node.infos, now, node.timing.expiry),
        pending: sorted_map::fresh_part::<Nonce, Pending>(node.pending, now, node.timing.expiry),
        ..node
    };
    assert(kept.is_well_informed());
    lemma_settling_tells(node, kept, none, now, other);
    let settled = kept.settled(now);
    assert(none + settled.out =~= settled.out);
    let step = node.ticked(now);
    if model::elapsed(settled.node.announced_at, now) >= settled.node.timing.refresh
        && step.node.peers.contains_key(other) {
        let moved = settled.node;
        let again = bargain::restamped(moved.walk, moved.signer, moved.next_seq());
        let message = MessageView::Announce(again);
        laws::lemma_resummarised_is_listed(kept.reparented(now).node);
        lemma_every_peer_is_written_to(moved, message, other);
        let said = moved.to_every_peer(message);
        assert(step.out == settled.out + said);
        lemma_said_in_part(settled.out, said, EnvelopeView { to: other, message });
        let told = EnvelopeView {
            to: other,
            message: MessageView::Summary(step.node.peers[other].told->0),
        };
        if settled.out.contains(told) {
            lemma_said_in_part(settled.out, said, told);
        }
    }
}

/// Whatever happens to a node, every peer it has afterwards is told where it now
/// sits if that has changed, and what now lies on its side of the link if that
/// has.
pub proof fn law_every_change_is_told_whatever_brought_it_about<S: Signer>(
    node: NodeView<S>,
    now: u64,
    peer: PublicKey,
    cost: Cost,
    message: MessageView,
    other: PublicKey,
)
    requires
        node.is_well_informed(),
        sorted_map::is_listed(node.peers),
        message matches MessageView::Announce(position) ==> bargain::shaped(position),
        message matches MessageView::Found(found) ==> bargain::shaped(found.walk),
    ensures
        is_told_what_changed(node, node.peer_added(now, peer, cost), other),
        is_told_what_changed(node, node.peer_removed(now, peer), other),
        is_told_what_changed(node, node.handled(now, peer, message), other),
        is_told_what_changed(node, node.ticked(now), other),
{
    lemma_linking_tells(node, now, peer, cost, other);
    lemma_unlinking_tells(node, now, peer, Fault::ForgedAnswer, other);
    lemma_hearing_tells(node, now, peer, message, other);
    lemma_ticking_tells(node, now, other);
}

} // verus!
