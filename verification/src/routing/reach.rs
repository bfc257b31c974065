//! What holds of a routing node in every state it can get into.

use vstd::prelude::*;
use crate::cost::Cost;
use crate::key::PublicKey;
use crate::routing::bargain;
use crate::routing::bargain::Hop;
use crate::routing::laws;
use crate::routing::message;
use crate::routing::message::{EnvelopeView, FoundView, MessageView, Nonce};
use crate::routing::model;
use crate::routing::model::{InfoView, NodeView, PeerView};
use crate::routing::node::{Eviction, Fault, Info, Pending, Timing};
use crate::signature::Signer;
use crate::sorted_map;
use crate::sorted_map::Ranked;
use crate::summary;

verus! {

/// Something that can happen to a node.
pub enum Event {
    /// The clock moves.
    Tick { now: u64 },
    /// A link comes up, or is re-priced.
    AddPeer { now: u64, peer: PublicKey, cost: Cost },
    /// A link goes down.
    RemovePeer { now: u64, peer: PublicKey },
    /// A message arrives.
    Hear { now: u64, from: PublicKey, message: MessageView },
    /// A packet sets out.
    Send { dst: PublicKey, payload: Seq<u8> },
    /// A search sets out.
    LookUp { now: u64, target: PublicKey, nonce: Nonce },
    /// What was delivered is collected.
    TakeDelivered,
    /// What was evicted is collected.
    TakeEvicted,
}

/// Whether an event is one that can happen: any but the arrival of a message
/// that cannot be made.
pub open spec fn can_happen<S: Signer>(event: Event) -> bool {
    event matches Event::Hear { now, from, message } ==> laws::is_sayable::<S>(message)
}

/// What an event makes of a node.
pub open spec fn after<S: Signer>(node: NodeView<S>, event: Event) -> NodeView<S> {
    match event {
        Event::Tick { now } => node.ticked(now).node,
        Event::AddPeer { now, peer, cost } => node.peer_added(now, peer, cost).node,
        Event::RemovePeer { now, peer } => node.peer_removed(now, peer).node,
        Event::Hear { now, from, message } => node.handled(now, from, message).node,
        Event::Send { dst, payload } => node.sent(dst, payload).0,
        Event::LookUp { now, target, nonce } => node.looked_up(now, target, nonce).node,
        Event::TakeDelivered => NodeView { delivered: Seq::empty(), ..node },
        Event::TakeEvicted => NodeView { evicted: Seq::empty(), ..node },
    }
}

/// What becomes of a node to which all of `events` happen, in order.
pub open spec fn reached<S: Signer>(node: NodeView<S>, events: Seq<Event>) -> NodeView<S>
    decreases events.len(),
{
    if events.len() == 0 {
        node
    } else {
        after(reached(node, events.drop_last()), events.last())
    }
}

/// Settling puts a node at rest, and leaves alone what others have told it.
pub proof fn law_settling_puts_a_node_at_rest<S: Signer>(node: NodeView<S>, now: u64)
    requires
        node.is_well_informed(),
        sorted_map::is_listed(node.peers),
    ensures
        node.settled(now).node.is_at_rest(),
        node.settled(now).node.infos == node.infos,
{
    let moved = node.reparented(now).node;
    let after = node.settled(now).node;
    laws::lemma_settled(node, now, after.next_seq());
    assert(after.peers.dom() =~= moved.peers.dom());
    assert forall|peer: PublicKey| #[trigger] after.peers.contains_key(peer) implies (
    after.peers[peer].consent matches Some(consent) ==> consent.given_by() == peer
        && consent.given_to() == after.key) && after.peers[peer].told == after.wanted(peer) by {
        assert(node.peers.contains_key(peer));
        laws::lemma_wants_alike(after, moved, peer);
    }
}

/// A node stays at rest while neither its links nor what it holds of others
/// change, and where it sits is only stamped afresh.
pub(crate) proof fn lemma_rest_carries_over<S: Signer>(a: NodeView<S>, b: NodeView<S>)
    requires
        a.is_at_rest(),
        b.is_well_informed(),
        a.signer == b.signer,
        a.peers == b.peers,
        a.infos == b.infos,
        bargain::same_walk(a.walk, b.walk),
    ensures
        b.is_at_rest(),
{
    let seq = b.next_seq();
    laws::law_best_position_ignores_stamps(a, a.next_seq(), seq);
    laws::lemma_same_offers_same_best(a, b, seq);
    lemma_same_ends(a.walk, b.walk);
    assert forall|peer: PublicKey| #[trigger] b.peers.contains_key(peer) implies b.peers[peer].told
        == b.wanted(peer) by {
        assert(a.peers.contains_key(peer));
        laws::lemma_wants_alike(a, b, peer);
    }
}

/// Walks over the same nodes start and end alike.
proof fn lemma_same_ends(a: Seq<Hop>, b: Seq<Hop>)
    requires
        bargain::same_walk(a, b),
    ensures
        a.len() == b.len(),
        a.len() > 0 ==> a[0].key == b[0].key && a.last().key == b.last().key && a.last().cost
            == b.last().cost,
        bargain::parent(a) == bargain::parent(b),
{
    assert(bargain::keys(a).len() == a.len() && bargain::keys(b).len() == b.len());
    if a.len() > 0 {
        assert(bargain::keys(a)[0] == bargain::keys(b)[0]);
        assert(bargain::keys(a)[a.len() - 1] == bargain::keys(b)[a.len() - 1]);
        assert(bargain::prices(a)[a.len() - 1] == bargain::prices(b)[a.len() - 1]);
    }
    if a.len() >= 2 {
        assert(bargain::keys(a)[a.len() - 2] == bargain::keys(b)[a.len() - 2]);
    }
}

/// Changing one link, on terms the two ends have agreed, leaves a node well
/// informed.
proof fn lemma_relinked<S: Signer>(node: NodeView<S>, peer: PublicKey, state: PeerView)
    requires
        node.is_well_informed(),
        sorted_map::is_listed(node.peers),
        peer != node.key,
        state.consent matches Some(consent) ==> consent.given_by() == peer && consent.given_to()
            == node.key,
    ensures
        (NodeView { peers: node.peers.insert(peer, state), ..node }).is_well_informed(),
        sorted_map::is_listed(node.peers.insert(peer, state)),
{
    let linked = NodeView { peers: node.peers.insert(peer, state), ..node };
    sorted_map::lemma_insert_is_listed(node.peers, peer, state);
    assert forall|other: PublicKey| #[trigger] linked.peers.contains_key(other) implies (
    linked.peers[other].consent matches Some(consent) ==> consent.given_by() == other
        && consent.given_to() == linked.key) by {
        assert(other == peer || node.peers.contains_key(other));
    }
}

/// Filing a position that checks out leaves a node well informed.
proof fn lemma_kept<S: Signer>(node: NodeView<S>, now: u64, position: Seq<Hop>)
    requires
        node.is_well_informed(),
        bargain::shaped(position),
        bargain::author(position) != node.key,
        bargain::checks_out::<S>(position),
    ensures
        node.keeping(now, position).is_well_informed(),
{
    let keeping = node.keeping(now, position);
    assert forall|other: PublicKey| #[trigger] keeping.infos.contains_key(other) implies bargain::shaped(
        keeping.infos[other].walk,
    ) && bargain::author(keeping.infos[other].walk) == other && bargain::checks_out::<S>(
        keeping.infos[other].walk,
    ) by {
        assert(other == bargain::author(position) || node.infos.contains_key(other));
    }
}

/// A tick leaves a node at rest, whether it was or not.
pub(crate) proof fn lemma_ticking_rests<S: Signer>(node: NodeView<S>, now: u64)
    requires
        node.is_well_informed(),
        sorted_map::is_listed(node.peers),
    ensures
        node.ticked(now).node.is_at_rest(),
{
    let kept = NodeView {
        infos: sorted_map::fresh_part::<PublicKey, Info>(node.infos, now, node.timing.expiry),
        pending: sorted_map::fresh_part::<Nonce, Pending>(node.pending, now, node.timing.expiry),
        ..node
    };
    assert(kept.is_well_informed()) by {
        assert forall|key: PublicKey| #[trigger] kept.infos.contains_key(key) implies bargain::shaped(
            kept.infos[key].walk,
        ) && bargain::author(kept.infos[key].walk) == key && bargain::checks_out::<S>(
            kept.infos[key].walk,
        ) by {
            assert(node.infos.contains_key(key));
        }
        assert forall|nonce: Nonce| #[trigger] kept.pending.contains_key(nonce) implies kept.pending[nonce].target
            != kept.key by {
            assert(node.pending.contains_key(nonce));
        }
    }
    law_settling_puts_a_node_at_rest(kept, now);
    let settled = kept.settled(now).node;
    let fresh = bargain::restamped(settled.walk, settled.signer, settled.next_seq());
    lemma_where_it_sits(settled);
    assert(bargain::keys(fresh) =~= bargain::keys(settled.walk));
    assert(bargain::prices(fresh) =~= bargain::prices(settled.walk));
    lemma_rest_carries_over(settled, settled.announced(now, fresh).node);
}

/// Where a node at rest sits: at the end of its own walk, and either rooted in
/// itself or just below a peer on that peer's terms.
proof fn lemma_where_it_sits<S: Signer>(node: NodeView<S>)
    requires
        node.is_at_rest(),
    ensures
        node.walk.len() > 0,
        node.walk.last().key == node.key,
        match bargain::parent(node.walk) {
            None => node.walk[0].key == node.key,
            Some(parent) => {
                &&& node.walk[0].key != node.key
                &&& offers(node, parent)
                &&& bargain::same_walk(node.walk.drop_last(), node.infos[parent].walk)
                &&& node.walk.last().cost == node.peers[parent].consent->0.price()
            },
        },
{
    let seq = node.next_seq();
    let best = node.best_position(seq);
    let walk = node.walk;
    laws::law_some_position_is_best(node, seq);
    lemma_same_ends(best, walk);
    if best != bargain::rooted(node.signer, seq) {
        let peer = choose|peer: PublicKey| #[trigger] node.candidate(peer, seq) == Some(best);
        laws::lemma_candidate(node, peer, seq);
        let up = node.infos[peer].walk;
        assert(bargain::keys(up) =~= bargain::keys(best).drop_last());
        assert(bargain::prices(up) =~= bargain::prices(best).drop_last());
        assert(bargain::keys(walk.drop_last()) =~= bargain::keys(walk).drop_last());
        assert(bargain::prices(walk.drop_last()) =~= bargain::prices(walk).drop_last());
    }
}

/// Whether there is something on offer below a peer: a link to it, leave to
/// sit below it, and a position that does not run through this node.
pub open spec fn offers<S: Signer>(node: NodeView<S>, peer: PublicKey) -> bool {
    &&& node.peers.contains_key(peer)
    &&& node.infos.contains_key(peer)
    &&& node.peers[peer].consent is Some
    &&& !bargain::keys(node.infos[peer].walk).contains(node.key)
}

/// Cutting one link puts a node at rest.
proof fn lemma_unlinking_rests<S: Signer>(node: NodeView<S>, now: u64, peer: PublicKey)
    requires
        node.is_well_informed(),
        sorted_map::is_listed(node.peers),
        node.peers.contains_key(peer),
    ensures
        node.peer_removed(now, peer).node.is_at_rest(),
        forall|fault: Fault| #[trigger] node.peer_evicted(now, peer, fault).node.is_at_rest(),
{
    let cut = NodeView { peers: node.peers.remove(peer), ..node };
    sorted_map::lemma_remove_is_listed(node.peers, peer);
    assert(cut.is_well_informed());
    law_settling_puts_a_node_at_rest(cut, now);
    assert forall|fault: Fault| #[trigger]
        node.peer_evicted(now, peer, fault).node.is_at_rest() by {
        let evicting = NodeView { evicted: node.evicted.push(Eviction { peer, fault }), ..cut };
        assert(evicting.is_well_informed());
        law_settling_puts_a_node_at_rest(evicting, now);
    }
}

/// Filing a position that checks out puts a node at rest.
proof fn lemma_keeping_rests<S: Signer>(node: NodeView<S>, now: u64, position: Seq<Hop>)
    requires
        node.is_well_informed(),
        sorted_map::is_listed(node.peers),
        bargain::shaped(position),
        bargain::author(position) != node.key,
        bargain::checks_out::<S>(position),
    ensures
        node.keeping(now, position).settled(now).node.is_at_rest(),
{
    lemma_kept(node, now, position);
    law_settling_puts_a_node_at_rest(node.keeping(now, position), now);
}

/// Whatever a node hears, it works through at once.
proof fn lemma_hearing_rests<S: Signer>(
    node: NodeView<S>,
    now: u64,
    from: PublicKey,
    message: MessageView,
)
    requires
        node.is_at_rest(),
        laws::is_sayable::<S>(message),
        node.peers.contains_key(from),
    ensures
        node.handled(now, from, message).node.is_at_rest(),
{
    lemma_unlinking_rests(node, now, from);
    match message {
        MessageView::Announce(position) => {
            assert(node.peer_evicted(now, from, Fault::AnnouncementAboutAnother).node.is_at_rest());
            assert(node.peer_evicted(now, from, Fault::ForgedAnnouncement).node.is_at_rest());
            if node.is_news(position) && bargain::checks_out::<S>(position) {
                lemma_keeping_rests(node, now, position);
            }
        },
        MessageView::Summary(beyond) => {
            let state = PeerView { beyond, ..node.peers[from] };
            lemma_relinked(node, from, state);
            law_settling_puts_a_node_at_rest(
                NodeView { peers: node.peers.insert(from, state), ..node },
                now,
            );
        },
        MessageView::Consent(consent) => {
            assert(node.peer_evicted(now, from, Fault::MisdirectedConsent).node.is_at_rest());
            if consent.given_by() == from && consent.given_to() == node.key {
                let state = PeerView { consent: Some(consent), ..node.peers[from] };
                lemma_relinked(node, from, state);
                law_settling_puts_a_node_at_rest(
                    NodeView { peers: node.peers.insert(from, state), ..node },
                    now,
                );
            }
        },
        MessageView::Found(found) => {
            assert(node.peer_evicted(now, from, Fault::ForgedAnswer).node.is_at_rest());
            let closed = NodeView { pending: node.pending.remove(found.nonce), ..node };
            assert(closed.is_well_informed());
            lemma_rest_carries_over(node, closed);
            if closed.is_news(found.walk) && message::vouched_for::<S>(found) {
                lemma_keeping_rests(closed, now, found.walk);
            }
        },
        MessageView::Traffic(traffic) => {
            lemma_rest_carries_over(
                node,
                NodeView { delivered: node.delivered.push(traffic.packet), ..node },
            );
        },
        MessageView::Lookup(_) => {},
    }
}

/// Whatever happens to a node at rest, it works through at once and is at rest
/// again.
pub proof fn law_every_event_leaves_a_node_at_rest<S: Signer>(node: NodeView<S>, event: Event)
    requires
        node.is_at_rest(),
        can_happen::<S>(event),
    ensures
        after(node, event).is_at_rest(),
{
    match event {
        Event::Tick { now } => {
            lemma_ticking_rests(node, now);
        },
        Event::AddPeer { now, peer, cost } => {
            if peer != node.key {
                let state = if node.peers.contains_key(peer) {
                    PeerView { cost, ..node.peers[peer] }
                } else {
                    PeerView { cost, beyond: Set::empty(), told: None, consent: None }
                };
                lemma_relinked(node, peer, state);
                law_settling_puts_a_node_at_rest(
                    NodeView { peers: node.peers.insert(peer, state), ..node },
                    now,
                );
            }
        },
        Event::RemovePeer { now, peer } => {
            if node.peers.contains_key(peer) {
                lemma_unlinking_rests(node, now, peer);
            }
        },
        Event::Hear { now, from, message } => {
            if node.peers.contains_key(from) {
                lemma_hearing_rests(node, now, from, message);
            }
        },
        Event::LookUp { now, target, nonce } => {
            if target != node.key {
                let asking = node.looked_up(now, target, nonce).node;
                assert forall|other: Nonce| #[trigger]
                    asking.pending.contains_key(other) implies asking.pending[other].target
                    != asking.key by {
                    assert(other == nonce || node.pending.contains_key(other));
                }
                lemma_rest_carries_over(node, asking);
            }
        },
        _ => {
            lemma_rest_carries_over(node, after(node, event));
        },
    }
}

/// A node that has just come up is at rest.
pub proof fn law_a_new_node_is_at_rest<S: Signer>(now: u64, signer: S, timing: Timing)
    ensures
        model::isolated(now, signer, timing).is_at_rest(),
{
    let node = model::isolated(now, signer, timing);
    let entries = Seq::<(PublicKey, PeerView)>::empty();
    assert(sorted_map::map_of(entries) =~= node.peers);
    sorted_map::lemma_ascending_is_the_listing(entries);
    let seq = node.next_seq();
    let best = node.best_position(seq);
    laws::law_some_position_is_best(node, seq);
    assert(best == bargain::rooted(signer, seq));
    assert(bargain::keys(best) =~= bargain::keys(node.walk));
    assert(bargain::prices(best) =~= bargain::prices(node.walk));
}

/// Whatever has happened to a node since it came up, it is at rest.
pub proof fn law_a_node_is_always_at_rest<S: Signer>(
    now: u64,
    signer: S,
    timing: Timing,
    events: Seq<Event>,
)
    requires
        forall|i: int| 0 <= i < events.len() ==> can_happen::<S>(#[trigger] events[i]),
    ensures
        reached(model::isolated(now, signer, timing), events).is_at_rest(),
    decreases events.len(),
{
    if events.len() == 0 {
        law_a_new_node_is_at_rest(now, signer, timing);
    } else {
        let before = events.drop_last();
        assert forall|i: int| 0 <= i < before.len() implies can_happen::<S>(
            #[trigger] before[i],
        ) by {
            assert(before[i] == events[i]);
        }
        law_a_node_is_always_at_rest(now, signer, timing, before);
        law_every_event_leaves_a_node_at_rest(
            reached(model::isolated(now, signer, timing), before),
            events.last(),
        );
    }
}

/// A node always answers to the smallest root it knows of: of its own key and
/// the roots on offer below its peers, the least.
pub proof fn law_the_root_is_the_smallest_on_offer<S: Signer>(node: NodeView<S>)
    requires
        node.is_at_rest(),
    ensures
        ({
            let root = node.walk[0].key;
            &&& root.rank() <= node.key.rank()
            &&& forall|peer: PublicKey| #[trigger]
                offers(node, peer) ==> root.rank() <= node.infos[peer].walk[0].key.rank()
            &&& root == node.key || exists|peer: PublicKey|
                #[trigger] offers(node, peer) && node.infos[peer].walk[0].key == root
        }),
{
    let seq = node.next_seq();
    let best = node.best_position(seq);
    laws::law_some_position_is_best(node, seq);
    lemma_same_ends(best, node.walk);
    lemma_where_it_sits(node);
    assert(node.on_offer(bargain::rooted(node.signer, seq), seq));
    assert forall|peer: PublicKey| #[trigger] offers(node, peer) implies node.walk[0].key.rank()
        <= node.infos[peer].walk[0].key.rank() by {
        let position = node.candidate(peer, seq);
        assert(position is Some);
        laws::lemma_candidate(node, peer, seq);
        assert(node.on_offer(position->0, seq));
        assert(position->0[0] == node.infos[peer].walk[0]);
    }
    if let Some(parent) = bargain::parent(node.walk) {
        lemma_same_ends(node.walk.drop_last(), node.infos[parent].walk);
        assert(node.walk.drop_last()[0] == node.walk[0]);
        assert(offers(node, parent));
    }
}

/// A node has no parent exactly while it is its own root; otherwise its parent
/// is the node above it on its walk, a peer that has agreed to carry it, and it
/// sits just below where that peer said it sat, at the price that was agreed.
pub proof fn law_the_parent_is_a_peer_that_agreed<S: Signer>(node: NodeView<S>)
    requires
        node.is_at_rest(),
    ensures
        bargain::parent(node.walk) is None <==> node.walk[0].key == node.key,
        bargain::parent(node.walk) matches Some(parent) ==> {
            &&& parent == node.walk[node.walk.len() - 2].key
            &&& parent != node.key
            &&& offers(node, parent)
            &&& bargain::same_walk(node.walk.drop_last(), node.infos[parent].walk)
            &&& node.walk.last().cost == node.peers[parent].consent->0.price()
        },
{
    lemma_where_it_sits(node);
}

/// Every peer has been told what lies on this node's own side of the link to
/// it: nothing where the link is not part of the tree, and otherwise the node
/// itself together with whatever the other tree links last said lies beyond
/// them.
pub proof fn law_every_peer_was_told_what_lies_beyond<S: Signer>(
    node: NodeView<S>,
    peer: PublicKey,
    bit: int,
)
    requires
        node.is_at_rest(),
        node.peers.contains_key(peer),
    ensures
        node.peers[peer].told is Some <==> node.is_tree_neighbour(peer),
        node.peers[peer].told matches Some(told) ==> (told.contains(bit) <==> summary::bits_of(
            node.key,
        ).contains(bit) || exists|other: PublicKey|
            other != peer && #[trigger] node.peers.contains_key(other) && node.is_tree_neighbour(
                other,
            ) && node.peers[other].beyond.contains(bit)),
{
    assert(node.peers[peer].told == node.wanted(peer));
    if node.is_tree_neighbour(peer) {
        assert(node.summary_beyond(peer).contains(bit) <==> summary::bits_of(node.key).contains(bit)
            || node.some_other_link_sets(peer, bit));
    }
}

/// A node at rest has nothing to reconsider.
pub proof fn law_a_node_at_rest_says_nothing<S: Signer>(node: NodeView<S>, now: u64)
    requires
        node.is_at_rest(),
    ensures
        node.settled(now) == node.still(),
{
    assert(node.reparented(now) == node.still());
    let again = node.resummarised();
    assert(again.node.peers =~= node.peers);
    let listed = sorted_map::ascending(node.peers);
    let owed = |entry: (PublicKey, PeerView)| node.is_owed(entry);
    assert forall|i: int| 0 <= i < listed.len() implies !owed(#[trigger] listed[i]) by {
        sorted_map::lemma_entry_is_mapped(listed, i);
        assert(node.peers.contains_key(listed[i].0));
    }
    laws::lemma_nothing_picked(listed, owed);
    assert(again.out =~= Seq::empty());
    assert(node.settled(now).out =~= Seq::empty());
}

/// Ticking twice at one instant is ticking once: the second tick changes
/// nothing and says nothing, unless announcements are to be reissued the
/// moment they are made.
pub proof fn law_a_second_tick_says_nothing<S: Signer>(node: NodeView<S>, now: u64)
    requires
        node.is_well_informed(),
        sorted_map::is_listed(node.peers),
        node.timing.refresh > 0,
    ensures
        node.ticked(now).node.ticked(now) == node.ticked(now).node.still(),
{
    let once = node.ticked(now).node;
    lemma_ticking_rests(node, now);
    law_a_node_at_rest_says_nothing(once, now);
    laws::law_a_tick_keeps_only_what_is_fresh(node, now);
    assert(sorted_map::fresh_part::<PublicKey, Info>(once.infos, now, once.timing.expiry)
        =~= once.infos);
    assert(sorted_map::fresh_part::<Nonce, Pending>(once.pending, now, once.timing.expiry)
        =~= once.pending);
}

/// What a node holds of where `author` sits, where it holds anything.
pub open spec fn held<S: Signer>(node: NodeView<S>, author: PublicKey) -> Option<Seq<Hop>> {
    if node.infos.contains_key(author) {
        Some(node.infos[author].walk)
    } else {
        None
    }
}

/// The later of a position and what was held before it, if anything was.
pub open spec fn joined(held: Option<Seq<Hop>>, position: Seq<Hop>) -> Seq<Hop> {
    match held {
        Some(was) => bargain::later(position, was),
        None => position,
    }
}

/// Whether two nodes hold the same links on the same terms, and have been told
/// the same by and of everybody else.
pub open spec fn are_informed_alike<S: Signer>(a: NodeView<S>, b: NodeView<S>) -> bool {
    &&& a.signer == b.signer
    &&& a.key == b.key
    &&& a.infos == b.infos
    &&& a.peers.dom() == b.peers.dom()
    &&& forall|peer: PublicKey| #[trigger]
        a.peers.contains_key(peer) ==> a.peers[peer].cost == b.peers[peer].cost
            && a.peers[peer].beyond == b.peers[peer].beyond && a.peers[peer].consent
            == b.peers[peer].consent
}

/// Hearing from a peer where it sits leaves a node holding the later of that
/// and what it held, of that peer and of nobody else, and changes nothing else
/// that it was told.
pub proof fn law_hearing_is_a_join<S: Signer>(
    node: NodeView<S>,
    now: u64,
    from: PublicKey,
    position: Seq<Hop>,
)
    requires
        node.is_at_rest(),
        node.peers.contains_key(from),
        bargain::author(position) == from,
        bargain::shaped(position),
        bargain::checks_out::<S>(position),
    ensures
        ({
            let after = node.handled(now, from, MessageView::Announce(position)).node;
            &&& after.is_at_rest()
            &&& held(after, from) == Some(joined(held(node, from), position))
            &&& are_informed_alike(after, NodeView { infos: after.infos, ..node })
            &&& after.infos == (if node.is_news(position) {
                node.infos.insert(from, InfoView { walk: position, heard_at: now })
            } else {
                node.infos
            })
        }),
{
    lemma_hearing_rests(node, now, from, MessageView::Announce(position));
    let after = node.handled(now, from, MessageView::Announce(position)).node;
    assert(after.peers.dom() =~= node.peers.dom());
}

/// Nodes at rest that are informed alike sit in the same place, have told their
/// peers the same, and send every packet the same way.
pub proof fn law_nodes_informed_alike_behave_alike<S: Signer>(
    a: NodeView<S>,
    b: NodeView<S>,
    dst: PublicKey,
    payload: Seq<u8>,
)
    requires
        a.is_at_rest(),
        b.is_at_rest(),
        are_informed_alike(a, b),
    ensures
        bargain::same_walk(a.walk, b.walk),
        a.walk[0].key == b.walk[0].key,
        bargain::parent(a.walk) == bargain::parent(b.walk),
        a.peers == b.peers,
        a.sent(dst, payload).1 == b.sent(dst, payload).1,
{
    let seq = b.next_seq();
    assert forall|peer: PublicKey| #[trigger]
        a.candidate(peer, seq) == b.candidate(peer, seq) by {
        assert(a.peers.contains_key(peer) <==> b.peers.dom().contains(peer));
    }
    laws::law_best_position_ignores_stamps(a, a.next_seq(), seq);
    laws::lemma_same_offers_same_best(a, b, seq);
    lemma_same_ends(a.walk, b.walk);
    lemma_where_it_sits(a);
    assert forall|peer: PublicKey| a.peers.contains_key(peer) implies #[trigger] a.peers[peer]
        == b.peers[peer] by {
        assert(b.peers.dom().contains(peer));
        assert(b.peers.contains_key(peer));
        laws::lemma_wants_alike(a, b, peer);
    }
    assert(a.peers =~= b.peers);
    if a.infos.contains_key(dst) {
        lemma_hand_on_alike(a, b, a.infos[dst].walk);
    }
}

/// Nodes that sit in the same place and are informed alike hand a packet on the
/// same way.
proof fn lemma_hand_on_alike<S: Signer>(a: NodeView<S>, b: NodeView<S>, dst: Seq<Hop>)
    requires
        a.peers == b.peers,
        a.infos == b.infos,
        bargain::same_walk(a.walk, b.walk),
    ensures
        a.next_hop(dst) == b.next_hop(dst),
{
    bargain::law_distance_ignores_stamps(a.walk, b.walk, dst);
    assert forall|peer: PublicKey| #[trigger] a.is_closer(peer, dst) == b.is_closer(peer, dst) by {}
    assert forall|peer: PublicKey| #[trigger]
        a.is_next_hop(peer, dst) == b.is_next_hop(peer, dst) by {
        assert(a.is_closer(peer, dst) == b.is_closer(peer, dst));
        if a.is_next_hop(peer, dst) {
            assert forall|other: PublicKey| #[trigger] b.is_closer(other, dst) implies {
                ||| b.price_through(peer, dst) < b.price_through(other, dst)
                ||| b.price_through(peer, dst) == b.price_through(other, dst) && peer.rank()
                    <= other.rank()
            } by {
                assert(a.is_closer(other, dst));
            }
        }
        if b.is_next_hop(peer, dst) {
            assert forall|other: PublicKey| #[trigger] a.is_closer(other, dst) implies {
                ||| a.price_through(peer, dst) < a.price_through(other, dst)
                ||| a.price_through(peer, dst) == a.price_through(other, dst) && peer.rank()
                    <= other.rank()
            } by {
                assert(b.is_closer(other, dst));
            }
        }
    }
    if let Some(peer) = a.next_hop(dst) {
        assert(a.is_next_hop(peer, dst));
        assert(b.is_next_hop(peer, dst));
        b.lemma_next_hop_is_unique(peer, b.next_hop(dst)->0, dst);
    } else if let Some(peer) = b.next_hop(dst) {
        assert(b.is_next_hop(peer, dst));
        assert(a.is_next_hop(peer, dst));
    }
}

/// The order in which a peer's announcements arrive does not matter: whichever
/// comes first, a node ends up holding the latest of them and of what it held,
/// knows the same nodes, answers to the same root through the same parent at
/// the same price, has told its peers the same, and sends every packet the
/// same way. Only its own stamps tell the two apart.
pub proof fn law_announcements_do_not_diverge<S: Signer>(
    node: NodeView<S>,
    now: u64,
    from: PublicKey,
    a: Seq<Hop>,
    b: Seq<Hop>,
    dst: PublicKey,
    payload: Seq<u8>,
)
    requires
        node.is_at_rest(),
        node.peers.contains_key(from),
        bargain::author(a) == from,
        bargain::shaped(a),
        bargain::checks_out::<S>(a),
        bargain::author(b) == from,
        bargain::shaped(b),
        bargain::checks_out::<S>(b),
    ensures
        ({
            let (hear_a, hear_b) = (MessageView::Announce(a), MessageView::Announce(b));
            let one = node.handled(now, from, hear_a).node.handled(now, from, hear_b).node;
            let other = node.handled(now, from, hear_b).node.handled(now, from, hear_a).node;
            &&& held(one, from) == Some(joined(held(node, from), bargain::later(a, b)))
            &&& one.infos == other.infos
            &&& one.walk[0].key == other.walk[0].key
            &&& bargain::parent(one.walk) == bargain::parent(other.walk)
            &&& bargain::same_walk(one.walk, other.walk)
            &&& one.peers == other.peers
            &&& one.sent(dst, payload).1 == other.sent(dst, payload).1
        }),
{
    let (hear_a, hear_b) = (MessageView::Announce(a), MessageView::Announce(b));
    let (after_a, after_b) = (
        node.handled(now, from, hear_a).node,
        node.handled(now, from, hear_b).node,
    );
    let one = after_a.handled(now, from, hear_b).node;
    let other = after_b.handled(now, from, hear_a).node;
    law_hearing_is_a_join(node, now, from, a);
    law_hearing_is_a_join(after_a, now, from, b);
    law_hearing_is_a_join(node, now, from, b);
    law_hearing_is_a_join(after_b, now, from, a);
    bargain::law_last_word_is_a_max_register(a, b, b);
    bargain::law_supersedes_never_ties(a, b);
    if let Some(was) = held(node, from) {
        bargain::law_last_word_is_a_max_register(a, b, was);
        bargain::law_last_word_is_a_max_register(b, a, was);
        lemma_latest_of_three(a, b, was);
        lemma_latest_of_three(b, a, was);
    }
    assert(one.infos =~= other.infos);
    assert forall|peer: PublicKey| #[trigger] one.peers.contains_key(peer) implies one.peers[peer].cost
        == other.peers[peer].cost && one.peers[peer].beyond == other.peers[peer].beyond
        && one.peers[peer].consent == other.peers[peer].consent by {
        assert(after_a.peers.dom().contains(peer));
        assert(after_a.peers.contains_key(peer));
        assert(node.peers.dom().contains(peer));
        assert(after_b.peers.dom().contains(peer));
        assert(after_b.peers.contains_key(peer));
        assert(other.peers.dom().contains(peer));
        assert(other.peers.contains_key(peer));
    }
    law_nodes_informed_alike_behave_alike(one, other, dst, payload);
}

/// Of three words, what is no news after one is none after a later one.
proof fn lemma_latest_of_three(a: Seq<Hop>, b: Seq<Hop>, c: Seq<Hop>)
    ensures
        bargain::supersedes(a, b) && bargain::supersedes(b, c) ==> bargain::supersedes(a, c),
        bargain::supersedes(a, b) && !bargain::supersedes(c, b) ==> bargain::supersedes(a, c),
        bargain::supersedes(a, b) ==> !bargain::supersedes(b, a),
        !bargain::supersedes(a, b) && bargain::supersedes(a, c) ==> bargain::supersedes(b, c),
{
    bargain::law_supersedes_never_ties(a, b);
    bargain::law_supersedes_never_ties(b, c);
    bargain::law_supersedes_never_ties(a, c);
    if bargain::supersedes(a, b) && bargain::supersedes(b, c) {
        bargain::law_supersedes_is_transitive(a, b, c);
    }
    if bargain::supersedes(b, a) && bargain::supersedes(a, c) {
        bargain::law_supersedes_is_transitive(b, a, c);
    }
}

/// An answer to a search that is still open, vouched for by the node it is
/// about, closes the search and is filed, unless something later is held
/// already.
pub proof fn law_an_answer_to_an_open_search_is_filed<S: Signer>(
    node: NodeView<S>,
    now: u64,
    from: PublicKey,
    found: FoundView,
)
    requires
        node.is_well_informed(),
        node.peers.contains_key(from),
        found.trail == seq![node.key],
        node.pending.contains_key(found.nonce),
        node.pending[found.nonce].target == bargain::author(found.walk),
        message::vouched_for::<S>(found),
    ensures
        ({
            let after = node.handled(now, from, MessageView::Found(found)).node;
            let author = bargain::author(found.walk);
            &&& held(after, author) == Some(joined(held(node, author), found.walk))
            &&& !after.pending.contains_key(found.nonce)
        }),
{
    assert(found.trail.drop_last() =~= Seq::empty());
}

/// Whether a node holds no position that has gone stale by `now`.
pub open spec fn holds_only_fresh<S: Signer>(node: NodeView<S>, now: u64) -> bool {
    forall|key: PublicKey| #[trigger]
        node.infos.contains_key(key) ==> sorted_map::is_fresh(
            node.infos[key].heard_at,
            now,
            node.timing.expiry,
        )
}

/// The passage of time disturbs nobody who is being kept up to date: a node at
/// rest whose positions are all fresh keeps every one of them, its links and
/// where it sits, forgets only searches that nobody answered, and says nothing,
/// or where its announcement has stood long enough, that announcement again
/// under a fresh stamp.
pub proof fn law_time_disturbs_nobody<S: Signer>(node: NodeView<S>, now: u64)
    requires
        node.is_at_rest(),
        holds_only_fresh(node, now),
    ensures
        ({
            let waiting = NodeView {
                pending: sorted_map::fresh_part::<Nonce, Pending>(
                    node.pending,
                    now,
                    node.timing.expiry,
                ),
                ..node
            };
            let step = node.ticked(now);
            &&& step.node.infos == node.infos
            &&& step.node.peers == node.peers
            &&& bargain::same_walk(step.node.walk, node.walk)
            &&& bargain::parent(step.node.walk) == bargain::parent(node.walk)
            &&& step == if model::elapsed(node.announced_at, now) >= node.timing.refresh {
                waiting.announced(now, bargain::restamped(node.walk, node.signer, node.next_seq()))
            } else {
                waiting.still()
            }
        }),
{
    let waiting = NodeView {
        pending: sorted_map::fresh_part::<Nonce, Pending>(node.pending, now, node.timing.expiry),
        ..node
    };
    assert(sorted_map::fresh_part::<PublicKey, Info>(node.infos, now, node.timing.expiry)
        =~= node.infos);
    assert forall|nonce: Nonce| #[trigger] waiting.pending.contains_key(nonce) implies waiting.pending[nonce].target
        != waiting.key by {
        assert(node.pending.contains_key(nonce));
    }
    lemma_rest_carries_over(node, waiting);
    law_a_node_at_rest_says_nothing(waiting, now);
    lemma_where_it_sits(node);
    let fresh = bargain::restamped(node.walk, node.signer, node.next_seq());
    assert(bargain::keys(fresh) =~= bargain::keys(node.walk));
    assert(bargain::prices(fresh) =~= bargain::prices(node.walk));
    lemma_same_ends(fresh, node.walk);
    let step = node.ticked(now);
    assert(Seq::<EnvelopeView>::empty() + waiting.announced(now, fresh).out =~= waiting.announced(
        now,
        fresh,
    ).out);
}

/// What is on offer after hearing the same walk stamped afresh is what was on
/// offer before it, stamps aside.
proof fn lemma_same_offers_restamped<S: Signer>(
    a: NodeView<S>,
    b: NodeView<S>,
    from: PublicKey,
    position: Seq<Hop>,
    seq: u64,
) -> (counterpart: Seq<Hop>)
    requires
        a.is_well_informed(),
        b.is_well_informed(),
        a.signer == b.signer,
        a.peers == b.peers,
        a.infos.contains_key(from),
        b.infos.contains_key(from),
        bargain::same_walk(a.infos[from].walk, b.infos[from].walk),
        forall|other: PublicKey|
            other != from ==> (#[trigger] a.infos.contains_key(other) <==> b.infos.contains_key(
                other,
            )) && a.infos[other] == b.infos[other],
        a.on_offer(position, seq),
    ensures
        b.on_offer(counterpart, seq),
        bargain::same_walk(position, counterpart),
{
    if position == bargain::rooted(a.signer, seq) {
        position
    } else {
        let peer = choose|peer: PublicKey| #[trigger] a.candidate(peer, seq) == Some(position);
        laws::lemma_candidate(a, peer, seq);
        if peer == from {
            let (up, other) = (a.infos[from].walk, b.infos[from].walk);
            lemma_same_ends(up, other);
            let counterpart = bargain::extended(
                other,
                b.signer,
                b.peers[from].consent->0,
                seq,
            )->0;
            assert(b.candidate(from, seq) == Some(counterpart));
            assert(bargain::keys(position) =~= bargain::keys(up).push(a.key));
            assert(bargain::keys(counterpart) =~= bargain::keys(other).push(a.key));
            assert(bargain::prices(position) =~= bargain::prices(up).push(position.last().cost));
            assert(bargain::prices(counterpart) =~= bargain::prices(other).push(
                position.last().cost,
            ));
            counterpart
        } else {
            assert(b.candidate(peer, seq) == Some(position));
            position
        }
    }
}

/// Hearing a peer say again where it sits moves nobody: the node files it,
/// stays where it is, and says nothing.
pub proof fn law_a_reissue_disturbs_nobody<S: Signer>(
    node: NodeView<S>,
    now: u64,
    from: PublicKey,
    position: Seq<Hop>,
)
    requires
        node.is_at_rest(),
        node.peers.contains_key(from),
        node.infos.contains_key(from),
        bargain::author(position) == from,
        bargain::shaped(position),
        bargain::checks_out::<S>(position),
        bargain::same_walk(position, node.infos[from].walk),
    ensures
        node.handled(now, from, MessageView::Announce(position)) == (if node.is_news(position) {
            node.keeping(now, position)
        } else {
            node
        }).still(),
{
    let kept = node.keeping(now, position);
    if node.is_news(position) {
        lemma_kept(node, now, position);
        let seq = node.next_seq();
        let (was, best) = (node.best_position(seq), kept.best_position(seq));
        laws::law_some_position_is_best(node, seq);
        laws::law_some_position_is_best(kept, seq);
        if !bargain::same_walk(was, best) {
            let here = lemma_same_offers_restamped(kept, node, from, best, seq);
            let there = lemma_same_offers_restamped(node, kept, from, was, seq);
            assert(here != was && there != best);
            bargain::law_preference_ignores_stamps(was, was, here, best);
            bargain::law_preference_ignores_stamps(best, best, there, was);
            bargain::law_preference_never_ties(was, best);
        }
        lemma_same_ends(position, node.infos[from].walk);
        assert forall|other: PublicKey| #[trigger]
            node.is_tree_neighbour(other) == kept.is_tree_neighbour(other) by {
            if other != from {
                assert(kept.infos.contains_key(other) <==> node.infos.contains_key(other));
            }
        }
        assert forall|peer: PublicKey| #[trigger]
            kept.peers.contains_key(peer) implies kept.peers[peer].told == kept.wanted(peer) by {
            assert(node.peers.contains_key(peer));
            laws::lemma_wants_by_neighbours(node, kept, peer);
        }
        assert(kept.is_at_rest());
        law_a_node_at_rest_says_nothing(kept, now);
    }
}

/// A settled network stays settled while time passes: whoever ticks while
/// everything they hold is fresh leaves everybody sitting where they sat.
pub proof fn law_a_settled_network_is_undisturbed<S: Signer>(
    network: Map<PublicKey, NodeView<S>>,
    at: PublicKey,
    now: u64,
)
    requires
        laws::is_settled(network),
        network.contains_key(at),
        network[at].is_at_rest(),
        holds_only_fresh(network[at], now),
        network[at].ticked(now).node.wf(),
    ensures
        laws::is_settled(network.insert(at, network[at].ticked(now).node)),
        bargain::same_walk(network[at].ticked(now).node.walk, network[at].walk),
{
    let node = network[at];
    let later = node.ticked(now).node;
    let after = network.insert(at, later);
    assert(laws::has_settled_into(network, at));
    law_time_disturbs_nobody(node, now);
    lemma_ticking_rests(node, now);
    assert forall|key: PublicKey| #[trigger] after.contains_key(key) implies laws::has_settled_into(
        after,
        key,
    ) by {
        assert(laws::has_settled_into(network, key));
        assert forall|peer: PublicKey| #[trigger]
            after[key].peers.contains_key(peer) implies after.contains_key(peer)
            && after[peer].peers.contains_key(key) && after[key].peers[peer].consent is Some
            && after[key].infos.contains_key(peer) && bargain::same_walk(
            after[key].infos[peer].walk,
            after[peer].walk,
        ) by {
            assert(network[key].peers.contains_key(peer));
        }
    }
}

} // verus!
