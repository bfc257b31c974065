//! What holds of a gossiping node in every state it can get into.

use vstd::prelude::*;
use crate::flood::claim;
use crate::flood::claim::{Claim, Hop};
use crate::flood::laws;
use crate::flood::message::{EnvelopeView, MessageView};
use crate::flood::model;
use crate::flood::model::NodeView;
use crate::flood::node::{Info, Timing};
use crate::key::PublicKey;
use crate::sorted_map;
use crate::sorted_map::Ranked;

verus! {

/// Something that can happen to a node.
pub enum Event {
    /// The clock moves.
    Tick { now: u64 },
    /// A link comes up, or is re-priced.
    AddPeer { now: u64, peer: PublicKey, cost: u64 },
    /// A link goes down.
    RemovePeer { now: u64, peer: PublicKey },
    /// A message arrives.
    Hear { now: u64, from: PublicKey, message: MessageView },
    /// A packet sets out.
    Send { dst: PublicKey, payload: Seq<u8> },
    /// What was delivered is collected.
    TakeDelivered,
}

/// Whether an event is one that can happen: no link is free, and every claim
/// is shaped like one.
pub open spec fn can_happen(event: Event) -> bool {
    match event {
        Event::AddPeer { now, peer, cost } => cost >= 1,
        Event::Hear { now, from, message } => message matches MessageView::Announce(claim)
            ==> claim::shaped(claim.walk),
        _ => true,
    }
}

/// What an event makes of a node.
pub open spec fn after(node: NodeView, event: Event) -> NodeView {
    match event {
        Event::Tick { now } => node.ticked(now).node,
        Event::AddPeer { now, peer, cost } => node.peer_added(now, peer, cost).node,
        Event::RemovePeer { now, peer } => node.peer_removed(now, peer).node,
        Event::Hear { now, from, message } => node.handled(now, from, message).node,
        Event::Send { dst, payload } => node.sent(dst, payload).0,
        Event::TakeDelivered => NodeView { delivered: Seq::empty(), ..node },
    }
}

/// What becomes of a node to which all of `events` happen, in order.
pub open spec fn reached(node: NodeView, events: Seq<Event>) -> NodeView
    decreases events.len(),
{
    if events.len() == 0 {
        node
    } else {
        after(reached(node, events.drop_last()), events.last())
    }
}

/// Whether there is something on offer below a peer: a link to it, and a
/// position that does not run through this node.
pub open spec fn offers(node: NodeView, peer: PublicKey) -> bool {
    &&& node.peers.contains_key(peer)
    &&& node.infos.contains_key(peer)
    &&& !claim::keys(node.infos[peer].claim.walk).contains(node.key)
}

/// Reconsidering puts a node at rest.
pub proof fn law_reparenting_puts_a_node_at_rest(node: NodeView, now: u64)
    requires
        node.wf(),
        sorted_map::is_listed(node.peers),
    ensures
        node.reparented(now).node.is_at_rest(),
{
    let best = node.best_position();
    laws::law_some_position_is_best(node);
    laws::law_reparenting_twice_says_nothing(node, now, now);
    if best != claim::rooted(node.key) {
        let peer = choose|peer: PublicKey| #[trigger] node.candidate(peer) == Some(best);
        assert(node.peers.contains_key(peer) && node.infos.contains_key(peer));
        claim::law_extending_adds_one_link(
            node.infos[peer].claim.walk,
            node.key,
            node.peers[peer],
        );
    }
}

/// A node stays at rest while neither its links nor what it has heard change.
pub(crate) proof fn lemma_rest_carries_over(a: NodeView, b: NodeView)
    requires
        a.is_at_rest(),
        a.key == b.key,
        a.peers == b.peers,
        a.infos == b.infos,
        a.claim.walk == b.claim.walk,
    ensures
        b.is_at_rest(),
{
    lemma_same_offers(a, b);
}

/// Nodes with the same links that have heard the same are offered the same.
proof fn lemma_same_offers(a: NodeView, b: NodeView)
    requires
        a.key == b.key,
        a.peers == b.peers,
        a.infos == b.infos,
    ensures
        forall|position: Seq<Hop>| #[trigger]
            a.is_best_position(position) <==> b.is_best_position(position),
{
    assert forall|peer: PublicKey| #[trigger] a.candidate(peer) == b.candidate(peer) by {}
    assert forall|position: Seq<Hop>| #[trigger] a.on_offer(position) <==> b.on_offer(
        position,
    ) by {
        if a.on_offer(position) && position != claim::rooted(a.key) {
            let peer = choose|peer: PublicKey| #[trigger] a.candidate(peer) == Some(position);
            assert(b.candidate(peer) == Some(position));
        }
        if b.on_offer(position) && position != claim::rooted(b.key) {
            let peer = choose|peer: PublicKey| #[trigger] b.candidate(peer) == Some(position);
            assert(a.candidate(peer) == Some(position));
        }
    }
    assert forall|position: Seq<Hop>| #[trigger]
        a.is_best_position(position) <==> b.is_best_position(position) by {
        assert(a.on_offer(position) <==> b.on_offer(position));
        if a.is_best_position(position) {
            assert forall|other: Seq<Hop>| #[trigger] b.on_offer(other) implies other == position
                || claim::preferred(position, other) by {
                assert(a.on_offer(other));
            }
        }
        if b.is_best_position(position) {
            assert forall|other: Seq<Hop>| #[trigger] a.on_offer(other) implies other == position
                || claim::preferred(position, other) by {
                assert(b.on_offer(other));
            }
        }
    }
}

/// A tick leaves a node at rest, whether it was or not.
pub(crate) proof fn lemma_ticking_rests(node: NodeView, now: u64)
    requires
        node.wf(),
        sorted_map::is_listed(node.peers),
    ensures
        node.ticked(now).node.is_at_rest(),
{
    let kept = NodeView {
        infos: sorted_map::fresh_part::<PublicKey, Info>(node.infos, now, node.timing.expiry),
        ..node
    };
    assert(kept.wf()) by {
        assert forall|key: PublicKey| #[trigger] kept.infos.contains_key(key) implies claim::shaped(
            kept.infos[key].claim.walk,
        ) && claim::author(kept.infos[key].claim.walk) == key by {
            assert(node.infos.contains_key(key));
        }
    }
    law_reparenting_puts_a_node_at_rest(kept, now);
    let moved = kept.reparented(now).node;
    lemma_rest_carries_over(moved, moved.announced(now, moved.claim.walk).node);
}

/// Filing a claim puts a node at rest.
proof fn lemma_keeping_rests(node: NodeView, now: u64, claim: Claim)
    requires
        node.wf(),
        sorted_map::is_listed(node.peers),
        claim::shaped(claim.walk),
        claim::author(claim.walk) != node.key,
    ensures
        node.keeping(now, claim).reparented(now).node.is_at_rest(),
{
    let keeping = node.keeping(now, claim);
    assert(keeping.wf()) by {
        assert forall|other: PublicKey| #[trigger]
            keeping.infos.contains_key(other) implies claim::shaped(keeping.infos[other].claim.walk)
            && claim::author(keeping.infos[other].claim.walk) == other by {
            assert(other == claim::author(claim.walk) || node.infos.contains_key(other));
        }
    }
    law_reparenting_puts_a_node_at_rest(keeping, now);
}

/// Whatever happens to a node at rest, it works through at once and is at rest
/// again.
pub proof fn law_every_event_leaves_a_node_at_rest(node: NodeView, event: Event)
    requires
        node.is_at_rest(),
        can_happen(event),
    ensures
        after(node, event).is_at_rest(),
{
    match event {
        Event::Tick { now } => {
            lemma_ticking_rests(node, now);
        },
        Event::AddPeer { now, peer, cost } => {
            if peer != node.key {
                let linked = NodeView { peers: node.peers.insert(peer, cost), ..node };
                sorted_map::lemma_insert_is_listed(node.peers, peer, cost);
                assert(linked.wf()) by {
                    assert forall|other: PublicKey| #[trigger]
                        linked.peers.contains_key(other) implies linked.peers[other] >= 1 by {
                        assert(other == peer || node.peers.contains_key(other));
                    }
                }
                law_reparenting_puts_a_node_at_rest(linked, now);
            }
        },
        Event::RemovePeer { now, peer } => {
            if node.peers.contains_key(peer) {
                let cut = NodeView { peers: node.peers.remove(peer), ..node };
                sorted_map::lemma_remove_is_listed(node.peers, peer);
                assert(cut.wf());
                law_reparenting_puts_a_node_at_rest(cut, now);
            }
        },
        Event::Hear { now, from, message } => {
            match message {
                MessageView::Announce(claim) => {
                    if node.is_news(claim) {
                        lemma_keeping_rests(node, now, claim);
                    }
                },
                MessageView::Packet(packet) => {
                    lemma_rest_carries_over(
                        node,
                        NodeView { delivered: node.delivered.push(packet), ..node },
                    );
                },
            }
        },
        _ => {
            lemma_rest_carries_over(node, after(node, event));
        },
    }
}

/// A node that has just come up is at rest.
pub proof fn law_a_new_node_is_at_rest(now: u64, key: PublicKey, timing: Timing)
    ensures
        model::isolated(now, key, timing).is_at_rest(),
{
    let node = model::isolated(now, key, timing);
    let entries = Seq::<(PublicKey, u64)>::empty();
    assert(sorted_map::map_of(entries) =~= node.peers);
    sorted_map::lemma_ascending_is_the_listing(entries);
}

/// Whatever has happened to a node since it came up, it is at rest.
pub proof fn law_a_node_is_always_at_rest(
    now: u64,
    key: PublicKey,
    timing: Timing,
    events: Seq<Event>,
)
    requires
        forall|i: int| 0 <= i < events.len() ==> can_happen(#[trigger] events[i]),
    ensures
        reached(model::isolated(now, key, timing), events).is_at_rest(),
    decreases events.len(),
{
    if events.len() == 0 {
        law_a_new_node_is_at_rest(now, key, timing);
    } else {
        let before = events.drop_last();
        assert forall|i: int| 0 <= i < before.len() implies can_happen(#[trigger] before[i]) by {
            assert(before[i] == events[i]);
        }
        law_a_node_is_always_at_rest(now, key, timing, before);
        law_every_event_leaves_a_node_at_rest(
            reached(model::isolated(now, key, timing), before),
            events.last(),
        );
    }
}

/// A node always answers to the smallest root it knows of: of its own key and
/// the roots on offer below its peers, the least.
pub proof fn law_the_root_is_the_smallest_on_offer(node: NodeView)
    requires
        node.is_at_rest(),
    ensures
        ({
            let root = node.claim.walk[0].key;
            &&& root.rank() <= node.key.rank()
            &&& forall|peer: PublicKey| #[trigger]
                offers(node, peer) ==> root.rank() <= node.infos[peer].claim.walk[0].key.rank()
            &&& root == node.key || exists|peer: PublicKey|
                #[trigger] offers(node, peer) && node.infos[peer].claim.walk[0].key == root
        }),
{
    let walk = node.claim.walk;
    assert(node.on_offer(claim::rooted(node.key)));
    assert forall|peer: PublicKey| #[trigger] offers(node, peer) implies walk[0].key.rank()
        <= node.infos[peer].claim.walk[0].key.rank() by {
        let position = node.candidate(peer);
        assert(position is Some);
        assert(node.on_offer(position->0));
        assert(position->0[0] == node.infos[peer].claim.walk[0]);
    }
    if walk != claim::rooted(node.key) {
        let peer = choose|peer: PublicKey| #[trigger] node.candidate(peer) == Some(walk);
        assert(offers(node, peer));
        assert(walk[0] == node.infos[peer].claim.walk[0]);
    }
}

/// A node has no parent exactly while it is its own root; otherwise its parent
/// is the node above it on its walk, a peer, and it sits just below where that
/// peer said it sat, across the link between them.
pub proof fn law_the_parent_is_a_known_peer(node: NodeView)
    requires
        node.is_at_rest(),
    ensures
        claim::parent(node.claim.walk) is None <==> node.claim.walk[0].key == node.key,
        claim::parent(node.claim.walk) matches Some(parent) ==> {
            &&& parent == node.claim.walk[node.claim.walk.len() - 2].key
            &&& parent != node.key
            &&& offers(node, parent)
            &&& node.claim.walk.drop_last() == node.infos[parent].claim.walk
            &&& node.claim.walk.last().cost == node.peers[parent]
        },
{
    let walk = node.claim.walk;
    if walk != claim::rooted(node.key) {
        let peer = choose|peer: PublicKey| #[trigger] node.candidate(peer) == Some(walk);
        assert(offers(node, peer));
        claim::law_extending_adds_one_link(
            node.infos[peer].claim.walk,
            node.key,
            node.peers[peer],
        );
        assert(walk[0].key != walk[walk.len() - 1].key);
    }
}

/// Ticking twice at one instant is ticking once: the second tick changes
/// nothing and says nothing, unless announcements are to be reissued the
/// moment they are made.
pub proof fn law_a_second_tick_says_nothing(node: NodeView, now: u64)
    requires
        node.wf(),
        sorted_map::is_listed(node.peers),
        node.timing.refresh > 0,
    ensures
        node.ticked(now).node.ticked(now) == node.ticked(now).node.still(),
{
    let once = node.ticked(now).node;
    lemma_ticking_rests(node, now);
    law_a_node_at_rest_says_nothing(once, now);
    laws::law_a_tick_keeps_only_what_is_fresh(node, now);
    assert(sorted_map::fresh_part::<PublicKey, Info>(once.infos, now, once.timing.expiry)
        =~= once.infos);
}

/// Nodes at rest with the same links that have heard the same sit in the same
/// place, and send every packet the same way.
pub proof fn law_nodes_informed_alike_behave_alike(
    a: NodeView,
    b: NodeView,
    dst: PublicKey,
    payload: Seq<u8>,
)
    requires
        a.is_at_rest(),
        b.is_at_rest(),
        a.key == b.key,
        a.peers == b.peers,
        a.infos == b.infos,
    ensures
        a.claim.walk == b.claim.walk,
        a.sent(dst, payload).1 == b.sent(dst, payload).1,
{
    lemma_same_offers(a, b);
    assert(b.is_best_position(a.claim.walk));
    b.lemma_best_position_is_unique(a.claim.walk, b.claim.walk);
    let walk = a.infos[dst].claim.walk;
    assert forall|peer: PublicKey| #[trigger] a.is_closer(peer, walk) == b.is_closer(
        peer,
        walk,
    ) by {}
    assert forall|peer: PublicKey| #[trigger] a.is_next_hop(peer, walk) == b.is_next_hop(
        peer,
        walk,
    ) by {
        assert(a.is_closer(peer, walk) == b.is_closer(peer, walk));
        if a.is_next_hop(peer, walk) {
            assert forall|other: PublicKey| #[trigger] b.is_closer(other, walk) implies {
                ||| b.price_through(peer, walk) < b.price_through(other, walk)
                ||| b.price_through(peer, walk) == b.price_through(other, walk) && peer.rank()
                    <= other.rank()
            } by {
                assert(a.is_closer(other, walk));
            }
        }
        if b.is_next_hop(peer, walk) {
            assert forall|other: PublicKey| #[trigger] a.is_closer(other, walk) implies {
                ||| a.price_through(peer, walk) < a.price_through(other, walk)
                ||| a.price_through(peer, walk) == a.price_through(other, walk) && peer.rank()
                    <= other.rank()
            } by {
                assert(b.is_closer(other, walk));
            }
        }
    }
    if let Some(peer) = a.next_hop(dst) {
        assert(a.is_next_hop(peer, walk));
        assert(b.is_next_hop(peer, walk));
        b.lemma_next_hop_is_unique(peer, b.next_hop(dst)->0, walk);
    } else if let Some(peer) = b.next_hop(dst) {
        assert(b.is_next_hop(peer, walk));
        assert(a.is_next_hop(peer, walk));
    }
}

/// The order in which claims arrive does not matter: whichever comes first, a
/// node ends up holding the same of everybody, the latest of what one author
/// said, answers to the same root through the same walk, and sends every packet
/// the same way. Only its own stamp tells the two apart.
pub proof fn law_claims_do_not_diverge(
    node: NodeView,
    now: u64,
    from: PublicKey,
    a: Claim,
    b: Claim,
    dst: PublicKey,
    payload: Seq<u8>,
)
    requires
        node.is_at_rest(),
        node.peers.contains_key(from),
        claim::shaped(a.walk),
        claim::shaped(b.walk),
    ensures
        ({
            let (hear_a, hear_b) = (MessageView::Announce(a), MessageView::Announce(b));
            let one = node.handled(now, from, hear_a).node.handled(now, from, hear_b).node;
            let other = node.handled(now, from, hear_b).node.handled(now, from, hear_a).node;
            let author = claim::author(a.walk);
            &&& author == claim::author(b.walk) && author != node.key ==> laws::held(one, author)
                == Some(
                match laws::held(node, author) {
                    Some(was) => claim::later(claim::later(a, b), was),
                    None => claim::later(a, b),
                },
            )
            &&& one.infos == other.infos
            &&& one.claim.walk == other.claim.walk
            &&& one.peers == other.peers
            &&& one.sent(dst, payload).1 == other.sent(dst, payload).1
        }),
{
    let (hear_a, hear_b) = (MessageView::Announce(a), MessageView::Announce(b));
    let (after_a, after_b) = (
        node.handled(now, from, hear_a).node,
        node.handled(now, from, hear_b).node,
    );
    let one = after_a.handled(now, from, hear_b).node;
    let other = after_b.handled(now, from, hear_a).node;
    law_every_event_leaves_a_node_at_rest(node, Event::Hear { now, from, message: hear_a });
    law_every_event_leaves_a_node_at_rest(node, Event::Hear { now, from, message: hear_b });
    law_every_event_leaves_a_node_at_rest(after_a, Event::Hear { now, from, message: hear_b });
    law_every_event_leaves_a_node_at_rest(after_b, Event::Hear { now, from, message: hear_a });
    let (x, y) = (claim::author(a.walk), claim::author(b.walk));
    claim::law_supersedes_never_ties(a, b);
    if node.infos.contains_key(x) {
        lemma_latest_of_three(a, b, node.infos[x].claim);
        lemma_latest_of_three(b, a, node.infos[x].claim);
    }
    assert(one.infos =~= other.infos);
    law_nodes_informed_alike_behave_alike(one, other, dst, payload);
}

/// Of three words, what is no news after one is none after a later one.
proof fn lemma_latest_of_three(a: Claim, b: Claim, c: Claim)
    ensures
        claim::supersedes(a, b) && claim::supersedes(b, c) ==> claim::supersedes(a, c),
        claim::supersedes(a, b) && !claim::supersedes(c, b) ==> claim::supersedes(a, c),
        claim::supersedes(a, b) ==> !claim::supersedes(b, a),
        !claim::supersedes(a, b) && claim::supersedes(a, c) ==> claim::supersedes(b, c) || a == b,
{
    claim::law_supersedes_never_ties(a, b);
    claim::law_supersedes_never_ties(b, c);
    claim::law_supersedes_never_ties(a, c);
    if claim::supersedes(a, b) && claim::supersedes(b, c) {
        claim::law_supersedes_is_transitive(a, b, c);
    }
    if claim::supersedes(b, a) && claim::supersedes(a, c) {
        claim::law_supersedes_is_transitive(b, a, c);
    }
}

/// Whether a node holds no claim that has gone stale by `now`.
pub open spec fn holds_only_fresh(node: NodeView, now: u64) -> bool {
    forall|key: PublicKey| #[trigger]
        node.infos.contains_key(key) ==> sorted_map::is_fresh(
            node.infos[key].heard_at,
            now,
            node.timing.expiry,
        )
}

/// A node at rest has nothing to reconsider.
pub proof fn law_a_node_at_rest_says_nothing(node: NodeView, now: u64)
    requires
        node.is_at_rest(),
    ensures
        node.reparented(now) == node.still(),
{
    laws::law_some_position_is_best(node);
    node.lemma_best_position_is_unique(node.claim.walk, node.best_position());
}

/// The passage of time disturbs nobody who is being kept up to date: a node at
/// rest whose claims are all fresh keeps every one of them, its links and where
/// it sits, and says nothing, or where its own announcement has stood long
/// enough, that announcement again under a fresh stamp.
pub proof fn law_time_disturbs_nobody(node: NodeView, now: u64)
    requires
        node.is_at_rest(),
        holds_only_fresh(node, now),
    ensures
        node.ticked(now).node.infos == node.infos,
        node.ticked(now).node.peers == node.peers,
        node.ticked(now).node.claim.walk == node.claim.walk,
        node.ticked(now) == if model::elapsed(node.announced_at, now) >= node.timing.refresh {
            node.announced(now, node.claim.walk)
        } else {
            node.still()
        },
{
    assert(sorted_map::fresh_part::<PublicKey, Info>(node.infos, now, node.timing.expiry)
        =~= node.infos);
    law_a_node_at_rest_says_nothing(node, now);
    let reissued = node.announced(now, node.claim.walk);
    assert(Seq::<EnvelopeView>::empty() + reissued.out =~= reissued.out);
}

/// Hearing somebody say again where they sit moves nobody: the node files it,
/// passes it on, and stays where it is.
pub proof fn law_a_reissue_disturbs_nobody(
    node: NodeView,
    now: u64,
    from: PublicKey,
    claim: Claim,
)
    requires
        node.is_at_rest(),
        node.peers.contains_key(from),
        claim::shaped(claim.walk),
        node.infos.contains_key(claim::author(claim.walk)),
        claim.walk == node.infos[claim::author(claim.walk)].claim.walk,
        node.is_news(claim),
    ensures
        ({
            let step = node.handled(now, from, MessageView::Announce(claim));
            &&& step.node == node.keeping(now, claim)
            &&& step.node.claim == node.claim
            &&& step.out == node.gossiped(MessageView::Announce(claim), Some(from))
        }),
{
    let kept = node.keeping(now, claim);
    assert forall|peer: PublicKey| #[trigger] node.candidate(peer) == kept.candidate(peer) by {}
    assert forall|position: Seq<Hop>| #[trigger] kept.on_offer(position) implies node.on_offer(
        position,
    ) by {
        if position != claim::rooted(kept.key) {
            let peer = choose|peer: PublicKey| #[trigger] kept.candidate(peer) == Some(position);
            assert(node.candidate(peer) == Some(position));
        }
    }
    if node.claim.walk != claim::rooted(node.key) {
        let peer = choose|peer: PublicKey| #[trigger]
            node.candidate(peer) == Some(node.claim.walk);
        assert(kept.candidate(peer) == Some(node.claim.walk));
    }
    assert(kept.on_offer(node.claim.walk));
    assert(kept.is_best_position(kept.claim.walk));
    assert(kept.wf()) by {
        assert forall|other: PublicKey| #[trigger]
            kept.infos.contains_key(other) implies claim::shaped(kept.infos[other].claim.walk)
            && claim::author(kept.infos[other].claim.walk) == other by {
            assert(node.infos.contains_key(other));
        }
    }
    law_a_node_at_rest_says_nothing(kept, now);
    let step = node.handled(now, from, MessageView::Announce(claim));
    let passed = node.gossiped(MessageView::Announce(claim), Some(from));
    assert(passed + Seq::<EnvelopeView>::empty() =~= passed);
}

/// A settled network stays settled while time passes: whoever ticks while
/// everything they hold is fresh leaves everybody sitting where they sat.
pub proof fn law_a_settled_network_is_undisturbed(
    network: Map<PublicKey, NodeView>,
    at: PublicKey,
    now: u64,
)
    requires
        laws::is_settled(network),
        network.contains_key(at),
        holds_only_fresh(network[at], now),
    ensures
        laws::is_settled(network.insert(at, network[at].ticked(now).node)),
        network[at].ticked(now).node.claim.walk == network[at].claim.walk,
{
    let node = network[at];
    let later = node.ticked(now).node;
    let after = network.insert(at, later);
    assert(laws::has_settled_into(network, at));
    law_time_disturbs_nobody(node, now);
    lemma_ticking_rests(node, now);
    assert forall|key: PublicKey| #[trigger] after.contains_key(key) implies laws::has_settled_into(
        after,
        key,
    ) by {
        assert(laws::has_settled_into(network, key));
        assert forall|peer: PublicKey| #[trigger]
            after[key].peers.contains_key(peer) implies after.contains_key(peer)
            && after[peer].peers.contains_key(key) && after[key].infos.contains_key(peer)
            && after[key].infos[peer].claim.walk == after[peer].claim.walk by {
            assert(network[key].peers.contains_key(peer));
        }
    }
}

} // verus!
