//! What holds of the simulated network as a whole.

use vstd::prelude::*;
use crate::flood::message::{EnvelopeView, MessageView};
use crate::flood::model::{NodeView, Step};
use crate::key::{PublicKey, KEY_LEN};
use crate::packet::PacketView;
use crate::sorted_map;
use crate::viewer::command;
use crate::viewer::http::RequestView;
use crate::viewer::model;
use crate::viewer::model::{Ends, SimView};
use crate::walk;

verus! {

/// A label's key leads back to the label, so no two labels share one.
pub proof fn law_labels_and_keys_convert_freely(id: u8)
    ensures
        model::id_of(model::key_of(id)) == id,
{
    let bytes = Seq::new(KEY_LEN as nat, |i: int| id);
    let key = PublicKey(vstd::array::spec_array_fill_for_copy_type(id));
    assert(key@ =~= bytes);
    assert(model::key_of(id)@ == bytes);
    assert(bytes[0] == id);
}

/// Whether labels run upwards and have all been given out, and every node
/// answers to the key its label makes.
pub open spec fn is_labelled(sim: SimView) -> bool {
    &&& forall|i: int, j: int|
        0 <= i < j < sim.nodes.len() ==> (#[trigger] sim.nodes[i]).0 < (#[trigger] sim.nodes[j]).0
    &&& forall|i: int|
        0 <= i < sim.nodes.len() ==> (#[trigger] sim.nodes[i]).0 < sim.next_id
            && sim.nodes[i].1.key == model::key_of(sim.nodes[i].0) && sorted_map::is_listed(
            sim.nodes[i].1.peers,
        )
}

/// Whether the nodes in two places are the ends of a link, each holding the
/// other as a peer at the same cost.
pub open spec fn joins(sim: SimView, ends: Ends, cost: u64, i: int, j: int) -> bool {
    &&& sim.bears(ends.a, i)
    &&& sim.bears(ends.b, j)
    &&& sim.nodes[i].1.peers.contains_key(model::key_of(ends.b))
    &&& sim.nodes[i].1.peers[model::key_of(ends.b)] == cost
    &&& sim.nodes[j].1.peers.contains_key(model::key_of(ends.a))
    &&& sim.nodes[j].1.peers[model::key_of(ends.a)] == cost
}

/// Whether a node's holding `peer` as a peer is half of a link.
pub open spec fn is_half_a_link(sim: SimView, i: int, peer: PublicKey) -> bool {
    let other = model::id_of(peer);
    &&& peer == model::key_of(other)
    &&& other != sim.nodes[i].0
    &&& sim.links.contains_key(model::ordered(sim.nodes[i].0, other))
}

/// Whether there is a link between two labels.
pub open spec fn is_link(sim: SimView, ends: Ends) -> bool {
    sim.links.contains_key(ends)
}

/// Whether the node in one place holds `peer` as a peer.
pub open spec fn is_peer(sim: SimView, i: int, peer: PublicKey) -> bool {
    0 <= i < sim.nodes.len() && sim.nodes[i].1.peers.contains_key(peer)
}

/// Whether the links are what the nodes hold: both ends of every link are
/// there and agree on what it costs, and no node holds a peer over anything
/// but a link.
pub open spec fn agrees(sim: SimView) -> bool {
    &&& is_labelled(sim)
    &&& forall|ends: Ends| #[trigger]
        is_link(sim, ends) ==> ends.a < ends.b && exists|i: int, j: int|
            joins(sim, ends, sim.links[ends], i, j)
    &&& forall|i: int, peer: PublicKey| #[trigger]
        is_peer(sim, i, peer) ==> is_half_a_link(sim, i, peer)
}

/// Whether two networks have the same labels and links.
pub open spec fn is_same_graph(before: SimView, after: SimView) -> bool {
    &&& after.nodes.len() == before.nodes.len()
    &&& forall|i: int|
        0 <= i < before.nodes.len() ==> (#[trigger] after.nodes[i]).0 == before.nodes[i].0
            && after.nodes[i].1.key == before.nodes[i].1.key && after.nodes[i].1.peers
            == before.nodes[i].1.peers
    &&& after.links == before.links
    &&& after.next_id == before.next_id
}

/// Whether one network is another but for what its nodes have in mind: the same
/// labels, links and clock.
pub open spec fn keeps(before: SimView, after: SimView) -> bool {
    is_same_graph(before, after) && after.now == before.now
}

/// A label is borne in one place.
pub(crate) proof fn lemma_place(sim: SimView, id: u8, at: int)
    requires
        is_labelled(sim),
        sim.bears(id, at),
    ensures
        sim.has(id),
        sim.place(id) == at,
{
    let found = sim.place(id);
    assert(sim.bears(id, found));
    if found < at {
        assert(sim.nodes[found].0 < sim.nodes[at].0);
    } else if at < found {
        assert(sim.nodes[at].0 < sim.nodes[found].0);
    }
}

pub(crate) proof fn lemma_keeps_labels(before: SimView, after: SimView)
    requires
        is_same_graph(before, after),
    ensures
        is_labelled(before) ==> is_labelled(after),
        forall|id: u8, at: int| #[trigger] after.bears(id, at) <==> before.bears(id, at),
        forall|id: u8| #[trigger] after.has(id) <==> before.has(id),
{
    assert forall|id: u8, at: int| #[trigger] after.bears(id, at) <==> before.bears(id, at) by {
        if 0 <= at < before.nodes.len() {
            assert(after.nodes[at].0 == before.nodes[at].0);
        }
    }
    assert forall|id: u8| #[trigger] after.has(id) <==> before.has(id) by {
        if after.has(id) {
            assert(before.bears(id, after.place(id)));
        }
        if before.has(id) {
            assert(after.bears(id, before.place(id)));
        }
    }
    if is_labelled(before) {
        assert forall|i: int, j: int| 0 <= i < j < after.nodes.len() implies (
        #[trigger] after.nodes[i]).0 < (#[trigger] after.nodes[j]).0 by {
            assert(before.nodes[i].0 < before.nodes[j].0);
        }
        assert forall|i: int| 0 <= i < after.nodes.len() implies (#[trigger] after.nodes[i]).0
            < after.next_id && after.nodes[i].1.key == model::key_of(after.nodes[i].0)
            && sorted_map::is_listed(after.nodes[i].1.peers) by {
            assert(before.nodes[i].0 < before.next_id);
        }
    }
}

/// What the links agree with does not depend on what the nodes have in mind.
proof fn lemma_keeps_agreement(before: SimView, after: SimView)
    requires
        agrees(before),
        is_same_graph(before, after),
    ensures
        agrees(after),
{
    lemma_keeps_labels(before, after);
    assert forall|ends: Ends| #[trigger] is_link(after, ends) implies ends.a < ends.b
        && exists|i: int, j: int| joins(after, ends, after.links[ends], i, j) by {
        assert(is_link(before, ends));
        let (i, j) = choose|i: int, j: int| joins(before, ends, before.links[ends], i, j);
        assert(after.bears(ends.a, i) && after.bears(ends.b, j));
        assert(after.nodes[i].1.peers == before.nodes[i].1.peers);
        assert(after.nodes[j].1.peers == before.nodes[j].1.peers);
        assert(joins(after, ends, after.links[ends], i, j));
    }
    assert forall|i: int, peer: PublicKey| #[trigger] is_peer(after, i, peer) implies is_half_a_link(
        after,
        i,
        peer,
    ) by {
        assert(after.nodes[i].1.peers == before.nodes[i].1.peers);
        assert(is_peer(before, i, peer));
        assert(is_half_a_link(before, i, peer));
    }
}

/// A node that keeps its peers keeps the shape of the network.
proof fn lemma_acted(sim: SimView, id: u8, step: Step)
    requires
        sim.has(id),
        step.node.key == sim.node(id).key,
        step.node.peers == sim.node(id).peers,
    ensures
        keeps(sim, sim.acted(id, step)),
{
    assert(sim.bears(id, sim.place(id)));
}

pub(crate) proof fn lemma_delivered(sim: SimView)
    requires
        sim.queue.len() > 0,
    ensures
        keeps(sim, sim.next_delivered()),
{
    let in_flight = sim.queue[0];
    let rest = SimView { queue: sim.queue.drop_first(), ..sim };
    let to = model::id_of(in_flight.to);
    if rest.has(to) {
        lemma_acted(
            rest,
            to,
            rest.node(to).handled(rest.now, in_flight.from, in_flight.message),
        );
    }
}

/// Running gossip moves nobody's links or labels, and leaves nothing in flight.
pub(crate) proof fn lemma_ran(sim: SimView, left: nat)
    ensures
        keeps(sim, sim.run_for(left)),
        sim.run_for(left).queue.len() == 0,
    decreases left,
{
    if left > 0 && sim.queue.len() > 0 {
        lemma_delivered(sim);
        lemma_ran(sim.next_delivered(), (left - 1) as nat);
    }
}

/// The network with one node's peers changed, and its links.
pub open spec fn is_relinked(
    before: SimView,
    after: SimView,
    at: int,
    peers: Map<PublicKey, u64>,
    links: Map<Ends, u64>,
) -> bool {
    &&& after.nodes.len() == before.nodes.len()
    &&& forall|i: int|
        0 <= i < before.nodes.len() ==> (#[trigger] after.nodes[i]).0 == before.nodes[i].0
            && after.nodes[i].1.key == before.nodes[i].1.key
    &&& forall|i: int|
        0 <= i < before.nodes.len() && i != at ==> (#[trigger] after.nodes[i]).1.peers
            == before.nodes[i].1.peers
    &&& after.nodes[at].1.peers == peers
    &&& after.links == links
    &&& after.now == before.now
    &&& after.next_id == before.next_id
}

proof fn lemma_priced(sim: SimView, near: u8, far: u8, cost: u64, at: int)
    requires
        is_labelled(sim),
        sim.bears(near, at),
        near != far,
    ensures
        is_relinked(
            sim,
            sim.end_priced(near, far, cost),
            at,
            sim.nodes[at].1.peers.insert(model::key_of(far), cost),
            sim.links,
        ),
{
    lemma_place(sim, near, at);
    law_labels_and_keys_convert_freely(near);
    law_labels_and_keys_convert_freely(far);
    let node = sim.nodes[at].1;
    let step = node.peer_added(sim.now, model::key_of(far), cost);
    assert(node.key == model::key_of(near));
    assert(step.node.peers =~= node.peers.insert(model::key_of(far), cost));
}

proof fn lemma_dropped(sim: SimView, near: u8, far: u8, at: int)
    requires
        is_labelled(sim),
        sim.bears(near, at),
    ensures
        is_relinked(
            sim,
            sim.end_dropped(near, far),
            at,
            sim.nodes[at].1.peers.remove(model::key_of(far)),
            sim.links,
        ),
{
    lemma_place(sim, near, at);
    let node = sim.nodes[at].1;
    let step = node.peer_removed(sim.now, model::key_of(far));
    assert(step.node.peers =~= node.peers.remove(model::key_of(far)));
}

proof fn lemma_relinked_labels(
    before: SimView,
    after: SimView,
    at: int,
    peers: Map<PublicKey, u64>,
    links: Map<Ends, u64>,
)
    requires
        is_labelled(before),
        0 <= at < before.nodes.len(),
        sorted_map::is_listed(peers),
        is_relinked(before, after, at, peers, links),
    ensures
        is_labelled(after),
        forall|id: u8, i: int| #[trigger] after.bears(id, i) <==> before.bears(id, i),
{
    assert forall|i: int, j: int| 0 <= i < j < after.nodes.len() implies (
    #[trigger] after.nodes[i]).0 < (#[trigger] after.nodes[j]).0 by {
        assert(before.nodes[i].0 < before.nodes[j].0);
    }
    assert forall|i: int| 0 <= i < after.nodes.len() implies (#[trigger] after.nodes[i]).0
        < after.next_id && after.nodes[i].1.key == model::key_of(after.nodes[i].0)
        && sorted_map::is_listed(after.nodes[i].1.peers) by {
        assert(before.nodes[i].0 < before.next_id);
    }
    assert forall|id: u8, i: int| #[trigger] after.bears(id, i) <==> before.bears(id, i) by {
        if 0 <= i < before.nodes.len() {
            assert(after.nodes[i].0 == before.nodes[i].0);
        }
    }
}

/// No two labels share a key.
pub(crate) proof fn lemma_keys_differ()
    ensures
        forall|id: u8| model::id_of(#[trigger] model::key_of(id)) == id,
{
    assert forall|id: u8| model::id_of(#[trigger] model::key_of(id)) == id by {
        law_labels_and_keys_convert_freely(id);
    }
}

/// Whether two nodes' peers have changed, and the links, and nothing else.
pub open spec fn is_relinked_at_both(
    before: SimView,
    after: SimView,
    i: int,
    near: Map<PublicKey, u64>,
    j: int,
    far: Map<PublicKey, u64>,
    links: Map<Ends, u64>,
) -> bool {
    &&& after.nodes.len() == before.nodes.len()
    &&& forall|k: int|
        0 <= k < before.nodes.len() ==> (#[trigger] after.nodes[k]).0 == before.nodes[k].0
            && after.nodes[k].1.key == before.nodes[k].1.key
    &&& forall|k: int|
        0 <= k < before.nodes.len() && k != i && k != j ==> (
        #[trigger] after.nodes[k]).1.peers == before.nodes[k].1.peers
    &&& after.nodes[i].1.peers == near
    &&& after.nodes[j].1.peers == far
    &&& after.links == links
    &&& after.now == before.now
    &&& after.next_id == before.next_id
}

proof fn lemma_relinked_at_both(
    before: SimView,
    after: SimView,
    i: int,
    near: Map<PublicKey, u64>,
    j: int,
    far: Map<PublicKey, u64>,
    links: Map<Ends, u64>,
)
    requires
        is_labelled(before),
        0 <= i < before.nodes.len(),
        0 <= j < before.nodes.len(),
        sorted_map::is_listed(near),
        sorted_map::is_listed(far),
        is_relinked_at_both(before, after, i, near, j, far, links),
    ensures
        is_labelled(after),
        forall|id: u8, k: int| #[trigger] after.bears(id, k) <==> before.bears(id, k),
        forall|id: u8| #[trigger] after.has(id) <==> before.has(id),
{
    assert forall|x: int, y: int| 0 <= x < y < after.nodes.len() implies (
    #[trigger] after.nodes[x]).0 < (#[trigger] after.nodes[y]).0 by {
        assert(before.nodes[x].0 < before.nodes[y].0);
    }
    assert forall|k: int| 0 <= k < after.nodes.len() implies (#[trigger] after.nodes[k]).0
        < after.next_id && after.nodes[k].1.key == model::key_of(after.nodes[k].0)
        && sorted_map::is_listed(after.nodes[k].1.peers) by {
        assert(before.nodes[k].0 < before.next_id);
    }
    assert forall|id: u8, k: int| #[trigger] after.bears(id, k) <==> before.bears(id, k) by {
        if 0 <= k < before.nodes.len() {
            assert(after.nodes[k].0 == before.nodes[k].0);
        }
    }
    assert forall|id: u8| #[trigger] after.has(id) <==> before.has(id) by {
        if after.has(id) {
            assert(before.bears(id, after.place(id)));
        }
        if before.has(id) {
            assert(after.bears(id, before.place(id)));
        }
    }
}

/// What pricing both ends of a link comes to.
proof fn lemma_both_ends_priced(sim: SimView, a: u8, b: u8, cost: u64, i: int, j: int)
    requires
        is_labelled(sim),
        sim.bears(a, i),
        sim.bears(b, j),
        a != b,
    ensures
        is_relinked_at_both(
            sim,
            sim.end_priced(a, b, cost).end_priced(b, a, cost),
            i,
            sim.nodes[i].1.peers.insert(model::key_of(b), cost),
            j,
            sim.nodes[j].1.peers.insert(model::key_of(a), cost),
            sim.links,
        ),
{
    lemma_priced(sim, a, b, cost, i);
    let half = sim.end_priced(a, b, cost);
    let near = sim.nodes[i].1.peers.insert(model::key_of(b), cost);
    sorted_map::lemma_insert_is_listed(sim.nodes[i].1.peers, model::key_of(b), cost);
    lemma_relinked_labels(sim, half, i, near, sim.links);
    assert(half.bears(b, j));
    lemma_priced(half, b, a, cost, j);
    assert(half.nodes[j].1.peers == sim.nodes[j].1.peers);
}

/// What dropping both ends of a link comes to.
proof fn lemma_both_ends_dropped(sim: SimView, a: u8, b: u8, i: int, j: int)
    requires
        is_labelled(sim),
        sim.bears(a, i),
        sim.bears(b, j),
        a != b,
    ensures
        is_relinked_at_both(
            sim,
            sim.end_dropped(a, b).end_dropped(b, a),
            i,
            sim.nodes[i].1.peers.remove(model::key_of(b)),
            j,
            sim.nodes[j].1.peers.remove(model::key_of(a)),
            sim.links,
        ),
{
    lemma_dropped(sim, a, b, i);
    let half = sim.end_dropped(a, b);
    let near = sim.nodes[i].1.peers.remove(model::key_of(b));
    sorted_map::lemma_remove_is_listed(sim.nodes[i].1.peers, model::key_of(b));
    lemma_relinked_labels(sim, half, i, near, sim.links);
    assert(half.bears(b, j));
    lemma_dropped(half, b, a, j);
    assert(half.nodes[j].1.peers == sim.nodes[j].1.peers);
}

/// A link made at both ends keeps the links and the nodes in agreement.
proof fn lemma_link_made(sim: SimView, after: SimView, a: u8, b: u8, cost: u64, i: int, j: int)
    requires
        agrees(sim),
        sim.bears(a, i),
        sim.bears(b, j),
        a != b,
        is_relinked_at_both(
            sim,
            after,
            i,
            sim.nodes[i].1.peers.insert(model::key_of(b), cost),
            j,
            sim.nodes[j].1.peers.insert(model::key_of(a), cost),
            sim.links.insert(model::ordered(a, b), cost),
        ),
    ensures
        agrees(after),
        forall|id: u8, k: int| #[trigger] after.bears(id, k) <==> sim.bears(id, k),
        forall|id: u8| #[trigger] after.has(id) <==> sim.has(id),
{
    let pair = model::ordered(a, b);
    let near = sim.nodes[i].1.peers.insert(model::key_of(b), cost);
    let far = sim.nodes[j].1.peers.insert(model::key_of(a), cost);
    sorted_map::lemma_insert_is_listed(sim.nodes[i].1.peers, model::key_of(b), cost);
    sorted_map::lemma_insert_is_listed(sim.nodes[j].1.peers, model::key_of(a), cost);
    lemma_relinked_at_both(sim, after, i, near, j, far, sim.links.insert(pair, cost));
    lemma_keys_differ();
    assert forall|ends: Ends| #[trigger] is_link(after, ends) implies ends.a < ends.b
        && exists|x: int, y: int| joins(after, ends, after.links[ends], x, y) by {
        if ends == pair {
            if a < b {
                assert(joins(after, ends, after.links[ends], i, j));
            } else {
                assert(joins(after, ends, after.links[ends], j, i));
            }
        } else {
            assert(is_link(sim, ends));
            let (x, y) = choose|x: int, y: int| joins(sim, ends, sim.links[ends], x, y);
            assert(after.bears(ends.a, x) && after.bears(ends.b, y));
            assert(after.nodes[x].1.peers == sim.nodes[x].1.peers || x == i || x == j);
            assert(after.nodes[y].1.peers == sim.nodes[y].1.peers || y == i || y == j);
            assert(joins(after, ends, after.links[ends], x, y));
        }
    }
    assert forall|k: int, peer: PublicKey| #[trigger] is_peer(after, k, peer) implies is_half_a_link(
        after,
        k,
        peer,
    ) by {
        assert(after.nodes[k].0 == sim.nodes[k].0);
        if !(k == i && peer == model::key_of(b) || k == j && peer == model::key_of(a)) {
            assert(after.nodes[k].1.peers == sim.nodes[k].1.peers || k == i || k == j);
            assert(is_peer(sim, k, peer));
            assert(is_half_a_link(sim, k, peer));
        }
    }
}

/// A link dropped at both ends keeps the links and the nodes in agreement.
proof fn lemma_link_unmade(sim: SimView, after: SimView, a: u8, b: u8, i: int, j: int)
    requires
        agrees(sim),
        sim.bears(a, i),
        sim.bears(b, j),
        a != b,
        is_relinked_at_both(
            sim,
            after,
            i,
            sim.nodes[i].1.peers.remove(model::key_of(b)),
            j,
            sim.nodes[j].1.peers.remove(model::key_of(a)),
            sim.links.remove(model::ordered(a, b)),
        ),
    ensures
        agrees(after),
        forall|id: u8, k: int| #[trigger] after.bears(id, k) <==> sim.bears(id, k),
        forall|id: u8| #[trigger] after.has(id) <==> sim.has(id),
{
    let pair = model::ordered(a, b);
    let near = sim.nodes[i].1.peers.remove(model::key_of(b));
    let far = sim.nodes[j].1.peers.remove(model::key_of(a));
    sorted_map::lemma_remove_is_listed(sim.nodes[i].1.peers, model::key_of(b));
    sorted_map::lemma_remove_is_listed(sim.nodes[j].1.peers, model::key_of(a));
    lemma_relinked_at_both(sim, after, i, near, j, far, sim.links.remove(pair));
    lemma_keys_differ();
    assert forall|ends: Ends| #[trigger] is_link(after, ends) implies ends.a < ends.b
        && exists|x: int, y: int| joins(after, ends, after.links[ends], x, y) by {
        assert(is_link(sim, ends));
        let (x, y) = choose|x: int, y: int| joins(sim, ends, sim.links[ends], x, y);
        assert(after.bears(ends.a, x) && after.bears(ends.b, y));
        assert(after.nodes[x].1.peers == sim.nodes[x].1.peers || x == i || x == j);
        assert(after.nodes[y].1.peers == sim.nodes[y].1.peers || y == i || y == j);
        assert(joins(after, ends, after.links[ends], x, y));
    }
    assert forall|k: int, peer: PublicKey| #[trigger] is_peer(after, k, peer) implies is_half_a_link(
        after,
        k,
        peer,
    ) by {
        assert(after.nodes[k].0 == sim.nodes[k].0);
        assert(after.nodes[k].1.peers == sim.nodes[k].1.peers || k == i || k == j);
        assert(is_peer(sim, k, peer));
        assert(is_half_a_link(sim, k, peer));
        assert(sim.bears(sim.nodes[k].0, k));
        if sim.nodes[k].0 == a {
            lemma_place(sim, a, k);
            lemma_place(sim, a, i);
        }
        if sim.nodes[k].0 == b {
            lemma_place(sim, b, k);
            lemma_place(sim, b, j);
        }
    }
}

/// A link coming up or being priced again keeps the links and the nodes in
/// agreement, and leaves nothing in flight.
pub(crate) proof fn lemma_connected(sim: SimView, a: u8, b: u8, cost: u64)
    requires
        agrees(sim),
        sim.has(a),
        sim.has(b),
        a != b,
    ensures
        agrees(sim.connected(a, b, cost)),
        sim.connected(a, b, cost).queue.len() == 0,
        sim.connected(a, b, cost).links == sim.links.insert(model::ordered(a, b), cost),
        sim.connected(a, b, cost).now == sim.now,
        sim.connected(a, b, cost).next_id == sim.next_id,
        forall|id: u8| #[trigger] sim.connected(a, b, cost).has(id) <==> sim.has(id),
{
    let linked = SimView { links: sim.links.insert(model::ordered(a, b), cost), ..sim };
    let (i, j) = (sim.place(a), sim.place(b));
    assert(sim.bears(a, i) && sim.bears(b, j));
    assert(linked.bears(a, i) && linked.bears(b, j));
    lemma_both_ends_priced(linked, a, b, cost, i, j);
    let priced = linked.end_priced(a, b, cost).end_priced(b, a, cost);
    lemma_link_made(sim, priced, a, b, cost, i, j);
    lemma_ran(priced, model::MAX_STEPS as nat);
    lemma_keeps_agreement(priced, priced.ran());
    lemma_keeps_labels(priced, priced.ran());
}

/// A link going down keeps the links and the nodes in agreement.
pub(crate) proof fn lemma_unlinked(sim: SimView, a: u8, b: u8)
    requires
        agrees(sim),
        is_link(sim, model::ordered(a, b)),
    ensures
        agrees(sim.unlinked(a, b)),
        sim.unlinked(a, b).links == sim.links.remove(model::ordered(a, b)),
        sim.unlinked(a, b).now == sim.now,
        sim.unlinked(a, b).next_id == sim.next_id,
        sim.unlinked(a, b).nodes.len() == sim.nodes.len(),
        forall|id: u8, k: int| #[trigger] sim.unlinked(a, b).bears(id, k) <==> sim.bears(id, k),
        forall|id: u8| #[trigger] sim.unlinked(a, b).has(id) <==> sim.has(id),
        forall|k: int| #[trigger]
            sim.bears(a, k) ==> sim.unlinked(a, b).nodes[k].1.peers
                == sim.nodes[k].1.peers.remove(model::key_of(b)),
{
    let pair = model::ordered(a, b);
    let cut = SimView { links: sim.links.remove(pair), ..sim };
    let (x, y) = choose|x: int, y: int| joins(sim, pair, sim.links[pair], x, y);
    let (i, j) = if a < b {
        (x, y)
    } else {
        (y, x)
    };
    assert(sim.bears(a, i) && sim.bears(b, j));
    assert(cut.bears(a, i) && cut.bears(b, j));
    lemma_both_ends_dropped(cut, a, b, i, j);
    let after = cut.end_dropped(a, b).end_dropped(b, a);
    lemma_link_unmade(sim, after, a, b, i, j);
    assert forall|k: int| #[trigger] sim.bears(a, k) implies after.nodes[k].1.peers
        == sim.nodes[k].1.peers.remove(model::key_of(b)) by {
        lemma_place(sim, a, k);
        lemma_place(sim, a, i);
    }
}

/// Whether every label in a list is at the far end of a link from `id`, and
/// none is there twice.
spec fn are_linked_to(sim: SimView, id: u8, peers: Seq<u8>) -> bool {
    &&& forall|k: int|
        0 <= k < peers.len() ==> is_link(sim, model::ordered(id, #[trigger] peers[k]))
    &&& forall|k: int, l: int|
        0 <= k < l < peers.len() ==> #[trigger] peers[k] != #[trigger] peers[l]
}

/// Dropping a node's links one after another leaves the others alone.
proof fn lemma_unlinked_from(sim: SimView, id: u8, peers: Seq<u8>, at: int)
    requires
        agrees(sim),
        sim.bears(id, at),
        are_linked_to(sim, id, peers),
    ensures
        ({
            let after = sim.unlinked_from(id, peers);
            &&& agrees(after)
            &&& after.now == sim.now
            &&& after.next_id == sim.next_id
            &&& after.nodes.len() == sim.nodes.len()
            &&& forall|other: u8, k: int| #[trigger]
                after.bears(other, k) <==> sim.bears(other, k)
            &&& forall|other: u8| #[trigger] after.has(other) <==> sim.has(other)
            &&& forall|other: u8|
                sim.links.contains_key(#[trigger] model::ordered(id, other)) && !peers.contains(
                    other,
                ) ==> after.links.contains_key(model::ordered(id, other))
            &&& forall|key: PublicKey| #[trigger]
                after.nodes[at].1.peers.contains_key(key) ==> sim.nodes[at].1.peers.contains_key(
                    key,
                ) && forall|k: int| 0 <= k < peers.len() ==> key != model::key_of(
                    #[trigger] peers[k],
                )
        }),
    decreases peers.len(),
{
    if peers.len() > 0 {
        let fewer = peers.drop_last();
        assert forall|k: int| 0 <= k < fewer.len() implies is_link(
            sim,
            model::ordered(id, #[trigger] fewer[k]),
        ) by {
            assert(peers[k] == fewer[k]);
        }
        assert forall|k: int, l: int| 0 <= k < l < fewer.len() implies #[trigger] fewer[k]
            != #[trigger] fewer[l] by {
            assert(peers[k] != peers[l]);
        }
        lemma_unlinked_from(sim, id, fewer, at);
        let before = sim.unlinked_from(id, fewer);
        let last = peers.last();
        assert(!fewer.contains(last)) by {
            if fewer.contains(last) {
                let k = choose|k: int| 0 <= k < fewer.len() && fewer[k] == last;
                assert(peers[k] != peers[peers.len() - 1]);
            }
        }
        assert(is_link(sim, model::ordered(id, peers[peers.len() - 1])));
        assert(is_link(before, model::ordered(id, last)));
        lemma_unlinked(before, id, last);
        let after = before.unlinked(id, last);
        assert(before.bears(id, at));
        assert forall|other: u8, k: int| #[trigger] after.bears(other, k) <==> sim.bears(
            other,
            k,
        ) by {
            assert(before.bears(other, k) <==> sim.bears(other, k));
        }
        assert forall|other: u8| #[trigger] after.has(other) <==> sim.has(other) by {
            assert(before.has(other) <==> sim.has(other));
        }
        assert forall|other: u8|
            sim.links.contains_key(#[trigger] model::ordered(id, other)) && !peers.contains(
                other,
            ) implies after.links.contains_key(model::ordered(id, other)) by {
            assert(peers[peers.len() - 1] == last);
            assert(other != last);
            if fewer.contains(other) {
                let k = choose|k: int| 0 <= k < fewer.len() && fewer[k] == other;
                assert(peers[k] == other);
            }
        }
        assert forall|key: PublicKey| #[trigger]
            after.nodes[at].1.peers.contains_key(key) implies sim.nodes[at].1.peers.contains_key(
            key,
        ) && forall|k: int| 0 <= k < peers.len() ==> key != model::key_of(#[trigger] peers[k]) by {
            assert(before.nodes[at].1.peers.contains_key(key));
            assert forall|k: int| 0 <= k < peers.len() implies key != model::key_of(
                #[trigger] peers[k],
            ) by {
                if k < fewer.len() {
                    assert(fewer[k] == peers[k]);
                }
            }
        }
    }
}

/// A node with no links left can be taken away.
proof fn lemma_node_taken_away(sim: SimView, id: u8, at: int)
    requires
        agrees(sim),
        sim.bears(id, at),
        forall|key: PublicKey| !#[trigger] sim.nodes[at].1.peers.contains_key(key),
    ensures
        ({
            let after = SimView { nodes: sim.nodes.remove(at), ..sim };
            &&& agrees(after)
            &&& !after.has(id)
            &&& forall|other: u8| other != id ==> (#[trigger] after.has(other) <==> sim.has(other))
            &&& forall|ends: Ends| #[trigger]
                is_link(after, ends) ==> ends.a != id && ends.b != id
        }),
{
    let after = SimView { nodes: sim.nodes.remove(at), ..sim };
    assert forall|i: int, j: int| 0 <= i < j < after.nodes.len() implies (
    #[trigger] after.nodes[i]).0 < (#[trigger] after.nodes[j]).0 by {
        let x = if i < at { i } else { i + 1 };
        let y = if j < at { j } else { j + 1 };
        assert(sim.nodes[x].0 < sim.nodes[y].0);
    }
    assert forall|i: int| 0 <= i < after.nodes.len() implies (#[trigger] after.nodes[i]).0
        < after.next_id && after.nodes[i].1.key == model::key_of(after.nodes[i].0)
        && sorted_map::is_listed(after.nodes[i].1.peers) by {
        let x = if i < at { i } else { i + 1 };
        assert(sim.nodes[x].0 < sim.next_id);
    }
    assert(!after.has(id)) by {
        if after.has(id) {
            let i = after.place(id);
            assert(after.bears(id, i));
            let x = if i < at { i } else { i + 1 };
            assert(sim.bears(id, x));
            lemma_place(sim, id, x);
            lemma_place(sim, id, at);
        }
    }
    assert forall|other: u8| other != id implies (#[trigger] after.has(other) <==> sim.has(
        other,
    )) by {
        if after.has(other) {
            let i = after.place(other);
            assert(after.bears(other, i));
            let x = if i < at { i } else { i + 1 };
            assert(sim.bears(other, x));
        }
        if sim.has(other) {
            let x = sim.place(other);
            assert(sim.bears(other, x));
            let i = if x < at { x } else { x - 1 };
            assert(after.bears(other, i));
        }
    }
    assert forall|ends: Ends| #[trigger] is_link(after, ends) implies ends.a < ends.b && exists|
        x: int,
        y: int,
    | joins(after, ends, after.links[ends], x, y) by {
        assert(is_link(sim, ends));
        let (x, y) = choose|x: int, y: int| joins(sim, ends, sim.links[ends], x, y);
        assert(x != at && y != at);
        let i = if x < at { x } else { x - 1 };
        let j = if y < at { y } else { y - 1 };
        assert(joins(after, ends, after.links[ends], i, j));
    }
    assert forall|ends: Ends| #[trigger] is_link(after, ends) implies ends.a != id && ends.b
        != id by {
        assert(is_link(sim, ends));
        let (x, y) = choose|x: int, y: int| joins(sim, ends, sim.links[ends], x, y);
        assert(x != at && y != at);
        if ends.a == id {
            lemma_place(sim, id, x);
            lemma_place(sim, id, at);
        }
        if ends.b == id {
            lemma_place(sim, id, y);
            lemma_place(sim, id, at);
        }
    }
    assert forall|k: int, peer: PublicKey| #[trigger] is_peer(after, k, peer) implies is_half_a_link(
        after,
        k,
        peer,
    ) by {
        let x = if k < at { k } else { k + 1 };
        assert(is_peer(sim, x, peer));
        assert(is_half_a_link(sim, x, peer));
    }
}

/// A node leaving keeps the links and the nodes in agreement, and takes its
/// label and every link of its own with it.
pub(crate) proof fn lemma_node_removed(sim: SimView, id: u8)
    requires
        agrees(sim),
        sim.has(id),
    ensures
        ({
            let after = sim.node_removed(id).0;
            &&& agrees(after)
            &&& after.queue.len() == 0
            &&& after.now == sim.now
            &&& after.next_id == sim.next_id
            &&& !after.has(id)
            &&& forall|other: u8| other != id ==> (#[trigger] after.has(other) <==> sim.has(other))
            &&& forall|ends: Ends| #[trigger]
                is_link(after, ends) ==> ends.a != id && ends.b != id
        }),
{
    let at = sim.place(id);
    assert(sim.bears(id, at));
    let node = sim.node(id);
    let listed = sorted_map::ascending(node.peers);
    let peers = model::peer_labels(node);
    lemma_keys_differ();
    assert(sorted_map::is_listed(sim.nodes[at].1.peers));
    assert forall|k: int| 0 <= k < peers.len() implies is_link(
        sim,
        model::ordered(id, #[trigger] peers[k]),
    ) && listed[k].0 == model::key_of(peers[k]) by {
        sorted_map::lemma_entry_is_mapped(listed, k);
        assert(is_peer(sim, at, listed[k].0));
        assert(is_half_a_link(sim, at, listed[k].0));
    }
    assert forall|k: int, l: int| 0 <= k < l < peers.len() implies #[trigger] peers[k]
        != #[trigger] peers[l] by {
        assert(listed[k].0 == model::key_of(peers[k]));
        assert(listed[l].0 == model::key_of(peers[l]));
    }
    lemma_unlinked_from(sim, id, peers, at);
    let cut = sim.unlinked_from(id, peers);
    assert(cut.bears(id, at));
    lemma_place(cut, id, at);
    assert forall|key: PublicKey| !#[trigger] cut.nodes[at].1.peers.contains_key(key) by {
        if cut.nodes[at].1.peers.contains_key(key) {
            let k = sorted_map::lemma_mapped_key_is_listed(listed, key);
            assert(listed[k].0 == model::key_of(peers[k]));
        }
    }
    lemma_node_taken_away(cut, id, at);
    let gone = SimView { nodes: cut.nodes.remove(at), ..cut };
    lemma_ran(gone, model::MAX_STEPS as nat);
    let quiet = gone.ran();
    lemma_keeps_agreement(gone, quiet);
    lemma_keeps_labels(gone, quiet);
    let after = sim.node_removed(id).0;
    assert(keeps(quiet, after));
    lemma_keeps_agreement(quiet, after);
    lemma_keeps_labels(quiet, after);
    assert forall|other: u8| other != id implies (#[trigger] after.has(other) <==> sim.has(
        other,
    )) by {
        assert(quiet.has(other) <==> gone.has(other));
        assert(gone.has(other) <==> cut.has(other));
        assert(cut.has(other) <==> sim.has(other));
    }
    assert forall|ends: Ends| #[trigger] is_link(after, ends) implies ends.a != id && ends.b
        != id by {
        assert(is_link(gone, ends));
    }
    assert(!gone.has(id));
    assert(!quiet.has(id));
}

/// A node joining keeps the links and the nodes in agreement, under a label
/// nobody bears.
pub(crate) proof fn lemma_node_added(sim: SimView)
    requires
        agrees(sim),
        sim.next_id < u8::MAX,
    ensures
        ({
            let after = sim.node_added().0;
            &&& agrees(after)
            &&& after.queue == sim.queue
            &&& after.now == sim.now
            &&& after.links == sim.links
            &&& after.next_id == sim.next_id + 1
            &&& !sim.has(sim.next_id)
            &&& after.has(sim.next_id)
            &&& forall|other: u8|
                other != sim.next_id ==> (#[trigger] after.has(other) <==> sim.has(other))
        }),
{
    let id = sim.next_id;
    let after = sim.node_added().0;
    let last = sim.nodes.len() as int;
    assert(!sim.has(id)) by {
        if sim.has(id) {
            assert(sim.bears(id, sim.place(id)));
        }
    }
    let none = Seq::<(PublicKey, u64)>::empty();
    sorted_map::lemma_ascending_is_the_listing(none);
    assert(sorted_map::map_of(none) =~= Map::<PublicKey, u64>::empty());
    assert(after.nodes[last].1.peers =~= Map::empty());
    assert(after.bears(id, last));
    assert forall|i: int, j: int| 0 <= i < j < after.nodes.len() implies (
    #[trigger] after.nodes[i]).0 < (#[trigger] after.nodes[j]).0 by {
        assert(sim.nodes[i].0 < sim.next_id);
        if j < last {
            assert(sim.nodes[i].0 < sim.nodes[j].0);
        }
    }
    assert forall|i: int| 0 <= i < after.nodes.len() implies (#[trigger] after.nodes[i]).0
        < after.next_id && after.nodes[i].1.key == model::key_of(after.nodes[i].0)
        && sorted_map::is_listed(after.nodes[i].1.peers) by {
        if i < last {
            assert(sim.nodes[i].0 < sim.next_id);
        }
    }
    assert forall|other: u8| other != id implies (#[trigger] after.has(other) <==> sim.has(
        other,
    )) by {
        if after.has(other) {
            let i = after.place(other);
            assert(after.bears(other, i));
            assert(sim.bears(other, i));
        }
        if sim.has(other) {
            assert(sim.bears(other, sim.place(other)));
            assert(after.bears(other, sim.place(other)));
        }
    }
    assert forall|ends: Ends| #[trigger] is_link(after, ends) implies ends.a < ends.b && exists|
        x: int,
        y: int,
    | joins(after, ends, after.links[ends], x, y) by {
        assert(is_link(sim, ends));
        let (x, y) = choose|x: int, y: int| joins(sim, ends, sim.links[ends], x, y);
        assert(joins(after, ends, after.links[ends], x, y));
    }
    assert forall|k: int, peer: PublicKey| #[trigger] is_peer(after, k, peer) implies is_half_a_link(
        after,
        k,
        peer,
    ) by {
        assert(is_peer(sim, k, peer));
        assert(is_half_a_link(sim, k, peer));
    }
}

/// Telling nodes the time moves nobody's links or labels.
pub(crate) proof fn lemma_ticked_upto(sim: SimView, upto: nat)
    requires
        upto <= sim.nodes.len(),
    ensures
        keeps(sim, sim.ticked_upto(upto)),
    decreases upto,
{
    if upto > 0 {
        lemma_ticked_upto(sim, (upto - 1) as nat);
        let before = sim.ticked_upto((upto - 1) as nat);
        let id = sim.nodes[upto - 1].0;
        assert(sim.bears(id, upto - 1));
        lemma_keeps_labels(sim, before);
        assert(before.bears(id, upto - 1));
        lemma_acted(before, id, before.node(id).ticked(before.now));
    }
}

/// Time passing moves nobody's links or labels, and leaves nothing in flight.
proof fn lemma_advanced_from(sim: SimView, now: u64, target: u64)
    requires
        sim.now == now,
        now <= target,
    ensures
        is_same_graph(sim, sim.advanced_from(now, target)),
        sim.advanced_from(now, target).now == target,
        sim.queue.len() == 0 ==> sim.advanced_from(now, target).queue.len() == 0,
    decreases target - now,
{
    if now < target {
        let next = model::next_instant(now, target);
        let later = SimView { now: next, ..sim };
        lemma_ticked_upto(later, later.nodes.len());
        let told = later.ticked_upto(later.nodes.len());
        lemma_ran(told, model::MAX_STEPS as nat);
        lemma_advanced_from(sim.stepped_to(next), next, target);
    }
}

/// Carrying a packet moves nobody's links or labels.
pub(crate) proof fn lemma_followed(sim: SimView, route: Seq<u8>, hop: Option<EnvelopeView>, left: nat)
    requires
        route.len() > 0,
        sim.has(route.last()),
    ensures
        ({
            let trip = sim.followed(route, hop, left);
            &&& keeps(sim, trip.sim)
            &&& trip.sim.queue == sim.queue
            &&& trip.route.len() >= route.len()
            &&& trip.lost is None ==> trip.sim.has(trip.route.last())
        }),
    decreases left,
{
    if let Some(envelope) = hop {
        if left > 0 && envelope.message is Packet {
            let next = model::id_of(envelope.to);
            let further = route.push(next);
            if sim.has(next) {
                assert(sim.bears(next, sim.place(next)));
                let step = sim.node(next).handled(
                    sim.now,
                    model::key_of(route.last()),
                    envelope.message,
                );
                let after = sim.with_node(next, step.node);
                assert(keeps(sim, after));
                lemma_keeps_labels(sim, after);
                lemma_followed(after, further, model::first(step.out), (left - 1) as nat);
            }
        }
    }
}

/// Sending a packet moves nobody's links or labels.
proof fn lemma_sent(sim: SimView, from: u8, to: u8)
    ensures
        keeps(sim, sim.sent(from, to).0),
        sim.sent(from, to).0.queue == sim.queue,
{
    if sim.has(from) && sim.has(to) {
        assert(sim.bears(from, sim.place(from)));
        let (node, out) = sim.node(from).sent(
            model::key_of(to),
            vstd::utf8::encode_utf8("hello"@),
        );
        let sending = sim.with_node(from, node);
        assert(keeps(sim, sending));
        lemma_keeps_labels(sim, sending);
        if let Ok(out) = out {
            lemma_followed(sending, seq![from], model::first(out), sim.nodes.len());
            let trip = sending.followed(seq![from], model::first(out), sim.nodes.len());
            if trip.lost is None {
                assert(trip.sim.bears(trip.route.last(), trip.sim.place(trip.route.last())));
            }
        }
    }
}

/// A link's ends are two nodes.
pub(crate) proof fn lemma_link_has_ends(sim: SimView, a: u8, b: u8)
    requires
        agrees(sim),
        is_link(sim, model::ordered(a, b)),
    ensures
        a != b,
        sim.has(a),
        sim.has(b),
{
    let pair = model::ordered(a, b);
    let (i, j) = choose|i: int, j: int| joins(sim, pair, sim.links[pair], i, j);
    assert(sim.bears(pair.a, i) && sim.bears(pair.b, j));
}

/// Whatever is done to it, both ends of every link go on being there and
/// agreeing on what it costs, and no node holds a peer over anything but a
/// link.
pub proof fn law_both_ends_of_a_link_agree(
    sim: SimView,
    a: u8,
    b: u8,
    cost: u64,
    by: u64,
    clock: Seq<char>,
)
    requires
        agrees(sim),
    ensures
        agrees(sim.node_added().0),
        agrees(sim.node_removed(a).0),
        agrees(sim.link_added(a, b, cost).0),
        agrees(sim.link_repriced(a, b, cost).0),
        agrees(sim.link_removed(a, b).0),
        agrees(sim.advanced(by, clock)),
        agrees(sim.sent(a, b).0),
{
    if sim.next_id < u8::MAX {
        lemma_node_added(sim);
    }
    if sim.has(a) {
        lemma_node_removed(sim, a);
    }
    if sim.link_added(a, b, cost).1 is Ok {
        lemma_connected(sim, a, b, cost);
        lemma_keeps_agreement(sim.connected(a, b, cost), sim.link_added(a, b, cost).0);
    }
    if sim.links.contains_key(model::ordered(a, b)) {
        assert(is_link(sim, model::ordered(a, b)));
        lemma_link_has_ends(sim, a, b);
        lemma_connected(sim, a, b, cost);
        if sim.link_repriced(a, b, cost).1 is Ok {
            lemma_keeps_agreement(sim.connected(a, b, cost), sim.link_repriced(a, b, cost).0);
        }
        lemma_unlinked(sim, a, b);
        let cut = sim.unlinked(a, b);
        lemma_ran(cut, model::MAX_STEPS as nat);
        assert(is_same_graph(cut, sim.link_removed(a, b).0));
        lemma_keeps_agreement(cut, sim.link_removed(a, b).0);
    }
    let target = walk::capped((sim.now + by) as nat);
    lemma_advanced_from(sim, sim.now, target);
    assert(is_same_graph(sim, sim.advanced(by, clock)));
    lemma_keeps_agreement(sim, sim.advanced(by, clock));
    lemma_sent(sim, a, b);
    lemma_keeps_agreement(sim, sim.sent(a, b).0);
}

/// A link as it comes up while the network opens.
proof fn lemma_opening_link(sim: SimView, a: u8, b: u8, cost: u64)
    requires
        agrees(sim),
        sim.has(a),
        sim.has(b),
        a != b,
    ensures
        agrees(sim.link_added(a, b, cost).0),
        sim.queue.len() == 0 ==> sim.link_added(a, b, cost).0.queue.len() == 0,
        forall|id: u8| #[trigger] sim.link_added(a, b, cost).0.has(id) <==> sim.has(id),
{
    lemma_connected(sim, a, b, cost);
    let connected = sim.connected(a, b, cost);
    if sim.link_added(a, b, cost).1 is Ok {
        let after = sim.link_added(a, b, cost).0;
        assert(is_same_graph(connected, after));
        lemma_keeps_agreement(connected, after);
        lemma_keeps_labels(connected, after);
    }
}

/// The network opens with its links and its nodes in agreement, and quiet.
pub proof fn law_the_network_opens_in_agreement()
    ensures
        agrees(model::opening()),
        model::opening().queue.len() == 0,
{
    let none = model::vacant();
    assert(agrees(none));
    lemma_node_added(none);
    let one = none.node_added().0;
    lemma_node_added(one);
    let two = one.node_added().0;
    lemma_node_added(two);
    let three = two.node_added().0;
    lemma_node_added(three);
    let four = three.node_added().0;
    lemma_node_added(four);
    let five = four.node_added().0;
    assert(five.has(5) && five.has(4) && five.has(3) && five.has(2) && five.has(1)) by {
        assert(one.has(1) && two.has(2) && three.has(3) && four.has(4));
        assert(two.has(1));
        assert(three.has(1) && three.has(2));
        assert(four.has(1) && four.has(2) && four.has(3));
    }
    lemma_opening_link(five, 1, 2, 1);
    let first = five.link_added(1, 2, 1).0;
    assert(first.has(5) && first.has(4) && first.has(3) && first.has(2));
    lemma_opening_link(first, 2, 3, 1);
    let second = first.link_added(2, 3, 1).0;
    assert(second.has(5) && second.has(4) && second.has(3) && second.has(2));
    lemma_opening_link(second, 3, 4, 1);
    let third = second.link_added(3, 4, 1).0;
    assert(third.has(5) && third.has(4) && third.has(2));
    lemma_opening_link(third, 2, 4, 5);
    let fourth = third.link_added(2, 4, 5).0;
    assert(fourth.has(5) && fourth.has(4));
    lemma_opening_link(fourth, 4, 5, 1);
    let linked = fourth.link_added(4, 5, 1).0;
    assert(is_same_graph(linked, model::opening()));
    lemma_keeps_agreement(linked, model::opening());
}

/// A node that is removed takes its label and every link of its own with it,
/// and nobody else's label.
pub proof fn law_a_removed_node_is_gone(sim: SimView, id: u8)
    requires
        agrees(sim),
        sim.has(id),
    ensures
        !sim.node_removed(id).0.has(id),
        forall|other: u8|
            other != id ==> (#[trigger] sim.node_removed(id).0.has(other) <==> sim.has(other)),
        forall|ends: Ends| #[trigger]
            sim.node_removed(id).0.links.contains_key(ends) ==> ends.a != id && ends.b != id,
{
    lemma_node_removed(sim, id);
    assert forall|ends: Ends| #[trigger]
        sim.node_removed(id).0.links.contains_key(ends) implies ends.a != id && ends.b != id by {
        assert(is_link(sim.node_removed(id).0, ends));
    }
}

/// Dropping links one after another touches neither the clock nor the next
/// label.
proof fn lemma_unlinked_from_in_time(sim: SimView, id: u8, peers: Seq<u8>)
    ensures
        sim.unlinked_from(id, peers).now == sim.now,
        sim.unlinked_from(id, peers).next_id == sim.next_id,
    decreases peers.len(),
{
    if peers.len() > 0 {
        lemma_unlinked_from_in_time(sim, id, peers.drop_last());
    }
}

/// The clock moves only when it is asked to, and then by as much as it is asked
/// to, as far as it can count.
pub proof fn law_the_clock_moves_only_when_asked(
    sim: SimView,
    a: u8,
    b: u8,
    cost: u64,
    by: u64,
    clock: Seq<char>,
)
    ensures
        sim.node_added().0.now == sim.now,
        sim.node_removed(a).0.now == sim.now,
        sim.link_added(a, b, cost).0.now == sim.now,
        sim.link_repriced(a, b, cost).0.now == sim.now,
        sim.link_removed(a, b).0.now == sim.now,
        sim.sent(a, b).0.now == sim.now,
        sim.advanced(by, clock).now == walk::capped((sim.now + by) as nat),
{
    let linked = SimView { links: sim.links.insert(model::ordered(a, b), cost), ..sim };
    lemma_ran(linked.end_priced(a, b, cost).end_priced(b, a, cost), model::MAX_STEPS as nat);
    lemma_ran(sim.unlinked(a, b), model::MAX_STEPS as nat);
    let peers = model::peer_labels(sim.node(a));
    lemma_unlinked_from_in_time(sim, a, peers);
    let cut = sim.unlinked_from(a, peers);
    lemma_ran(
        SimView { nodes: cut.nodes.remove(cut.place(a)), ..cut },
        model::MAX_STEPS as nat,
    );
    lemma_sent(sim, a, b);
    lemma_advanced_from(sim, sim.now, walk::capped((sim.now + by) as nat));
}

/// Gossip is run after every change until it is over or cut off, so nothing is
/// ever left in flight.
pub proof fn law_nothing_is_left_in_flight(
    sim: SimView,
    a: u8,
    b: u8,
    cost: u64,
    by: u64,
    clock: Seq<char>,
)
    requires
        sim.queue.len() == 0,
    ensures
        sim.node_added().0.queue.len() == 0,
        sim.node_removed(a).0.queue.len() == 0,
        sim.link_added(a, b, cost).0.queue.len() == 0,
        sim.link_repriced(a, b, cost).0.queue.len() == 0,
        sim.link_removed(a, b).0.queue.len() == 0,
        sim.advanced(by, clock).queue.len() == 0,
        sim.sent(a, b).0.queue.len() == 0,
{
    let linked = SimView { links: sim.links.insert(model::ordered(a, b), cost), ..sim };
    lemma_ran(linked.end_priced(a, b, cost).end_priced(b, a, cost), model::MAX_STEPS as nat);
    lemma_ran(sim.unlinked(a, b), model::MAX_STEPS as nat);
    let cut = sim.unlinked_from(a, model::peer_labels(sim.node(a)));
    lemma_ran(
        SimView { nodes: cut.nodes.remove(cut.place(a)), ..cut },
        model::MAX_STEPS as nat,
    );
    lemma_sent(sim, a, b);
    lemma_advanced_from(sim, sim.now, walk::capped((sim.now + by) as nat));
}

/// Labels are never reused: a node joins under one nobody bears, every label in
/// use has been given out, and the next one to give out never goes back.
pub proof fn law_labels_are_never_reused(
    sim: SimView,
    a: u8,
    b: u8,
    cost: u64,
    by: u64,
    clock: Seq<char>,
)
    requires
        agrees(sim),
    ensures
        forall|id: u8| #[trigger] sim.has(id) ==> id < sim.next_id,
        sim.node_added().1 matches Ok(id) ==> id == sim.next_id && sim.node_added().0.next_id > id,
        sim.node_added().0.next_id >= sim.next_id,
        sim.node_removed(a).0.next_id == sim.next_id,
        sim.link_added(a, b, cost).0.next_id == sim.next_id,
        sim.link_repriced(a, b, cost).0.next_id == sim.next_id,
        sim.link_removed(a, b).0.next_id == sim.next_id,
        sim.advanced(by, clock).next_id == sim.next_id,
        sim.sent(a, b).0.next_id == sim.next_id,
{
    assert forall|id: u8| #[trigger] sim.has(id) implies id < sim.next_id by {
        assert(sim.bears(id, sim.place(id)));
    }
    let linked = SimView { links: sim.links.insert(model::ordered(a, b), cost), ..sim };
    lemma_ran(linked.end_priced(a, b, cost).end_priced(b, a, cost), model::MAX_STEPS as nat);
    lemma_ran(sim.unlinked(a, b), model::MAX_STEPS as nat);
    let peers = model::peer_labels(sim.node(a));
    lemma_unlinked_from_in_time(sim, a, peers);
    let cut = sim.unlinked_from(a, peers);
    lemma_ran(
        SimView { nodes: cut.nodes.remove(cut.place(a)), ..cut },
        model::MAX_STEPS as nat,
    );
    lemma_sent(sim, a, b);
    lemma_advanced_from(sim, sim.now, walk::capped((sim.now + by) as nat));
}

/// Whether nobody holds a packet that has not been taken in.
pub open spec fn is_drained(sim: SimView) -> bool {
    forall|i: int| 0 <= i < sim.nodes.len() ==> (#[trigger] sim.nodes[i]).1.delivered.len() == 0
}

/// Where a packet for `to` goes from the node a label names, if it goes on.
pub open spec fn onward(sim: SimView, to: u8, id: u8) -> Option<u8> {
    if id == to {
        None
    } else {
        match sim.node(id).next_hop(model::key_of(to)) {
            Some(peer) => Some(model::id_of(peer)),
            None => None,
        }
    }
}

/// Where a packet from `from` for `to` is after so many hops, if it gets that
/// far.
pub open spec fn visited(sim: SimView, from: u8, to: u8, hops: nat) -> Option<u8>
    decreases hops,
{
    if hops == 0 {
        Some(from)
    } else {
        match visited(sim, from, to, (hops - 1) as nat) {
            Some(id) => onward(sim, to, id),
            None => None,
        }
    }
}

/// A packet goes on over a link, to a node that holds the sender as a peer.
proof fn lemma_onward_crosses_a_link(sim: SimView, to: u8, id: u8)
    requires
        agrees(sim),
        sim.has(id),
        onward(sim, to, id) is Some,
    ensures
        ({
            let next = onward(sim, to, id)->0;
            &&& sim.has(next)
            &&& sim.links.contains_key(model::ordered(id, next))
            &&& sim.node(next).peers.contains_key(model::key_of(id))
            &&& sim.node(id).next_hop(model::key_of(to)) == Some(model::key_of(next))
        }),
{
    let at = sim.place(id);
    assert(sim.bears(id, at));
    let node = sim.nodes[at].1;
    let peer = node.next_hop(model::key_of(to))->0;
    assert(node.is_next_hop(peer, node.infos[model::key_of(to)].claim.walk));
    assert(is_peer(sim, at, peer));
    assert(is_half_a_link(sim, at, peer));
    let next = model::id_of(peer);
    let pair = model::ordered(id, next);
    assert(is_link(sim, pair));
    let (i, j) = choose|i: int, j: int| joins(sim, pair, sim.links[pair], i, j);
    assert(sim.bears(pair.a, i) && sim.bears(pair.b, j));
    lemma_place(sim, pair.a, i);
    lemma_place(sim, pair.b, j);
}

/// What a packet leaves behind where it comes to rest.
pub open spec fn left_at(sim: SimView, id: u8, to: u8, packet: PacketView) -> SimView {
    if id == to {
        let node = sim.node(to);
        sim.with_node(to, NodeView { delivered: node.delivered.push(packet), ..node })
    } else {
        sim
    }
}

/// Following a packet visits what it visits, and leaves everything as it was
/// but for the packet, where it has arrived.
proof fn lemma_trip(
    sim: SimView,
    from: u8,
    to: u8,
    packet: PacketView,
    route: Seq<u8>,
    hop: Option<EnvelopeView>,
    left: nat,
)
    requires
        agrees(sim),
        sim.has(to),
        packet.dst == model::key_of(to),
        route.len() > 0,
        route.last() != to,
        sim.has(route.last()),
        forall|t: int|
            0 <= t < route.len() ==> visited(sim, from, to, t as nat) == Some(#[trigger] route[t]),
        hop == match onward(sim, to, route.last()) {
            Some(next) => Some(
                EnvelopeView { to: model::key_of(next), message: MessageView::Packet(packet) },
            ),
            None => None,
        },
    ensures
        ({
            let trip = sim.followed(route, hop, left);
            &&& trip.lost is None
            &&& route.len() <= trip.route.len() <= route.len() + left
            &&& trip.route.take(route.len() as int) == route
            &&& forall|t: int|
                0 <= t < trip.route.len() ==> visited(sim, from, to, t as nat) == Some(
                    #[trigger] trip.route[t],
                )
            &&& sim.has(trip.route.last())
            &&& trip.route.len() == route.len() + left || visited(
                sim,
                from,
                to,
                trip.route.len(),
            ) is None
            &&& trip.sim == left_at(sim, trip.route.last(), to, packet)
        }),
    decreases left,
{
    assert(visited(sim, from, to, (route.len() - 1) as nat) == Some(route[route.len() - 1]));
    assert(route.take(route.len() as int) =~= route);
    if left > 0 && hop is Some {
        lemma_keys_differ();
        let last = route.last();
        lemma_onward_crosses_a_link(sim, to, last);
        let next = onward(sim, to, last)->0;
        let further = route.push(next);
        let at = sim.place(next);
        assert(sim.bears(next, at));
        assert(sim.nodes[at].1.key == model::key_of(next));
        let step = sim.node(next).handled(
            sim.now,
            model::key_of(last),
            MessageView::Packet(packet),
        );
        let after = sim.with_node(next, step.node);
        assert forall|t: int| 0 <= t < further.len() implies visited(sim, from, to, t as nat)
            == Some(#[trigger] further[t]) by {
            if t < route.len() {
                assert(further[t] == route[t]);
            }
        }
        assert(further.take(route.len() as int) =~= route);
        if next == to {
            assert(step.out =~= Seq::empty());
            assert(after.followed(further, None, (left - 1) as nat).route == further);
            assert(onward(sim, to, to) is None);
            assert(visited(sim, from, to, further.len()) == onward(sim, to, further.last()));
        } else {
            assert(after.nodes =~= sim.nodes);
            let on = model::first(step.out);
            if onward(sim, to, next) is Some {
                lemma_onward_crosses_a_link(sim, to, next);
            }
            lemma_trip(sim, from, to, packet, further, on, (left - 1) as nat);
            let trip = sim.followed(further, on, (left - 1) as nat);
            assert(trip.route.take(route.len() as int) =~= route) by {
                assert(trip.route.take(further.len() as int).take(route.len() as int)
                    =~= trip.route.take(route.len() as int));
            }
        }
    }
}

/// A packet goes over links, from the node that sent it to whichever comes
/// next, until it has arrived or nobody is closer; it is delivered just where
/// it has arrived; and it leaves nothing behind but a line in the log.
///
/// One that has not come to rest after as many hops as there are nodes is
/// dropped where it is.
pub proof fn law_a_packet_goes_over_links(sim: SimView, from: u8, to: u8)
    requires
        agrees(sim),
        is_drained(sim),
        sim.has(from),
        sim.has(to),
    ensures
        sim.sent(from, to).1 is Err <==> from != to && onward(sim, to, from) is None,
        sim.sent(from, to).1 is Err ==> sim.sent(from, to).0 == sim,
        sim.sent(from, to).1 matches Ok(delivery) ==> {
            let route = delivery.route;
            &&& route.len() > 0
            &&& route[0] == from
            &&& forall|t: int|
                0 <= t < route.len() ==> visited(sim, from, to, t as nat) == Some(
                    #[trigger] route[t],
                )
            &&& forall|t: int|
                0 < t < route.len() ==> sim.links.contains_key(
                    model::ordered(route[t - 1], #[trigger] route[t]),
                )
            &&& visited(sim, from, to, route.len()) is None || route.len() == sim.nodes.len() + 1
            &&& delivery.delivered == (route.last() == to)
            &&& delivery.cost == walk::capped(sim.fares(route))
            &&& sim.sent(from, to).0 == sim.noted(model::packet_line(from, to, delivery))
        },
{
    lemma_keys_differ();
    let (at, end) = (sim.place(from), sim.place(to));
    assert(sim.bears(from, at) && sim.bears(to, end));
    let node = sim.node(from);
    assert(node.key == model::key_of(from));
    let payload = vstd::utf8::encode_utf8("hello"@);
    let packet = PacketView { src: node.key, dst: model::key_of(to), payload };
    let sending = sim.with_node(from, node.sent(model::key_of(to), payload).0);
    if onward(sim, to, from) is Some {
        lemma_onward_crosses_a_link(sim, to, from);
    }
    if from != to {
        assert(sending.nodes =~= sim.nodes);
        assert(sending == sim);
        if let Ok(out) = node.sent(model::key_of(to), payload).1 {
            let hop = model::first(out);
            lemma_trip(sim, from, to, packet, seq![from], hop, sim.nodes.len());
            let trip = sim.followed(seq![from], hop, sim.nodes.len());
            assert(trip.route.take(1)[0] == from);
            lemma_arrived(sim, from, to, trip.route, packet);
            lemma_route_crosses_links(sim, from, to, trip.route);
        }
    } else {
        let trip = sending.followed(seq![from], None, sim.nodes.len());
        assert(trip.route == seq![from]);
        assert(sending == left_at(sim, from, to, packet));
        lemma_arrived(sim, from, to, seq![from], packet);
        assert(visited(sim, from, to, 1) == onward(sim, to, from)) by {
            assert(visited(sim, from, to, 0) == Some(from));
        }
    }
}

/// Taking a packet in leaves the network as it was before it was sent.
proof fn lemma_arrived(sim: SimView, from: u8, to: u8, route: Seq<u8>, packet: PacketView)
    requires
        agrees(sim),
        is_drained(sim),
        sim.has(to),
        route.len() > 0,
        sim.has(route.last()),
    ensures
        ({
            let (after, delivery) = left_at(sim, route.last(), to, packet).arrived(
                from,
                to,
                route,
            );
            &&& delivery.route == route
            &&& delivery.delivered == (route.last() == to)
            &&& delivery.cost == walk::capped(sim.fares(route))
            &&& after == sim.noted(model::packet_line(from, to, delivery))
        }),
{
    let last = route.last();
    let at = sim.place(last);
    assert(sim.bears(last, at));
    let held = left_at(sim, last, to, packet);
    assert(held.bears(last, at));
    assert(keeps(sim, held));
    lemma_keeps_labels(sim, held);
    lemma_place(held, last, at);
    lemma_fares_are_the_links(sim, held, route);
    let (after, delivery) = held.arrived(from, to, route);
    assert(sim.nodes[at].1.delivered.len() == 0);
    let taken = NodeView { delivered: Seq::empty(), ..held.node(last) };
    assert(taken =~= sim.nodes[at].1);
    assert(held.with_node(last, taken).nodes =~= sim.nodes);
}

/// What a route costs depends on the links alone.
pub(crate) proof fn lemma_fares_are_the_links(a: SimView, b: SimView, route: Seq<u8>)
    requires
        a.links == b.links,
    ensures
        a.fares(route) == b.fares(route),
    decreases route.len(),
{
    if route.len() >= 2 {
        lemma_fares_are_the_links(a, b, route.drop_last());
    }
}

/// What a packet visits is one link further each time.
proof fn lemma_route_crosses_links(sim: SimView, from: u8, to: u8, route: Seq<u8>)
    requires
        agrees(sim),
        sim.has(from),
        route.len() > 0,
        forall|t: int|
            0 <= t < route.len() ==> visited(sim, from, to, t as nat) == Some(#[trigger] route[t]),
    ensures
        forall|t: int|
            0 < t < route.len() ==> sim.links.contains_key(
                model::ordered(route[t - 1], #[trigger] route[t]),
            ),
{
    assert forall|t: int| 0 < t < route.len() implies sim.links.contains_key(
        model::ordered(route[t - 1], #[trigger] route[t]),
    ) by {
        assert(visited(sim, from, to, (t - 1) as nat) == Some(route[t - 1]));
        assert(visited(sim, from, to, t as nat) == onward(sim, to, route[t - 1])) by {
            assert((t as nat - 1) as nat == (t - 1) as nat);
        }
        assert(visited(sim, from, to, t as nat) == Some(route[t]));
        lemma_visited_are_there(sim, from, to, (t - 1) as nat);
        lemma_onward_crosses_a_link(sim, to, route[t - 1]);
    }
}

/// Whatever a packet visits is there.
proof fn lemma_visited_are_there(sim: SimView, from: u8, to: u8, hops: nat)
    requires
        agrees(sim),
        sim.has(from),
        visited(sim, from, to, hops) is Some,
    ensures
        sim.has(visited(sim, from, to, hops)->0),
        hops > 0 ==> visited(sim, from, to, (hops - 1) as nat) is Some,
    decreases hops,
{
    if hops > 0 {
        lemma_visited_are_there(sim, from, to, (hops - 1) as nat);
        lemma_onward_crosses_a_link(sim, to, visited(sim, from, to, (hops - 1) as nat)->0);
    }
}

/// What a packet got past, it got to.
proof fn lemma_visited_before(sim: SimView, from: u8, to: u8, hops: nat, earlier: nat)
    requires
        visited(sim, from, to, hops) is Some,
        earlier <= hops,
    ensures
        visited(sim, from, to, earlier) is Some,
    decreases hops,
{
    if earlier < hops {
        lemma_visited_before(sim, from, to, (hops - 1) as nat, earlier);
    }
}

/// From a place visited twice a packet goes the same way twice.
proof fn lemma_visited_again(sim: SimView, from: u8, to: u8, i: nat, j: nat, more: nat)
    requires
        visited(sim, from, to, i) == visited(sim, from, to, j),
    ensures
        visited(sim, from, to, i + more) == visited(sim, from, to, j + more),
    decreases more,
{
    if more > 0 {
        lemma_visited_again(sim, from, to, i, j, (more - 1) as nat);
        assert((i + more - 1) as nat == i + (more - 1) as nat);
        assert((j + more - 1) as nat == j + (more - 1) as nat);
    }
}

/// A packet that visits more places than there are nodes visits one twice.
proof fn lemma_visited_twice(sim: SimView, from: u8, to: u8) -> (places: (nat, nat))
    requires
        agrees(sim),
        sim.has(from),
        visited(sim, from, to, sim.nodes.len()) is Some,
    ensures
        places.0 < places.1 <= sim.nodes.len(),
        visited(sim, from, to, places.0) == visited(sim, from, to, places.1),
{
    let n = sim.nodes.len();
    let places = Seq::new(n + 1, |t: int| sim.place(visited(sim, from, to, t as nat)->0));
    assert forall|t: int| 0 <= t <= n implies 0 <= #[trigger] places[t] < n && visited(
        sim,
        from,
        to,
        t as nat,
    ) == Some(sim.nodes[places[t]].0) by {
        lemma_visited_before(sim, from, to, n, t as nat);
        lemma_visited_are_there(sim, from, to, t as nat);
        let id = visited(sim, from, to, t as nat)->0;
        assert(sim.bears(id, sim.place(id)));
    }
    if places.no_duplicates() {
        places.unique_seq_to_set();
        vstd::set_lib::lemma_int_range(0, n as int);
        let all = vstd::set_lib::set_int_range(0, n as int);
        assert(places.to_set().subset_of(all)) by {
            assert forall|p: int| places.to_set().contains(p) implies all.contains(p) by {
                let t = choose|t: int| 0 <= t < places.len() && places[t] == p;
                assert(0 <= places[t] < n);
            }
        }
        vstd::set_lib::lemma_len_subset(places.to_set(), all);
        assert(false);
    }
    let (i, j) = choose|i: int, j: int|
        0 <= i < places.len() && 0 <= j < places.len() && i != j && places[i] == places[j];
    assert(visited(sim, from, to, i as nat) == visited(sim, from, to, j as nat));
    if i < j {
        (i as nat, j as nat)
    } else {
        (j as nat, i as nat)
    }
}

/// A packet that has not come to rest after as many hops as there are nodes has
/// been somewhere twice, and would go round for ever.
pub proof fn law_a_packet_cut_off_would_go_round_for_ever(
    sim: SimView,
    from: u8,
    to: u8,
    hops: nat,
)
    requires
        agrees(sim),
        sim.has(from),
        visited(sim, from, to, sim.nodes.len()) is Some,
    ensures
        visited(sim, from, to, hops) is Some,
    decreases hops,
{
    if hops <= sim.nodes.len() {
        lemma_visited_before(sim, from, to, sim.nodes.len(), hops);
    } else {
        let (i, j) = lemma_visited_twice(sim, from, to);
        let more = (hops - j) as nat;
        law_a_packet_cut_off_would_go_round_for_ever(sim, from, to, i + more);
        lemma_visited_again(sim, from, to, i, j, more);
        assert(j + more == hops);
    }
}

/// Whether nothing but gossip is in flight, and nobody holds a packet that has
/// not been taken in.
pub open spec fn only_gossips(sim: SimView) -> bool {
    &&& is_drained(sim)
    &&& forall|i: int|
        0 <= i < sim.queue.len() ==> (#[trigger] sim.queue[i]).message is Announce
}

/// Whether an event has a node say nothing but gossip, and hold no more packets
/// than it did.
spec fn is_gossip(before: NodeView, step: Step) -> bool {
    &&& step.node.delivered == before.delivered
    &&& forall|i: int| 0 <= i < step.out.len() ==> (#[trigger] step.out[i]).message is Announce
}

proof fn lemma_reparenting_gossips(node: NodeView, now: u64)
    ensures
        is_gossip(node, node.reparented(now)),
{
}

proof fn lemma_ticking_gossips(node: NodeView, now: u64)
    ensures
        is_gossip(node, node.ticked(now)),
{
}

proof fn lemma_linking_gossips(node: NodeView, now: u64, peer: PublicKey, cost: u64)
    ensures
        is_gossip(node, node.peer_added(now, peer, cost)),
        is_gossip(node, node.peer_removed(now, peer)),
{
    lemma_reparenting_gossips(NodeView { peers: node.peers.insert(peer, cost), ..node }, now);
    lemma_reparenting_gossips(NodeView { peers: node.peers.remove(peer), ..node }, now);
}

proof fn lemma_hearing_gossips(node: NodeView, now: u64, from: PublicKey, message: MessageView)
    requires
        message is Announce,
    ensures
        is_gossip(node, node.handled(now, from, message)),
{
    let claim = message->Announce_0;
    lemma_reparenting_gossips(node.keeping(now, claim), now);
}

/// Gossip leads to nothing but gossip.
proof fn lemma_acted_gossips(sim: SimView, id: u8, step: Step)
    requires
        only_gossips(sim),
        sim.has(id),
        is_gossip(sim.node(id), step),
    ensures
        only_gossips(sim.acted(id, step)),
{
    let at = sim.place(id);
    assert(sim.bears(id, at));
    assert(sim.nodes[at].1.delivered.len() == 0);
    let after = sim.acted(id, step);
    assert forall|i: int| 0 <= i < after.nodes.len() implies (
    #[trigger] after.nodes[i]).1.delivered.len() == 0 by {
        assert(sim.nodes[i].1.delivered.len() == 0);
    }
    assert forall|i: int| 0 <= i < after.queue.len() implies (
    #[trigger] after.queue[i]).message is Announce by {
        if i < sim.queue.len() {
            assert(after.queue[i] == sim.queue[i]);
        } else {
            assert(after.queue[i].message == step.out[i - sim.queue.len()].message);
        }
    }
}

proof fn lemma_running_gossips(sim: SimView, left: nat)
    requires
        only_gossips(sim),
    ensures
        only_gossips(sim.run_for(left)),
    decreases left,
{
    if left > 0 && sim.queue.len() > 0 {
        let in_flight = sim.queue[0];
        let rest = SimView { queue: sim.queue.drop_first(), ..sim };
        assert(only_gossips(rest)) by {
            assert forall|i: int| 0 <= i < rest.queue.len() implies (
            #[trigger] rest.queue[i]).message is Announce by {
                assert(rest.queue[i] == sim.queue[i + 1]);
            }
        }
        let to = model::id_of(in_flight.to);
        if rest.has(to) {
            let step = rest.node(to).handled(rest.now, in_flight.from, in_flight.message);
            lemma_hearing_gossips(rest.node(to), rest.now, in_flight.from, in_flight.message);
            lemma_acted_gossips(rest, to, step);
        }
        lemma_running_gossips(sim.next_delivered(), (left - 1) as nat);
    }
}

proof fn lemma_ends_gossip(sim: SimView, near: u8, far: u8, cost: u64)
    requires
        only_gossips(sim),
    ensures
        only_gossips(sim.end_priced(near, far, cost)),
        only_gossips(sim.end_dropped(near, far)),
{
    if sim.has(near) {
        lemma_linking_gossips(sim.node(near), sim.now, model::key_of(far), cost);
        lemma_acted_gossips(
            sim,
            near,
            sim.node(near).peer_added(sim.now, model::key_of(far), cost),
        );
        lemma_acted_gossips(
            sim,
            near,
            sim.node(near).peer_removed(sim.now, model::key_of(far)),
        );
    }
}

proof fn lemma_links_gossip(sim: SimView, a: u8, b: u8, cost: u64)
    requires
        only_gossips(sim),
    ensures
        only_gossips(sim.connected(a, b, cost)),
        only_gossips(sim.unlinked(a, b)),
{
    let linked = SimView { links: sim.links.insert(model::ordered(a, b), cost), ..sim };
    lemma_ends_gossip(linked, a, b, cost);
    lemma_ends_gossip(linked.end_priced(a, b, cost), b, a, cost);
    lemma_running_gossips(
        linked.end_priced(a, b, cost).end_priced(b, a, cost),
        model::MAX_STEPS as nat,
    );
    let cut = SimView { links: sim.links.remove(model::ordered(a, b)), ..sim };
    lemma_ends_gossip(cut, a, b, cost);
    lemma_ends_gossip(cut.end_dropped(a, b), b, a, cost);
}

proof fn lemma_unlinking_gossips(sim: SimView, id: u8, peers: Seq<u8>)
    requires
        only_gossips(sim),
    ensures
        only_gossips(sim.unlinked_from(id, peers)),
    decreases peers.len(),
{
    if peers.len() > 0 {
        lemma_unlinking_gossips(sim, id, peers.drop_last());
        lemma_links_gossip(sim.unlinked_from(id, peers.drop_last()), id, peers.last(), 1);
    }
}

proof fn lemma_ticks_gossip(sim: SimView, upto: nat)
    requires
        only_gossips(sim),
        upto <= sim.nodes.len(),
    ensures
        only_gossips(sim.ticked_upto(upto)),
    decreases upto,
{
    if upto > 0 {
        lemma_ticks_gossip(sim, (upto - 1) as nat);
        lemma_ticked_upto(sim, (upto - 1) as nat);
        let before = sim.ticked_upto((upto - 1) as nat);
        let id = sim.nodes[upto - 1].0;
        assert(before.nodes[upto - 1].0 == id);
        assert(before.bears(id, upto - 1));
        lemma_ticking_gossips(before.node(id), before.now);
        lemma_acted_gossips(before, id, before.node(id).ticked(before.now));
    }
}

proof fn lemma_time_gossips(sim: SimView, now: u64, target: u64)
    requires
        only_gossips(sim),
    ensures
        only_gossips(sim.advanced_from(now, target)),
    decreases target - now,
{
    if now < target {
        let next = model::next_instant(now, target);
        let later = SimView { now: next, ..sim };
        lemma_ticks_gossip(later, later.nodes.len());
        lemma_running_gossips(
            later.ticked_upto(later.nodes.len()),
            model::MAX_STEPS as nat,
        );
        lemma_time_gossips(sim.stepped_to(next), next, target);
    }
}

/// Whatever is done to the network, nothing but gossip is ever in flight, and
/// every packet that arrives is taken in.
pub proof fn law_packets_are_taken_in(
    sim: SimView,
    a: u8,
    b: u8,
    cost: u64,
    by: u64,
    clock: Seq<char>,
)
    requires
        agrees(sim),
        only_gossips(sim),
    ensures
        only_gossips(sim.node_added().0),
        only_gossips(sim.node_removed(a).0),
        only_gossips(sim.link_added(a, b, cost).0),
        only_gossips(sim.link_repriced(a, b, cost).0),
        only_gossips(sim.link_removed(a, b).0),
        only_gossips(sim.advanced(by, clock)),
        only_gossips(sim.sent(a, b).0),
{
    lemma_joining_gossips(sim);
    lemma_links_gossip(sim, a, b, cost);
    lemma_running_gossips(sim.unlinked(a, b), model::MAX_STEPS as nat);
    let peers = model::peer_labels(sim.node(a));
    if sim.has(a) {
        lemma_unlinking_gossips(sim, a, peers);
        let cut = sim.unlinked_from(a, peers);
        let gone = SimView { nodes: cut.nodes.remove(cut.place(a)), ..cut };
        assert(cut.has(a)) by {
            lemma_unlinked_from_keeps_labels(sim, a, peers);
        }
        assert(cut.bears(a, cut.place(a)));
        assert forall|i: int| 0 <= i < gone.nodes.len() implies (
        #[trigger] gone.nodes[i]).1.delivered.len() == 0 by {
            let at = cut.place(a);
            let x = if i < at { i } else { i + 1 };
            assert(cut.nodes[x].1.delivered.len() == 0);
        }
        lemma_running_gossips(gone, model::MAX_STEPS as nat);
    }
    lemma_time_gossips(sim, sim.now, walk::capped((sim.now + by) as nat));
    if sim.has(a) && sim.has(b) {
        law_a_packet_goes_over_links(sim, a, b);
    }
}

/// Dropping links moves no label.
pub(crate) proof fn lemma_unlinked_from_keeps_labels(sim: SimView, id: u8, peers: Seq<u8>)
    ensures
        forall|other: u8| #[trigger] sim.unlinked_from(id, peers).has(other) <==> sim.has(other),
    decreases peers.len(),
{
    if peers.len() > 0 {
        lemma_unlinked_from_keeps_labels(sim, id, peers.drop_last());
        let before = sim.unlinked_from(id, peers.drop_last());
        let cut = SimView { links: before.links.remove(model::ordered(id, peers.last())), ..before };
        lemma_end_dropped_keeps_labels(cut, id, peers.last());
        lemma_end_dropped_keeps_labels(cut.end_dropped(id, peers.last()), peers.last(), id);
        assert forall|other: u8| #[trigger] cut.has(other) <==> before.has(other) by {
            if cut.has(other) {
                assert(before.bears(other, cut.place(other)));
            }
            if before.has(other) {
                assert(cut.bears(other, before.place(other)));
            }
        }
    }
}

proof fn lemma_end_dropped_keeps_labels(sim: SimView, near: u8, far: u8)
    ensures
        forall|other: u8| #[trigger] sim.end_dropped(near, far).has(other) <==> sim.has(other),
{
    let after = sim.end_dropped(near, far);
    if sim.has(near) {
        assert(sim.bears(near, sim.place(near)));
    }
    assert forall|other: u8| #[trigger] after.has(other) <==> sim.has(other) by {
        if after.has(other) {
            assert(after.bears(other, after.place(other)));
            assert(sim.bears(other, after.place(other)));
        }
        if sim.has(other) {
            assert(sim.bears(other, sim.place(other)));
            assert(after.bears(other, sim.place(other)));
        }
    }
}

/// The network opens with every packet taken in.
pub proof fn law_the_network_opens_drained()
    ensures
        only_gossips(model::opening()),
{
    let none = model::vacant();
    law_the_network_opens_in_agreement();
    assert(agrees(none) && only_gossips(none));
    lemma_joining_gossips(none);
    let one = none.node_added().0;
    lemma_joining_gossips(one);
    let two = one.node_added().0;
    lemma_joining_gossips(two);
    let three = two.node_added().0;
    lemma_joining_gossips(three);
    let four = three.node_added().0;
    lemma_joining_gossips(four);
    let five = four.node_added().0;
    lemma_links_gossip(five, 1, 2, 1);
    let first = five.link_added(1, 2, 1).0;
    lemma_links_gossip(first, 2, 3, 1);
    let second = first.link_added(2, 3, 1).0;
    lemma_links_gossip(second, 3, 4, 1);
    let third = second.link_added(3, 4, 1).0;
    lemma_links_gossip(third, 2, 4, 5);
    let fourth = third.link_added(2, 4, 5).0;
    lemma_links_gossip(fourth, 4, 5, 1);
}

proof fn lemma_joining_gossips(sim: SimView)
    requires
        only_gossips(sim),
    ensures
        only_gossips(sim.node_added().0),
{
    let joined = sim.node_added().0;
    assert forall|i: int| 0 <= i < joined.nodes.len() implies (
    #[trigger] joined.nodes[i]).1.delivered.len() == 0 by {
        if i < sim.nodes.len() {
            assert(joined.nodes[i] == sim.nodes[i]);
        }
    }
}

/// A command that fails changes nothing.
pub proof fn law_a_failed_command_changes_nothing(
    sim: SimView,
    command: Seq<char>,
    request: RequestView,
)
    requires
        agrees(sim),
        is_drained(sim),
        command::outcome(sim, command, request).reply is Err,
    ensures
        command::outcome(sim, command, request).sim == sim,
{
    if command == "send"@ {
        if let (Ok(from), Ok(to)) = (
            command::label(request, "from"@),
            command::label(request, "to"@),
        ) {
            if sim.has(from) && sim.has(to) {
                law_a_packet_goes_over_links(sim, from, to);
            }
        }
    }
}

/// Looking at the network changes nothing, however it is asked for.
pub proof fn law_looking_changes_nothing(sim: SimView, request: RequestView)
    ensures
        command::outcome(sim, "state"@, request).sim == sim,
        command::outcome(sim, "state"@, request).reply == Ok::<Option<Seq<char>>, Seq<char>>(None),
{
}

/// Nothing but a POST changes the network.
pub proof fn law_only_a_post_changes_the_network(
    sim: SimView,
    command: Seq<char>,
    request: RequestView,
)
    requires
        request.method != "POST"@,
    ensures
        command::outcome(sim, command, request).sim == sim,
{
}

} // verus!
