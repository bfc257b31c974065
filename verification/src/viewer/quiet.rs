//! Gossip in the simulated network comes to rest.

use vstd::prelude::*;
use crate::flood;
use crate::flood::model::{InfoView, NodeView, Step};
use crate::flood::node::Timing;
use crate::flood::quiet;
use crate::flood::reach;
use crate::key::PublicKey;
use crate::sorted_map;
use crate::viewer::laws;
use crate::viewer::model;
use crate::viewer::model::SimView;
use crate::walk;

verus! {

/// Whether every node is at rest and in order, and nothing is in flight but
/// claims.
pub open spec fn is_in_order(sim: SimView) -> bool {
    &&& forall|i: int|
        0 <= i < sim.nodes.len() ==> quiet::is_in_order((#[trigger] sim.nodes[i]).1)
    &&& forall|i: int|
        0 <= i < sim.queue.len() ==> quiet::is_gossip((#[trigger] sim.queue[i]).message)
}

/// How many messages one node can be brought to send: two over each of its
/// links for every claim it has not heard.
pub open spec fn messages_left(node: NodeView) -> nat {
    2 * quiet::links_of(node) * quiet::unheard(node).len()
}

/// How many messages some nodes can be brought to send between them.
pub open spec fn messages_left_to(nodes: Seq<(u8, NodeView)>) -> nat
    decreases nodes.len(),
{
    if nodes.len() == 0 {
        0
    } else {
        messages_left_to(nodes.drop_last()) + messages_left(nodes.last().1)
    }
}

/// How many messages can be delivered before a network falls quiet: those in
/// flight, and those they can bring on.
pub open spec fn most_messages(sim: SimView) -> nat {
    sim.queue.len() + messages_left_to(sim.nodes)
}

/// The network after so many deliveries.
pub open spec fn after_deliveries(sim: SimView, steps: nat) -> SimView
    decreases steps,
{
    if steps == 0 {
        sim
    } else {
        after_deliveries(sim.next_delivered(), (steps - 1) as nat)
    }
}

/// A network stopped before it has fallen quiet.
pub open spec fn cut_off(sim: SimView) -> SimView {
    SimView { queue: Seq::empty(), ..sim.noted("gossip did not settle; stopping"@) }
}

/// Changing one node changes what it can be brought to send, and nobody else.
proof fn lemma_one_node_changes(nodes: Seq<(u8, NodeView)>, at: int, entry: (u8, NodeView))
    requires
        0 <= at < nodes.len(),
    ensures
        messages_left_to(nodes.update(at, entry)) + messages_left(nodes[at].1) == messages_left_to(
            nodes,
        ) + messages_left(entry.1),
    decreases nodes.len(),
{
    let after = nodes.update(at, entry);
    if at == nodes.len() - 1 {
        assert(after.drop_last() =~= nodes.drop_last());
    } else {
        assert(after.drop_last() =~= nodes.drop_last().update(at, entry));
        lemma_one_node_changes(nodes.drop_last(), at, entry);
    }
}

/// A node that says nothing but claims and is left in order leaves the network
/// in order.
proof fn lemma_acted(sim: SimView, id: u8, step: Step)
    requires
        is_in_order(sim),
        sim.has(id),
        quiet::is_in_order(step.node),
        quiet::only_gossips(step.out),
    ensures
        is_in_order(sim.acted(id, step)),
        sim.acted(id, step).queue.len() == sim.queue.len() + step.out.len(),
        sim.acted(id, step).nodes == sim.nodes.update(sim.place(id), (id, step.node)),
{
    let after = sim.acted(id, step);
    assert(sim.bears(id, sim.place(id)));
    assert forall|i: int| 0 <= i < after.nodes.len() implies quiet::is_in_order(
        (#[trigger] after.nodes[i]).1,
    ) by {
        assert(quiet::is_in_order(sim.nodes[i].1));
    }
    assert forall|i: int| 0 <= i < after.queue.len() implies quiet::is_gossip(
        (#[trigger] after.queue[i]).message,
    ) by {
        if i < sim.queue.len() {
            assert(after.queue[i] == sim.queue[i]);
        } else {
            assert(after.queue[i].message == step.out[i - sim.queue.len()].message);
        }
    }
}

/// Every delivery leaves fewer messages to come.
proof fn lemma_delivered(sim: SimView)
    requires
        is_in_order(sim),
        sim.queue.len() > 0,
    ensures
        is_in_order(sim.next_delivered()),
        most_messages(sim.next_delivered()) < most_messages(sim),
        sim.next_delivered().log == sim.log,
{
    let in_flight = sim.queue[0];
    let rest = SimView { queue: sim.queue.drop_first(), ..sim };
    assert(is_in_order(rest)) by {
        assert forall|i: int| 0 <= i < rest.queue.len() implies quiet::is_gossip(
            (#[trigger] rest.queue[i]).message,
        ) by {
            assert(rest.queue[i] == sim.queue[i + 1]);
        }
    }
    let to = model::id_of(in_flight.to);
    if rest.has(to) {
        let at = rest.place(to);
        assert(rest.bears(to, at));
        let node = rest.nodes[at].1;
        assert(node == rest.node(to));
        assert(quiet::is_gossip(in_flight.message));
        let claim = in_flight.message->Announce_0;
        let step = node.handled(rest.now, in_flight.from, in_flight.message);
        quiet::law_gossip_begets_gossip(node, rest.now, in_flight.from, claim);
        lemma_acted(rest, to, step);
        lemma_one_node_changes(rest.nodes, at, (to, step.node));
        if node.peers.contains_key(in_flight.from) && node.is_news(claim) {
            quiet::law_news_is_used_up(node, rest.now, in_flight.from, claim);
            let (links, before, after) = (
                quiet::links_of(node) as int,
                quiet::unheard(node).len() as int,
                quiet::unheard(step.node).len() as int,
            );
            assert(2 * links * after + 2 * links <= 2 * links * before) by (nonlinear_arith)
                requires
                    links >= 0,
                    after + 1 <= before,
            ;
        } else {
            assert(step == node.still());
        }
    }
}

/// Gossip ends: whatever is in flight, a network falls quiet after no more
/// deliveries than there are messages in flight and messages these can bring
/// on, which is a number however large. Run for longer than it needs, it stops
/// because nothing is left to deliver, and notes nothing; run for less, it is
/// cut off where it is.
pub proof fn law_gossip_ends(sim: SimView) -> (steps: nat)
    requires
        is_in_order(sim),
    ensures
        steps <= most_messages(sim),
        after_deliveries(sim, steps).queue.len() == 0,
        after_deliveries(sim, steps).log == sim.log,
        is_in_order(after_deliveries(sim, steps)),
        forall|left: nat| #[trigger]
            sim.run_for(left) == if left > steps {
                after_deliveries(sim, steps)
            } else {
                cut_off(after_deliveries(sim, left))
            },
    decreases most_messages(sim),
{
    if sim.queue.len() == 0 {
        0
    } else {
        lemma_delivered(sim);
        let next = sim.next_delivered();
        let rest = law_gossip_ends(next);
        let steps = rest + 1;
        assert(after_deliveries(sim, steps) == after_deliveries(next, rest));
        assert forall|left: nat| #[trigger] sim.run_for(left) == if left > steps {
            after_deliveries(sim, steps)
        } else {
            cut_off(after_deliveries(sim, left))
        } by {
            if left > 0 {
                assert(sim.run_for(left) == next.run_for((left - 1) as nat));
            }
        }
        steps
    }
}

/// What every node can be brought to send is a number: there are only so many
/// claims it has not heard.
pub proof fn law_only_so_many_messages_are_left(sim: SimView, i: int)
    requires
        0 <= i < sim.nodes.len(),
    ensures
        quiet::unheard(sim.nodes[i].1).finite(),
        messages_left(sim.nodes[i].1) <= 2 * quiet::links_of(sim.nodes[i].1)
            * quiet::claims_in_all(),
{
    let node = sim.nodes[i].1;
    quiet::law_only_so_many_claims_can_be_made();
    quiet::every_claim().lemma_len_filter(|claim| node.is_news(claim));
    let (links, left, all) = (
        quiet::links_of(node) as int,
        quiet::unheard(node).len() as int,
        quiet::claims_in_all() as int,
    );
    assert(2 * links * left <= 2 * links * all) by (nonlinear_arith)
        requires
            links >= 0,
            left <= all,
    ;
}

/// Gossip leaves a network in order.
proof fn lemma_running(sim: SimView, left: nat)
    requires
        is_in_order(sim),
    ensures
        is_in_order(sim.run_for(left)),
    decreases left,
{
    if left > 0 && sim.queue.len() > 0 {
        lemma_delivered(sim);
        lemma_running(sim.next_delivered(), (left - 1) as nat);
    }
}

proof fn lemma_ends(sim: SimView, near: u8, far: u8, cost: u64)
    requires
        is_in_order(sim),
        cost >= 1,
    ensures
        is_in_order(sim.end_priced(near, far, cost)),
        is_in_order(sim.end_dropped(near, far)),
{
    if sim.has(near) {
        assert(sim.bears(near, sim.place(near)));
        let node = sim.node(near);
        assert(quiet::is_in_order(sim.nodes[sim.place(near)].1));
        quiet::law_links_are_told_as_claims(node, sim.now, model::key_of(far), cost);
        lemma_acted(sim, near, node.peer_added(sim.now, model::key_of(far), cost));
        lemma_acted(sim, near, node.peer_removed(sim.now, model::key_of(far)));
    }
}

proof fn lemma_links(sim: SimView, a: u8, b: u8, cost: u64)
    requires
        is_in_order(sim),
        cost >= 1,
    ensures
        is_in_order(sim.connected(a, b, cost)),
        is_in_order(sim.unlinked(a, b)),
{
    let linked = SimView { links: sim.links.insert(model::ordered(a, b), cost), ..sim };
    assert(is_in_order(linked));
    lemma_ends(linked, a, b, cost);
    lemma_ends(linked.end_priced(a, b, cost), b, a, cost);
    lemma_running(
        linked.end_priced(a, b, cost).end_priced(b, a, cost),
        model::MAX_STEPS as nat,
    );
    let cut = SimView { links: sim.links.remove(model::ordered(a, b)), ..sim };
    assert(is_in_order(cut));
    lemma_ends(cut, a, b, cost);
    lemma_ends(cut.end_dropped(a, b), b, a, cost);
}

proof fn lemma_unlinking(sim: SimView, id: u8, peers: Seq<u8>)
    requires
        is_in_order(sim),
    ensures
        is_in_order(sim.unlinked_from(id, peers)),
    decreases peers.len(),
{
    if peers.len() > 0 {
        lemma_unlinking(sim, id, peers.drop_last());
        lemma_links(sim.unlinked_from(id, peers.drop_last()), id, peers.last(), 1);
    }
}

proof fn lemma_leaving(sim: SimView, id: u8)
    requires
        is_in_order(sim),
    ensures
        is_in_order(sim.node_removed(id).0),
{
    if sim.has(id) {
        let peers = model::peer_labels(sim.node(id));
        lemma_unlinking(sim, id, peers);
        laws::lemma_unlinked_from_keeps_labels(sim, id, peers);
        let cut = sim.unlinked_from(id, peers);
        assert(cut.has(id));
        let at = cut.place(id);
        assert(cut.bears(id, at));
        let gone = SimView { nodes: cut.nodes.remove(at), ..cut };
        assert forall|i: int| 0 <= i < gone.nodes.len() implies quiet::is_in_order(
            (#[trigger] gone.nodes[i]).1,
        ) by {
            let x = if i < at { i } else { i + 1 };
            assert(quiet::is_in_order(cut.nodes[x].1));
        }
        lemma_running(gone, model::MAX_STEPS as nat);
    }
}

proof fn lemma_ticks(sim: SimView, upto: nat)
    requires
        is_in_order(sim),
        upto <= sim.nodes.len(),
    ensures
        is_in_order(sim.ticked_upto(upto)),
    decreases upto,
{
    if upto > 0 {
        lemma_ticks(sim, (upto - 1) as nat);
        laws::lemma_ticked_upto(sim, (upto - 1) as nat);
        let before = sim.ticked_upto((upto - 1) as nat);
        let id = sim.nodes[upto - 1].0;
        assert(before.nodes[upto - 1].0 == id);
        assert(before.bears(id, upto - 1));
        assert(before.bears(id, before.place(id)));
        assert(quiet::is_in_order(before.nodes[before.place(id)].1));
        quiet::law_time_is_told_as_claims(before.node(id), before.now);
        lemma_acted(before, id, before.node(id).ticked(before.now));
    }
}

proof fn lemma_time(sim: SimView, now: u64, target: u64)
    requires
        is_in_order(sim),
    ensures
        is_in_order(sim.advanced_from(now, target)),
    decreases target - now,
{
    if now < target {
        let next = model::next_instant(now, target);
        let later = SimView { now: next, ..sim };
        assert(is_in_order(later));
        lemma_ticks(later, later.nodes.len());
        lemma_running(later.ticked_upto(later.nodes.len()), model::MAX_STEPS as nat);
        lemma_time(sim.stepped_to(next), next, target);
    }
}

proof fn lemma_joining(sim: SimView)
    requires
        is_in_order(sim),
    ensures
        is_in_order(sim.node_added().0),
{
    let joined = sim.node_added().0;
    let node = flood::model::isolated(sim.now, model::key_of(sim.next_id), Timing::usual());
    reach::law_a_new_node_is_at_rest(sim.now, model::key_of(sim.next_id), Timing::usual());
    let entries = Seq::<(PublicKey, InfoView)>::empty();
    assert(sorted_map::map_of(entries) =~= node.infos);
    sorted_map::lemma_ascending_is_the_listing(entries);
    assert forall|i: int| 0 <= i < joined.nodes.len() implies quiet::is_in_order(
        (#[trigger] joined.nodes[i]).1,
    ) by {
        if i < sim.nodes.len() {
            assert(joined.nodes[i] == sim.nodes[i]);
        }
    }
}

/// Whatever is done to the network, every node is left at rest and in order,
/// so the gossip of the next change ends too.
pub proof fn law_the_network_is_kept_in_order(
    sim: SimView,
    a: u8,
    b: u8,
    cost: u64,
    by: u64,
    clock: Seq<char>,
)
    requires
        laws::agrees(sim),
        laws::is_drained(sim),
        is_in_order(sim),
    ensures
        is_in_order(sim.node_added().0),
        is_in_order(sim.node_removed(a).0),
        is_in_order(sim.link_added(a, b, cost).0),
        is_in_order(sim.link_repriced(a, b, cost).0),
        is_in_order(sim.link_removed(a, b).0),
        is_in_order(sim.advanced(by, clock)),
        is_in_order(sim.sent(a, b).0),
{
    lemma_joining(sim);
    lemma_leaving(sim, a);
    if cost >= 1 {
        lemma_links(sim, a, b, cost);
    }
    lemma_links(sim, a, b, 1);
    lemma_running(sim.unlinked(a, b), model::MAX_STEPS as nat);
    lemma_time(sim, sim.now, walk::capped((sim.now + by) as nat));
    if sim.has(a) && sim.has(b) {
        laws::law_a_packet_goes_over_links(sim, a, b);
    }
}

/// The network opens in order.
pub proof fn law_the_network_opens_in_order()
    ensures
        is_in_order(model::opening()),
{
    let none = model::vacant();
    assert(is_in_order(none));
    lemma_joining(none);
    let one = none.node_added().0;
    lemma_joining(one);
    let two = one.node_added().0;
    lemma_joining(two);
    let three = two.node_added().0;
    lemma_joining(three);
    let four = three.node_added().0;
    lemma_joining(four);
    let five = four.node_added().0;
    lemma_links(five, 1, 2, 1);
    let first = five.link_added(1, 2, 1).0;
    lemma_links(first, 2, 3, 1);
    let second = first.link_added(2, 3, 1).0;
    lemma_links(second, 3, 4, 1);
    let third = second.link_added(3, 4, 1).0;
    lemma_links(third, 2, 4, 5);
    let fourth = third.link_added(2, 4, 5).0;
    lemma_links(fourth, 4, 5, 1);
}

/// The clock is stepped rather than jumped: no step is longer than a node
/// leaves its announcement alone, so whatever was heard at one instant is still
/// fresh at the next.
pub proof fn law_no_step_outlives_an_announcement(now: u64, target: u64)
    requires
        now < target,
    ensures
        now < model::next_instant(now, target) <= target,
        model::next_instant(now, target) - now <= Timing::usual().refresh,
        sorted_map::is_fresh(now, model::next_instant(now, target), Timing::usual().expiry),
{
}

} // verus!
