//! What each command on the simulated network is for: what it costs to send,
//! what a link going up or down leaves behind, and what is shown of it all.

use vstd::prelude::*;
use crate::flood::claim;
use crate::flood::claim::Hop;
use crate::flood::duties;
use crate::flood::message::EnvelopeView;
use crate::flood::model::{NodeView, Step};
use crate::key::PublicKey;
use crate::sorted_map;
use crate::sorted_map::Ranked;
use crate::text;
use crate::viewer::json;
use crate::viewer::laws;
use crate::viewer::model;
use crate::viewer::model::{Ends, InFlightView, SimView};

verus! {

/// A key is its label written thirty-two times over, and a label is the first
/// byte of its key.
pub proof fn law_a_key_is_its_label_repeated(id: u8, key: PublicKey)
    ensures
        model::key_of(id)@.len() == 32,
        forall|i: int| 0 <= i < 32 ==> #[trigger] model::key_of(id)@[i] == id,
        model::id_of(key) == key@[0],
{
    let bytes = Seq::new(32, |i: int| id);
    let made = PublicKey(vstd::array::spec_array_fill_for_copy_type(id));
    assert(made@ =~= bytes);
    assert(model::key_of(id)@ == bytes);
}

/// The ends of a link are the two labels, the smaller first, in whichever order
/// they were named.
pub proof fn law_ends_are_named_in_either_order(a: u8, b: u8)
    ensures
        model::ordered(a, b) == model::ordered(b, a),
        model::ordered(a, b).a <= model::ordered(a, b).b,
        a <= b ==> model::ordered(a, b) == (Ends { a, b }),
        b <= a ==> model::ordered(a, b) == (Ends { a: b, b: a }),
{
}

/// A label names a node where some node bears it.
pub proof fn law_a_label_names_whoever_bears_it(sim: SimView, id: u8, at: int)
    requires
        laws::is_labelled(sim),
    ensures
        sim.has(id) <==> exists|i: int| 0 <= i < sim.nodes.len() && (#[trigger] sim.nodes[i]).0 == id,
        0 <= at < sim.nodes.len() && sim.nodes[at].0 == id ==> sim.node(id) == sim.nodes[at].1,
{
    if sim.has(id) {
        let i = sim.place(id);
        assert(sim.bears(id, i));
        assert(sim.nodes[i].0 == id);
    }
    if exists|i: int| 0 <= i < sim.nodes.len() && (#[trigger] sim.nodes[i]).0 == id {
        let i = choose|i: int| 0 <= i < sim.nodes.len() && (#[trigger] sim.nodes[i]).0 == id;
        assert(sim.bears(id, i));
    }
    if 0 <= at < sim.nodes.len() && sim.nodes[at].0 == id {
        assert(sim.bears(id, at));
        laws::lemma_place(sim, id, at);
    }
}

/// While the links and the nodes agree, a node's peers are exactly the far ends
/// of its links, each at what the link costs.
pub proof fn law_peers_are_the_far_ends_of_links(sim: SimView, at: int, other: u8)
    requires
        laws::agrees(sim),
        0 <= at < sim.nodes.len(),
    ensures
        ({
            let id = sim.nodes[at].0;
            let ends = if id <= other { Ends { a: id, b: other } } else { Ends { a: other, b: id } };
            let peers = sim.nodes[at].1.peers;
            &&& peers.contains_key(model::key_of(other)) <==> sim.links.contains_key(ends)
            &&& sim.links.contains_key(ends) ==> peers[model::key_of(other)] == sim.links[ends]
        }),
{
    laws::lemma_keys_differ();
    let id = sim.nodes[at].0;
    let ends = if id <= other { Ends { a: id, b: other } } else { Ends { a: other, b: id } };
    assert(sim.bears(id, at));
    if sim.nodes[at].1.peers.contains_key(model::key_of(other)) {
        assert(laws::is_peer(sim, at, model::key_of(other)));
        assert(laws::is_half_a_link(sim, at, model::key_of(other)));
    }
    if sim.links.contains_key(ends) {
        assert(laws::is_link(sim, ends));
        let (i, j) = choose|i: int, j: int| laws::joins(sim, ends, sim.links[ends], i, j);
        laws::lemma_place(sim, id, at);
        laws::lemma_place(sim, ends.a, i);
        laws::lemma_place(sim, ends.b, j);
    }
}

/// The links along a route cost what each of them does, added up.
proof fn lemma_fares_add_up(sim: SimView, route: Seq<u8>)
    requires
        route.len() > 0,
    ensures
        sim.fares(route) == Seq::new(
            (route.len() - 1) as nat,
            |t: int|
                {
                    let (a, b) = (route[t], route[t + 1]);
                    let ends = if a <= b { Ends { a, b } } else { Ends { a: b, b: a } };
                    if sim.links.contains_key(ends) { sim.links[ends] as nat } else { 0nat }
                },
        ).fold_left(0nat, |sum: nat, price: nat| sum + price),
    decreases route.len(),
{
    let price = |t: int|
        {
            let (a, b) = (route[t], route[t + 1]);
            let ends = if a <= b { Ends { a, b } } else { Ends { a: b, b: a } };
            if sim.links.contains_key(ends) { sim.links[ends] as nat } else { 0nat }
        };
    let prices = Seq::new((route.len() - 1) as nat, price);
    let plus = |sum: nat, price: nat| sum + price;
    if route.len() == 1 {
        reveal_with_fuel(Seq::fold_left, 2);
        assert(prices =~= Seq::empty());
    } else {
        let head = route.drop_last();
        lemma_fares_add_up(sim, head);
        let fewer = Seq::new(
            (head.len() - 1) as nat,
            |t: int|
                {
                    let (a, b) = (head[t], head[t + 1]);
                    let ends = if a <= b { Ends { a, b } } else { Ends { a: b, b: a } };
                    if sim.links.contains_key(ends) { sim.links[ends] as nat } else { 0nat }
                },
        );
        assert(prices.drop_last() =~= fewer);
        assert(prices.fold_left(0nat, plus) == plus(
            prices.drop_last().fold_left(0nat, plus),
            prices.last(),
        ));
    }
}

/// A packet pays for every link it crosses: what its delivery cost is what the
/// links along its route cost, added up as far as can be counted. Over one link
/// that is what the link costs.
pub proof fn law_a_packet_pays_for_every_link_it_crosses(sim: SimView, from: u8, to: u8)
    ensures
        sim.sent(from, to).1 matches Ok(delivery) ==> {
            let route = delivery.route;
            let sum = Seq::new(
                (route.len() - 1) as nat,
                |t: int|
                    {
                        let (a, b) = (route[t], route[t + 1]);
                        let ends = if a <= b { Ends { a, b } } else { Ends { a: b, b: a } };
                        if sim.links.contains_key(ends) { sim.links[ends] as nat } else { 0nat }
                    },
            ).fold_left(0nat, |sum: nat, price: nat| sum + price);
            &&& route.len() > 0
            &&& delivery.cost == if sum <= u64::MAX { sum } else { u64::MAX as nat }
            &&& route.len() == 1 ==> delivery.cost == 0
            &&& route.len() == 2 ==> {
                let (a, b) = (route[0], route[1]);
                let ends = if a <= b { Ends { a, b } } else { Ends { a: b, b: a } };
                sim.links.contains_key(ends) ==> delivery.cost == sim.links[ends]
            }
        },
{
    if let Ok(delivery) = sim.sent(from, to).1 {
        assert(sim.bears(from, sim.place(from)));
        let (node, out) = sim.node(from).sent(
            model::key_of(to),
            vstd::utf8::encode_utf8("hello"@),
        );
        let sending = sim.with_node(from, node);
        assert(laws::keeps(sim, sending));
        laws::lemma_keeps_labels(sim, sending);
        let hop = model::first(out->Ok_0);
        laws::lemma_followed(sending, seq![from], hop, sim.nodes.len());
        let trip = sending.followed(seq![from], hop, sim.nodes.len());
        let route = delivery.route;
        laws::lemma_fares_are_the_links(sim, trip.sim, route);
        lemma_fares_add_up(sim, route);
        reveal_with_fuel(Seq::fold_left, 3);
        if route.len() == 2 {
            let one = route.drop_last();
            assert(sim.fares(one) == 0);
        }
    }
}

/// A dearer link makes every route over it dearer, and no route cheaper, as far
/// as costs can be counted.
pub proof fn law_a_dearer_link_makes_a_dearer_route(
    cheap: SimView,
    dear: SimView,
    route: Seq<u8>,
)
    requires
        cheap.links.dom() == dear.links.dom(),
        forall|ends: Ends| #[trigger]
            cheap.links.contains_key(ends) ==> cheap.links[ends] <= dear.links[ends],
    ensures
        cheap.fares(route) <= dear.fares(route),
        (exists|t: int|
            0 <= t < route.len() - 1 && cheap.links.contains_key(
                model::ordered(#[trigger] route[t], route[t + 1]),
            ) && cheap.links[model::ordered(route[t], route[t + 1])] < dear.links[model::ordered(
                route[t],
                route[t + 1],
            )]) ==> cheap.fares(route) < dear.fares(route),
    decreases route.len(),
{
    if route.len() >= 2 {
        let head = route.drop_last();
        let n = route.len() as int;
        let pair = model::ordered(route[n - 2], route[n - 1]);
        law_a_dearer_link_makes_a_dearer_route(cheap, dear, head);
        assert(cheap.links.contains_key(pair) <==> cheap.links.dom().contains(pair));
        assert(dear.links.contains_key(pair) <==> dear.links.dom().contains(pair));
        if exists|t: int|
            0 <= t < route.len() - 1 && cheap.links.contains_key(
                model::ordered(#[trigger] route[t], route[t + 1]),
            ) && cheap.links[model::ordered(route[t], route[t + 1])] < dear.links[model::ordered(
                route[t],
                route[t + 1],
            )] {
            let t = choose|t: int|
                0 <= t < route.len() - 1 && cheap.links.contains_key(
                    model::ordered(#[trigger] route[t], route[t + 1]),
                ) && cheap.links[model::ordered(route[t], route[t + 1])] < dear.links[model::ordered(
                    route[t],
                    route[t + 1],
                )];
            if t < n - 2 {
                assert(head[t] == route[t] && head[t + 1] == route[t + 1]);
            }
        }
    }
}

/// A link that is removed is gone, in whichever order its ends are named: it is
/// no longer among the links, and neither end holds the other as a peer. Every
/// other link stays as it was, and so does every label.
pub proof fn law_a_removed_link_is_gone(sim: SimView, a: u8, b: u8, at: int)
    requires
        laws::agrees(sim),
    ensures
        ({
            let (after, told) = sim.link_removed(a, b);
            let ends = if a <= b { Ends { a, b } } else { Ends { a: b, b: a } };
            &&& told is Ok <==> sim.links.contains_key(ends)
            &&& told is Err ==> after == sim && told->Err_0 == text::decimal(a as nat) + " and "@
                + text::decimal(b as nat) + " are not linked"@
            &&& told is Ok ==> {
                &&& after.links == sim.links.remove(ends)
                &&& !after.links.contains_key(ends)
                &&& after.nodes.len() == sim.nodes.len()
                &&& 0 <= at < sim.nodes.len() ==> after.nodes[at].0 == sim.nodes[at].0
                &&& 0 <= at < sim.nodes.len() && sim.nodes[at].0 == a
                    ==> !after.nodes[at].1.peers.contains_key(model::key_of(b))
                &&& 0 <= at < sim.nodes.len() && sim.nodes[at].0 == b
                    ==> !after.nodes[at].1.peers.contains_key(model::key_of(a))
                &&& laws::agrees(after)
                &&& after.now == sim.now
                &&& after.next_id == sim.next_id
                &&& after.queue.len() == 0
                &&& after.log.len() > 0
                &&& after.log.last() == "unlinked "@ + text::decimal(a as nat) + " and "@
                    + text::decimal(b as nat)
            }
        }),
{
    let (after, told) = sim.link_removed(a, b);
    let ends = if a <= b { Ends { a, b } } else { Ends { a: b, b: a } };
    reveal_strlit("");
    if sim.links.contains_key(ends) {
        assert(laws::is_link(sim, ends));
        laws::law_both_ends_of_a_link_agree(sim, a, b, 1, 0, Seq::empty());
        laws::lemma_unlinked(sim, a, b);
        let cut = sim.unlinked(a, b);
        laws::lemma_ran(cut, model::MAX_STEPS as nat);
        if 0 <= at < sim.nodes.len() {
            assert(sim.bears(sim.nodes[at].0, at));
            assert(cut.bears(sim.nodes[at].0, at));
            law_peers_are_the_far_ends_of_links(after, at, a);
            law_peers_are_the_far_ends_of_links(after, at, b);
        }
        assert(after.log.last() =~= "unlinked "@ + text::decimal(a as nat) + " and "@
            + text::decimal(b as nat));
    } else {
        assert(told->Err_0 =~= text::decimal(a as nat) + " and "@ + text::decimal(b as nat)
            + " are not linked"@);
    }
}

/// The order in which the ends of a link are named makes no difference to the
/// links that are left.
pub proof fn law_links_come_down_from_either_end(sim: SimView, a: u8, b: u8)
    requires
        laws::agrees(sim),
    ensures
        sim.link_removed(a, b).0.links == sim.link_removed(b, a).0.links,
        sim.link_removed(a, b).1 is Ok <==> sim.link_removed(b, a).1 is Ok,
{
    law_a_removed_link_is_gone(sim, a, b, 0);
    law_a_removed_link_is_gone(sim, b, a, 0);
}

/// A node is shown with its label, its root, its parent, the labels along its
/// walk, what that walk costs, its peers, and how many positions it knows. What
/// the walk costs is every price along it, added up as far as can be counted.
pub proof fn law_a_node_is_shown_as_it_sits(id: u8, node: NodeView)
    requires
        node.claim.walk.len() > 0,
    ensures
        ({
            let steps = node.claim.walk;
            let sum = steps.fold_left(0nat, |sum: nat, hop: Hop| sum + hop.cost as nat);
            let cost = if sum <= u64::MAX { sum } else { u64::MAX as nat };
            let before = "{\"id\":"@ + text::decimal(id as nat) + ",\"root\":"@ + text::decimal(
                steps[0].key@[0] as nat,
            ) + ",\"parent\":"@ + (if steps.len() >= 2 {
                text::decimal(steps[steps.len() - 2].key@[0] as nat)
            } else {
                "null"@
            }) + ",\"path\":["@ + text::joined(
                Seq::new(steps.len(), |i: int| text::decimal(steps[i].key@[0] as nat)),
                ","@,
            ) + "]"@;
            let peers = sorted_map::ascending(node.peers);
            let after = ",\"peers\":["@ + text::joined(
                Seq::new(peers.len(), |i: int| text::decimal(peers[i].0@[0] as nat)),
                ","@,
            ) + "],\"knows\":"@ + text::decimal(sorted_map::ascending(node.infos).len()) + "}"@;
            model::node_json((id, node)) == before + ",\"cost\":"@ + text::decimal(cost) + after
        }),
{
    let steps = node.claim.walk;
    claim::law_the_cost_to_the_root_is_the_sum_of_the_prices(steps);
    let peers = sorted_map::ascending(node.peers);
    let sum = steps.fold_left(0nat, |sum: nat, hop: Hop| sum + hop.cost as nat);
    let cost = if sum <= u64::MAX { sum } else { u64::MAX as nat };
    reveal_strlit("[");
    reveal_strlit("]");
    reveal_strlit(",\"path\":");
    reveal_strlit(",\"path\":[");
    reveal_strlit(",\"peers\":");
    reveal_strlit(",\"peers\":[");
    reveal_strlit(",\"knows\":");
    reveal_strlit("],\"knows\":");
    let path = Seq::new(steps.len(), |i: int| text::decimal(steps[i].key@[0] as nat));
    assert(model::path_labels(steps).map_values(|id: u8| text::decimal(id as nat)) =~= path);
    let near = Seq::new(peers.len(), |i: int| text::decimal(peers[i].0@[0] as nat));
    assert(model::peer_labels(node).map_values(|id: u8| text::decimal(id as nat)) =~= near);
    let (a, b) = (text::joined(path, ","@), text::joined(near, ","@));
    assert(",\"path\":"@ + ("["@ + a + "]"@) =~= ",\"path\":["@ + a + "]"@);
    assert(",\"peers\":"@ + ("["@ + b + "]"@) + ",\"knows\":"@ =~= ",\"peers\":["@ + b
        + "],\"knows\":"@);
    let parent = if steps.len() >= 2 {
        text::decimal(steps[steps.len() - 2].key@[0] as nat)
    } else {
        "null"@
    };
    let head = "{\"id\":"@ + text::decimal(id as nat) + ",\"root\":"@ + text::decimal(
        steps[0].key@[0] as nat,
    ) + ",\"parent\":"@ + parent;
    let knows = text::decimal(sorted_map::ascending(node.infos).len()) + "}"@;
    let shown = head + (",\"path\":"@ + ("["@ + a + "]"@)) + ",\"cost\":"@ + text::decimal(cost)
        + (",\"peers\":"@ + ("["@ + b + "]"@) + ",\"knows\":"@) + knows;
    assert(model::node_json((id, node)) =~= shown);
    let before = head + ",\"path\":["@ + a + "]"@;
    let after = ",\"peers\":["@ + b + "],\"knows\":"@ + text::decimal(
        sorted_map::ascending(node.infos).len(),
    ) + "}"@;
    assert(shown =~= before + ",\"cost\":"@ + text::decimal(cost) + after);
}

/// Two nodes whose walks name the same nodes but cost differently in all are
/// shown with different costs, and so are shown differently.
pub proof fn law_a_dearer_walk_is_shown_dearer(id: u8, node: NodeView, other: NodeView)
    requires
        node.claim.walk.len() > 0,
        node.claim.walk.len() == other.claim.walk.len(),
        forall|i: int|
            0 <= i < node.claim.walk.len() ==> (#[trigger] node.claim.walk[i]).key
                == other.claim.walk[i].key,
        node.peers == other.peers,
        node.infos == other.infos,
        ({
            let a = node.claim.walk.fold_left(0nat, |sum: nat, hop: Hop| sum + hop.cost as nat);
            let b = other.claim.walk.fold_left(0nat, |sum: nat, hop: Hop| sum + hop.cost as nat);
            a != b && a <= u64::MAX && b <= u64::MAX
        }),
    ensures
        model::node_json((id, node)) != model::node_json((id, other)),
{
    law_a_node_is_shown_as_it_sits(id, node);
    law_a_node_is_shown_as_it_sits(id, other);
    let (x, y) = (node.claim.walk, other.claim.walk);
    let a = x.fold_left(0nat, |sum: nat, hop: Hop| sum + hop.cost as nat);
    let b = y.fold_left(0nat, |sum: nat, hop: Hop| sum + hop.cost as nat);
    assert(Seq::new(x.len(), |i: int| text::decimal(x[i].key@[0] as nat)) =~= Seq::new(
        y.len(),
        |i: int| text::decimal(y[i].key@[0] as nat),
    ));
    let path = text::joined(
        Seq::new(x.len(), |i: int| text::decimal(x[i].key@[0] as nat)),
        ","@,
    );
    let before = "{\"id\":"@ + text::decimal(id as nat) + ",\"root\":"@ + text::decimal(
        x[0].key@[0] as nat,
    ) + ",\"parent\":"@ + (if x.len() >= 2 {
        text::decimal(x[x.len() - 2].key@[0] as nat)
    } else {
        "null"@
    }) + ",\"path\":["@ + path + "]"@ + ",\"cost\":"@;
    let peers = sorted_map::ascending(node.peers);
    let after = ",\"peers\":["@ + text::joined(
        Seq::new(peers.len(), |i: int| text::decimal(peers[i].0@[0] as nat)),
        ","@,
    ) + "],\"knows\":"@ + text::decimal(sorted_map::ascending(node.infos).len()) + "}"@;
    let (one, two) = (before + text::decimal(a) + after, before + text::decimal(b) + after);
    assert(model::node_json((id, node)) == one);
    assert(model::node_json((id, other)) == two);
    if one == two {
        assert(text::decimal(a).len() == text::decimal(b).len());
        assert forall|i: int| 0 <= i < text::decimal(a).len() implies text::decimal(a)[i]
            == text::decimal(b)[i] by {
            assert(one[before.len() + i] == two[before.len() + i]);
        }
        assert(text::decimal(a) =~= text::decimal(b));
        text::law_decimals_tell_numbers_apart(a, b);
    }
}

/// A link comes up between two different nodes that have none between them, at
/// any cost but nothing: then it is among the links at that cost, and each end
/// holds the other at it. Otherwise nothing changes, and what stands in the way
/// is named.
pub proof fn law_a_new_link_joins_two_nodes(sim: SimView, a: u8, b: u8, cost: u64, at: int)
    requires
        laws::agrees(sim),
    ensures
        ({
            let (after, told) = sim.link_added(a, b, cost);
            let ends = if a <= b { Ends { a, b } } else { Ends { a: b, b: a } };
            &&& told is Ok <==> a != b && sim.has(a) && sim.has(b) && cost != 0
                && !sim.links.contains_key(ends)
            &&& told is Err ==> after == sim && told->Err_0 == (if a == b {
                "a node cannot link to itself"@
            } else if !sim.has(a) {
                "no node "@ + text::decimal(a as nat)
            } else if !sim.has(b) {
                "no node "@ + text::decimal(b as nat)
            } else if cost == 0 {
                "a link costs at least 1"@
            } else {
                text::decimal(a as nat) + " and "@ + text::decimal(b as nat)
                    + " are already linked"@
            })
            &&& told is Ok ==> {
                &&& after.links == sim.links.insert(ends, cost)
                &&& 0 <= at < after.nodes.len() && after.nodes[at].0 == a
                    ==> after.nodes[at].1.peers.contains_key(model::key_of(b))
                    && after.nodes[at].1.peers[model::key_of(b)] == cost
                &&& 0 <= at < after.nodes.len() && after.nodes[at].0 == b
                    ==> after.nodes[at].1.peers.contains_key(model::key_of(a))
                    && after.nodes[at].1.peers[model::key_of(a)] == cost
                &&& laws::agrees(after)
                &&& forall|id: u8| #[trigger] after.has(id) <==> sim.has(id)
                &&& after.now == sim.now
                &&& after.next_id == sim.next_id
                &&& after.queue.len() == 0
                &&& after.log.len() > 0
                &&& after.log.last() == "linked "@ + text::decimal(a as nat) + " and "@
                    + text::decimal(b as nat) + " at cost "@ + text::decimal(cost as nat)
            }
        }),
{
    let (after, told) = sim.link_added(a, b, cost);
    reveal_strlit("");
    if told is Ok {
        laws::law_both_ends_of_a_link_agree(sim, a, b, cost, 0, Seq::empty());
        laws::lemma_connected(sim, a, b, cost);
        let joined = sim.connected(a, b, cost);
        laws::lemma_keeps_labels(joined, after);
        assert forall|id: u8| #[trigger] after.has(id) <==> sim.has(id) by {
            assert(joined.has(id) <==> sim.has(id));
        }
        if 0 <= at < after.nodes.len() {
            law_peers_are_the_far_ends_of_links(after, at, a);
            law_peers_are_the_far_ends_of_links(after, at, b);
        }
    } else if a != b && sim.has(a) && sim.has(b) && cost != 0 {
        assert(told->Err_0 =~= text::decimal(a as nat) + " and "@ + text::decimal(b as nat)
            + " are already linked"@);
    }
}

/// A link measured again costs what it was measured at, dearer or cheaper, at
/// both ends; and no other link does. A link that is not there, a cost of
/// nothing and the cost it has already are refused and change nothing.
pub proof fn law_a_link_measured_again_costs_that(sim: SimView, a: u8, b: u8, cost: u64, at: int)
    requires
        laws::agrees(sim),
    ensures
        ({
            let (after, told) = sim.link_repriced(a, b, cost);
            let ends = if a <= b { Ends { a, b } } else { Ends { a: b, b: a } };
            let named = text::decimal(a as nat) + " and "@ + text::decimal(b as nat);
            &&& told is Ok <==> cost != 0 && sim.links.contains_key(ends) && sim.links[ends] != cost
            &&& told is Err ==> after == sim && told->Err_0 == (if cost == 0 {
                "a link costs at least 1"@
            } else if !sim.links.contains_key(ends) {
                named + " are not linked"@
            } else {
                named + " already cost "@ + text::decimal(cost as nat)
            })
            &&& told is Ok ==> {
                &&& after.links == sim.links.insert(ends, cost)
                &&& after.links.dom() == sim.links.dom()
                &&& 0 <= at < after.nodes.len() && after.nodes[at].0 == a
                    ==> after.nodes[at].1.peers.contains_key(model::key_of(b))
                    && after.nodes[at].1.peers[model::key_of(b)] == cost
                &&& 0 <= at < after.nodes.len() && after.nodes[at].0 == b
                    ==> after.nodes[at].1.peers.contains_key(model::key_of(a))
                    && after.nodes[at].1.peers[model::key_of(a)] == cost
                &&& laws::agrees(after)
                &&& forall|id: u8| #[trigger] after.has(id) <==> sim.has(id)
                &&& after.now == sim.now
                &&& after.next_id == sim.next_id
                &&& after.queue.len() == 0
                &&& after.log.len() > 0
                &&& after.log.last() == named + " now cost "@ + text::decimal(cost as nat)
                    + ", was "@ + text::decimal(sim.links[ends] as nat)
            }
        }),
{
    let (after, told) = sim.link_repriced(a, b, cost);
    let ends = if a <= b { Ends { a, b } } else { Ends { a: b, b: a } };
    let named = text::decimal(a as nat) + " and "@ + text::decimal(b as nat);
    reveal_strlit("");
    if told is Ok {
        assert(laws::is_link(sim, ends));
        laws::lemma_link_has_ends(sim, a, b);
        laws::law_both_ends_of_a_link_agree(sim, a, b, cost, 0, Seq::empty());
        laws::lemma_connected(sim, a, b, cost);
        let joined = sim.connected(a, b, cost);
        laws::lemma_keeps_labels(joined, after);
        assert forall|id: u8| #[trigger] after.has(id) <==> sim.has(id) by {
            assert(joined.has(id) <==> sim.has(id));
        }
        assert(after.links.dom() =~= sim.links.dom());
        if 0 <= at < after.nodes.len() {
            law_peers_are_the_far_ends_of_links(after, at, a);
            law_peers_are_the_far_ends_of_links(after, at, b);
        }
        assert(after.log.last() =~= named + " now cost "@ + text::decimal(cost as nat) + ", was "@
            + text::decimal(sim.links[ends] as nat));
    } else if cost != 0 {
        if sim.links.contains_key(ends) {
            assert(told->Err_0 =~= named + " already cost "@ + text::decimal(cost as nat));
        } else {
            assert(told->Err_0 =~= named + " are not linked"@);
        }
    }
}

/// A node joins under the next label while there is one left, after everybody
/// who is there already and linked to nobody. Nothing else changes.
pub proof fn law_a_new_node_joins_alone(sim: SimView)
    ensures
        ({
            let (after, told) = sim.node_added();
            &&& sim.next_id == 255 ==> after == sim && told == Err::<u8, Seq<char>>(
                "out of labels"@,
            )
            &&& sim.next_id < 255 ==> {
                let joined = after.nodes.last();
                &&& told == Ok::<u8, Seq<char>>(sim.next_id)
                &&& after.nodes.len() == sim.nodes.len() + 1
                &&& after.nodes.drop_last() == sim.nodes
                &&& joined.0 == sim.next_id
                &&& joined.1.key == model::key_of(sim.next_id)
                &&& joined.1.claim.seq == 0
                &&& joined.1.claim.walk.len() == 1
                &&& joined.1.claim.walk[0].key == joined.1.key
                &&& joined.1.announced_at == sim.now
                &&& joined.1.timing.refresh == 1_000
                &&& joined.1.timing.expiry == 3_000
                &&& forall|peer: PublicKey| !#[trigger] joined.1.peers.contains_key(peer)
                &&& forall|other: PublicKey| !#[trigger] joined.1.infos.contains_key(other)
                &&& joined.1.delivered.len() == 0
                &&& after.next_id == sim.next_id + 1
                &&& after.links == sim.links
                &&& after.queue == sim.queue
                &&& after.now == sim.now
                &&& after.log == sim.log.push(
                    "added node "@ + text::decimal(sim.next_id as nat),
                )
            }
        }),
{
    let (after, told) = sim.node_added();
    if sim.next_id < 255 {
        assert(after.nodes.drop_last() =~= sim.nodes);
    }
}

/// Dropping a node's links one after another drops no link of anybody else's,
/// and prices none.
proof fn lemma_only_its_own_links_drop(sim: SimView, id: u8, peers: Seq<u8>)
    ensures
        ({
            let after = sim.unlinked_from(id, peers);
            &&& forall|ends: Ends| #[trigger]
                after.links.contains_key(ends) ==> sim.links.contains_key(ends)
                    && after.links[ends] == sim.links[ends]
            &&& forall|ends: Ends| #[trigger]
                sim.links.contains_key(ends) && ends.a != id && ends.b != id
                    ==> after.links.contains_key(ends)
        }),
    decreases peers.len(),
{
    if peers.len() > 0 {
        lemma_only_its_own_links_drop(sim, id, peers.drop_last());
        let before = sim.unlinked_from(id, peers.drop_last());
        let after = sim.unlinked_from(id, peers);
        assert(after.links == before.links.remove(model::ordered(id, peers.last())));
    }
}

/// A node that leaves takes exactly its own links with it: every link of anybody
/// else's stays, at what it cost, and every other label stays. A label that
/// names nobody is refused, and nothing changes.
pub proof fn law_a_node_leaves_with_its_own_links(sim: SimView, id: u8, ends: Ends)
    requires
        laws::agrees(sim),
    ensures
        ({
            let (after, told) = sim.node_removed(id);
            &&& told is Ok <==> sim.has(id)
            &&& told is Err ==> after == sim && told->Err_0 == "no node "@ + text::decimal(
                id as nat,
            )
            &&& told is Ok ==> {
                &&& after.links.contains_key(ends) <==> sim.links.contains_key(ends) && ends.a != id
                    && ends.b != id
                &&& after.links.contains_key(ends) ==> after.links[ends] == sim.links[ends]
                &&& !after.has(id)
                &&& forall|other: u8|
                    other != id ==> (#[trigger] after.has(other) <==> sim.has(other))
                &&& laws::agrees(after)
                &&& after.now == sim.now
                &&& after.next_id == sim.next_id
                &&& after.queue.len() == 0
                &&& after.log.len() > 0
                &&& after.log.last() == "removed node "@ + text::decimal(id as nat)
            }
        }),
{
    let after = sim.node_removed(id).0;
    if sim.has(id) {
        laws::lemma_node_removed(sim, id);
        let peers = model::peer_labels(sim.node(id));
        lemma_only_its_own_links_drop(sim, id, peers);
        let cut = sim.unlinked_from(id, peers);
        let gone = SimView { nodes: cut.nodes.remove(cut.place(id)), ..cut };
        laws::lemma_ran(gone, model::MAX_STEPS as nat);
        assert(after.links == cut.links);
        if after.links.contains_key(ends) {
            assert(laws::is_link(after, ends));
        }
    }
}

/// The next message in flight is the one that has waited longest. It is handed
/// to the node it is addressed to, and what that node says is sent on after
/// everything already in flight; nobody else notices. One addressed to nobody
/// is lost.
pub proof fn law_messages_arrive_in_the_order_they_were_sent(sim: SimView, at: int)
    requires
        laws::is_labelled(sim),
        sim.queue.len() > 0,
    ensures
        ({
            let (head, after) = (sim.queue[0], sim.next_delivered());
            let to = head.to@[0];
            let step = sim.nodes[at].1.handled(sim.now, head.from, head.message);
            &&& after.links == sim.links
            &&& after.now == sim.now
            &&& after.log == sim.log
            &&& after.nodes.len() == sim.nodes.len()
            &&& !sim.has(to) ==> after.nodes == sim.nodes && after.queue == sim.queue.skip(1)
            &&& 0 <= at < sim.nodes.len() && sim.nodes[at].0 != to ==> after.nodes[at]
                == sim.nodes[at]
            &&& 0 <= at < sim.nodes.len() && sim.nodes[at].0 == to ==> {
                &&& after.nodes[at] == (to, step.node)
                &&& after.queue.len() == sim.queue.len() - 1 + step.out.len()
                &&& forall|i: int|
                    0 <= i < sim.queue.len() - 1 ==> #[trigger] after.queue[i] == sim.queue[i + 1]
                &&& forall|i: int|
                    0 <= i < step.out.len() ==> {
                        let sent = after.queue[sim.queue.len() - 1 + i];
                        &&& sent.to == (#[trigger] step.out[i]).to
                        &&& sent.message == step.out[i].message
                        &&& sent.from == model::key_of(to)
                    }
            }
        }),
{
    let head = sim.queue[0];
    let to = head.to@[0];
    let rest = SimView { queue: sim.queue.drop_first(), ..sim };
    assert(sim.queue.drop_first() =~= sim.queue.skip(1));
    laws::lemma_keeps_labels(sim, rest);
    if rest.has(to) {
        assert(rest.bears(to, rest.place(to)));
    }
    if 0 <= at < sim.nodes.len() && sim.nodes[at].0 == to {
        assert(rest.bears(to, at));
        laws::lemma_place(rest, to, at);
    }
    if sim.has(to) {
        assert(sim.bears(to, sim.place(to)));
        assert(rest.bears(to, sim.place(to)));
    }
}

/// Gossip runs, one message after another, until nothing is in flight, or a
/// hundred thousand have been delivered, and notes where it had to be stopped.
pub proof fn law_gossip_runs_until_nothing_is_in_flight(sim: SimView, left: nat)
    ensures
        sim.ran().queue.len() == 0,
        sim.queue.len() == 0 ==> sim.ran() == sim,
        sim.ran() == sim.run_for(100_000),
        sim.queue.len() > 0 && left > 0 ==> sim.run_for(left) == sim.next_delivered().run_for(
            (left - 1) as nat,
        ),
        sim.run_for(0).log == sim.log.push("gossip did not settle; stopping"@),
        sim.run_for(0).nodes == sim.nodes,
{
    laws::lemma_ran(sim, model::MAX_STEPS as nat);
}

/// A packet sent from or to nobody is refused, and so is one that nobody can
/// take nearer, each in its own words. A packet that set out is noted with where
/// it went, whether it arrived, and what it cost.
pub proof fn law_a_packet_is_noted(sim: SimView, from: u8, to: u8)
    requires
        laws::agrees(sim),
        laws::is_drained(sim),
    ensures
        ({
            let (after, told) = sim.sent(from, to);
            &&& told is Ok <==> sim.has(from) && sim.has(to) && (from == to || sim.node(
                from,
            ).next_hop(model::key_of(to)) is Some)
            &&& told is Err ==> after == sim && told->Err_0 == (if !sim.has(from) {
                "no node "@ + text::decimal(from as nat)
            } else if !sim.has(to) {
                "no node "@ + text::decimal(to as nat)
            } else {
                text::decimal(from as nat) + " to "@ + text::decimal(to as nat)
                    + ": no route to destination"@
            })
            &&& told matches Ok(delivery) ==> {
                let route = delivery.route;
                let line = "packet "@ + text::decimal(from as nat) + " to "@ + text::decimal(
                    to as nat,
                ) + ": "@ + text::joined(
                    Seq::new(route.len(), |i: int| text::decimal(route[i] as nat)),
                    " \u{2192} "@,
                ) + (if route[route.len() - 1] == to {
                    " (delivered, cost "@
                } else {
                    " (dropped, cost "@
                }) + text::decimal(delivery.cost as nat) + ")"@;
                &&& delivery.delivered == (route[route.len() - 1] == to)
                &&& route[0] == from
                &&& after.log == sim.log.push(line)
                &&& after.nodes == sim.nodes
                &&& after.links == sim.links
                &&& after.queue == sim.queue
                &&& after.now == sim.now
                &&& after.next_id == sim.next_id
            }
        }),
{
    if sim.has(from) && sim.has(to) {
        laws::law_a_packet_goes_over_links(sim, from, to);
        reveal_strlit("");
        reveal_strlit(": ");
        reveal_strlit("no route to destination");
        reveal_strlit(": no route to destination");
        if let Ok(delivery) = sim.sent(from, to).1 {
            let route = delivery.route;
            assert(route.map_values(|id: u8| text::decimal(id as nat)) =~= Seq::new(
                route.len(),
                |i: int| text::decimal(route[i] as nat),
            ));
        } else {
            assert(sim.sent(from, to).1->Err_0 =~= text::decimal(from as nat) + " to "@
                + text::decimal(to as nat) + ": no route to destination"@);
        }
    }
}

/// How a packet fared is told with its route, whether it arrived, and what it
/// cost.
pub proof fn law_a_delivery_is_told_as_it_went(delivery: model::DeliveryView)
    ensures
        model::delivery_fields(delivery) == "\"route\":["@ + text::joined(
            Seq::new(delivery.route.len(), |i: int| text::decimal(delivery.route[i] as nat)),
            ","@,
        ) + "],\"delivered\":"@ + (if delivery.delivered {
            "true"@
        } else {
            "false"@
        }) + ",\"cost\":"@ + text::decimal(delivery.cost as nat),
{
    reveal_strlit("[");
    reveal_strlit("]");
    reveal_strlit("\"route\":");
    reveal_strlit("\"route\":[");
    reveal_strlit(",\"delivered\":");
    reveal_strlit("],\"delivered\":");
    let route = delivery.route;
    let pieces = Seq::new(route.len(), |i: int| text::decimal(route[i] as nat));
    assert(route.map_values(|id: u8| text::decimal(id as nat)) =~= pieces);
    let a = text::joined(pieces, ","@);
    assert("\"route\":"@ + ("["@ + a + "]"@) + ",\"delivered\":"@ =~= "\"route\":["@ + a
        + "],\"delivered\":"@);
}

/// A link is shown with its ends, its cost, and whether it is part of the tree:
/// whether one of its ends sits right below the other.
pub proof fn law_a_link_is_shown_as_it_stands(sim: SimView, ends: Ends, cost: u64, i: int, j: int)
    requires
        laws::is_labelled(sim),
        0 <= i < sim.nodes.len(),
        0 <= j < sim.nodes.len(),
        sim.nodes[i].0 == ends.a,
        sim.nodes[j].0 == ends.b,
    ensures
        ({
            let (near, far) = (sim.nodes[i].1.claim.walk, sim.nodes[j].1.claim.walk);
            let is_tree = near.len() >= 2 && near[near.len() - 2].key@[0] == ends.b || far.len()
                >= 2 && far[far.len() - 2].key@[0] == ends.a;
            sim.link_json((ends, cost)) == "{\"a\":"@ + text::decimal(ends.a as nat) + ",\"b\":"@
                + text::decimal(ends.b as nat) + ",\"cost\":"@ + text::decimal(cost as nat)
                + ",\"tree\":"@ + (if is_tree {
                "true"@
            } else {
                "false"@
            }) + "}"@
        }),
{
    law_a_label_names_whoever_bears_it(sim, ends.a, i);
    law_a_label_names_whoever_bears_it(sim, ends.b, j);
    assert(sim.bears(ends.a, i) && sim.bears(ends.b, j));
}

/// What is shown of a log is its last forty lines, or all of them where there
/// are no more, the newest first.
pub proof fn law_the_newest_lines_are_shown_first(log: Seq<Seq<char>>, at: int)
    ensures
        log.len() <= 40 ==> model::recent(log) == log.reverse(),
        log.len() > 40 ==> model::recent(log).len() == 40,
        0 <= at < model::recent(log).len() ==> model::recent(log)[at] == log[log.len() - 1 - at],
{
    if log.len() <= 40 {
        assert(model::recent(log) =~= log.reverse());
    }
}

/// The whole network is shown with its version, its clock, every node in the
/// order of the labels, every link in the order of the ends, and the newest
/// lines of the log.
pub proof fn law_everything_is_shown(sim: SimView)
    ensures
        ({
            let links = sorted_map::ascending(sim.links);
            let lines = model::recent(sim.log);
            sim.snapshot() == "{\"version\":"@ + text::decimal(sim.version as nat) + ",\"now\":"@
                + text::decimal(sim.now as nat) + ",\"nodes\":["@ + text::joined(
                Seq::new(sim.nodes.len(), |i: int| model::node_json(sim.nodes[i])),
                ","@,
            ) + "],\"links\":["@ + text::joined(
                Seq::new(links.len(), |i: int| sim.link_json(links[i])),
                ","@,
            ) + "],\"log\":["@ + text::joined(
                Seq::new(lines.len(), |i: int| json::quoted(lines[i])),
                ","@,
            ) + "]}"@
        }),
{
    let links = sorted_map::ascending(sim.links);
    let lines = model::recent(sim.log);
    assert(sim.nodes.map_values(|entry: (u8, NodeView)| model::node_json(entry)) =~= Seq::new(
        sim.nodes.len(),
        |i: int| model::node_json(sim.nodes[i]),
    ));
    assert(links.map_values(|entry: (Ends, u64)| sim.link_json(entry)) =~= Seq::new(
        links.len(),
        |i: int| sim.link_json(links[i]),
    ));
    assert(lines.map_values(|line: Seq<char>| json::quoted(line)) =~= Seq::new(
        lines.len(),
        |i: int| json::quoted(lines[i]),
    ));
}

/// Every line noted goes on the end of the log, and counts as one more version.
pub proof fn law_every_note_is_a_new_version(sim: SimView, line: Seq<char>)
    ensures
        ({
            let after = sim.noted(line);
            &&& after.log == sim.log.push(line)
            &&& after.version == (if sim.version < u64::MAX {
                sim.version + 1
            } else {
                0
            })
            &&& after.nodes == sim.nodes
            &&& after.links == sim.links
            &&& after.queue == sim.queue
            &&& after.now == sim.now
            &&& after.next_id == sim.next_id
        }),
{
}

/// Whether a node's own announcement is younger than its refresh, and every
/// claim it holds younger than its expiry.
spec fn is_up_to_date(node: NodeView, now: u64) -> bool {
    &&& node.timing.refresh > 0
    &&& node.timing.expiry > 0
    &&& now - node.announced_at < node.timing.refresh
    &&& forall|key: PublicKey| #[trigger]
        node.infos.contains_key(key) ==> now - node.infos[key].heard_at < node.timing.expiry
}

/// Telling the first so many nodes the time tells each of them once, and nobody
/// else.
proof fn lemma_each_is_told_once(sim: SimView, upto: nat, at: int)
    requires
        laws::is_labelled(sim),
        upto <= sim.nodes.len(),
        0 <= at < sim.nodes.len(),
    ensures
        sim.ticked_upto(upto).nodes[at] == (
            sim.nodes[at].0,
            if at < upto { sim.nodes[at].1.ticked(sim.now).node } else { sim.nodes[at].1 },
        ),
        sim.ticked_upto(upto).now == sim.now,
    decreases upto,
{
    if upto > 0 {
        let fewer = (upto - 1) as nat;
        lemma_each_is_told_once(sim, fewer, at);
        lemma_each_is_told_once(sim, fewer, upto - 1);
        laws::lemma_ticked_upto(sim, fewer);
        let before = sim.ticked_upto(fewer);
        let id = sim.nodes[upto - 1].0;
        laws::lemma_keeps_labels(sim, before);
        assert(before.bears(id, upto - 1));
        laws::lemma_place(before, id, upto - 1);
    }
}

/// When the clock comes to an instant every node is told it, once, before any
/// of the gossip that follows is delivered.
pub proof fn law_everybody_is_told_the_time(sim: SimView, now: u64, at: int)
    requires
        laws::is_labelled(sim),
        0 <= at < sim.nodes.len(),
    ensures
        ({
            let told = SimView { now, ..sim }.ticked_upto(sim.nodes.len());
            &&& sim.stepped_to(now) == told.ran()
            &&& told.nodes[at] == (sim.nodes[at].0, sim.nodes[at].1.ticked(now).node)
            &&& told.now == now
        }),
{
    let later = SimView { now, ..sim };
    laws::lemma_keeps_labels(sim, sim);
    assert(laws::is_labelled(later));
    lemma_each_is_told_once(later, later.nodes.len(), at);
}

/// Whatever a node that is up to date hears, it stays so.
proof fn lemma_hearing_is_up_to_date(sim: SimView, left: nat)
    requires
        laws::is_labelled(sim),
        forall|i: int|
            0 <= i < sim.nodes.len() ==> is_up_to_date((#[trigger] sim.nodes[i]).1, sim.now),
    ensures
        forall|i: int|
            0 <= i < sim.run_for(left).nodes.len() ==> is_up_to_date(
                (#[trigger] sim.run_for(left).nodes[i]).1,
                sim.now,
            ),
    decreases left,
{
    if left > 0 && sim.queue.len() > 0 {
        let next = sim.next_delivered();
        laws::lemma_delivered(sim);
        laws::lemma_keeps_labels(sim, next);
        assert forall|i: int| 0 <= i < next.nodes.len() implies is_up_to_date(
            (#[trigger] next.nodes[i]).1,
            next.now,
        ) by {
            law_messages_arrive_in_the_order_they_were_sent(sim, i);
            assert(is_up_to_date(sim.nodes[i].1, sim.now));
        }
        lemma_hearing_is_up_to_date(next, (left - 1) as nat);
        assert(sim.run_for(left) == next.run_for((left - 1) as nat));
    } else {
        assert(sim.run_for(left).nodes == sim.nodes);
    }
}

/// What a step of the clock leaves everybody with.
proof fn lemma_a_step_is_up_to_date(sim: SimView, now: u64)
    requires
        laws::is_labelled(sim),
        forall|i: int|
            0 <= i < sim.nodes.len() ==> (#[trigger] sim.nodes[i]).1.timing.refresh > 0
                && sim.nodes[i].1.timing.expiry > 0,
    ensures
        forall|i: int|
            0 <= i < sim.stepped_to(now).nodes.len() ==> is_up_to_date(
                (#[trigger] sim.stepped_to(now).nodes[i]).1,
                now,
            ),
        laws::is_labelled(sim.stepped_to(now)),
        sim.stepped_to(now).now == now,
{
    let later = SimView { now, ..sim };
    assert(laws::is_labelled(later));
    let told = later.ticked_upto(later.nodes.len());
    laws::lemma_ticked_upto(later, later.nodes.len());
    laws::lemma_keeps_labels(later, told);
    assert forall|i: int| 0 <= i < told.nodes.len() implies is_up_to_date(
        (#[trigger] told.nodes[i]).1,
        told.now,
    ) by {
        lemma_each_is_told_once(later, later.nodes.len(), i);
        assert(sim.nodes[i].1.timing.refresh > 0);
    }
    lemma_hearing_is_up_to_date(told, model::MAX_STEPS as nat);
    laws::lemma_ran(told, model::MAX_STEPS as nat);
    laws::lemma_keeps_labels(told, told.ran());
}

proof fn lemma_time_passing_is_up_to_date(sim: SimView, now: u64, target: u64)
    requires
        laws::is_labelled(sim),
        now < target,
        forall|i: int|
            0 <= i < sim.nodes.len() ==> (#[trigger] sim.nodes[i]).1.timing.refresh > 0
                && sim.nodes[i].1.timing.expiry > 0,
    ensures
        forall|i: int|
            0 <= i < sim.advanced_from(now, target).nodes.len() ==> is_up_to_date(
                (#[trigger] sim.advanced_from(now, target).nodes[i]).1,
                target,
            ),
    decreases target - now,
{
    let next = model::next_instant(now, target);
    lemma_a_step_is_up_to_date(sim, next);
    let step = sim.stepped_to(next);
    if next < target {
        assert forall|i: int| 0 <= i < step.nodes.len() implies (
        #[trigger] step.nodes[i]).1.timing.refresh > 0 && step.nodes[i].1.timing.expiry > 0 by {
            assert(is_up_to_date(step.nodes[i].1, next));
        }
        lemma_time_passing_is_up_to_date(step, next, target);
    } else {
        assert(step.advanced_from(next, target) == step);
    }
    assert(sim.advanced_from(now, target) == step.advanced_from(next, target));
}

/// Once time has passed, nobody holds a claim as old as the expiry, and nobody's
/// own announcement is as old as the refresh.
pub proof fn law_time_passing_leaves_nothing_stale(
    sim: SimView,
    by: u64,
    clock: Seq<char>,
    at: int,
    key: PublicKey,
)
    requires
        laws::is_labelled(sim),
        by > 0,
        sim.now < u64::MAX,
        forall|i: int|
            0 <= i < sim.nodes.len() ==> (#[trigger] sim.nodes[i]).1.timing.refresh > 0
                && sim.nodes[i].1.timing.expiry > 0,
        0 <= at < sim.advanced(by, clock).nodes.len(),
    ensures
        ({
            let after = sim.advanced(by, clock);
            let node = after.nodes[at].1;
            &&& after.now == if sim.now + by <= u64::MAX { sim.now + by } else { u64::MAX as int }
            &&& after.now - node.announced_at < node.timing.refresh
            &&& node.infos.contains_key(key) ==> after.now - node.infos[key].heard_at
                < node.timing.expiry
        }),
{
    laws::law_the_clock_moves_only_when_asked(sim, 0, 0, 0, by, clock);
    let target = sim.advanced(by, clock).now;
    lemma_time_passing_is_up_to_date(sim, sim.now, target);
    let after = sim.advanced_from(sim.now, target);
    assert(is_up_to_date(after.nodes[at].1, target));
}

/// Time passes a thousand at a time: as far as any number of thousands on the
/// way, and then on from there. A thousand or less passes at once, and no time
/// at all changes nothing.
pub proof fn law_time_passes_a_thousand_at_a_time(sim: SimView, now: u64, mid: u64, target: u64)
    requires
        now <= mid <= target,
        (mid - now) % 1_000 == 0,
    ensures
        sim.advanced_from(now, target) == sim.advanced_from(now, mid).advanced_from(mid, target),
        now < target && target - now <= 1_000 ==> sim.advanced_from(now, target) == sim.stepped_to(
            target,
        ),
        sim.advanced_from(now, now) == sim,
    decreases mid - now,
{
    if now < mid {
        let next = (now + 1_000) as u64;
        assert(model::next_instant(now, target) == next);
        assert(model::next_instant(now, mid) == next);
        law_time_passes_a_thousand_at_a_time(sim.stepped_to(next), next, mid, target);
    }
    if now < target && target - now <= 1_000 {
        assert(model::next_instant(now, target) == target);
        assert(sim.stepped_to(target).advanced_from(target, target) == sim.stepped_to(target));
    }
}

/// What so many nodes know between them is what each of them does, added up.
proof fn lemma_known_adds_up(sim: SimView, upto: nat)
    requires
        upto <= sim.nodes.len(),
    ensures
        sim.known_upto(upto) == sim.nodes.take(upto as int).fold_left(
            0nat,
            |sum: nat, entry: (u8, NodeView)| sum + sorted_map::ascending(entry.1.infos).len(),
        ),
    decreases upto,
{
    let plus = |sum: nat, entry: (u8, NodeView)|
        sum + sorted_map::ascending(entry.1.infos).len();
    let first = sim.nodes.take(upto as int);
    if upto == 0 {
        reveal_with_fuel(Seq::fold_left, 2);
    } else {
        lemma_known_adds_up(sim, (upto - 1) as nat);
        assert(first.drop_last() =~= sim.nodes.take(upto - 1));
        assert(first.fold_left(0nat, plus) == plus(
            first.drop_last().fold_left(0nat, plus),
            first.last(),
        ));
    }
}

/// The clock moving is noted, with how many claims fewer everybody holds between
/// them than before, where there are fewer.
pub proof fn law_the_clock_is_noted(sim: SimView, by: u64, clock: Seq<char>)
    ensures
        ({
            let after = sim.advanced(by, clock);
            let held = sim.nodes.fold_left(
                0nat,
                |sum: nat, entry: (u8, NodeView)| sum + sorted_map::ascending(entry.1.infos).len(),
            );
            let left = after.nodes.fold_left(
                0nat,
                |sum: nat, entry: (u8, NodeView)| sum + sorted_map::ascending(entry.1.infos).len(),
            );
            let held = if held <= u64::MAX { held } else { u64::MAX as nat };
            let left = if left <= u64::MAX { left } else { u64::MAX as nat };
            let at = "clock at "@ + clock + "s"@;
            &&& after.log.len() > 0
            &&& after.log.last() == (if held <= left {
                at
            } else if held == left + 1 {
                at + ", 1 announcement expired"@
            } else {
                at + ", "@ + text::decimal((held - left) as nat) + " announcements expired"@
            })
        }),
{
    let after = sim.advanced(by, clock);
    lemma_known_adds_up(sim, sim.nodes.len());
    lemma_known_adds_up(after, after.nodes.len());
    assert(sim.nodes.take(sim.nodes.len() as int) =~= sim.nodes);
    assert(after.nodes.take(after.nodes.len() as int) =~= after.nodes);
    let target = crate::walk::capped((sim.now + by) as nat);
    let moved = sim.advanced_from(sim.now, target);
    lemma_known_is_the_nodes(moved, after, after.nodes.len());
}

/// How much is known depends on the nodes alone.
proof fn lemma_known_is_the_nodes(a: SimView, b: SimView, upto: nat)
    requires
        a.nodes == b.nodes,
    ensures
        a.known_upto(upto) == b.known_upto(upto),
    decreases upto,
{
    if upto > 0 {
        lemma_known_is_the_nodes(a, b, (upto - 1) as nat);
    }
}

/// The network opens with five nodes, labelled one to five, on a line but for a
/// dear way round from the second to the fourth, and says that it is ready.
pub proof fn law_the_network_opens_on_five_nodes()
    ensures
        ({
            let sim = model::opening();
            &&& sim.links == map![
                Ends { a: 1, b: 2 } => 1u64,
                Ends { a: 2, b: 3 } => 1u64,
                Ends { a: 3, b: 4 } => 1u64,
                Ends { a: 2, b: 4 } => 5u64,
                Ends { a: 4, b: 5 } => 1u64,
            ]
            &&& forall|id: u8| #[trigger] sim.has(id) <==> 1 <= id <= 5
            &&& sim.next_id == 6
            &&& sim.now == 0
            &&& sim.queue.len() == 0
            &&& sim.log == seq!["network ready"@]
        }),
{
    let none = model::vacant();
    assert(laws::agrees(none));
    laws::lemma_node_added(none);
    let one = none.node_added().0;
    laws::lemma_node_added(one);
    let two = one.node_added().0;
    laws::lemma_node_added(two);
    let three = two.node_added().0;
    laws::lemma_node_added(three);
    let four = three.node_added().0;
    laws::lemma_node_added(four);
    let five = four.node_added().0;
    assert forall|id: u8| #[trigger] five.has(id) <==> 1 <= id <= 5 by {
        assert(!none.has(id)) by {
            if none.has(id) {
                assert(none.bears(id, none.place(id)));
            }
        }
        assert(one.has(id) <==> id == 1);
        assert(two.has(id) <==> 1 <= id <= 2);
        assert(three.has(id) <==> 1 <= id <= 3);
        assert(four.has(id) <==> 1 <= id <= 4);
    }
    law_a_new_link_joins_two_nodes(five, 1, 2, 1, 0);
    let first = five.link_added(1, 2, 1).0;
    law_a_new_link_joins_two_nodes(first, 2, 3, 1, 0);
    let second = first.link_added(2, 3, 1).0;
    law_a_new_link_joins_two_nodes(second, 3, 4, 1, 0);
    let third = second.link_added(3, 4, 1).0;
    law_a_new_link_joins_two_nodes(third, 2, 4, 5, 0);
    let fourth = third.link_added(2, 4, 5).0;
    law_a_new_link_joins_two_nodes(fourth, 4, 5, 1, 0);
    let linked = fourth.link_added(4, 5, 1).0;
    let sim = model::opening();
    assert(sim.links =~= map![
        Ends { a: 1, b: 2 } => 1u64,
        Ends { a: 2, b: 3 } => 1u64,
        Ends { a: 3, b: 4 } => 1u64,
        Ends { a: 2, b: 4 } => 5u64,
        Ends { a: 4, b: 5 } => 1u64,
    ]);
    laws::lemma_keeps_labels(linked, sim);
    assert forall|id: u8| #[trigger] sim.has(id) <==> 1 <= id <= 5 by {
        assert(sim.has(id) <==> linked.has(id));
        assert(linked.has(id) <==> fourth.has(id));
        assert(fourth.has(id) <==> third.has(id));
        assert(third.has(id) <==> second.has(id));
        assert(second.has(id) <==> first.has(id));
        assert(first.has(id) <==> five.has(id));
    }
    assert(sim.log =~= seq!["network ready"@]);
}

/// Links sort by their smaller end, and then by the other.
pub proof fn law_links_sort_by_their_ends(x: Ends, y: Ends)
    ensures
        x.rank() < y.rank() <==> x.a < y.a || x.a == y.a && x.b < y.b,
{
}

/// A link coming up or being measured again is told to both its ends, the first
/// named first, and what they say of it is delivered before anything is noted.
pub proof fn law_both_ends_are_told_of_a_link(sim: SimView, a: u8, b: u8, cost: u64, i: int, j: int)
    requires
        laws::agrees(sim),
        a != b,
        0 <= i < sim.nodes.len(),
        0 <= j < sim.nodes.len(),
        sim.nodes[i].0 == a,
        sim.nodes[j].0 == b,
    ensures
        ({
            let x = sim.nodes[i].1.peer_added(sim.now, model::key_of(b), cost);
            let y = sim.nodes[j].1.peer_added(sim.now, model::key_of(a), cost);
            let ends = if a <= b { Ends { a, b } } else { Ends { a: b, b: a } };
            let told = SimView {
                links: sim.links.insert(ends, cost),
                nodes: sim.nodes.update(i, (a, x.node)).update(j, (b, y.node)),
                queue: sim.queue + sent_by(a, x.out) + sent_by(b, y.out),
                ..sim
            };
            &&& sim.link_added(a, b, cost).1 is Ok ==> sim.link_added(a, b, cost).0 == told.ran().noted(
                sim.link_added(a, b, cost).0.log.last(),
            )
            &&& sim.link_repriced(a, b, cost).1 is Ok ==> sim.link_repriced(a, b, cost).0 == told.ran().noted(
                sim.link_repriced(a, b, cost).0.log.last(),
            )
        }),
{
    let x = sim.nodes[i].1.peer_added(sim.now, model::key_of(b), cost);
    let y = sim.nodes[j].1.peer_added(sim.now, model::key_of(a), cost);
    let ends = if a <= b { Ends { a, b } } else { Ends { a: b, b: a } };
    let told = SimView {
        links: sim.links.insert(ends, cost),
        nodes: sim.nodes.update(i, (a, x.node)).update(j, (b, y.node)),
        queue: sim.queue + sent_by(a, x.out) + sent_by(b, y.out),
        ..sim
    };
    let linked = SimView { links: sim.links.insert(ends, cost), ..sim };
    assert(laws::is_labelled(linked));
    let (near, far) = (sim.nodes[i].1, sim.nodes[j].1);
    laws::lemma_keys_differ();
    assert(near.key == model::key_of(a) && far.key == model::key_of(b));
    duties::law_a_link_is_held_at_its_latest_cost(near, sim.now, model::key_of(b), cost);
    duties::law_a_link_is_held_at_its_latest_cost(far, sim.now, model::key_of(a), cost);
    sorted_map::lemma_insert_is_listed(near.peers, model::key_of(b), cost);
    sorted_map::lemma_insert_is_listed(far.peers, model::key_of(a), cost);
    assert(linked.bears(a, i) && linked.bears(b, j));
    lemma_only_one_acts(linked, a, x, i);
    let half = linked.acted(a, x);
    assert(linked.node(a) == sim.nodes[i].1);
    assert(half == linked.end_priced(a, b, cost));
    lemma_only_one_acts(half, b, y, j);
    assert(half.nodes[j].1 == sim.nodes[j].1);
    assert(half.end_priced(b, a, cost) == half.acted(b, y));
    assert(told =~= half.acted(b, y));
    if sim.link_added(a, b, cost).1 is Ok {
        let line = sim.link_added(a, b, cost).0.log.last();
        assert(sim.link_added(a, b, cost).0 =~= told.ran().noted(line));
    }
    if sim.link_repriced(a, b, cost).1 is Ok {
        let line = sim.link_repriced(a, b, cost).0.log.last();
        assert(sim.link_repriced(a, b, cost).0 =~= told.ran().noted(line));
    }
}

/// A link going down is told to both its ends, the first named first, and what
/// they say of it is delivered before anything is noted.
pub proof fn law_both_ends_are_told_a_link_is_gone(sim: SimView, a: u8, b: u8, i: int, j: int)
    requires
        laws::agrees(sim),
        a != b,
        0 <= i < sim.nodes.len(),
        0 <= j < sim.nodes.len(),
        sim.nodes[i].0 == a,
        sim.nodes[j].0 == b,
    ensures
        ({
            let x = sim.nodes[i].1.peer_removed(sim.now, model::key_of(b));
            let y = sim.nodes[j].1.peer_removed(sim.now, model::key_of(a));
            let ends = if a <= b { Ends { a, b } } else { Ends { a: b, b: a } };
            let told = SimView {
                links: sim.links.remove(ends),
                nodes: sim.nodes.update(i, (a, x.node)).update(j, (b, y.node)),
                queue: sim.queue + sent_by(a, x.out) + sent_by(b, y.out),
                ..sim
            };
            sim.link_removed(a, b).1 is Ok ==> sim.link_removed(a, b).0 == told.ran().noted(
                sim.link_removed(a, b).0.log.last(),
            )
        }),
{
    let x = sim.nodes[i].1.peer_removed(sim.now, model::key_of(b));
    let y = sim.nodes[j].1.peer_removed(sim.now, model::key_of(a));
    let ends = if a <= b { Ends { a, b } } else { Ends { a: b, b: a } };
    let told = SimView {
        links: sim.links.remove(ends),
        nodes: sim.nodes.update(i, (a, x.node)).update(j, (b, y.node)),
        queue: sim.queue + sent_by(a, x.out) + sent_by(b, y.out),
        ..sim
    };
    let cut = SimView { links: sim.links.remove(ends), ..sim };
    assert(laws::is_labelled(cut));
    let (near, far) = (sim.nodes[i].1, sim.nodes[j].1);
    duties::law_a_link_torn_down_is_gone(near, sim.now, model::key_of(b));
    duties::law_a_link_torn_down_is_gone(far, sim.now, model::key_of(a));
    sorted_map::lemma_remove_is_listed(near.peers, model::key_of(b));
    sorted_map::lemma_remove_is_listed(far.peers, model::key_of(a));
    assert(near.key == model::key_of(a) && far.key == model::key_of(b));
    assert(cut.bears(a, i) && cut.bears(b, j));
    lemma_only_one_acts(cut, a, x, i);
    let half = cut.acted(a, x);
    assert(cut.node(a) == sim.nodes[i].1);
    assert(half == cut.end_dropped(a, b));
    lemma_only_one_acts(half, b, y, j);
    assert(half.nodes[j].1 == sim.nodes[j].1);
    assert(half.end_dropped(b, a) == half.acted(b, y));
    assert(told =~= half.acted(b, y));
    if sim.link_removed(a, b).1 is Ok {
        let line = sim.link_removed(a, b).0.log.last();
        assert(sim.link_removed(a, b).0 =~= told.ran().noted(line));
    }
}

/// What one node says, in flight: each message to whom it is for, from that
/// node, in the order they were said.
pub open spec fn sent_by(from: u8, out: Seq<EnvelopeView>) -> Seq<InFlightView> {
    Seq::new(
        out.len(),
        |i: int|
            InFlightView { to: out[i].to, from: model::key_of(from), message: out[i].message },
    )
}

/// What one node does changes that node, and adds what it says to what is in
/// flight.
proof fn lemma_only_one_acts(sim: SimView, id: u8, step: Step, at: int)
    requires
        laws::is_labelled(sim),
        sim.bears(id, at),
        step.node.key == sim.nodes[at].1.key,
        sorted_map::is_listed(step.node.peers),
    ensures
        sim.has(id),
        sim.node(id) == sim.nodes[at].1,
        sim.acted(id, step) == (SimView {
            nodes: sim.nodes.update(at, (id, step.node)),
            queue: sim.queue + sent_by(id, step.out),
            ..sim
        }),
        laws::is_labelled(sim.acted(id, step)),
        forall|other: u8, k: int| #[trigger]
            sim.acted(id, step).bears(other, k) <==> sim.bears(other, k),
{
    laws::lemma_place(sim, id, at);
    let after = sim.acted(id, step);
    assert(after.queue =~= sim.queue + sent_by(id, step.out));
    assert forall|x: int, y: int| 0 <= x < y < after.nodes.len() implies (
    #[trigger] after.nodes[x]).0 < (#[trigger] after.nodes[y]).0 by {
        assert(sim.nodes[x].0 < sim.nodes[y].0);
    }
    assert forall|k: int| 0 <= k < after.nodes.len() implies (#[trigger] after.nodes[k]).0
        < after.next_id && after.nodes[k].1.key == model::key_of(after.nodes[k].0)
        && sorted_map::is_listed(after.nodes[k].1.peers) by {
        assert(sim.nodes[k].0 < sim.next_id);
    }
}

/// What a node says on being told the time is sent on after what everybody told
/// before it said.
pub proof fn law_what_is_said_at_a_tick_is_sent(sim: SimView, upto: int)
    requires
        laws::is_labelled(sim),
        0 <= upto < sim.nodes.len(),
    ensures
        sim.ticked_upto(0) == sim,
        sim.ticked_upto((upto + 1) as nat).queue == sim.ticked_upto(upto as nat).queue + sent_by(
            sim.nodes[upto].0,
            sim.nodes[upto].1.ticked(sim.now).out,
        ),
{
    let before = sim.ticked_upto(upto as nat);
    let id = sim.nodes[upto].0;
    lemma_each_is_told_once(sim, upto as nat, upto);
    laws::lemma_ticked_upto(sim, upto as nat);
    laws::lemma_keeps_labels(sim, before);
    assert(sim.bears(id, upto));
    assert(before.bears(id, upto));
    laws::lemma_place(before, id, upto);
    let out = sim.nodes[upto].1.ticked(sim.now).out;
    assert(before.node(id) == sim.nodes[upto].1);
    let after = sim.ticked_upto((upto + 1) as nat);
    assert(after == before.acted(id, before.node(id).ticked(before.now)));
    assert(after.queue =~= before.queue + sent_by(id, out));
}

/// Dropping one end of a link moves nobody.
proof fn lemma_an_end_stays_in_place(sim: SimView, near: u8, far: u8)
    ensures
        sim.end_dropped(near, far).nodes.len() == sim.nodes.len(),
        forall|k: int|
            0 <= k < sim.nodes.len() ==> (#[trigger] sim.end_dropped(near, far).nodes[k]).0
                == sim.nodes[k].0,
{
    if sim.has(near) {
        assert(sim.bears(near, sim.place(near)));
    }
}

/// Dropping links moves nobody.
proof fn lemma_labels_stay_in_place(sim: SimView, id: u8, peers: Seq<u8>)
    ensures
        sim.unlinked_from(id, peers).nodes.len() == sim.nodes.len(),
        forall|k: int|
            0 <= k < sim.nodes.len() ==> (#[trigger] sim.unlinked_from(id, peers).nodes[k]).0
                == sim.nodes[k].0,
    decreases peers.len(),
{
    if peers.len() > 0 {
        lemma_labels_stay_in_place(sim, id, peers.drop_last());
        let before = sim.unlinked_from(id, peers.drop_last());
        let last = peers.last();
        let cut = SimView { links: before.links.remove(model::ordered(id, last)), ..before };
        lemma_an_end_stays_in_place(cut, id, last);
        lemma_an_end_stays_in_place(cut.end_dropped(id, last), last, id);
        assert(sim.unlinked_from(id, peers) == cut.end_dropped(id, last).end_dropped(last, id));
    }
}

/// A node leaves by letting go of its peers one after another, in the order of
/// their keys, and only then goes; what everybody says of it is delivered before
/// anything is noted.
pub proof fn law_a_node_leaves_link_by_link(sim: SimView, id: u8, at: int, peers: Seq<u8>, next: u8)
    requires
        laws::agrees(sim),
        0 <= at < sim.nodes.len(),
        sim.nodes[at].0 == id,
    ensures
        ({
            let held = sorted_map::ascending(sim.nodes[at].1.peers);
            let cut = sim.unlinked_from(id, Seq::new(held.len(), |i: int| held[i].0@[0]));
            &&& sim.unlinked_from(id, Seq::empty()) == sim
            &&& sim.unlinked_from(id, peers.push(next)) == sim.unlinked_from(id, peers).unlinked(
                id,
                next,
            )
            &&& cut.nodes.len() == sim.nodes.len()
            &&& cut.nodes[at].0 == id
            &&& sim.node_removed(id).0 == (SimView { nodes: cut.nodes.remove(at), ..cut }).ran().noted(
                sim.node_removed(id).0.log.last(),
            )
        }),
{
    assert(sim.bears(id, at));
    laws::lemma_place(sim, id, at);
    let held = sorted_map::ascending(sim.nodes[at].1.peers);
    let labels = Seq::new(held.len(), |i: int| held[i].0@[0]);
    assert(model::peer_labels(sim.node(id)) =~= labels);
    assert(peers.push(next).drop_last() =~= peers);
    lemma_labels_stay_in_place(sim, id, labels);
    let cut = sim.unlinked_from(id, labels);
    assert(cut.bears(id, at));
    assert(cut.place(id) == at) by {
        let found = cut.place(id);
        assert(cut.bears(id, found));
        assert(sim.bears(id, found));
        laws::lemma_place(sim, id, found);
    }
}

/// Dropping a link drops it at both ends, the first named first, and sends what
/// they say of it.
pub proof fn law_dropping_a_link_tells_both_ends(sim: SimView, a: u8, b: u8, i: int, j: int)
    requires
        laws::is_labelled(sim),
        a != b,
        0 <= i < sim.nodes.len(),
        0 <= j < sim.nodes.len(),
        sim.nodes[i].0 == a,
        sim.nodes[j].0 == b,
    ensures
        ({
            let x = sim.nodes[i].1.peer_removed(sim.now, model::key_of(b));
            let y = sim.nodes[j].1.peer_removed(sim.now, model::key_of(a));
            let ends = if a <= b { Ends { a, b } } else { Ends { a: b, b: a } };
            sim.unlinked(a, b) == (SimView {
                links: sim.links.remove(ends),
                nodes: sim.nodes.update(i, (a, x.node)).update(j, (b, y.node)),
                queue: sim.queue + sent_by(a, x.out) + sent_by(b, y.out),
                ..sim
            })
        }),
{
    let x = sim.nodes[i].1.peer_removed(sim.now, model::key_of(b));
    let y = sim.nodes[j].1.peer_removed(sim.now, model::key_of(a));
    let ends = if a <= b { Ends { a, b } } else { Ends { a: b, b: a } };
    let cut = SimView { links: sim.links.remove(ends), ..sim };
    assert(laws::is_labelled(cut));
    let (near, far) = (sim.nodes[i].1, sim.nodes[j].1);
    duties::law_a_link_torn_down_is_gone(near, sim.now, model::key_of(b));
    duties::law_a_link_torn_down_is_gone(far, sim.now, model::key_of(a));
    sorted_map::lemma_remove_is_listed(near.peers, model::key_of(b));
    sorted_map::lemma_remove_is_listed(far.peers, model::key_of(a));
    assert(near.key == model::key_of(a) && far.key == model::key_of(b));
    assert(cut.bears(a, i) && cut.bears(b, j));
    lemma_only_one_acts(cut, a, x, i);
    let half = cut.acted(a, x);
    assert(half == cut.end_dropped(a, b));
    lemma_only_one_acts(half, b, y, j);
    assert(half.nodes[j].1 == sim.nodes[j].1);
    assert(half.end_dropped(b, a) == half.acted(b, y));
}

} // verus!
