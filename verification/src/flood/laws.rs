//! What holds of gossip and forwarding as a whole.

use vstd::prelude::*;
use crate::flood::claim;
use crate::flood::claim::{Claim, Hop};
use crate::flood::message::MessageView;
use crate::flood::model::{InfoView, NodeView};
use crate::flood::node::Info;
use crate::key::PublicKey;
use crate::sorted_map;
use crate::sorted_map::Ranked;
use crate::walk;

verus! {

/// A packet is only ever handed to a peer strictly closer to where it is going,
/// and of those to the cheapest, the smallest key deciding between equals.
pub proof fn law_next_hop_is_the_cheapest_of_the_closer(
    node: NodeView,
    to: PublicKey,
    peer: PublicKey,
)
    requires
        node.next_hop(to) == Some(peer),
    ensures
        node.infos.contains_key(to),
        node.is_next_hop(peer, node.infos[to].claim.walk),
        claim::separation(node.infos[peer].claim.walk, node.infos[to].claim.walk)
            < claim::separation(node.claim.walk, node.infos[to].claim.walk),
{
}

/// Whether each node on a route hands a packet for `to` to the next, holding
/// `dst` as where `to` sits and that next node's position as it is.
pub open spec fn is_route(route: Seq<NodeView>, to: PublicKey, dst: Seq<Hop>) -> bool {
    forall|i: int| 0 <= i < route.len() - 1 ==> #[trigger] hands_on(route, i, to, dst)
}

/// Whether one node on a route hands a packet to the next.
pub open spec fn hands_on(route: Seq<NodeView>, at: int, to: PublicKey, dst: Seq<Hop>) -> bool {
    &&& route[at].next_hop(to) == Some(route[at + 1].key)
    &&& route[at].infos[to].claim.walk == dst
    &&& route[at].infos[route[at + 1].key].claim.walk == route[at + 1].claim.walk
}

/// Distance to the destination falls at every step of a route, so no packet
/// comes back to a position it has been at.
pub proof fn law_forwarding_never_comes_back(
    route: Seq<NodeView>,
    to: PublicKey,
    dst: Seq<Hop>,
    i: int,
    j: int,
)
    requires
        is_route(route, to, dst),
        0 <= i < j < route.len(),
    ensures
        claim::separation(route[j].claim.walk, dst) + (j - i) <= claim::separation(
            route[i].claim.walk,
            dst,
        ),
        route[i].claim.walk != route[j].claim.walk,
    decreases j - i,
{
    let before = j - 1;
    assert(hands_on(route, before, to, dst));
    if i < before {
        law_forwarding_never_comes_back(route, to, dst, i, before);
    }
}

/// A packet takes no more steps than its first node is far from where it is
/// going.
pub proof fn law_forwarding_ends(route: Seq<NodeView>, to: PublicKey, dst: Seq<Hop>)
    requires
        is_route(route, to, dst),
        route.len() > 0,
    ensures
        route.len() - 1 <= claim::separation(route[0].claim.walk, dst),
{
    if route.len() > 1 {
        law_forwarding_never_comes_back(route, to, dst, 0, route.len() - 1);
    }
}

/// Whether a node holds its parent's position as it is.
pub open spec fn knows_its_parent(node: NodeView) -> bool {
    claim::parent(node.claim.walk) matches Some(parent) ==> {
        &&& node.peers.contains_key(parent)
        &&& node.infos.contains_key(parent)
        &&& node.infos[parent].claim.walk == node.claim.walk.drop_last()
    }
}

/// Whether the walk down to `dst` runs through a node and on below it.
pub open spec fn lies_below(node: NodeView, dst: Seq<Hop>) -> bool {
    &&& node.claim.walk.len() < dst.len()
    &&& claim::keys(dst.take(node.claim.walk.len() as int)) == claim::keys(node.claim.walk)
}

/// Whether a node holds the position of its child on the way down to `dst`,
/// where there is one.
pub open spec fn knows_the_way_down(node: NodeView, dst: Seq<Hop>) -> bool {
    lies_below(node, dst) ==> {
        let child = dst[node.claim.walk.len() as int].key;
        &&& node.peers.contains_key(child)
        &&& node.infos.contains_key(child)
        &&& node.infos[child].claim.walk == dst.take(node.claim.walk.len() as int + 1)
    }
}

/// A node's child on the way down to `dst` is closer to it by exactly what the
/// link between them costs.
pub proof fn law_the_child_towards_it_is_closer_by_the_link(node: NodeView, dst: Seq<Hop>)
    requires
        node.wf(),
        claim::shaped(dst),
        lies_below(node, dst),
        knows_the_way_down(node, dst),
        walk::toll_between(
            claim::keys(node.claim.walk),
            claim::prices(node.claim.walk),
            claim::keys(dst),
            claim::prices(dst),
        ) <= u64::MAX,
    ensures
        node.is_closer(dst[node.claim.walk.len() as int].key, dst),
        claim::separation(
            node.infos[dst[node.claim.walk.len() as int].key].claim.walk,
            dst,
        ) + dst[node.claim.walk.len() as int].cost == claim::separation(node.claim.walk, dst),
{
    let depth = node.claim.walk.len() as int;
    let child = dst[depth].key;
    let down = dst.take(depth + 1);
    let (keys, prices) = (claim::keys(dst), claim::prices(dst));
    let (here, here_prices) = (claim::keys(node.claim.walk), claim::prices(node.claim.walk));
    assert forall|i: int| 0 <= i < depth implies here[i] == keys[i] by {
        assert(claim::keys(dst.take(depth))[i] == here[i]);
    }
    walk::lemma_shared(here, keys);
    assert(walk::forks_after(here, keys, depth as nat));
    walk::lemma_shared(claim::keys(down), keys);
    assert(walk::forks_after(claim::keys(down), keys, (depth + 1) as nat));
    assert(here_prices.skip(depth) =~= Seq::empty());
    assert(claim::prices(down).skip(depth + 1) =~= Seq::empty());
    let left = prices.skip(depth);
    walk::lemma_total_in_parts(left.take(1), left.skip(1));
    assert(left =~= left.take(1) + left.skip(1));
    assert(left.skip(1) =~= prices.skip(depth + 1));
    assert(left.take(1).drop_last() =~= Seq::empty());
    assert(left.take(1).last() == dst[depth].cost);
    reveal_with_fuel(walk::total, 2);
}

/// Where the way to `dst` does not lead down from a node, its parent is closer
/// by exactly what the link between them costs.
pub proof fn law_the_parent_is_closer_by_the_link(node: NodeView, dst: Seq<Hop>)
    requires
        node.wf(),
        claim::shaped(dst),
        dst[0].key == node.claim.walk[0].key,
        claim::keys(dst) != claim::keys(node.claim.walk),
        !lies_below(node, dst),
        knows_its_parent(node),
        walk::toll_between(
            claim::keys(node.claim.walk),
            claim::prices(node.claim.walk),
            claim::keys(dst),
            claim::prices(dst),
        ) <= u64::MAX,
    ensures
        claim::parent(node.claim.walk) matches Some(parent) && node.is_closer(parent, dst)
            && claim::separation(node.infos[parent].claim.walk, dst)
            + node.claim.walk.last().cost == claim::separation(node.claim.walk, dst),
{
    let depth = node.claim.walk.len() as int;
    let (keys, prices) = (claim::keys(dst), claim::prices(dst));
    let (here, here_prices) = (claim::keys(node.claim.walk), claim::prices(node.claim.walk));
    walk::lemma_shared(here, keys);
    let n = walk::shared(here, keys);
    assert(n >= 1) by {
        if n == 0 {
            assert(here[0] == keys[0]);
        }
    }
    assert(n < depth) by {
        if n == depth {
            if dst.len() == depth {
                assert(keys =~= here);
            } else {
                assert(claim::keys(dst.take(depth)) =~= here);
            }
        }
    }
    let up = node.claim.walk.drop_last();
    let parent = claim::parent(node.claim.walk)->0;
    walk::lemma_shared(claim::keys(up), keys);
    assert(walk::forks_after(claim::keys(up), keys, n));
    let left = here_prices.skip(n as int);
    assert(left.drop_last() =~= claim::prices(up).skip(n as int));
    assert(left.last() == node.claim.walk.last().cost);
}

/// The cheapest of the closer peers among the first `upto`.
proof fn lemma_cheapest_so_far(node: NodeView, dst: Seq<Hop>, upto: int) -> (best:
    Option<PublicKey>)
    requires
        sorted_map::is_listed(node.peers),
        0 <= upto <= sorted_map::ascending(node.peers).len(),
    ensures
        match best {
            None => forall|j: int|
                0 <= j < upto ==> !node.is_closer(
                    (#[trigger] sorted_map::ascending(node.peers)[j]).0,
                    dst,
                ),
            Some(peer) => node.is_closer(peer, dst) && forall|j: int|
                0 <= j < upto && node.is_closer(
                    (#[trigger] sorted_map::ascending(node.peers)[j]).0,
                    dst,
                ) ==> {
                    let other = sorted_map::ascending(node.peers)[j].0;
                    ||| node.price_through(peer, dst) < node.price_through(other, dst)
                    ||| node.price_through(peer, dst) == node.price_through(other, dst)
                        && peer.rank() <= other.rank()
                },
        },
    decreases upto,
{
    if upto == 0 {
        None
    } else {
        let listed = sorted_map::ascending(node.peers);
        let best = lemma_cheapest_so_far(node, dst, upto - 1);
        let peer = listed[upto - 1].0;
        if !node.is_closer(peer, dst) {
            best
        } else {
            match best {
                None => Some(peer),
                Some(held) => {
                    let (a, b) = (node.price_through(held, dst), node.price_through(peer, dst));
                    if a < b || a == b && held.rank() <= peer.rank() {
                        best
                    } else {
                        Some(peer)
                    }
                },
            }
        }
    }
}

/// Wherever some peer is closer, there is one to hand a packet to.
pub proof fn law_a_closer_peer_is_a_next_hop(node: NodeView, to: PublicKey, closer: PublicKey)
    requires
        sorted_map::is_listed(node.peers),
        node.infos.contains_key(to),
        node.is_closer(closer, node.infos[to].claim.walk),
    ensures
        node.next_hop(to) is Some,
{
    let dst = node.infos[to].claim.walk;
    let listed = sorted_map::ascending(node.peers);
    let best = lemma_cheapest_so_far(node, dst, listed.len() as int);
    let at = sorted_map::lemma_mapped_key_is_listed(listed, closer);
    assert(node.is_closer(listed[at].0, dst));
    let peer = best->0;
    assert forall|other: PublicKey| #[trigger] node.is_closer(other, dst) implies {
        ||| node.price_through(peer, dst) < node.price_through(other, dst)
        ||| node.price_through(peer, dst) == node.price_through(other, dst) && peer.rank()
            <= other.rank()
    } by {
        let j = sorted_map::lemma_mapped_key_is_listed(listed, other);
        assert(node.is_closer(listed[j].0, dst));
    }
    assert(node.is_next_hop(peer, dst));
}

/// On a settled tree every node but the destination has somewhere to hand a
/// packet: to its parent, or to its child on the way down.
///
/// The way there must not be priced past what can be counted.
pub proof fn law_a_settled_tree_always_has_a_next_hop(node: NodeView, to: PublicKey)
    requires
        node.wf(),
        sorted_map::is_listed(node.peers),
        node.infos.contains_key(to),
        node.infos[to].claim.walk[0].key == node.claim.walk[0].key,
        knows_its_parent(node),
        knows_the_way_down(node, node.infos[to].claim.walk),
        walk::toll_between(
            claim::keys(node.claim.walk),
            claim::prices(node.claim.walk),
            claim::keys(node.infos[to].claim.walk),
            claim::prices(node.infos[to].claim.walk),
        ) <= u64::MAX,
    ensures
        node.next_hop(to) is Some,
{
    let dst = node.infos[to].claim.walk;
    assert(claim::keys(dst) != claim::keys(node.claim.walk)) by {
        assert(claim::keys(dst).last() == to);
        assert(claim::keys(node.claim.walk).last() == node.key);
    }
    if lies_below(node, dst) {
        law_the_child_towards_it_is_closer_by_the_link(node, dst);
        law_a_closer_peer_is_a_next_hop(node, to, dst[node.claim.walk.len() as int].key);
    } else {
        law_the_parent_is_closer_by_the_link(node, dst);
        law_a_closer_peer_is_a_next_hop(node, to, claim::parent(node.claim.walk)->0);
    }
}

/// Whether a node's view of the tree is consistent with the rest of the
/// network: its parent and its child towards `dst` sit where it believes they
/// do, it holds `dst` as where `to` sits, and it links to nobody outside.
pub open spec fn is_settled_towards(
    network: Map<PublicKey, NodeView>,
    at: PublicKey,
    to: PublicKey,
    dst: Seq<Hop>,
) -> bool {
    let node = network[at];
    &&& node.key == at
    &&& node.wf()
    &&& sorted_map::is_listed(node.peers)
    &&& node.claim.walk[0].key == dst[0].key
    &&& at != to ==> node.infos.contains_key(to) && node.infos[to].claim.walk == dst
    &&& knows_its_parent(node)
    &&& knows_the_way_down(node, dst)
    &&& walk::toll_between(
        claim::keys(node.claim.walk),
        claim::prices(node.claim.walk),
        claim::keys(dst),
        claim::prices(dst),
    ) <= u64::MAX
    &&& forall|peer: PublicKey| #[trigger]
        node.peers.contains_key(peer) && node.infos.contains_key(peer) ==> network.contains_key(
            peer,
        ) && node.infos[peer].claim.walk == network[peer].claim.walk
}

/// On a settled tree every packet is delivered: handed on from node to node, it
/// comes to the one it is addressed to.
pub proof fn law_a_settled_tree_delivers(
    network: Map<PublicKey, NodeView>,
    from: PublicKey,
    to: PublicKey,
    dst: Seq<Hop>,
) -> (route: Seq<NodeView>)
    requires
        claim::shaped(dst),
        claim::author(dst) == to,
        network.contains_key(from),
        forall|at: PublicKey| #[trigger]
            network.contains_key(at) ==> is_settled_towards(network, at, to, dst),
    ensures
        route.len() > 0,
        route[0] == network[from],
        is_route(route, to, dst),
        route.last().key == to,
        forall|i: int|
            0 <= i < route.len() ==> network.contains_key((#[trigger] route[i]).key) && route[i]
                == network[route[i].key],
    decreases claim::separation(network[from].claim.walk, dst),
{
    let node = network[from];
    assert(is_settled_towards(network, from, to, dst));
    if from == to {
        seq![node]
    } else {
        law_a_settled_tree_always_has_a_next_hop(node, to);
        let peer = node.next_hop(to)->0;
        law_next_hop_is_the_cheapest_of_the_closer(node, to, peer);
        assert(node.is_closer(peer, dst));
        assert(is_settled_towards(network, peer, to, dst));
        let rest = law_a_settled_tree_delivers(network, peer, to, dst);
        let route = seq![node] + rest;
        assert forall|i: int| 0 <= i < route.len() - 1 implies #[trigger] hands_on(
            route,
            i,
            to,
            dst,
        ) by {
            assert(route[i + 1] == rest[i]);
            if i > 0 {
                assert(route[i] == rest[i - 1]);
                assert(hands_on(rest, i - 1, to, dst));
            }
        }
        assert forall|i: int| 0 <= i < route.len() implies network.contains_key(
            (#[trigger] route[i]).key,
        ) && route[i] == network[route[i].key] by {
            if i > 0 {
                assert(route[i] == rest[i - 1]);
            }
        }
        route
    }
}

/// The most preferred of the offers below the first `upto` peers and rooting
/// oneself.
proof fn lemma_best_so_far(node: NodeView, upto: int) -> (best: Seq<Hop>)
    requires
        sorted_map::is_listed(node.peers),
        0 <= upto <= sorted_map::ascending(node.peers).len(),
    ensures
        node.on_offer(best),
        best.len() > 0,
        best == claim::rooted(node.key) || claim::preferred(best, claim::rooted(node.key)),
        forall|j: int|
            0 <= j < upto ==> (node.candidate(
                (#[trigger] sorted_map::ascending(node.peers)[j]).0,
            ) matches Some(other) ==> other == best || claim::preferred(best, other)),
    decreases upto,
{
    let alone = claim::rooted(node.key);
    if upto == 0 {
        alone
    } else {
        let listed = sorted_map::ascending(node.peers);
        let held = lemma_best_so_far(node, upto - 1);
        match node.candidate(listed[upto - 1].0) {
            None => held,
            Some(next) => {
                claim::law_preference_never_ties(next, held);
                if claim::preferred(next, held) {
                    if held != alone {
                        claim::law_preference_is_transitive(next, held, alone);
                    }
                    assert forall|j: int| 0 <= j < upto implies (node.candidate(
                        (#[trigger] listed[j]).0,
                    ) matches Some(other) ==> other == next || claim::preferred(next, other)) by {
                        if let Some(other) = node.candidate(listed[j].0) {
                            if other != next && other != held {
                                claim::law_preference_is_transitive(next, held, other);
                            }
                        }
                    }
                    next
                } else {
                    held
                }
            },
        }
    }
}

/// A node always has a most preferred position.
pub proof fn law_some_position_is_best(node: NodeView)
    requires
        sorted_map::is_listed(node.peers),
    ensures
        node.is_best_position(node.best_position()),
{
    let listed = sorted_map::ascending(node.peers);
    let best = lemma_best_so_far(node, listed.len() as int);
    assert forall|other: Seq<Hop>| #[trigger] node.on_offer(other) implies other == best
        || claim::preferred(best, other) by {
        if other != claim::rooted(node.key) {
            let peer = choose|peer: PublicKey| #[trigger] node.candidate(peer) == Some(other);
            let j = sorted_map::lemma_mapped_key_is_listed(listed, peer);
            assert(node.candidate(listed[j].0) == Some(other));
        }
    }
    assert(node.is_best_position(best));
}

/// A node that has reconsidered sits in the most preferred position available
/// to it, and reconsidering again changes nothing and says nothing.
pub proof fn law_reparenting_twice_says_nothing(node: NodeView, now: u64, later: u64)
    requires
        sorted_map::is_listed(node.peers),
    ensures
        node.reparented(now).node.claim.walk == node.best_position(),
        node.reparented(now).node.is_best_position(node.reparented(now).node.claim.walk),
        node.reparented(now).node.reparented(later) == node.reparented(now).node.still(),
{
    let after = node.reparented(now).node;
    law_some_position_is_best(node);
    let best = node.best_position();
    assert forall|peer: PublicKey| #[trigger] after.candidate(peer) == node.candidate(peer) by {}
    assert forall|position: Seq<Hop>| #[trigger]
        after.on_offer(position) <==> node.on_offer(position) by {
        if after.on_offer(position) && position != claim::rooted(node.key) {
            let peer = choose|peer: PublicKey| #[trigger] after.candidate(peer) == Some(position);
            assert(node.candidate(peer) == Some(position));
        }
        if node.on_offer(position) && position != claim::rooted(node.key) {
            let peer = choose|peer: PublicKey| #[trigger] node.candidate(peer) == Some(position);
            assert(after.candidate(peer) == Some(position));
        }
    }
    assert(after.is_best_position(best));
    after.lemma_best_position_is_unique(best, after.best_position());
}

/// After a tick a node holds exactly those claims that were still fresh, and
/// its own announcement is fresh too.
pub proof fn law_a_tick_keeps_only_what_is_fresh(node: NodeView, now: u64)
    ensures
        node.ticked(now).node.infos == sorted_map::fresh_part::<PublicKey, Info>(
            node.infos,
            now,
            node.timing.expiry,
        ),
        forall|key: PublicKey| #[trigger]
            node.ticked(now).node.infos.contains_key(key) ==> sorted_map::is_fresh(
                node.ticked(now).node.infos[key].heard_at,
                now,
                node.timing.expiry,
            ),
        sorted_map::is_fresh(node.ticked(now).node.announced_at, now, node.timing.refresh)
            || node.ticked(now).node.announced_at == now,
{
}

/// A node's stamp never goes back whatever happens to it, and climbs whenever
/// the node moves or reissues, until it can climb no further.
pub proof fn law_stamps_only_climb(
    node: NodeView,
    now: u64,
    peer: PublicKey,
    cost: u64,
    message: MessageView,
)
    ensures
        node.ticked(now).node.claim.seq >= node.claim.seq,
        node.peer_added(now, peer, cost).node.claim.seq >= node.claim.seq,
        node.peer_removed(now, peer).node.claim.seq >= node.claim.seq,
        node.handled(now, peer, message).node.claim.seq >= node.claim.seq,
        node.claim.seq < u64::MAX && node.ticked(now).node.claim != node.claim ==> node.ticked(
            now,
        ).node.claim.seq > node.claim.seq,
        node.claim.seq < u64::MAX && node.peer_added(now, peer, cost).node.claim != node.claim
            ==> node.peer_added(now, peer, cost).node.claim.seq > node.claim.seq,
        node.claim.seq < u64::MAX && node.peer_removed(now, peer).node.claim != node.claim
            ==> node.peer_removed(now, peer).node.claim.seq > node.claim.seq,
        node.claim.seq < u64::MAX && node.handled(now, peer, message).node.claim != node.claim
            ==> node.handled(now, peer, message).node.claim.seq > node.claim.seq,
{
}

/// Only news travels: a claim that is passed on strictly advances what its
/// receiver holds of its author, so gossip comes to rest.
pub proof fn law_only_news_travels(node: NodeView, now: u64, from: PublicKey, claim: Claim)
    requires
        node.handled(now, from, MessageView::Announce(claim)).out.len() > 0,
    ensures
        ({
            let author = claim::author(claim.walk);
            let after = node.handled(now, from, MessageView::Announce(claim)).node;
            &&& author != node.key
            &&& after.infos == node.infos.insert(author, InfoView { claim, heard_at: now })
            &&& node.infos.contains_key(author) ==> claim::supersedes(
                claim,
                node.infos[author].claim,
            )
        }),
{
}

/// A node passes a claim on as it heard it, and adds nothing but what it says of
/// itself.
pub proof fn law_gossip_is_passed_on_as_it_was_heard(
    node: NodeView,
    now: u64,
    from: PublicKey,
    claim: Claim,
    at: int,
)
    requires
        node.wf(),
        sorted_map::is_listed(node.peers),
        claim::shaped(claim.walk),
        0 <= at < node.handled(now, from, MessageView::Announce(claim)).out.len(),
    ensures
        node.handled(now, from, MessageView::Announce(claim)).out[at].message
            matches MessageView::Announce(said) && (said == claim || claim::author(said.walk)
            == node.key),
{
    let kept = node.keeping(now, claim);
    law_some_position_is_best(kept);
    let best = kept.best_position();
    assert(claim::author(best) == node.key) by {
        if best != claim::rooted(node.key) {
            let peer = choose|peer: PublicKey| #[trigger] kept.candidate(peer) == Some(best);
            assert(kept.candidate(peer) == Some(best));
        }
    }
    let passed = node.gossiped(MessageView::Announce(claim), Some(from));
    let moved = kept.reparented(now);
    let out = node.handled(now, from, MessageView::Announce(claim)).out;
    if at < passed.len() {
        assert(out[at] == passed[at]);
    } else {
        assert(out[at] == moved.out[at - passed.len()]);
    }
}

/// What a node holds of `author`, where it holds anything.
pub open spec fn held(node: NodeView, author: PublicKey) -> Option<Claim> {
    if node.infos.contains_key(author) {
        Some(node.infos[author].claim)
    } else {
        None
    }
}

/// Hearing a claim from a peer leaves a node holding the later of it and what
/// it held, of the claim's author and of nobody else.
pub proof fn law_hearing_is_a_join(node: NodeView, now: u64, from: PublicKey, claim: Claim)
    requires
        node.peers.contains_key(from),
        claim::author(claim.walk) != node.key,
    ensures
        ({
            let author = claim::author(claim.walk);
            let after = node.handled(now, from, MessageView::Announce(claim)).node;
            &&& held(after, author) == Some(
                match held(node, author) {
                    Some(was) => claim::later(claim, was),
                    None => claim,
                },
            )
            &&& forall|other: PublicKey|
                other != author ==> #[trigger] held(after, other) == held(node, other)
        }),
{
}

/// The order in which claims arrive does not matter: two nodes that have heard
/// the same ones agree on every author, so gossip does not diverge.
pub proof fn law_gossip_does_not_diverge(
    node: NodeView,
    now: u64,
    from: PublicKey,
    a: Claim,
    b: Claim,
    author: PublicKey,
)
    requires
        node.peers.contains_key(from),
    ensures
        ({
            let (hear_a, hear_b) = (MessageView::Announce(a), MessageView::Announce(b));
            let one = node.handled(now, from, hear_a).node.handled(now, from, hear_b).node;
            let other = node.handled(now, from, hear_b).node.handled(now, from, hear_a).node;
            held(one, author) == held(other, author)
        }),
{
    let (hear_a, hear_b) = (MessageView::Announce(a), MessageView::Announce(b));
    let (after_a, after_b) = (
        node.handled(now, from, hear_a).node,
        node.handled(now, from, hear_b).node,
    );
    let (x, y) = (claim::author(a.walk), claim::author(b.walk));
    if x != node.key {
        law_hearing_is_a_join(node, now, from, a);
        law_hearing_is_a_join(after_b, now, from, a);
    }
    if y != node.key {
        law_hearing_is_a_join(node, now, from, b);
        law_hearing_is_a_join(after_a, now, from, b);
    }
    claim::law_last_word_is_a_join(a, b, b);
    if let Some(was) = held(node, author) {
        claim::law_last_word_is_a_join(a, b, was);
        claim::law_last_word_is_a_join(b, a, was);
    }
}

/// What is held of any author only ever advances while messages arrive.
pub proof fn law_claims_only_advance(
    node: NodeView,
    now: u64,
    from: PublicKey,
    message: MessageView,
    author: PublicKey,
)
    requires
        node.infos.contains_key(author),
    ensures
        ({
            let after = node.handled(now, from, message).node;
            &&& after.infos.contains_key(author)
            &&& after.infos[author].claim == node.infos[author].claim || claim::supersedes(
                after.infos[author].claim,
                node.infos[author].claim,
            )
        }),
{
}

/// A repeat of a claim already held changes nothing, so an echo cannot keep a
/// dead node alive.
pub proof fn law_an_echo_is_not_news(
    node: NodeView,
    now: u64,
    from: PublicKey,
    author: PublicKey,
)
    requires
        node.infos.contains_key(author),
        claim::author(node.infos[author].claim.walk) == author,
    ensures
        node.handled(now, from, MessageView::Announce(node.infos[author].claim)) == node.still(),
{
    claim::law_supersedes_never_ties(node.infos[author].claim, node.infos[author].claim);
}

/// A node cannot be told where it sits itself.
pub proof fn law_nobody_else_says_where_a_node_sits(
    node: NodeView,
    now: u64,
    from: PublicKey,
    claim: Claim,
)
    requires
        claim::author(claim.walk) == node.key,
    ensures
        node.handled(now, from, MessageView::Announce(claim)) == node.still(),
{
}

/// Once a node has been forgotten, whatever is next heard of it is news: one
/// that comes back having started its sequence numbers over is not mistaken for
/// a stale copy of itself.
pub proof fn law_a_forgotten_node_starts_over(
    node: NodeView,
    now: u64,
    from: PublicKey,
    claim: Claim,
)
    requires
        node.peers.contains_key(from),
        claim::author(claim.walk) != node.key,
        node.infos.contains_key(claim::author(claim.walk)) ==> !sorted_map::is_fresh(
            node.infos[claim::author(claim.walk)].heard_at,
            now,
            node.timing.expiry,
        ),
    ensures
        ({
            let after = node.ticked(now).node.handled(now, from, MessageView::Announce(claim)).node;
            &&& held(node.ticked(now).node, claim::author(claim.walk)) is None
            &&& held(after, claim::author(claim.walk)) == Some(claim)
        }),
{
}

/// A stranger changes nothing.
pub proof fn law_strangers_are_ignored(
    node: NodeView,
    now: u64,
    from: PublicKey,
    message: MessageView,
)
    requires
        !node.peers.contains_key(from),
    ensures
        node.handled(now, from, message) == node.still(),
{
}

/// Whether a node has settled into a network: it sits in the most preferred
/// position on offer, links run both ways, and it holds its peers' positions as
/// they are.
pub open spec fn has_settled_into(network: Map<PublicKey, NodeView>, at: PublicKey) -> bool {
    let node = network[at];
    &&& node.key == at
    &&& node.wf()
    &&& sorted_map::is_listed(node.peers)
    &&& node.is_best_position(node.claim.walk)
    &&& forall|peer: PublicKey| #[trigger]
        node.peers.contains_key(peer) ==> network.contains_key(peer)
            && network[peer].peers.contains_key(at) && node.infos.contains_key(peer)
            && node.infos[peer].claim.walk == network[peer].claim.walk
}

/// Whether every node of a network has settled into it.
pub open spec fn is_settled(network: Map<PublicKey, NodeView>) -> bool {
    forall|at: PublicKey| #[trigger] network.contains_key(at) ==> has_settled_into(network, at)
}

/// Where a settled node does not root itself it sits below a peer, just below
/// where that peer sits.
proof fn lemma_settled_below_a_peer(network: Map<PublicKey, NodeView>, at: PublicKey) -> (above:
    PublicKey)
    requires
        is_settled(network),
        network.contains_key(at),
        network[at].claim.walk.len() > 1,
    ensures
        network[at].peers.contains_key(above),
        network.contains_key(above),
        network[above].claim.walk == network[at].claim.walk.drop_last(),
        claim::parent(network[at].claim.walk) == Some(above),
        network[at].infos.contains_key(above),
        network[at].infos[above].claim.walk == network[at].claim.walk.drop_last(),
{
    assert(has_settled_into(network, at));
    let node = network[at];
    let walk = node.claim.walk;
    assert(walk != claim::rooted(at));
    let above = choose|peer: PublicKey| #[trigger] node.candidate(peer) == Some(walk);
    assert(node.peers.contains_key(above));
    assert(walk.drop_last() =~= node.infos[above].claim.walk);
    assert(has_settled_into(network, above));
    above
}

/// In a settled network a walk is made of the walks of the nodes along it.
pub proof fn law_a_settled_walk_is_made_of_walks(
    network: Map<PublicKey, NodeView>,
    at: PublicKey,
    i: int,
)
    requires
        is_settled(network),
        network.contains_key(at),
        0 <= i < network[at].claim.walk.len(),
    ensures
        ({
            let key = network[at].claim.walk[i].key;
            &&& network.contains_key(key)
            &&& network[key].claim.walk == network[at].claim.walk.take(i + 1)
        }),
    decreases network[at].claim.walk.len(),
{
    assert(has_settled_into(network, at));
    let walk = network[at].claim.walk;
    if i == walk.len() - 1 {
        assert(walk.take(i + 1) =~= walk);
    } else {
        let above = lemma_settled_below_a_peer(network, at);
        let shorter = network[above].claim.walk;
        assert(shorter[i] == walk[i]);
        law_a_settled_walk_is_made_of_walks(network, above, i);
        assert(shorter.take(i + 1) =~= walk.take(i + 1));
    }
}

/// Nobody settles for a larger root than a peer answers to, or than itself.
proof fn lemma_settled_root_is_no_larger(
    network: Map<PublicKey, NodeView>,
    at: PublicKey,
    peer: PublicKey,
)
    requires
        is_settled(network),
        network.contains_key(at),
        network[at].peers.contains_key(peer),
    ensures
        network[at].claim.walk[0].key.rank() <= network[peer].claim.walk[0].key.rank(),
{
    assert(has_settled_into(network, at));
    assert(has_settled_into(network, peer));
    let node = network[at];
    let below = network[peer].claim.walk;
    match node.candidate(peer) {
        Some(position) => {
            assert(node.on_offer(position));
            assert(position[0] == below[0]);
        },
        None => {
            let i = choose|i: int| 0 <= i < claim::keys(below).len() && claim::keys(below)[i] == at;
            law_a_settled_walk_is_made_of_walks(network, peer, i);
            assert(below.take(i + 1)[0] == below[0]);
        },
    }
}

/// Whether each node on a chain is linked to the next.
pub open spec fn is_chain(network: Map<PublicKey, NodeView>, chain: Seq<PublicKey>) -> bool {
    &&& chain.len() > 0
    &&& network.contains_key(chain[0])
    &&& forall|i: int| 0 < i < chain.len() ==> network[chain[i - 1]].peers.contains_key(
        #[trigger] chain[i],
    )
}

/// However two nodes of a settled network are connected, they answer to the
/// same root.
pub proof fn law_a_settled_network_agrees_on_its_root(
    network: Map<PublicKey, NodeView>,
    chain: Seq<PublicKey>,
)
    requires
        is_settled(network),
        is_chain(network, chain),
    ensures
        network.contains_key(chain.last()),
        network[chain.last()].claim.walk[0].key == network[chain[0]].claim.walk[0].key,
    decreases chain.len(),
{
    if chain.len() > 1 {
        let shorter = chain.drop_last();
        assert forall|i: int| 0 < i < shorter.len() implies network[shorter[i
            - 1]].peers.contains_key(#[trigger] shorter[i]) by {
            assert(shorter[i] == chain[i]);
        }
        law_a_settled_network_agrees_on_its_root(network, shorter);
        let (near, far) = (shorter.last(), chain[chain.len() - 1]);
        assert(network[near].peers.contains_key(far));
        assert(has_settled_into(network, near));
        lemma_settled_root_is_no_larger(network, near, far);
        lemma_settled_root_is_no_larger(network, far, near);
        PublicKey::rank_tells_apart(
            network[near].claim.walk[0].key,
            network[far].claim.walk[0].key,
        );
    }
}

/// The node holding the smallest key in a connected component becomes the root:
/// whoever a settled node answers to is a node of the network, roots itself,
/// and holds no larger a key than anybody it is connected to.
pub proof fn law_the_smallest_key_becomes_the_root(
    network: Map<PublicKey, NodeView>,
    chain: Seq<PublicKey>,
)
    requires
        is_settled(network),
        is_chain(network, chain),
    ensures
        ({
            let root = network[chain[0]].claim.walk[0].key;
            &&& network.contains_key(root)
            &&& network[root].claim.walk == claim::rooted(root)
            &&& root.rank() <= chain.last().rank()
        }),
{
    let (first, last) = (chain[0], chain.last());
    assert(has_settled_into(network, first));
    law_a_settled_walk_is_made_of_walks(network, first, 0);
    let root = network[first].claim.walk[0].key;
    assert(has_settled_into(network, root));
    let alone = network[root].claim.walk;
    assert(alone.len() == 1);
    assert(alone =~= claim::rooted(root)) by {
        if alone != claim::rooted(root) {
            let peer = choose|peer: PublicKey| #[trigger]
                network[root].candidate(peer) == Some(alone);
            assert(network[root].infos.contains_key(peer));
            assert(claim::shaped(network[root].infos[peer].claim.walk));
        }
    }
    law_a_settled_network_agrees_on_its_root(network, chain);
    assert(has_settled_into(network, last));
    assert(network[last].on_offer(claim::rooted(last)));
}

/// The way up a settled tree: every node on a walk but the last is linked to
/// the next, so a node is connected to its root.
pub proof fn law_a_settled_walk_is_a_chain(network: Map<PublicKey, NodeView>, at: PublicKey)
    requires
        is_settled(network),
        network.contains_key(at),
    ensures
        is_chain(network, claim::keys(network[at].claim.walk)),
{
    assert(has_settled_into(network, at));
    let walk = network[at].claim.walk;
    let keys = claim::keys(walk);
    law_a_settled_walk_is_made_of_walks(network, at, 0);
    assert forall|i: int| 0 < i < keys.len() implies network[keys[i - 1]].peers.contains_key(
        #[trigger] keys[i],
    ) by {
        law_a_settled_walk_is_made_of_walks(network, at, i);
        let child = walk[i].key;
        assert(walk.take(i + 1).len() == i + 1);
        let above = lemma_settled_below_a_peer(network, child);
        assert(has_settled_into(network, child));
        assert(walk.take(i + 1).drop_last().last() == walk[i - 1]);
        assert(has_settled_into(network, above));
        assert(claim::author(network[above].claim.walk) == above);
    }
}

/// In a settled network every node holds what greedy forwarding rests on: its
/// parent's position, and that of its child on the way to anybody.
proof fn lemma_settled_towards(
    network: Map<PublicKey, NodeView>,
    at: PublicKey,
    to: PublicKey,
)
    requires
        is_settled(network),
        network.contains_key(at),
        network.contains_key(to),
    ensures
        knows_its_parent(network[at]),
        knows_the_way_down(network[at], network[to].claim.walk),
{
    assert(has_settled_into(network, at));
    assert(has_settled_into(network, to));
    let node = network[at];
    let dst = network[to].claim.walk;
    if node.claim.walk.len() > 1 {
        let above = lemma_settled_below_a_peer(network, at);
    }
    if lies_below(node, dst) {
        let depth = node.claim.walk.len() as int;
        let child = dst[depth].key;
        law_a_settled_walk_is_made_of_walks(network, to, depth);
        law_a_settled_walk_is_a_chain(network, to);
        assert(claim::keys(dst)[depth] == child);
        assert(claim::keys(dst)[depth - 1] == at) by {
            assert(claim::keys(dst.take(depth))[depth - 1] == claim::keys(node.claim.walk)[depth
                - 1]);
        }
        assert(node.peers.contains_key(child));
    }
}

/// In a settled network in which everybody has heard where `to` sits, whatever
/// anybody connected to it sends it is delivered.
///
/// No way there may be priced past what can be counted.
pub proof fn law_a_settled_network_delivers(
    network: Map<PublicKey, NodeView>,
    from: PublicKey,
    to: PublicKey,
) -> (route: Seq<NodeView>)
    requires
        is_settled(network),
        network.contains_key(from),
        network.contains_key(to),
        forall|at: PublicKey| #[trigger]
            network.contains_key(at) ==> network[at].claim.walk[0].key
                == network[to].claim.walk[0].key && walk::toll_between(
                claim::keys(network[at].claim.walk),
                claim::prices(network[at].claim.walk),
                claim::keys(network[to].claim.walk),
                claim::prices(network[to].claim.walk),
            ) <= u64::MAX && (at != to ==> network[at].infos.contains_key(to)
                && network[at].infos[to].claim.walk == network[to].claim.walk),
    ensures
        route.len() > 0,
        route[0] == network[from],
        is_route(route, to, network[to].claim.walk),
        route.last().key == to,
{
    let dst = network[to].claim.walk;
    assert(has_settled_into(network, to));
    assert forall|at: PublicKey| #[trigger] network.contains_key(at) implies is_settled_towards(
        network,
        at,
        to,
        dst,
    ) by {
        assert(has_settled_into(network, at));
        lemma_settled_towards(network, at, to);
    }
    law_a_settled_tree_delivers(network, from, to, dst)
}

/// A walk is preferred to anything below it.
proof fn lemma_above_is_preferred(walk: Seq<Hop>, hop: Hop)
    requires
        walk.len() > 0,
    ensures
        claim::preferred(walk, walk.push(hop)),
{
    let longer = walk.push(hop);
    assert(claim::prices(longer).drop_last() =~= claim::prices(walk));
    assert(longer[0] == walk[0]);
}

/// The more preferred of where a node sits in two networks.
spec fn better(a: Map<PublicKey, NodeView>, b: Map<PublicKey, NodeView>, at: PublicKey) -> Seq<Hop> {
    if claim::preferred(a[at].claim.walk, b[at].claim.walk) {
        a[at].claim.walk
    } else {
        b[at].claim.walk
    }
}

/// Of some nodes, the one that sits in the most preferred position.
proof fn lemma_best_placed(
    a: Map<PublicKey, NodeView>,
    b: Map<PublicKey, NodeView>,
    some: Set<PublicKey>,
) -> (best: PublicKey)
    requires
        some.finite(),
        some.len() > 0,
        forall|at: PublicKey| #[trigger]
            some.contains(at) ==> a[at].claim.walk.len() > 0 && b[at].claim.walk.len() > 0,
    ensures
        some.contains(best),
        forall|at: PublicKey| #[trigger]
            some.contains(at) ==> !claim::preferred(better(a, b, at), better(a, b, best)),
    decreases some.len(),
{
    let one = some.choose();
    let rest = some.remove(one);
    claim::law_preference_never_ties(better(a, b, one), better(a, b, one));
    if rest.len() == 0 {
        assert forall|at: PublicKey| #[trigger] some.contains(at) implies !claim::preferred(
            better(a, b, at),
            better(a, b, one),
        ) by {
            if at != one {
                assert(rest.contains(at));
            }
        }
        one
    } else {
        let other = lemma_best_placed(a, b, rest);
        assert(some.contains(other));
        let (x, y) = (better(a, b, one), better(a, b, other));
        claim::law_preference_never_ties(x, y);
        if claim::preferred(x, y) {
            assert forall|at: PublicKey| #[trigger] some.contains(at) implies !claim::preferred(
                better(a, b, at),
                x,
            ) by {
                if at != one && claim::preferred(better(a, b, at), x) {
                    assert(rest.contains(at));
                    claim::law_preference_is_transitive(better(a, b, at), x, y);
                }
            }
            one
        } else {
            assert forall|at: PublicKey| #[trigger] some.contains(at) implies !claim::preferred(
                better(a, b, at),
                y,
            ) by {
                if at != one {
                    assert(rest.contains(at));
                }
            }
            other
        }
    }
}

/// Where a node sits in one settled network, better than it sits in another
/// with the same links, some node above it sits differently and better.
proof fn lemma_no_better_place(
    a: Map<PublicKey, NodeView>,
    b: Map<PublicKey, NodeView>,
    at: PublicKey,
)
    requires
        is_settled(a),
        is_settled(b),
        a.contains_key(at),
        b.contains_key(at),
        a[at].peers == b[at].peers,
        claim::preferred(a[at].claim.walk, b[at].claim.walk),
    ensures
        exists|above: PublicKey|
            a.contains_key(above) && a[above].claim.walk != b[above].claim.walk
                && #[trigger] claim::preferred(a[above].claim.walk, a[at].claim.walk),
{
    assert(has_settled_into(a, at));
    assert(has_settled_into(b, at));
    let walk = a[at].claim.walk;
    claim::law_preference_never_ties(walk, b[at].claim.walk);
    assert(b[at].on_offer(claim::rooted(at)));
    if walk == claim::rooted(at) {
        assert(false);
    }
    let above = choose|peer: PublicKey| #[trigger] a[at].candidate(peer) == Some(walk);
    assert(a[at].peers.contains_key(above));
    assert(b[at].peers.contains_key(above));
    assert(has_settled_into(a, above));
    let up = a[above].claim.walk;
    assert(walk == up.push(walk.last()));
    lemma_above_is_preferred(up, walk.last());
    if a[above].claim.walk == b[above].claim.walk {
        assert(b[at].candidate(above) == Some(walk));
        assert(b[at].on_offer(walk));
        assert(false);
    }
    assert(claim::preferred(a[above].claim.walk, a[at].claim.walk));
}

/// The tree has a single fixed point: two settled networks with the same nodes
/// and the same links at the same costs have every node sit in the same place.
pub proof fn law_the_tree_has_one_fixed_point(
    a: Map<PublicKey, NodeView>,
    b: Map<PublicKey, NodeView>,
    at: PublicKey,
)
    requires
        is_settled(a),
        is_settled(b),
        a.dom() == b.dom(),
        a.dom().finite(),
        forall|node: PublicKey| #[trigger] a.contains_key(node) ==> a[node].peers == b[node].peers,
        a.contains_key(at),
    ensures
        a[at].claim.walk == b[at].claim.walk,
{
    let odd = a.dom().filter(|node: PublicKey| a[node].claim.walk != b[node].claim.walk);
    a.dom().lemma_len_filter(|node: PublicKey| a[node].claim.walk != b[node].claim.walk);
    if a[at].claim.walk != b[at].claim.walk {
        assert(odd.contains(at));
        assert(odd.len() > 0);
        assert forall|node: PublicKey| #[trigger] odd.contains(node) implies a[node].claim.walk.len()
            > 0 && b[node].claim.walk.len() > 0 by {
            assert(a.contains_key(node) && b.contains_key(node));
            assert(has_settled_into(a, node) && has_settled_into(b, node));
        }
        let best = lemma_best_placed(a, b, odd);
        assert(a.contains_key(best) && b.contains_key(best));
        assert(has_settled_into(a, best) && has_settled_into(b, best));
        let (x, y) = (a[best].claim.walk, b[best].claim.walk);
        claim::law_preference_never_ties(x, y);
        if claim::preferred(x, y) {
            lemma_no_better_place(a, b, best);
            let above = choose|above: PublicKey|
                a.contains_key(above) && a[above].claim.walk != b[above].claim.walk
                    && #[trigger] claim::preferred(a[above].claim.walk, a[best].claim.walk);
            lemma_better_above(a, b, above, best);
            assert(odd.contains(above));
        } else {
            assert forall|node: PublicKey| #[trigger] b.contains_key(node) implies b[node].peers
                == a[node].peers by {
                assert(a.contains_key(node));
            }
            lemma_no_better_place(b, a, best);
            let above = choose|above: PublicKey|
                b.contains_key(above) && b[above].claim.walk != a[above].claim.walk
                    && #[trigger] claim::preferred(b[above].claim.walk, b[best].claim.walk);
            assert(a.contains_key(above));
            lemma_better_above(a, b, above, best);
            assert(odd.contains(above));
        }
    }
}

/// Whoever sits better in either network than the best of two places is better
/// placed.
proof fn lemma_better_above(
    a: Map<PublicKey, NodeView>,
    b: Map<PublicKey, NodeView>,
    above: PublicKey,
    at: PublicKey,
)
    requires
        is_settled(a),
        is_settled(b),
        a.contains_key(above),
        b.contains_key(above),
        a.contains_key(at),
        b.contains_key(at),
        claim::preferred(a[above].claim.walk, better(a, b, at)) || claim::preferred(
            b[above].claim.walk,
            better(a, b, at),
        ),
    ensures
        claim::preferred(better(a, b, above), better(a, b, at)),
{
    assert(has_settled_into(a, above) && has_settled_into(b, above));
    assert(has_settled_into(a, at) && has_settled_into(b, at));
    let (x, y) = (a[above].claim.walk, b[above].claim.walk);
    let z = better(a, b, at);
    claim::law_preference_never_ties(x, y);
    if claim::preferred(x, y) && claim::preferred(y, z) {
        claim::law_preference_is_transitive(x, y, z);
    }
    if claim::preferred(y, x) && claim::preferred(x, z) {
        claim::law_preference_is_transitive(y, x, z);
    }
}

} // verus!
