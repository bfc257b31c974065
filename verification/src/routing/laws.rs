//! What holds of routing as a whole.

use vstd::prelude::*;
use crate::cost::Cost;
use crate::key::PublicKey;
use crate::routing::bargain;
use crate::routing::bargain::Hop;
use crate::routing::message;
use crate::routing::message::{EnvelopeView, FoundView, LookupView, MessageView, Nonce};
use crate::routing::model::{NodeView, PeerView};
use crate::routing::node::{Eviction, Fault, Info, Pending};
use crate::signature;
use crate::signature::{Signature, Signer};
use crate::sorted_map;
use crate::sorted_map::Ranked;
use crate::summary;
use crate::walk;

verus! {

/// A packet is only ever handed to a peer strictly closer to where it is going,
/// and of those to the cheapest, the smallest key deciding between equals.
pub proof fn law_next_hop_is_the_cheapest_of_the_closer<S: Signer>(
    node: NodeView<S>,
    dst: Seq<Hop>,
    peer: PublicKey,
)
    requires
        node.next_hop(dst) == Some(peer),
    ensures
        node.is_next_hop(peer, dst),
        bargain::separation(node.infos[peer].walk, dst) < bargain::separation(node.walk, dst),
{
}

/// Whether each node on a route hands a packet bound for `dst` to the next, and
/// holds that one's position as it is.
pub open spec fn is_route<S: Signer>(route: Seq<NodeView<S>>, dst: Seq<Hop>) -> bool {
    forall|i: int| 0 <= i < route.len() - 1 ==> #[trigger] hands_on(route, i, dst)
}

/// Whether one node on a route hands a packet to the next.
pub open spec fn hands_on<S: Signer>(route: Seq<NodeView<S>>, at: int, dst: Seq<Hop>) -> bool {
    &&& route[at].next_hop(dst) == Some(route[at + 1].key)
    &&& bargain::same_walk(route[at].infos[route[at + 1].key].walk, route[at + 1].walk)
}

/// Distance to the destination falls at every step of a route, so no packet
/// comes back to a position it has been at.
pub proof fn law_forwarding_never_comes_back<S: Signer>(
    route: Seq<NodeView<S>>,
    dst: Seq<Hop>,
    i: int,
    j: int,
)
    requires
        is_route(route, dst),
        0 <= i < j < route.len(),
    ensures
        bargain::separation(route[j].walk, dst) + (j - i) <= bargain::separation(
            route[i].walk,
            dst,
        ),
        route[i].walk != route[j].walk,
    decreases j - i,
{
    let before = j - 1;
    assert(hands_on(route, before, dst));
    bargain::law_distance_ignores_stamps(
        route[before].infos[route[j].key].walk,
        route[j].walk,
        dst,
    );
    if i < before {
        law_forwarding_never_comes_back(route, dst, i, before);
    }
}

/// A packet takes no more steps than its first node is far from where it is
/// going.
pub proof fn law_forwarding_ends<S: Signer>(route: Seq<NodeView<S>>, dst: Seq<Hop>)
    requires
        is_route(route, dst),
        route.len() > 0,
    ensures
        route.len() - 1 <= bargain::separation(route[0].walk, dst),
{
    if route.len() > 1 {
        law_forwarding_never_comes_back(route, dst, 0, route.len() - 1);
    }
}

/// Whether a node holds its parent's position as it is.
pub open spec fn knows_its_parent<S: Signer>(node: NodeView<S>) -> bool {
    bargain::parent(node.walk) matches Some(parent) ==> {
        &&& node.peers.contains_key(parent)
        &&& node.infos.contains_key(parent)
        &&& bargain::same_walk(node.infos[parent].walk, node.walk.drop_last())
    }
}

/// Whether the walk down to `dst` runs through a node and on below it.
pub open spec fn lies_below<S: Signer>(node: NodeView<S>, dst: Seq<Hop>) -> bool {
    &&& node.walk.len() < dst.len()
    &&& bargain::keys(dst.take(node.walk.len() as int)) == bargain::keys(node.walk)
}

/// Whether a node holds the position of its child on the way down to `dst`,
/// where there is one.
pub open spec fn knows_the_way_down<S: Signer>(node: NodeView<S>, dst: Seq<Hop>) -> bool {
    lies_below(node, dst) ==> {
        let child = dst[node.walk.len() as int].key;
        &&& node.peers.contains_key(child)
        &&& node.infos.contains_key(child)
        &&& bargain::same_walk(node.infos[child].walk, dst.take(node.walk.len() as int + 1))
    }
}

/// A node's child on the way down to `dst` is closer to it by exactly what the
/// link between them costs.
pub proof fn law_the_child_towards_it_is_closer_by_the_link<S: Signer>(node: NodeView<S>, dst: Seq<Hop>)
    requires
        node.wf(),
        bargain::shaped(dst),
        lies_below(node, dst),
        knows_the_way_down(node, dst),
        walk::toll_between(
            bargain::keys(node.walk),
            bargain::prices(node.walk),
            bargain::keys(dst),
            bargain::prices(dst),
        ) <= u64::MAX,
    ensures
        node.is_closer(dst[node.walk.len() as int].key, dst),
        bargain::separation(node.infos[dst[node.walk.len() as int].key].walk, dst)
            + dst[node.walk.len() as int].cost == bargain::separation(node.walk, dst),
{
    let depth = node.walk.len() as int;
    let child = dst[depth].key;
    let down = dst.take(depth + 1);
    let (keys, prices) = (bargain::keys(dst), bargain::prices(dst));
    let (here, here_prices) = (bargain::keys(node.walk), bargain::prices(node.walk));
    bargain::law_distance_ignores_stamps(node.infos[child].walk, down, dst);
    assert forall|i: int| 0 <= i < depth implies here[i] == keys[i] by {
        assert(bargain::keys(dst.take(depth))[i] == here[i]);
    }
    walk::lemma_shared(here, keys);
    assert(walk::forks_after(here, keys, depth as nat));
    walk::lemma_shared(bargain::keys(down), keys);
    assert(walk::forks_after(bargain::keys(down), keys, (depth + 1) as nat));
    assert(here_prices.skip(depth) =~= Seq::empty());
    assert(bargain::prices(down).skip(depth + 1) =~= Seq::empty());
    let left = prices.skip(depth);
    walk::lemma_total_in_parts(left.take(1), left.skip(1));
    assert(left =~= left.take(1) + left.skip(1));
    assert(left.skip(1) =~= prices.skip(depth + 1));
    assert(left.take(1).drop_last() =~= Seq::empty());
    assert(left.take(1).last() == dst[depth].cost);
    reveal_with_fuel(walk::total, 2);
}

/// Where the way to `dst` does not lead down from a node, its parent is closer
/// by exactly what the link between them costs.
pub proof fn law_the_parent_is_closer_by_the_link<S: Signer>(node: NodeView<S>, dst: Seq<Hop>)
    requires
        node.wf(),
        bargain::shaped(dst),
        dst[0].key == node.walk[0].key,
        bargain::keys(dst) != bargain::keys(node.walk),
        !lies_below(node, dst),
        knows_its_parent(node),
        walk::toll_between(
            bargain::keys(node.walk),
            bargain::prices(node.walk),
            bargain::keys(dst),
            bargain::prices(dst),
        ) <= u64::MAX,
    ensures
        bargain::parent(node.walk) matches Some(parent) && node.is_closer(parent, dst)
            && bargain::separation(node.infos[parent].walk, dst) + node.walk.last().cost
            == bargain::separation(node.walk, dst),
{
    let depth = node.walk.len() as int;
    let (keys, prices) = (bargain::keys(dst), bargain::prices(dst));
    let (here, here_prices) = (bargain::keys(node.walk), bargain::prices(node.walk));
    walk::lemma_shared(here, keys);
    let n = walk::shared(here, keys);
    assert(n >= 1) by {
        if n == 0 {
            assert(here[0] == keys[0]);
        }
    }
    assert(n < depth) by {
        if n == depth {
            if dst.len() == depth {
                assert(keys =~= here);
            } else {
                assert(bargain::keys(dst.take(depth)) =~= here);
            }
        }
    }
    let up = node.walk.drop_last();
    let parent = bargain::parent(node.walk)->0;
    bargain::law_distance_ignores_stamps(node.infos[parent].walk, up, dst);
    walk::lemma_shared(bargain::keys(up), keys);
    assert(walk::forks_after(bargain::keys(up), keys, n));
    let left = here_prices.skip(n as int);
    assert(left.drop_last() =~= bargain::prices(up).skip(n as int));
    assert(left.last() == node.walk.last().cost);
}

/// The cheapest of the closer peers among the first `upto`.
proof fn lemma_cheapest_so_far<S: Signer>(node: NodeView<S>, dst: Seq<Hop>, upto: int) -> (best:
    Option<PublicKey>)
    requires
        sorted_map::is_listed(node.peers),
        0 <= upto <= sorted_map::ascending(node.peers).len(),
    ensures
        match best {
            None => forall|j: int|
                0 <= j < upto ==> !node.is_closer(
                    (#[trigger] sorted_map::ascending(node.peers)[j]).0,
                    dst,
                ),
            Some(peer) => node.is_closer(peer, dst) && forall|j: int|
                0 <= j < upto && node.is_closer(
                    (#[trigger] sorted_map::ascending(node.peers)[j]).0,
                    dst,
                ) ==> {
                    let other = sorted_map::ascending(node.peers)[j].0;
                    ||| node.price_through(peer, dst) < node.price_through(other, dst)
                    ||| node.price_through(peer, dst) == node.price_through(other, dst)
                        && peer.rank() <= other.rank()
                },
        },
    decreases upto,
{
    if upto == 0 {
        None
    } else {
        let listed = sorted_map::ascending(node.peers);
        let best = lemma_cheapest_so_far(node, dst, upto - 1);
        let peer = listed[upto - 1].0;
        if !node.is_closer(peer, dst) {
            best
        } else {
            match best {
                None => Some(peer),
                Some(held) => {
                    let (a, b) = (node.price_through(held, dst), node.price_through(peer, dst));
                    if a < b || a == b && held.rank() <= peer.rank() {
                        best
                    } else {
                        Some(peer)
                    }
                },
            }
        }
    }
}

/// Wherever some peer is closer, there is one to hand a packet to.
pub proof fn law_a_closer_peer_is_a_next_hop<S: Signer>(
    node: NodeView<S>,
    dst: Seq<Hop>,
    closer: PublicKey,
)
    requires
        sorted_map::is_listed(node.peers),
        node.is_closer(closer, dst),
    ensures
        node.next_hop(dst) is Some,
{
    let listed = sorted_map::ascending(node.peers);
    let best = lemma_cheapest_so_far(node, dst, listed.len() as int);
    let at = sorted_map::lemma_mapped_key_is_listed(listed, closer);
    assert(node.is_closer(listed[at].0, dst));
    let peer = best->0;
    assert forall|other: PublicKey| #[trigger] node.is_closer(other, dst) implies {
        ||| node.price_through(peer, dst) < node.price_through(other, dst)
        ||| node.price_through(peer, dst) == node.price_through(other, dst) && peer.rank()
            <= other.rank()
    } by {
        let j = sorted_map::lemma_mapped_key_is_listed(listed, other);
        assert(node.is_closer(listed[j].0, dst));
    }
    assert(node.is_next_hop(peer, dst));
}

/// On a settled tree every node but the destination has somewhere to hand a
/// packet: to its parent, or to its child on the way down.
///
/// The way there must not be priced past what can be counted.
pub proof fn law_a_settled_tree_always_has_a_next_hop<S: Signer>(
    node: NodeView<S>,
    dst: Seq<Hop>,
)
    requires
        node.wf(),
        sorted_map::is_listed(node.peers),
        bargain::shaped(dst),
        dst[0].key == node.walk[0].key,
        bargain::keys(dst) != bargain::keys(node.walk),
        knows_its_parent(node),
        knows_the_way_down(node, dst),
        walk::toll_between(
            bargain::keys(node.walk),
            bargain::prices(node.walk),
            bargain::keys(dst),
            bargain::prices(dst),
        ) <= u64::MAX,
    ensures
        node.next_hop(dst) is Some,
{
    if lies_below(node, dst) {
        law_the_child_towards_it_is_closer_by_the_link(node, dst);
        law_a_closer_peer_is_a_next_hop(node, dst, dst[node.walk.len() as int].key);
    } else {
        law_the_parent_is_closer_by_the_link(node, dst);
        law_a_closer_peer_is_a_next_hop(node, dst, bargain::parent(node.walk)->0);
    }
}

/// Whether a node's view of the tree is consistent with the rest of the
/// network: its parent and its child towards `dst` sit where it believes they
/// do, and it links to nobody outside.
pub open spec fn is_settled_towards<S: Signer>(
    network: Map<PublicKey, NodeView<S>>,
    at: PublicKey,
    dst: Seq<Hop>,
) -> bool {
    let node = network[at];
    &&& node.key == at
    &&& node.wf()
    &&& sorted_map::is_listed(node.peers)
    &&& node.walk[0].key == dst[0].key
    &&& knows_its_parent(node)
    &&& knows_the_way_down(node, dst)
    &&& walk::toll_between(
        bargain::keys(node.walk),
        bargain::prices(node.walk),
        bargain::keys(dst),
        bargain::prices(dst),
    ) <= u64::MAX
    &&& forall|peer: PublicKey| #[trigger]
        node.peers.contains_key(peer) && node.infos.contains_key(peer) ==> network.contains_key(
            peer,
        ) && bargain::same_walk(node.infos[peer].walk, network[peer].walk)
}

/// On a settled tree every packet is delivered: handed on from node to node, it
/// comes to the one it is addressed to.
pub proof fn law_a_settled_tree_delivers<S: Signer>(
    network: Map<PublicKey, NodeView<S>>,
    from: PublicKey,
    dst: Seq<Hop>,
) -> (route: Seq<NodeView<S>>)
    requires
        bargain::shaped(dst),
        network.contains_key(from),
        forall|at: PublicKey| #[trigger]
            network.contains_key(at) ==> is_settled_towards(network, at, dst),
    ensures
        route.len() > 0,
        route[0] == network[from],
        is_route(route, dst),
        route.last().key == bargain::author(dst),
        forall|i: int|
            0 <= i < route.len() ==> network.contains_key((#[trigger] route[i]).key) && route[i]
                == network[route[i].key],
    decreases bargain::separation(network[from].walk, dst),
{
    let node = network[from];
    assert(is_settled_towards(network, from, dst));
    if from == bargain::author(dst) {
        seq![node]
    } else {
        assert(bargain::keys(dst) != bargain::keys(node.walk)) by {
            assert(bargain::keys(dst).last() == bargain::author(dst));
            assert(bargain::keys(node.walk).last() == node.key);
        }
        law_a_settled_tree_always_has_a_next_hop(node, dst);
        let peer = node.next_hop(dst)->0;
        law_next_hop_is_the_cheapest_of_the_closer(node, dst, peer);
        assert(node.is_closer(peer, dst));
        assert(is_settled_towards(network, peer, dst));
        bargain::law_distance_ignores_stamps(node.infos[peer].walk, network[peer].walk, dst);
        let rest = law_a_settled_tree_delivers(network, peer, dst);
        let route = seq![node] + rest;
        assert forall|i: int| 0 <= i < route.len() - 1 implies #[trigger] hands_on(
            route,
            i,
            dst,
        ) by {
            assert(route[i + 1] == rest[i]);
            if i > 0 {
                assert(route[i] == rest[i - 1]);
                assert(hands_on(rest, i - 1, dst));
            }
        }
        assert forall|i: int| 0 <= i < route.len() implies network.contains_key(
            (#[trigger] route[i]).key,
        ) && route[i] == network[route[i].key] by {
            if i > 0 {
                assert(route[i] == rest[i - 1]);
            }
        }
        route
    }
}

/// What is on offer below a peer: the peer's own walk, and this node at the end
/// of it.
pub(crate) proof fn lemma_candidate<S: Signer>(node: NodeView<S>, peer: PublicKey, seq: u64)
    requires
        node.is_well_informed(),
        node.candidate(peer, seq) is Some,
    ensures
        ({
            let position = node.candidate(peer, seq)->0;
            let above = node.infos[peer].walk;
            &&& node.peers.contains_key(peer)
            &&& node.infos.contains_key(peer)
            &&& node.peers[peer].consent is Some
            &&& position.len() == above.len() + 1
            &&& position.len() >= 2
            &&& position.drop_last() == above
            &&& forall|i: int| 0 <= i < above.len() ==> position[i] == above[i]
            &&& position[position.len() - 2].key == peer
            &&& position[0].key != node.key
            &&& position.last().key == node.key
            &&& position.last().seq == seq
            &&& position.last().cost == node.peers[peer].consent->0.price()
            &&& bargain::parent(position) == Some(peer)
        }),
{
    let position = node.candidate(peer, seq)->0;
    let above = node.infos[peer].walk;
    assert(position.drop_last() =~= above);
    assert(bargain::keys(above)[0] == above[0].key);
}

/// The same offer stamped differently is the same walk.
proof fn lemma_candidate_ignores_stamps<S: Signer>(
    node: NodeView<S>,
    peer: PublicKey,
    a: u64,
    b: u64,
)
    requires
        node.is_well_informed(),
        node.candidate(peer, a) is Some,
    ensures
        node.candidate(peer, b) is Some,
        bargain::same_walk(node.candidate(peer, a)->0, node.candidate(peer, b)->0),
{
    lemma_candidate(node, peer, a);
    lemma_candidate(node, peer, b);
    let (x, y) = (node.candidate(peer, a)->0, node.candidate(peer, b)->0);
    assert(bargain::keys(x) =~= bargain::keys(y));
    assert(bargain::prices(x) =~= bargain::prices(y));
}

/// Which of two offers is preferred does not depend on the stamp they would be
/// taken up under.
proof fn lemma_offers_rank_alike<S: Signer>(
    node: NodeView<S>,
    p: PublicKey,
    q: PublicKey,
    a: u64,
    b: u64,
)
    requires
        node.is_well_informed(),
        node.candidate(p, a) is Some,
        node.candidate(q, a) is Some,
        p != q,
        bargain::preferred(node.candidate(p, a)->0, node.candidate(q, a)->0),
    ensures
        bargain::preferred(node.candidate(p, b)->0, node.candidate(q, b)->0),
{
    lemma_candidate(node, p, a);
    lemma_candidate(node, q, a);
    lemma_candidate_ignores_stamps(node, p, a, b);
    lemma_candidate_ignores_stamps(node, q, a, b);
    lemma_candidate(node, p, b);
    lemma_candidate(node, q, b);
    let (x, y) = (node.candidate(p, a)->0, node.candidate(q, a)->0);
    let (u, v) = (node.candidate(p, b)->0, node.candidate(q, b)->0);
    if bargain::same_walk(x, y) {
        assert(bargain::keys(x).len() == x.len() && bargain::keys(y).len() == y.len());
        assert(bargain::keys(x)[x.len() - 2] == bargain::keys(y)[x.len() - 2]);
    }
    bargain::law_preference_ignores_stamps(x, u, y, v);
}

/// An offer and rooting oneself are told apart by their roots, whatever the
/// stamp.
proof fn lemma_root_ranks_alike<S: Signer>(node: NodeView<S>, p: PublicKey, a: u64, b: u64)
    requires
        node.is_well_informed(),
        node.candidate(p, a) is Some,
    ensures
        bargain::preferred(node.candidate(p, a)->0, bargain::rooted(node.signer, a))
            ==> bargain::preferred(node.candidate(p, b)->0, bargain::rooted(node.signer, b)),
        bargain::preferred(bargain::rooted(node.signer, a), node.candidate(p, a)->0)
            ==> bargain::preferred(bargain::rooted(node.signer, b), node.candidate(p, b)->0),
{
    lemma_candidate(node, p, a);
    lemma_candidate_ignores_stamps(node, p, a, b);
    lemma_candidate(node, p, b);
    let root = node.candidate(p, a)->0[0].key;
    if root.rank() == node.key.rank() {
        PublicKey::rank_tells_apart(root, node.key);
    }
}

/// The most preferred of the offers below the first `upto` peers and rooting
/// oneself.
proof fn lemma_best_so_far<S: Signer>(node: NodeView<S>, seq: u64, upto: int) -> (best: Seq<Hop>)
    requires
        node.is_well_informed(),
        sorted_map::is_listed(node.peers),
        0 <= upto <= sorted_map::ascending(node.peers).len(),
    ensures
        node.on_offer(best, seq),
        best.len() > 0,
        best == bargain::rooted(node.signer, seq) || bargain::preferred(
            best,
            bargain::rooted(node.signer, seq),
        ),
        forall|j: int|
            0 <= j < upto ==> (node.candidate(
                (#[trigger] sorted_map::ascending(node.peers)[j]).0,
                seq,
            ) matches Some(other) ==> other == best || bargain::preferred(best, other)),
    decreases upto,
{
    let alone = bargain::rooted(node.signer, seq);
    if upto == 0 {
        alone
    } else {
        let listed = sorted_map::ascending(node.peers);
        let held = lemma_best_so_far(node, seq, upto - 1);
        match node.candidate(listed[upto - 1].0, seq) {
            None => held,
            Some(next) => {
                lemma_candidate(node, listed[upto - 1].0, seq);
                bargain::law_preference_never_ties(next, held);
                if bargain::preferred(next, held) {
                    if held != alone {
                        bargain::law_preference_is_transitive(next, held, alone);
                    }
                    assert forall|j: int| 0 <= j < upto implies (node.candidate(
                        (#[trigger] listed[j]).0,
                        seq,
                    ) matches Some(other) ==> other == next || bargain::preferred(next, other)) by {
                        if let Some(other) = node.candidate(listed[j].0, seq) {
                            if other != next && other != held {
                                bargain::law_preference_is_transitive(next, held, other);
                            }
                        }
                    }
                    next
                } else {
                    held
                }
            },
        }
    }
}

/// A node always has a most preferred position.
pub proof fn law_some_position_is_best<S: Signer>(node: NodeView<S>, seq: u64)
    requires
        node.is_well_informed(),
        sorted_map::is_listed(node.peers),
    ensures
        node.is_best_position(node.best_position(seq), seq),
{
    let listed = sorted_map::ascending(node.peers);
    let best = lemma_best_so_far(node, seq, listed.len() as int);
    assert forall|other: Seq<Hop>| #[trigger] node.on_offer(other, seq) implies other == best
        || bargain::preferred(best, other) by {
        if other != bargain::rooted(node.signer, seq) {
            let peer = choose|peer: PublicKey| #[trigger] node.candidate(peer, seq) == Some(other);
            let j = sorted_map::lemma_mapped_key_is_listed(listed, peer);
            assert(node.candidate(listed[j].0, seq) == Some(other));
        }
    }
    assert(node.is_best_position(best, seq));
}

/// Where a node would best sit does not depend on the stamp it would take the
/// position up under, so restamping is never a reason to move.
pub proof fn law_best_position_ignores_stamps<S: Signer>(node: NodeView<S>, a: u64, b: u64)
    requires
        node.is_well_informed(),
        sorted_map::is_listed(node.peers),
    ensures
        bargain::same_walk(node.best_position(a), node.best_position(b)),
{
    law_some_position_is_best(node, a);
    law_some_position_is_best(node, b);
    let best = node.best_position(a);
    let (alone_a, alone_b) = (bargain::rooted(node.signer, a), bargain::rooted(node.signer, b));
    if exists|peer: PublicKey| #[trigger] node.candidate(peer, a) == Some(best) {
        let peer = choose|peer: PublicKey| #[trigger] node.candidate(peer, a) == Some(best);
        lemma_candidate(node, peer, a);
        lemma_candidate_ignores_stamps(node, peer, a, b);
        let fresh = node.candidate(peer, b)->0;
        assert(node.on_offer(fresh, b));
        assert forall|other: Seq<Hop>| #[trigger] node.on_offer(other, b) implies other == fresh
            || bargain::preferred(fresh, other) by {
            if other == alone_b {
                assert(node.on_offer(alone_a, a));
                assert(best != alone_a);
                lemma_root_ranks_alike(node, peer, a, b);
            } else {
                let q = choose|q: PublicKey| #[trigger] node.candidate(q, b) == Some(other);
                if q != peer {
                    lemma_candidate_ignores_stamps(node, q, b, a);
                    let was = node.candidate(q, a)->0;
                    assert(node.on_offer(was, a));
                    lemma_candidate(node, q, a);
                    assert(was != best);
                    lemma_offers_rank_alike(node, peer, q, a, b);
                }
            }
        }
        assert(node.is_best_position(fresh, b));
        node.lemma_best_position_is_unique(fresh, node.best_position(b), b);
    } else {
        assert(best == alone_a);
        assert(node.on_offer(alone_b, b));
        assert forall|other: Seq<Hop>| #[trigger] node.on_offer(other, b) implies other == alone_b
            || bargain::preferred(alone_b, other) by {
            if other != alone_b {
                let q = choose|q: PublicKey| #[trigger] node.candidate(q, b) == Some(other);
                lemma_candidate_ignores_stamps(node, q, b, a);
                let was = node.candidate(q, a)->0;
                assert(node.on_offer(was, a));
                lemma_candidate(node, q, a);
                lemma_root_ranks_alike(node, q, a, b);
            }
        }
        assert(node.is_best_position(alone_b, b));
        node.lemma_best_position_is_unique(alone_b, node.best_position(b), b);
        assert(bargain::keys(alone_a) =~= bargain::keys(alone_b));
        assert(bargain::prices(alone_a) =~= bargain::prices(alone_b));
    }
}

/// Two nodes to whom the same is on offer would best sit in the same place.
pub(crate) proof fn lemma_same_offers_same_best<S: Signer>(a: NodeView<S>, b: NodeView<S>, seq: u64)
    requires
        a.is_well_informed(),
        sorted_map::is_listed(a.peers),
        a.signer == b.signer,
        forall|peer: PublicKey| #[trigger] a.candidate(peer, seq) == b.candidate(peer, seq),
    ensures
        b.is_best_position(a.best_position(seq), seq),
        b.best_position(seq) == a.best_position(seq),
{
    law_some_position_is_best(a, seq);
    let best = a.best_position(seq);
    assert forall|position: Seq<Hop>| #[trigger]
        b.on_offer(position, seq) <==> a.on_offer(position, seq) by {
        if b.on_offer(position, seq) && position != bargain::rooted(b.signer, seq) {
            let peer = choose|peer: PublicKey| #[trigger]
                b.candidate(peer, seq) == Some(position);
            assert(a.candidate(peer, seq) == Some(position));
        }
        if a.on_offer(position, seq) && position != bargain::rooted(a.signer, seq) {
            let peer = choose|peer: PublicKey| #[trigger]
                a.candidate(peer, seq) == Some(position);
            assert(b.candidate(peer, seq) == Some(position));
        }
    }
    assert(b.is_best_position(best, seq));
    b.lemma_best_position_is_unique(best, b.best_position(seq), seq);
}

/// Rewriting what each link was told rewrites the listing in place.
pub(crate) proof fn lemma_resummarised_is_listed<S: Signer>(node: NodeView<S>)
    requires
        sorted_map::is_listed(node.peers),
    ensures
        sorted_map::is_listed(node.resummarised().node.peers),
{
    let listed = sorted_map::ascending(node.peers);
    let retold = |peer: PublicKey, state: PeerView| PeerView { told: node.wanted(peer), ..state };
    let after = Seq::new(
        listed.len(),
        |i: int| (listed[i].0, retold(listed[i].0, listed[i].1)),
    );
    sorted_map::lemma_values_in_place(listed, after, retold);
    assert(sorted_map::map_of(after) =~= node.resummarised().node.peers);
    sorted_map::lemma_ascending_is_the_listing(after);
}

/// What a node wants a peer to have been told depends on what its links say
/// lies beyond them and on which of them are part of the tree, and on nothing
/// else.
pub(crate) proof fn lemma_wants_by_neighbours<S: Signer>(
    a: NodeView<S>,
    b: NodeView<S>,
    peer: PublicKey,
)
    requires
        a.key == b.key,
        forall|other: PublicKey| #[trigger]
            a.is_tree_neighbour(other) == b.is_tree_neighbour(other),
        a.peers.dom() == b.peers.dom(),
        forall|other: PublicKey| #[trigger]
            a.peers.contains_key(other) ==> a.peers[other].beyond == b.peers[other].beyond,
    ensures
        a.wanted(peer) == b.wanted(peer),
{
    assert forall|bit: int| #[trigger]
        a.some_other_link_sets(peer, bit) <==> b.some_other_link_sets(peer, bit) by {
        if a.some_other_link_sets(peer, bit) {
            let other = choose|other: PublicKey|
                other != peer && #[trigger] a.peers.contains_key(other) && a.is_tree_neighbour(
                    other,
                ) && a.peers[other].beyond.contains(bit);
            assert(b.peers.contains_key(other) && b.is_tree_neighbour(other));
        }
        if b.some_other_link_sets(peer, bit) {
            let other = choose|other: PublicKey|
                other != peer && #[trigger] b.peers.contains_key(other) && b.is_tree_neighbour(
                    other,
                ) && b.peers[other].beyond.contains(bit);
            assert(a.peers.dom().contains(other));
            assert(a.peers.contains_key(other) && a.is_tree_neighbour(other));
        }
    }
    assert(a.summary_beyond(peer) =~= b.summary_beyond(peer));
    assert(a.is_tree_neighbour(peer) == b.is_tree_neighbour(peer));
}

/// Nodes below the same parent that hold the same of everybody want a peer to
/// have been told the same.
pub(crate) proof fn lemma_wants_alike<S: Signer>(a: NodeView<S>, b: NodeView<S>, peer: PublicKey)
    requires
        a.key == b.key,
        a.infos == b.infos,
        bargain::parent(a.walk) == bargain::parent(b.walk),
        a.peers.dom() == b.peers.dom(),
        forall|other: PublicKey| #[trigger]
            a.peers.contains_key(other) ==> a.peers[other].beyond == b.peers[other].beyond,
    ensures
        a.wanted(peer) == b.wanted(peer),
{
    lemma_wants_by_neighbours(a, b, peer);
}

/// Picking where nothing qualifies picks nothing.
pub(crate) proof fn lemma_nothing_picked<T>(entries: Seq<T>, keep: spec_fn(T) -> bool)
    requires
        forall|i: int| 0 <= i < entries.len() ==> !keep(#[trigger] entries[i]),
    ensures
        entries.filter(keep) == Seq::<T>::empty(),
    decreases entries.len(),
{
    reveal(Seq::filter);
    if entries.len() > 0 {
        lemma_nothing_picked(entries.drop_last(), keep);
    }
}

/// What settling leaves in place, and where it leaves the node: wherever it
/// would best sit.
pub(crate) proof fn lemma_settled<S: Signer>(node: NodeView<S>, now: u64, seq: u64)
    requires
        node.is_well_informed(),
        sorted_map::is_listed(node.peers),
    ensures
        ({
            let after = node.settled(now).node;
            &&& sorted_map::is_listed(after.peers)
            &&& after.infos == node.infos
            &&& after.signer == node.signer
            &&& after.key == node.key
            &&& forall|peer: PublicKey| #[trigger]
                after.candidate(peer, seq) == node.candidate(peer, seq)
            &&& after.best_position(seq) == node.best_position(seq)
            &&& bargain::same_walk(after.walk, node.best_position(seq))
        }),
{
    let moved = node.reparented(now).node;
    let after = node.settled(now).node;
    assert(moved.peers == node.peers);
    lemma_resummarised_is_listed(moved);
    lemma_same_offers_same_best(node, after, seq);
    law_best_position_ignores_stamps(node, node.next_seq(), seq);
}

/// A node that has settled sits in the most preferred position available to
/// it, and sits below a peer only on that peer's consent and at the price
/// named in it.
pub proof fn law_settled_node_sits_where_it_is_welcome<S: Signer>(
    node: NodeView<S>,
    now: u64,
    seq: u64,
)
    requires
        node.is_well_informed(),
        sorted_map::is_listed(node.peers),
    ensures
        ({
            let after = node.settled(now).node;
            &&& bargain::same_walk(after.walk, after.best_position(seq))
            &&& bargain::parent(after.walk) matches Some(parent) ==> {
                &&& after.peers.contains_key(parent)
                &&& after.peers[parent].consent matches Some(consent) && consent.given_by()
                    == parent && consent.given_to() == node.key && consent.price()
                    == after.walk.last().cost
            }
        }),
{
    let after = node.settled(now).node;
    lemma_settled(node, now, seq);
    law_some_position_is_best(node, seq);
    let best = node.best_position(seq);
    assert(bargain::keys(after.walk).len() == bargain::keys(best).len());
    if bargain::parent(after.walk) is Some {
        let n = after.walk.len() as int;
        assert(bargain::keys(after.walk)[n - 2] == bargain::keys(best)[n - 2]);
        assert(bargain::prices(after.walk)[n - 1] == bargain::prices(best)[n - 1]);
        assert(best != bargain::rooted(node.signer, seq));
        let peer = choose|peer: PublicKey| #[trigger] node.candidate(peer, seq) == Some(best);
        lemma_candidate(node, peer, seq);
        assert(node.peers.contains_key(peer));
    }
}

/// A node that has settled has nothing left to say: settling again changes
/// nothing and sends nothing.
pub proof fn law_settling_twice_says_nothing<S: Signer>(node: NodeView<S>, now: u64, later: u64)
    requires
        node.is_well_informed(),
        sorted_map::is_listed(node.peers),
    ensures
        node.settled(now).node.settled(later) == node.settled(now).node.still(),
{
    let moved = node.reparented(now).node;
    let after = node.settled(now).node;
    let seq = after.next_seq();
    lemma_settled(node, now, seq);
    assert(after.reparented(later) == after.still());
    assert(after.peers.dom() =~= moved.peers.dom());
    assert forall|peer: PublicKey| #[trigger] after.wanted(peer) == moved.wanted(peer) by {
        lemma_wants_alike(after, moved, peer);
    }
    let again = after.resummarised();
    assert(again.node.peers =~= after.peers);
    let listed = sorted_map::ascending(after.peers);
    let owed = |entry: (PublicKey, PeerView)| after.is_owed(entry);
    assert forall|i: int| 0 <= i < listed.len() implies !owed(#[trigger] listed[i]) by {
        sorted_map::lemma_entry_is_mapped(listed, i);
        assert(after.wanted(listed[i].0) == moved.wanted(listed[i].0));
    }
    lemma_nothing_picked(listed, owed);
    assert(again.out =~= Seq::empty());
    assert(after.settled(later).out =~= Seq::empty());
}

/// After a tick a node holds exactly those positions and searches that were
/// still fresh, and its own announcement is fresh too.
pub proof fn law_a_tick_keeps_only_what_is_fresh<S: Signer>(node: NodeView<S>, now: u64)
    ensures
        node.ticked(now).node.infos == sorted_map::fresh_part::<PublicKey, Info>(
            node.infos,
            now,
            node.timing.expiry,
        ),
        node.ticked(now).node.pending == sorted_map::fresh_part::<Nonce, Pending>(
            node.pending,
            now,
            node.timing.expiry,
        ),
        forall|key: PublicKey| #[trigger]
            node.ticked(now).node.infos.contains_key(key) ==> sorted_map::is_fresh(
                node.ticked(now).node.infos[key].heard_at,
                now,
                node.timing.expiry,
            ),
        sorted_map::is_fresh(node.ticked(now).node.announced_at, now, node.timing.refresh)
            || node.ticked(now).node.announced_at == now,
{
}

/// Whatever is taken up carries the stamp it was taken up under.
proof fn lemma_offers_carry_their_stamp<S: Signer>(node: NodeView<S>, position: Seq<Hop>, seq: u64)
    requires
        node.on_offer(position, seq),
    ensures
        position.last().seq == seq,
{
}

/// Settling never takes a stamp back.
proof fn lemma_settling_keeps_stamps<S: Signer>(node: NodeView<S>, now: u64)
    requires
        node.wf(),
        sorted_map::is_listed(node.peers),
    ensures
        node.settled(now).node.walk.last().seq >= node.walk.last().seq,
        node.settled(now).node.walk != node.walk && node.walk.last().seq < u64::MAX
            ==> node.settled(now).node.walk.last().seq > node.walk.last().seq,
{
    law_some_position_is_best(node, node.next_seq());
    lemma_offers_carry_their_stamp(node, node.best_position(node.next_seq()), node.next_seq());
}

/// Whatever a peer says, a node's stamp never goes back, and climbs whenever
/// the node moves, until it can climb no further.
pub proof fn law_stamps_never_go_back<S: Signer>(
    node: NodeView<S>,
    now: u64,
    from: PublicKey,
    message: MessageView,
)
    requires
        node.wf(),
        sorted_map::is_listed(node.peers),
        message matches MessageView::Announce(position) ==> bargain::shaped(position),
        message matches MessageView::Found(found) ==> bargain::shaped(found.walk),
    ensures
        node.handled(now, from, message).node.walk.last().seq >= node.walk.last().seq,
        node.handled(now, from, message).node.walk != node.walk && node.walk.last().seq < u64::MAX
            ==> node.handled(now, from, message).node.walk.last().seq > node.walk.last().seq,
{
    if node.peers.contains_key(from) {
        sorted_map::lemma_remove_is_listed(node.peers, from);
        let evicting = |fault: Fault|
            NodeView {
                peers: node.peers.remove(from),
                evicted: node.evicted.push(Eviction { peer: from, fault }),
                ..node
            };
        lemma_settling_keeps_stamps(evicting(Fault::AnnouncementAboutAnother), now);
        lemma_settling_keeps_stamps(evicting(Fault::ForgedAnnouncement), now);
        lemma_settling_keeps_stamps(evicting(Fault::MisdirectedConsent), now);
        lemma_settling_keeps_stamps(evicting(Fault::ForgedAnswer), now);
        match message {
            MessageView::Announce(position) => {
                if bargain::author(position) == from && node.is_news(position)
                    && bargain::checks_out::<S>(position) {
                    lemma_settling_keeps_stamps(node.keeping(now, position), now);
                }
            },
            MessageView::Summary(beyond) => {
                let state = PeerView { beyond, ..node.peers[from] };
                sorted_map::lemma_insert_is_listed(node.peers, from, state);
                lemma_settling_keeps_stamps(
                    NodeView { peers: node.peers.insert(from, state), ..node },
                    now,
                );
            },
            MessageView::Consent(consent) => {
                if consent.given_by() == from && consent.given_to() == node.key {
                    let state = PeerView { consent: Some(consent), ..node.peers[from] };
                    sorted_map::lemma_insert_is_listed(node.peers, from, state);
                    lemma_settling_keeps_stamps(
                        NodeView { peers: node.peers.insert(from, state), ..node },
                        now,
                    );
                }
            },
            MessageView::Found(found) => {
                let closed = NodeView { pending: node.pending.remove(found.nonce), ..node };
                if closed.is_news(found.walk) && message::vouched_for::<S>(found) {
                    lemma_settling_keeps_stamps(closed.keeping(now, found.walk), now);
                }
            },
            _ => {},
        }
    }
}

/// Whatever happens to a node's links or its clock, its stamp never goes back,
/// and climbs whenever the node moves or reissues, until it can climb no
/// further.
pub proof fn law_stamps_only_climb<S: Signer>(
    node: NodeView<S>,
    now: u64,
    peer: PublicKey,
    cost: Cost,
)
    requires
        node.wf(),
        sorted_map::is_listed(node.peers),
    ensures
        node.ticked(now).node.walk.last().seq >= node.walk.last().seq,
        node.ticked(now).node.walk != node.walk && node.walk.last().seq < u64::MAX
            ==> node.ticked(now).node.walk.last().seq > node.walk.last().seq,
        node.peer_added(now, peer, cost).node.walk.last().seq >= node.walk.last().seq,
        node.peer_added(now, peer, cost).node.walk != node.walk && node.walk.last().seq < u64::MAX
            ==> node.peer_added(now, peer, cost).node.walk.last().seq > node.walk.last().seq,
        node.peer_removed(now, peer).node.walk.last().seq >= node.walk.last().seq,
        node.peer_removed(now, peer).node.walk != node.walk && node.walk.last().seq < u64::MAX
            ==> node.peer_removed(now, peer).node.walk.last().seq > node.walk.last().seq,
{
    let kept = NodeView {
        infos: sorted_map::fresh_part::<PublicKey, Info>(node.infos, now, node.timing.expiry),
        pending: sorted_map::fresh_part::<Nonce, Pending>(node.pending, now, node.timing.expiry),
        ..node
    };
    assert forall|key: PublicKey| #[trigger] kept.infos.contains_key(key) implies bargain::shaped(
        kept.infos[key].walk,
    ) && bargain::author(kept.infos[key].walk) == key && bargain::checks_out::<S>(
        kept.infos[key].walk,
    ) by {
        assert(node.infos.contains_key(key));
    }
    lemma_settling_keeps_stamps(kept, now);
    if peer != node.key {
        let state = if node.peers.contains_key(peer) {
            PeerView { cost, ..node.peers[peer] }
        } else {
            PeerView { cost, beyond: Set::empty(), told: None, consent: None }
        };
        sorted_map::lemma_insert_is_listed(node.peers, peer, state);
        lemma_settling_keeps_stamps(
            NodeView { peers: node.peers.insert(peer, state), ..node },
            now,
        );
    }
    sorted_map::lemma_remove_is_listed(node.peers, peer);
    lemma_settling_keeps_stamps(NodeView { peers: node.peers.remove(peer), ..node }, now);
}

/// Whether a message is one an honest peer `from` could send the node at
/// `key`: about itself and signed, or a bargain between the two of them, or an
/// answer its subject vouches for.
pub open spec fn honest<S: Signer>(key: PublicKey, from: PublicKey, message: MessageView) -> bool {
    match message {
        MessageView::Announce(position) => bargain::author(position) == from
            && bargain::checks_out::<S>(position),
        MessageView::Consent(consent) => consent.given_by() == from && consent.given_to() == key,
        MessageView::Found(found) => message::vouched_for::<S>(found),
        _ => true,
    }
}

/// Nothing an honest peer says, however stale, gets it dropped.
pub proof fn law_honest_peers_are_never_evicted<S: Signer>(
    node: NodeView<S>,
    now: u64,
    from: PublicKey,
    message: MessageView,
)
    requires
        honest::<S>(node.key, from, message),
    ensures
        node.handled(now, from, message).node.evicted == node.evicted,
        forall|peer: PublicKey|
            node.handled(now, from, message).node.peers.contains_key(peer)
                <==> node.peers.contains_key(peer),
{
}

/// A message can get nobody dropped but the peer that sent it.
pub proof fn law_only_the_sender_is_evicted<S: Signer>(
    node: NodeView<S>,
    now: u64,
    from: PublicKey,
    message: MessageView,
)
    ensures
        ({
            let after = node.handled(now, from, message).node;
            ||| after.evicted == node.evicted && forall|peer: PublicKey| #[trigger]
                after.peers.contains_key(peer) <==> node.peers.contains_key(peer)
            ||| exists|fault: Fault|
                after.evicted == node.evicted.push(#[trigger] dropped(from, fault))
                    && !after.peers.contains_key(from) && !honest::<S>(node.key, from, message)
        }),
{
    let after = node.handled(now, from, message).node;
    if node.peers.contains_key(from) {
        let fault = match message {
            MessageView::Announce(position) if bargain::author(position) != from =>
                Fault::AnnouncementAboutAnother,
            MessageView::Announce(_) => Fault::ForgedAnnouncement,
            MessageView::Consent(_) => Fault::MisdirectedConsent,
            _ => Fault::ForgedAnswer,
        };
        if after == node.peer_evicted(now, from, fault).node {
            assert(after.evicted == node.evicted.push(dropped(from, fault)));
        } else {
            assert(after.evicted == node.evicted);
        }
    }
}

/// The eviction of `peer` for `fault`.
pub open spec fn dropped(peer: PublicKey, fault: Fault) -> Eviction {
    Eviction { peer, fault }
}

/// A stranger changes nothing.
pub proof fn law_strangers_are_ignored<S: Signer>(
    node: NodeView<S>,
    now: u64,
    from: PublicKey,
    message: MessageView,
)
    requires
        !node.peers.contains_key(from),
    ensures
        node.handled(now, from, message) == node.still(),
{
}

/// A repeat of a position already held changes nothing, so an echo cannot keep
/// a dead node alive.
pub proof fn law_an_echo_is_not_news<S: Signer>(node: NodeView<S>, now: u64, from: PublicKey)
    requires
        node.infos.contains_key(from),
        bargain::author(node.infos[from].walk) == from,
    ensures
        node.handled(now, from, MessageView::Announce(node.infos[from].walk)) == node.still(),
{
    bargain::law_supersedes_never_ties(node.infos[from].walk, node.infos[from].walk);
}

/// An answer to a question this node did not ask changes nothing.
pub proof fn law_unasked_answers_are_ignored<S: Signer>(
    node: NodeView<S>,
    now: u64,
    from: PublicKey,
    found: FoundView,
)
    requires
        found.trail == seq![node.key],
        !node.pending.contains_key(found.nonce) || node.pending[found.nonce].target
            != bargain::author(found.walk),
    ensures
        node.handled(now, from, MessageView::Found(found)) == node.still(),
{
    assert(found.trail.drop_last() =~= Seq::empty());
}

/// An answer serves the one search that asked for it: arriving a second time,
/// from anybody, it changes nothing.
pub proof fn law_an_answer_serves_once<S: Signer>(
    node: NodeView<S>,
    now: u64,
    from: PublicKey,
    later: u64,
    again_from: PublicKey,
    found: FoundView,
)
    requires
        found.trail == seq![node.key],
        message::vouched_for::<S>(found),
        node.peers.contains_key(from),
    ensures
        ({
            let after = node.handled(now, from, MessageView::Found(found)).node;
            after.handled(later, again_from, MessageView::Found(found)) == after.still()
        }),
{
    let after = node.handled(now, from, MessageView::Found(found)).node;
    assert(found.trail.drop_last() =~= Seq::empty());
    assert(after.key == node.key);
}

/// A search that has already been through a node is not taken up again.
pub proof fn law_searches_do_not_circle<S: Signer>(
    node: NodeView<S>,
    now: u64,
    from: PublicKey,
    lookup: LookupView,
)
    requires
        lookup.trail.contains(node.key),
    ensures
        node.handled(now, from, MessageView::Lookup(lookup)) == node.still(),
{
}

/// Picking keeps whatever qualifies.
proof fn lemma_picked<T>(entries: Seq<T>, keep: spec_fn(T) -> bool, at: int) -> (found: int)
    requires
        0 <= at < entries.len(),
        keep(entries[at]),
    ensures
        0 <= found < entries.filter(keep).len(),
        entries.filter(keep)[found] == entries[at],
    decreases entries.len(),
{
    reveal(Seq::filter);
    let shorter = entries.drop_last();
    if at == entries.len() - 1 {
        entries.filter(keep).len() - 1
    } else {
        assert(shorter[at] == entries[at]);
        lemma_picked(shorter, keep, at)
    }
}

/// A search goes over every tree link beyond which its target may lie, except
/// back the way it came.
pub proof fn law_a_search_overlooks_nothing<S: Signer>(
    node: NodeView<S>,
    lookup: LookupView,
    peer: PublicKey,
)
    requires
        sorted_map::is_listed(node.peers),
        node.peers.contains_key(peer),
        node.is_tree_neighbour(peer),
        !lookup.trail.contains(peer),
        summary::claims(node.peers[peer].beyond, lookup.target),
    ensures
        node.searched(lookup).contains(
            (EnvelopeView { to: peer, message: MessageView::Lookup(lookup) }),
        ),
{
    let listed = sorted_map::ascending(node.peers);
    let at = sorted_map::lemma_mapped_key_is_listed(listed, peer);
    let passes = |entry: (PublicKey, PeerView)| node.passes_over(lookup, entry);
    assert(passes(listed[at]));
    let found = lemma_picked(listed, passes, at);
    assert(node.searched(lookup)[found] == (EnvelopeView {
        to: peer,
        message: MessageView::Lookup(lookup),
    }));
}

/// What a node says lies on its side of a link claims the node itself, and
/// whatever any other of its tree links claims.
pub proof fn law_summaries_claim_what_lies_beyond<S: Signer>(
    node: NodeView<S>,
    peer: PublicKey,
    other: PublicKey,
    key: PublicKey,
)
    ensures
        summary::claims(node.summary_beyond(peer), node.key),
        other != peer && node.peers.contains_key(other) && node.is_tree_neighbour(other)
            && summary::claims(node.peers[other].beyond, key) ==> summary::claims(
            node.summary_beyond(peer),
            key,
        ),
{
    if other != peer && node.peers.contains_key(other) && node.is_tree_neighbour(other)
        && summary::claims(node.peers[other].beyond, key) {
        assert forall|bit: int| summary::bits_of(key).contains(bit) implies node.summary_beyond(
            peer,
        ).contains(bit) by {
            assert(node.peers[other].beyond.contains(bit));
            assert(node.some_other_link_sets(peer, bit));
        }
    }
}

/// Whether two nodes on a line hold a tree link, and the second has heard what
/// the first last had to say of its own side of it.
pub open spec fn tells<S: Signer>(line: Seq<NodeView<S>>, at: int) -> bool {
    let (near, far) = (line[at], line[at + 1]);
    &&& far.peers.contains_key(near.key)
    &&& far.is_tree_neighbour(near.key)
    &&& far.peers[near.key].beyond == near.summary_beyond(far.key)
}

/// Whether a line of nodes runs along the tree without turning back, each
/// having been told what lies behind it.
pub open spec fn is_line<S: Signer>(line: Seq<NodeView<S>>) -> bool {
    &&& forall|i: int| 0 <= i < line.len() - 1 ==> #[trigger] tells(line, i)
    &&& forall|i: int| 0 < i < line.len() - 1 ==> line[i - 1].key != (#[trigger] line[i + 1]).key
}

/// On a settled tree, every node on the way to a target is told that it lies
/// that way.
proof fn lemma_line_claims<S: Signer>(line: Seq<NodeView<S>>, at: int)
    requires
        is_line(line),
        0 <= at < line.len() - 1,
    ensures
        summary::claims(line[at + 1].peers[line[at].key].beyond, line[0].key),
    decreases at,
{
    assert(tells(line, at));
    if at == 0 {
        law_summaries_claim_what_lies_beyond(line[0], line[1].key, line[1].key, line[0].key);
    } else {
        lemma_line_claims(line, at - 1);
        assert(tells(line, at - 1));
        assert(line[at - 1].key != line[at + 1].key);
        law_summaries_claim_what_lies_beyond(
            line[at],
            line[at + 1].key,
            line[at - 1].key,
            line[0].key,
        );
    }
}

/// On a settled tree a search cannot fail to find a node that is there: every
/// node on the way to it passes the search on to the next.
pub proof fn law_a_search_finds_what_is_there<S: Signer>(
    line: Seq<NodeView<S>>,
    at: int,
    lookup: LookupView,
)
    requires
        is_line(line),
        0 <= at < line.len() - 1,
        sorted_map::is_listed(line[at + 1].peers),
        lookup.target == line[0].key,
        !lookup.trail.contains(line[at].key),
    ensures
        line[at + 1].searched(lookup).contains(
            (EnvelopeView { to: line[at].key, message: MessageView::Lookup(lookup) }),
        ),
{
    lemma_line_claims(line, at);
    assert(tells(line, at));
    law_a_search_overlooks_nothing(line[at + 1], lookup, line[at].key);
}

/// The trail a search leaves that has come along a line from its far end down
/// to the node after `at`.
pub open spec fn trail<S: Signer>(line: Seq<NodeView<S>>, at: int) -> Seq<PublicKey> {
    Seq::new((line.len() - 1 - at) as nat, |j: int| line[line.len() - 1 - j].key)
}

/// Whether a line of nodes can carry a search and its answer: it runs along the
/// tree, no node is on it twice, and each holds links to those beside it.
pub open spec fn carries<S: Signer>(line: Seq<NodeView<S>>) -> bool {
    &&& is_line(line)
    &&& forall|i: int| 0 <= i < line.len() ==> sorted_map::is_listed((#[trigger] line[i]).peers)
    &&& forall|i: int, j: int|
        0 <= i < j < line.len() ==> (#[trigger] line[i]).key != (#[trigger] line[j]).key
    &&& forall|i: int|
        0 <= i < line.len() - 1 ==> (#[trigger] line[i]).peers.contains_key(line[i + 1].key)
}

proof fn lemma_trail<S: Signer>(line: Seq<NodeView<S>>, at: int)
    requires
        carries(line),
        0 < at < line.len(),
    ensures
        trail(line, at).push(line[at].key) == trail(line, at - 1),
        trail(line, at - 1).drop_last() == trail(line, at),
        trail(line, at - 1).last() == line[at].key,
        !trail(line, at).contains(line[at].key),
        !trail(line, at - 1).contains(line[at - 1].key),
        at < line.len() - 1 ==> trail(line, at).len() > 0 && trail(line, at).last() == line[at
            + 1].key,
{
    assert(trail(line, at).push(line[at].key) =~= trail(line, at - 1));
    assert(trail(line, at - 1).drop_last() =~= trail(line, at));
}

/// A search sets out from the far end of a line towards the node at its head.
pub proof fn law_a_search_sets_out<S: Signer>(line: Seq<NodeView<S>>, now: u64, nonce: Nonce)
    requires
        carries(line),
        line.len() >= 2,
    ensures
        ({
            let at = line.len() - 1;
            let lookup = LookupView { target: line[0].key, nonce, trail: trail(line, at - 1) };
            let step = line[at].looked_up(now, line[0].key, nonce);
            &&& step.out.contains(
                (EnvelopeView { to: line[at - 1].key, message: MessageView::Lookup(lookup) }),
            )
            &&& step.node.pending.contains_key(nonce)
            &&& step.node.pending[nonce].target == line[0].key
        }),
{
    let at = line.len() - 1;
    lemma_trail(line, at);
    assert(trail(line, at - 1) =~= seq![line[at].key]);
    let lookup = LookupView { target: line[0].key, nonce, trail: trail(line, at - 1) };
    let asking = line[at].looked_up(now, line[0].key, nonce).node;
    assert(line[0].key != line[at].key);
    lemma_line_claims(line, at - 1);
    assert(tells(line, at - 1));
    law_a_search_overlooks_nothing(asking, lookup, line[at - 1].key);
}

/// Every node on the way passes the search on to the next.
pub proof fn law_a_search_goes_on<S: Signer>(
    line: Seq<NodeView<S>>,
    at: int,
    now: u64,
    nonce: Nonce,
)
    requires
        carries(line),
        0 < at < line.len() - 1,
    ensures
        ({
            let came = LookupView { target: line[0].key, nonce, trail: trail(line, at) };
            let goes = LookupView { target: line[0].key, nonce, trail: trail(line, at - 1) };
            line[at].handled(now, line[at + 1].key, MessageView::Lookup(came)).out.contains(
                (EnvelopeView { to: line[at - 1].key, message: MessageView::Lookup(goes) }),
            )
        }),
{
    lemma_trail(line, at);
    let goes = LookupView { target: line[0].key, nonce, trail: trail(line, at - 1) };
    assert(line[0].key != line[at].key);
    law_a_search_finds_what_is_there(line, at - 1, goes);
}

/// The node searched for answers with where it sits, and vouches for it.
pub proof fn law_a_search_is_answered<S: Signer>(
    line: Seq<NodeView<S>>,
    now: u64,
    nonce: Nonce,
)
    requires
        carries(line),
        line.len() >= 2,
        line[0].wf(),
        line[0].stands_on_consent(),
        signature::sound(line[0].signer),
    ensures
        ({
            let came = LookupView { target: line[0].key, nonce, trail: trail(line, 0) };
            let found = message::answered(line[0].signer, line[0].walk, nonce, trail(line, 0));
            &&& line[0].handled(now, line[1].key, MessageView::Lookup(came)).out == seq![
                EnvelopeView { to: line[1].key, message: MessageView::Found(found) },
            ]
            &&& message::vouched_for::<S>(found)
        }),
{
    lemma_trail(line, 1);
    assert(line[0].peers.contains_key(line[1].key));
    let statement = message::reply(nonce, line[0].walk);
    assert(S::accepts(
        line[0].signer.speaks_for(),
        statement,
        line[0].signer.signs(statement),
    ));
}

/// Every node on the way back passes the answer on to the one the search came
/// from.
pub proof fn law_an_answer_retraces_the_search<S: Signer>(
    line: Seq<NodeView<S>>,
    at: int,
    now: u64,
    found: FoundView,
)
    requires
        carries(line),
        0 < at < line.len() - 1,
        message::vouched_for::<S>(found),
        found.trail == trail(line, at - 1),
    ensures
        line[at].handled(now, line[at - 1].key, MessageView::Found(found)).out == seq![
            EnvelopeView {
                to: line[at + 1].key,
                message: MessageView::Found(FoundView { trail: trail(line, at), ..found }),
            },
        ],
{
    lemma_trail(line, at);
    assert(tells(line, at - 1));
    assert(line[at].peers.contains_key(line[at + 1].key));
}

/// The node that asked holds the answer once it is back, unless it has heard
/// something later meanwhile.
pub proof fn law_an_answer_is_taken<S: Signer>(
    line: Seq<NodeView<S>>,
    now: u64,
    asker: NodeView<S>,
    found: FoundView,
)
    requires
        carries(line),
        line.len() >= 2,
        asker.key == line.last().key,
        asker.peers.contains_key(line[line.len() - 2].key),
        asker.pending.contains_key(found.nonce),
        asker.pending[found.nonce].target == line[0].key,
        bargain::author(found.walk) == line[0].key,
        message::vouched_for::<S>(found),
        found.trail == trail(line, line.len() - 2),
    ensures
        ({
            let after = asker.handled(
                now,
                line[line.len() - 2].key,
                MessageView::Found(found),
            ).node;
            &&& after.infos.contains_key(line[0].key)
            &&& after.infos[line[0].key].walk == if asker.infos.contains_key(line[0].key) {
                bargain::later(found.walk, asker.infos[line[0].key].walk)
            } else {
                found.walk
            }
            &&& !after.pending.contains_key(found.nonce)
        }),
{
    let at = line.len() - 1;
    lemma_trail(line, at);
    assert(trail(line, at) =~= Seq::empty());
    assert(line[0].key != line[at].key);
}

/// Once a peer has been forgotten, whatever it says next is news: one that
/// comes back having started its sequence numbers over is not mistaken for a
/// stale copy of itself.
pub proof fn law_a_forgotten_peer_starts_over<S: Signer>(
    node: NodeView<S>,
    now: u64,
    peer: PublicKey,
    position: Seq<Hop>,
)
    requires
        node.peers.contains_key(peer),
        peer != node.key,
        node.infos.contains_key(peer) ==> !sorted_map::is_fresh(
            node.infos[peer].heard_at,
            now,
            node.timing.expiry,
        ),
        bargain::author(position) == peer,
        bargain::checks_out::<S>(position),
    ensures
        ({
            let after = node.ticked(now).node.handled(
                now,
                peer,
                MessageView::Announce(position),
            ).node;
            &&& !node.ticked(now).node.infos.contains_key(peer)
            &&& after.infos.contains_key(peer)
            &&& after.infos[peer].walk == position
        }),
{
}

/// A walk signed onto stands on consent if the walk above does and the consent
/// for the last step was given.
proof fn lemma_signed_onto_stands<S: Signer>(
    signer: S,
    above: Seq<Hop>,
    cost: u64,
    consent: Option<Signature>,
    seq: u64,
)
    requires
        bargain::consents_given::<S>(above),
        match consent {
            Some(consent) => above.len() > 0 && S::accepts(
                bargain::author(above),
                bargain::agreement(bargain::author(above), signer.speaks_for(), cost),
                consent,
            ),
            None => above.len() == 0,
        },
    ensures
        bargain::consents_given::<S>(bargain::signed_onto(signer, above, cost, consent, seq)),
{
    let walk = bargain::signed_onto(signer, above, cost, consent, seq);
    assert forall|i: int| 0 <= i < walk.len() implies #[trigger] bargain::consent_given::<S>(
        walk,
        i,
    ) by {
        if i < above.len() {
            assert(walk[i] == above[i]);
            if i > 0 {
                assert(walk[i - 1] == above[i - 1]);
            }
            assert(bargain::consent_given::<S>(above, i));
        } else if i > 0 {
            assert(walk[i - 1] == above[i - 1]);
        }
    }
}

/// Settling leaves a node standing on consent.
proof fn lemma_settling_stands<S: Signer>(node: NodeView<S>, now: u64)
    requires
        node.wf(),
        node.stands_on_consent(),
        sorted_map::is_listed(node.peers),
    ensures
        node.settled(now).node.stands_on_consent(),
{
    let seq = node.next_seq();
    let best = node.best_position(seq);
    law_some_position_is_best(node, seq);
    assert(bargain::consents_given::<S>(best)) by {
        if best == bargain::rooted(node.signer, seq) {
            lemma_signed_onto_stands(node.signer, Seq::empty(), 0, None, seq);
        } else {
            let peer = choose|peer: PublicKey| #[trigger] node.candidate(peer, seq) == Some(best);
            let consent = node.peers[peer].consent->0;
            assert(node.infos.contains_key(peer) && node.peers.contains_key(peer));
            assert(consent.holds::<S>());
            lemma_signed_onto_stands(
                node.signer,
                node.infos[peer].walk,
                consent.price(),
                Some(consent.signed()),
                seq,
            );
        }
    }
    let moved = node.reparented(now).node;
    let after = node.settled(now).node;
    assert forall|peer: PublicKey| #[trigger] after.peers.contains_key(peer) implies (
    after.peers[peer].consent matches Some(consent) ==> consent.holds::<S>()) by {
        assert(moved.peers.contains_key(peer));
        assert(node.peers.contains_key(peer));
    }
}

/// Whether a message is one that can be made: its walks are shaped like walks,
/// and the consent in it was signed by the node that gave it.
pub open spec fn is_sayable<S: Signer>(message: MessageView) -> bool {
    match message {
        MessageView::Announce(position) => bargain::shaped(position),
        MessageView::Found(found) => bargain::shaped(found.walk),
        MessageView::Consent(consent) => consent.holds::<S>(),
        _ => true,
    }
}

/// Whatever happens to a node, it sits only where every node above it has
/// agreed to have the one below.
pub proof fn law_a_node_stands_on_consent<S: Signer>(
    node: NodeView<S>,
    now: u64,
    peer: PublicKey,
    cost: Cost,
    message: MessageView,
)
    requires
        node.wf(),
        node.stands_on_consent(),
        sorted_map::is_listed(node.peers),
        is_sayable::<S>(message),
    ensures
        node.ticked(now).node.stands_on_consent(),
        node.peer_added(now, peer, cost).node.stands_on_consent(),
        node.peer_removed(now, peer).node.stands_on_consent(),
        node.handled(now, peer, message).node.stands_on_consent(),
{
    lemma_ticking_stands(node, now);
    lemma_linking_stands(node, now, peer, cost);
    lemma_unlinking_stands(node, now, peer);
    if node.peers.contains_key(peer) {
        lemma_hearing_stands(node, now, peer, message);
    }
}

proof fn lemma_ticking_stands<S: Signer>(node: NodeView<S>, now: u64)
    requires
        node.wf(),
        node.stands_on_consent(),
        sorted_map::is_listed(node.peers),
    ensures
        node.ticked(now).node.stands_on_consent(),
{
    let kept = NodeView {
        infos: sorted_map::fresh_part::<PublicKey, Info>(node.infos, now, node.timing.expiry),
        pending: sorted_map::fresh_part::<Nonce, Pending>(node.pending, now, node.timing.expiry),
        ..node
    };
    assert(kept.wf());
    lemma_settling_stands(kept, now);
    let settled = kept.settled(now).node;
    let walk = settled.walk;
    lemma_settled_is_authored(kept, now);
    let above = walk.drop_last();
    assert forall|i: int| 0 <= i < above.len() implies #[trigger] bargain::consent_given::<S>(
        above,
        i,
    ) by {
        assert(bargain::consent_given::<S>(walk, i));
    }
    assert(bargain::consent_given::<S>(walk, walk.len() - 1));
    lemma_signed_onto_stands(
        settled.signer,
        above,
        walk.last().cost,
        walk.last().consent,
        settled.next_seq(),
    );
}

/// A node sits at the end of its own walk.
proof fn lemma_settled_is_authored<S: Signer>(node: NodeView<S>, now: u64)
    requires
        node.wf(),
        sorted_map::is_listed(node.peers),
    ensures
        node.settled(now).node.walk.len() > 0,
        node.settled(now).node.walk.last().key == node.signer.speaks_for(),
        node.settled(now).node.signer == node.signer,
{
    let seq = node.next_seq();
    law_some_position_is_best(node, seq);
}

proof fn lemma_linking_stands<S: Signer>(node: NodeView<S>, now: u64, peer: PublicKey, cost: Cost)
    requires
        node.wf(),
        node.stands_on_consent(),
        sorted_map::is_listed(node.peers),
    ensures
        node.peer_added(now, peer, cost).node.stands_on_consent(),
{
    if peer != node.key {
        let state = if node.peers.contains_key(peer) {
            PeerView { cost, ..node.peers[peer] }
        } else {
            PeerView { cost, beyond: Set::empty(), told: None, consent: None }
        };
        let linked = NodeView { peers: node.peers.insert(peer, state), ..node };
        sorted_map::lemma_insert_is_listed(node.peers, peer, state);
        assert(linked.wf()) by {
            assert forall|other: PublicKey| #[trigger] linked.peers.contains_key(other) implies (
            linked.peers[other].consent matches Some(consent) ==> consent.given_by() == other
                && consent.given_to() == linked.key) by {
                assert(other == peer || node.peers.contains_key(other));
            }
        }
        assert(linked.stands_on_consent()) by {
            assert forall|other: PublicKey| #[trigger] linked.peers.contains_key(other) implies (
            linked.peers[other].consent matches Some(consent) ==> consent.holds::<S>()) by {
                assert(other == peer || node.peers.contains_key(other));
            }
        }
        lemma_settling_stands(linked, now);
    }
}

proof fn lemma_unlinking_stands<S: Signer>(node: NodeView<S>, now: u64, peer: PublicKey)
    requires
        node.wf(),
        node.stands_on_consent(),
        sorted_map::is_listed(node.peers),
    ensures
        node.peer_removed(now, peer).node.stands_on_consent(),
        forall|fault: Fault| #[trigger]
            node.peer_evicted(now, peer, fault).node.stands_on_consent(),
{
    let cut = NodeView { peers: node.peers.remove(peer), ..node };
    sorted_map::lemma_remove_is_listed(node.peers, peer);
    assert(cut.wf());
    assert(cut.stands_on_consent());
    lemma_settling_stands(cut, now);
    assert forall|fault: Fault| #[trigger]
        node.peer_evicted(now, peer, fault).node.stands_on_consent() by {
        let evicting = NodeView { evicted: node.evicted.push(Eviction { peer, fault }), ..cut };
        assert(evicting.wf());
        assert(evicting.stands_on_consent());
        lemma_settling_stands(evicting, now);
    }
}

proof fn lemma_keeping_stands<S: Signer>(node: NodeView<S>, now: u64, position: Seq<Hop>)
    requires
        node.wf(),
        node.stands_on_consent(),
        sorted_map::is_listed(node.peers),
        bargain::shaped(position),
        bargain::author(position) != node.key,
        bargain::checks_out::<S>(position),
    ensures
        node.keeping(now, position).settled(now).node.stands_on_consent(),
{
    let keeping = node.keeping(now, position);
    assert(keeping.wf()) by {
        assert forall|other: PublicKey| #[trigger]
            keeping.infos.contains_key(other) implies bargain::shaped(keeping.infos[other].walk)
            && bargain::author(keeping.infos[other].walk) == other && bargain::checks_out::<S>(
            keeping.infos[other].walk,
        ) by {
            assert(other == bargain::author(position) || node.infos.contains_key(other));
        }
    }
    lemma_settling_stands(keeping, now);
}

proof fn lemma_hearing_stands<S: Signer>(
    node: NodeView<S>,
    now: u64,
    from: PublicKey,
    message: MessageView,
)
    requires
        node.wf(),
        node.stands_on_consent(),
        sorted_map::is_listed(node.peers),
        is_sayable::<S>(message),
        node.peers.contains_key(from),
    ensures
        node.handled(now, from, message).node.stands_on_consent(),
{
    lemma_unlinking_stands(node, now, from);
    match message {
        MessageView::Announce(position) => {
            assert(node.peer_evicted(
                now,
                from,
                Fault::AnnouncementAboutAnother,
            ).node.stands_on_consent());
            assert(node.peer_evicted(
                now,
                from,
                Fault::ForgedAnnouncement,
            ).node.stands_on_consent());
            if node.is_news(position) && bargain::checks_out::<S>(position) {
                lemma_keeping_stands(node, now, position);
            }
        },
        MessageView::Summary(beyond) => {
            lemma_relinking_stands(node, now, from, PeerView { beyond, ..node.peers[from] });
        },
        MessageView::Consent(consent) => {
            assert(node.peer_evicted(
                now,
                from,
                Fault::MisdirectedConsent,
            ).node.stands_on_consent());
            if consent.given_by() == from && consent.given_to() == node.key {
                lemma_relinking_stands(
                    node,
                    now,
                    from,
                    PeerView { consent: Some(consent), ..node.peers[from] },
                );
            }
        },
        MessageView::Found(found) => {
            assert(node.peer_evicted(now, from, Fault::ForgedAnswer).node.stands_on_consent());
            let closed = NodeView { pending: node.pending.remove(found.nonce), ..node };
            assert(closed.wf());
            assert(closed.stands_on_consent());
            if closed.is_news(found.walk) && message::vouched_for::<S>(found) {
                lemma_keeping_stands(closed, now, found.walk);
            }
        },
        _ => {},
    }
}

proof fn lemma_relinking_stands<S: Signer>(
    node: NodeView<S>,
    now: u64,
    peer: PublicKey,
    state: PeerView,
)
    requires
        node.wf(),
        node.stands_on_consent(),
        sorted_map::is_listed(node.peers),
        node.peers.contains_key(peer),
        state.consent matches Some(consent) ==> consent.given_by() == peer && consent.given_to()
            == node.key && consent.holds::<S>(),
    ensures
        (NodeView { peers: node.peers.insert(peer, state), ..node }).settled(
            now,
        ).node.stands_on_consent(),
{
    let linked = NodeView { peers: node.peers.insert(peer, state), ..node };
    sorted_map::lemma_insert_is_listed(node.peers, peer, state);
    assert(linked.wf()) by {
        assert forall|other: PublicKey| #[trigger] linked.peers.contains_key(other) implies (
        linked.peers[other].consent matches Some(consent) ==> consent.given_by() == other
            && consent.given_to() == linked.key) by {
            assert(other == peer || node.peers.contains_key(other));
        }
    }
    assert(linked.stands_on_consent()) by {
        assert forall|other: PublicKey| #[trigger] linked.peers.contains_key(other) implies (
        linked.peers[other].consent matches Some(consent) ==> consent.holds::<S>()) by {
            assert(other == peer || node.peers.contains_key(other));
        }
    }
    lemma_settling_stands(linked, now);
}

/// Whether everything said about a position is about this node's own.
pub open spec fn speaks_only_of_itself(key: PublicKey, out: Seq<EnvelopeView>) -> bool {
    forall|i: int|
        0 <= i < out.len() ==> ((#[trigger] out[i]).message matches MessageView::Announce(position)
            ==> bargain::author(position) == key)
}

/// Settling has a node speak of no position but its own.
proof fn lemma_settling_speaks_of_itself<S: Signer>(node: NodeView<S>, now: u64)
    requires
        node.wf(),
        sorted_map::is_listed(node.peers),
    ensures
        speaks_only_of_itself(node.key, node.settled(now).out),
        node.settled(now).node.key == node.key,
{
    let seq = node.next_seq();
    law_some_position_is_best(node, seq);
    let moved = node.reparented(now);
    let said = moved.node.resummarised();
    let out = node.settled(now).out;
    assert forall|i: int| 0 <= i < out.len() implies (
    (#[trigger] out[i]).message matches MessageView::Announce(position) ==> bargain::author(
        position,
    ) == node.key) by {
        if i < moved.out.len() {
            assert(out[i] == moved.out[i]);
        } else {
            assert(out[i] == said.out[i - moved.out.len()]);
            assert(out[i].message is Summary);
        }
    }
}

/// A link priced or told something has a node speak of no position but its own.
proof fn lemma_relinking_speaks_of_itself<S: Signer>(
    node: NodeView<S>,
    now: u64,
    peer: PublicKey,
    state: PeerView,
)
    requires
        node.wf(),
        sorted_map::is_listed(node.peers),
        peer != node.key,
        state.consent matches Some(consent) ==> consent.given_by() == peer && consent.given_to()
            == node.key,
    ensures
        speaks_only_of_itself(
            node.key,
            (NodeView { peers: node.peers.insert(peer, state), ..node }).settled(now).out,
        ),
{
    let linked = NodeView { peers: node.peers.insert(peer, state), ..node };
    sorted_map::lemma_insert_is_listed(node.peers, peer, state);
    assert(linked.wf()) by {
        assert forall|other: PublicKey| #[trigger] linked.peers.contains_key(other) implies (
        linked.peers[other].consent matches Some(consent) ==> consent.given_by() == other
            && consent.given_to() == linked.key) by {
            assert(other == peer || node.peers.contains_key(other));
        }
    }
    lemma_settling_speaks_of_itself(linked, now);
}

/// A link lost has a node speak of no position but its own.
proof fn lemma_unlinking_speaks_of_itself<S: Signer>(node: NodeView<S>, now: u64, peer: PublicKey)
    requires
        node.wf(),
        sorted_map::is_listed(node.peers),
    ensures
        speaks_only_of_itself(node.key, node.peer_removed(now, peer).out),
        forall|fault: Fault|
            speaks_only_of_itself(node.key, #[trigger] node.peer_evicted(now, peer, fault).out),
{
    let cut = NodeView { peers: node.peers.remove(peer), ..node };
    sorted_map::lemma_remove_is_listed(node.peers, peer);
    assert(cut.wf());
    lemma_settling_speaks_of_itself(cut, now);
    assert forall|fault: Fault|
        speaks_only_of_itself(
            node.key,
            #[trigger] node.peer_evicted(now, peer, fault).out,
        ) by {
        let evicting = NodeView { evicted: node.evicted.push(Eviction { peer, fault }), ..cut };
        assert(evicting.wf());
        lemma_settling_speaks_of_itself(evicting, now);
    }
}

/// A position filed has a node speak of no position but its own.
proof fn lemma_keeping_speaks_of_itself<S: Signer>(node: NodeView<S>, now: u64, position: Seq<Hop>)
    requires
        node.wf(),
        sorted_map::is_listed(node.peers),
        bargain::shaped(position),
        bargain::author(position) != node.key,
        bargain::checks_out::<S>(position),
    ensures
        speaks_only_of_itself(node.key, node.keeping(now, position).settled(now).out),
{
    let keeping = node.keeping(now, position);
    assert(keeping.wf()) by {
        assert forall|other: PublicKey| #[trigger]
            keeping.infos.contains_key(other) implies bargain::shaped(keeping.infos[other].walk)
            && bargain::author(keeping.infos[other].walk) == other && bargain::checks_out::<S>(
            keeping.infos[other].walk,
        ) by {
            assert(other == bargain::author(position) || node.infos.contains_key(other));
        }
    }
    lemma_settling_speaks_of_itself(keeping, now);
}

/// A message heard has a node speak of no position but its own.
proof fn lemma_hearing_speaks_of_itself<S: Signer>(
    node: NodeView<S>,
    now: u64,
    from: PublicKey,
    message: MessageView,
)
    requires
        node.wf(),
        sorted_map::is_listed(node.peers),
        is_sayable::<S>(message),
        node.peers.contains_key(from),
    ensures
        speaks_only_of_itself(node.key, node.handled(now, from, message).out),
{
    lemma_unlinking_speaks_of_itself(node, now, from);
    let (about, forged) = (
        node.peer_evicted(now, from, Fault::AnnouncementAboutAnother),
        node.peer_evicted(now, from, Fault::ForgedAnnouncement),
    );
    let (misdirected, made_up) = (
        node.peer_evicted(now, from, Fault::MisdirectedConsent),
        node.peer_evicted(now, from, Fault::ForgedAnswer),
    );
    match message {
        MessageView::Announce(position) => {
            if node.is_news(position) && bargain::checks_out::<S>(position) {
                lemma_keeping_speaks_of_itself(node, now, position);
            }
        },
        MessageView::Summary(beyond) => {
            lemma_relinking_speaks_of_itself(
                node,
                now,
                from,
                PeerView { beyond, ..node.peers[from] },
            );
        },
        MessageView::Consent(consent) => {
            if consent.given_by() == from && consent.given_to() == node.key {
                lemma_relinking_speaks_of_itself(
                    node,
                    now,
                    from,
                    PeerView { consent: Some(consent), ..node.peers[from] },
                );
            }
        },
        MessageView::Found(found) => {
            let closed = NodeView { pending: node.pending.remove(found.nonce), ..node };
            assert(closed.wf());
            if closed.is_news(found.walk) && message::vouched_for::<S>(found) {
                lemma_keeping_speaks_of_itself(closed, now, found.walk);
            }
        },
        _ => {},
    }
}

/// An announcement crosses one link and stops: a node only ever says where it
/// sits itself.
pub proof fn law_nothing_is_relayed<S: Signer>(
    node: NodeView<S>,
    now: u64,
    peer: PublicKey,
    cost: Cost,
    message: MessageView,
)
    requires
        node.wf(),
        sorted_map::is_listed(node.peers),
        is_sayable::<S>(message),
    ensures
        speaks_only_of_itself(node.key, node.ticked(now).out),
        speaks_only_of_itself(node.key, node.peer_added(now, peer, cost).out),
        speaks_only_of_itself(node.key, node.peer_removed(now, peer).out),
        speaks_only_of_itself(node.key, node.handled(now, peer, message).out),
{
    lemma_ticking_speaks_of_itself(node, now);
    if peer != node.key {
        let state = if node.peers.contains_key(peer) {
            PeerView { cost, ..node.peers[peer] }
        } else {
            PeerView { cost, beyond: Set::empty(), told: None, consent: None }
        };
        lemma_relinking_speaks_of_itself(node, now, peer, state);
        let after = NodeView { peers: node.peers.insert(peer, state), ..node }.settled(now);
        let added = node.peer_added(now, peer, cost);
        let greeted = added.out.len() - after.out.len();
        assert forall|i: int| 0 <= i < added.out.len() implies (
        (#[trigger] added.out[i]).message matches MessageView::Announce(position)
            ==> bargain::author(position) == node.key) by {
            if 0 <= i - greeted < after.out.len() {
                assert(after.out[i - greeted] == added.out[i]);
            }
        }
    }
    lemma_unlinking_speaks_of_itself(node, now, peer);
    if node.peers.contains_key(peer) {
        lemma_hearing_speaks_of_itself(node, now, peer, message);
    }
}

/// The clock moving has a node speak of no position but its own.
proof fn lemma_ticking_speaks_of_itself<S: Signer>(node: NodeView<S>, now: u64)
    requires
        node.wf(),
        sorted_map::is_listed(node.peers),
    ensures
        speaks_only_of_itself(node.key, node.ticked(now).out),
{
    let kept = NodeView {
        infos: sorted_map::fresh_part::<PublicKey, Info>(node.infos, now, node.timing.expiry),
        pending: sorted_map::fresh_part::<Nonce, Pending>(node.pending, now, node.timing.expiry),
        ..node
    };
    assert(kept.wf());
    lemma_settling_speaks_of_itself(kept, now);
    lemma_settled_is_authored(kept, now);
    let settled = kept.settled(now);
    let ticked = node.ticked(now);
    assert forall|i: int| 0 <= i < ticked.out.len() implies (
    (#[trigger] ticked.out[i]).message matches MessageView::Announce(position)
        ==> bargain::author(position) == node.key) by {
        if i < settled.out.len() {
            assert(ticked.out[i] == settled.out[i]);
        }
    }
}

/// What a node holds does not grow by what it is told: it learns where a peer
/// sits from that peer, and where anybody else sits only if it has asked.
pub proof fn law_a_node_learns_only_what_it_asked<S: Signer>(
    node: NodeView<S>,
    now: u64,
    from: PublicKey,
    message: MessageView,
    key: PublicKey,
)
    requires
        node.handled(now, from, message).node.infos.contains_key(key),
        !node.infos.contains_key(key) || node.handled(now, from, message).node.infos[key]
            != node.infos[key],
    ensures
        node.peers.contains_key(from),
        match message {
            MessageView::Announce(position) => key == from && bargain::author(position) == from,
            MessageView::Found(found) => node.pending.contains_key(found.nonce)
                && node.pending[found.nonce].target == key,
            _ => false,
        },
{
}

/// Whether a node has settled into a network: it sits in the most preferred
/// position on offer, links run both ways and both ends agree to carry the
/// other, and it holds its peers' positions as they are.
pub open spec fn has_settled_into<S: Signer>(
    network: Map<PublicKey, NodeView<S>>,
    at: PublicKey,
) -> bool {
    let node = network[at];
    &&& node.key == at
    &&& node.wf()
    &&& sorted_map::is_listed(node.peers)
    &&& bargain::same_walk(node.best_position(node.next_seq()), node.walk)
    &&& forall|peer: PublicKey| #[trigger]
        node.peers.contains_key(peer) ==> network.contains_key(peer)
            && network[peer].peers.contains_key(at) && node.peers[peer].consent is Some
            && node.infos.contains_key(peer) && bargain::same_walk(
            node.infos[peer].walk,
            network[peer].walk,
        )
}

/// Whether every node of a network has settled into it.
pub open spec fn is_settled<S: Signer>(network: Map<PublicKey, NodeView<S>>) -> bool {
    forall|at: PublicKey| #[trigger] network.contains_key(at) ==> has_settled_into(network, at)
}

/// Where a settled node does not root itself it sits below a peer, just below
/// where that peer sits.
proof fn lemma_settled_below_a_peer<S: Signer>(
    network: Map<PublicKey, NodeView<S>>,
    at: PublicKey,
) -> (above: PublicKey)
    requires
        is_settled(network),
        network.contains_key(at),
        network[at].walk.len() > 1,
    ensures
        network[at].peers.contains_key(above),
        network.contains_key(above),
        bargain::same_walk(network[above].walk, network[at].walk.drop_last()),
        bargain::parent(network[at].walk) == Some(above),
        network[at].infos.contains_key(above),
        bargain::same_walk(network[at].infos[above].walk, network[at].walk.drop_last()),
{
    assert(has_settled_into(network, at));
    let node = network[at];
    let (walk, seq) = (node.walk, node.next_seq());
    let best = node.best_position(seq);
    law_some_position_is_best(node, seq);
    assert(best.len() == walk.len()) by {
        assert(bargain::keys(best).len() == bargain::keys(walk).len());
    }
    let above = choose|peer: PublicKey| #[trigger] node.candidate(peer, seq) == Some(best);
    lemma_candidate(node, above, seq);
    assert(node.peers.contains_key(above));
    assert(has_settled_into(network, above));
    let up = node.infos[above].walk;
    assert(bargain::keys(up) =~= bargain::keys(best).drop_last());
    assert(bargain::prices(up) =~= bargain::prices(best).drop_last());
    assert(bargain::keys(walk.drop_last()) =~= bargain::keys(walk).drop_last());
    assert(bargain::prices(walk.drop_last()) =~= bargain::prices(walk).drop_last());
    assert(bargain::keys(walk)[walk.len() - 2] == bargain::keys(best)[walk.len() - 2]);
    above
}

/// In a settled network a walk is made of the walks of the nodes along it.
pub proof fn law_a_settled_walk_is_made_of_walks<S: Signer>(
    network: Map<PublicKey, NodeView<S>>,
    at: PublicKey,
    i: int,
)
    requires
        is_settled(network),
        network.contains_key(at),
        0 <= i < network[at].walk.len(),
    ensures
        ({
            let key = network[at].walk[i].key;
            &&& network.contains_key(key)
            &&& bargain::same_walk(network[key].walk, network[at].walk.take(i + 1))
        }),
    decreases network[at].walk.len(),
{
    assert(has_settled_into(network, at));
    let walk = network[at].walk;
    if i == walk.len() - 1 {
        assert(walk.take(i + 1) =~= walk);
    } else {
        let above = lemma_settled_below_a_peer(network, at);
        let shorter = network[above].walk;
        assert(bargain::keys(shorter).len() == bargain::keys(walk.drop_last()).len());
        assert(bargain::keys(shorter)[i] == bargain::keys(walk.drop_last())[i]);
        law_a_settled_walk_is_made_of_walks(network, above, i);
        assert(bargain::keys(shorter.take(i + 1)) =~= bargain::keys(shorter).take(i + 1));
        assert(bargain::keys(walk.take(i + 1)) =~= bargain::keys(walk.drop_last()).take(i + 1));
        assert(bargain::prices(shorter.take(i + 1)) =~= bargain::prices(shorter).take(i + 1));
        assert(bargain::prices(walk.take(i + 1)) =~= bargain::prices(walk.drop_last()).take(i + 1));
    }
}

/// Nobody settles for a larger root than a peer answers to, or than itself.
proof fn lemma_settled_root_is_no_larger<S: Signer>(
    network: Map<PublicKey, NodeView<S>>,
    at: PublicKey,
    peer: PublicKey,
)
    requires
        is_settled(network),
        network.contains_key(at),
        network[at].peers.contains_key(peer),
    ensures
        network[at].walk[0].key.rank() <= network[peer].walk[0].key.rank(),
        network[at].walk[0].key.rank() <= at.rank(),
{
    assert(has_settled_into(network, at));
    assert(has_settled_into(network, peer));
    lemma_settled_root_is_no_larger_than_itself(network, at);
    let node = network[at];
    let seq = node.next_seq();
    let best = node.best_position(seq);
    law_some_position_is_best(node, seq);
    assert(bargain::keys(best)[0] == bargain::keys(node.walk)[0]);
    let held = node.infos[peer].walk;
    let below = network[peer].walk;
    assert(bargain::keys(held)[0] == bargain::keys(below)[0]);
    match node.candidate(peer, seq) {
        Some(position) => {
            lemma_candidate(node, peer, seq);
            assert(node.on_offer(position, seq));
            assert(position[0] == held[0]);
        },
        None => {
            let consent = node.peers[peer].consent->0;
            assert(consent.given_by() == peer && consent.given_to() == at);
            assert(bargain::keys(held).contains(at));
            let i = choose|i: int|
                0 <= i < bargain::keys(held).len() && bargain::keys(held)[i] == at;
            assert(bargain::keys(below)[i] == at);
            law_a_settled_walk_is_made_of_walks(network, peer, i);
            assert(bargain::keys(below.take(i + 1))[0] == below[0].key);
            assert(bargain::keys(node.walk)[0] == node.walk[0].key);
        },
    }
}

/// Nobody settles for a larger root than itself.
proof fn lemma_settled_root_is_no_larger_than_itself<S: Signer>(
    network: Map<PublicKey, NodeView<S>>,
    at: PublicKey,
)
    requires
        is_settled(network),
        network.contains_key(at),
    ensures
        network[at].walk[0].key.rank() <= at.rank(),
{
    assert(has_settled_into(network, at));
    let node = network[at];
    let seq = node.next_seq();
    let best = node.best_position(seq);
    law_some_position_is_best(node, seq);
    assert(bargain::keys(best)[0] == bargain::keys(node.walk)[0]);
    assert(node.on_offer(bargain::rooted(node.signer, seq), seq));
}

/// Whether each node on a chain is linked to the next.
pub open spec fn is_chain<S: Signer>(
    network: Map<PublicKey, NodeView<S>>,
    chain: Seq<PublicKey>,
) -> bool {
    &&& chain.len() > 0
    &&& network.contains_key(chain[0])
    &&& forall|i: int| 0 < i < chain.len() ==> network[chain[i - 1]].peers.contains_key(
        #[trigger] chain[i],
    )
}

/// However two nodes of a settled network are connected, they answer to the
/// same root.
pub proof fn law_a_settled_network_agrees_on_its_root<S: Signer>(
    network: Map<PublicKey, NodeView<S>>,
    chain: Seq<PublicKey>,
)
    requires
        is_settled(network),
        is_chain(network, chain),
    ensures
        network.contains_key(chain.last()),
        network[chain.last()].walk[0].key == network[chain[0]].walk[0].key,
    decreases chain.len(),
{
    if chain.len() > 1 {
        let shorter = chain.drop_last();
        assert forall|i: int| 0 < i < shorter.len() implies network[shorter[i
            - 1]].peers.contains_key(#[trigger] shorter[i]) by {
            assert(shorter[i] == chain[i]);
        }
        law_a_settled_network_agrees_on_its_root(network, shorter);
        let (near, far) = (shorter.last(), chain[chain.len() - 1]);
        assert(network[near].peers.contains_key(far));
        assert(has_settled_into(network, near));
        lemma_settled_root_is_no_larger(network, near, far);
        lemma_settled_root_is_no_larger(network, far, near);
        PublicKey::rank_tells_apart(network[near].walk[0].key, network[far].walk[0].key);
    }
}

/// The node holding the smallest key in a connected component becomes the root:
/// whoever a settled node answers to is a node of the network, roots itself,
/// and holds no larger a key than anybody it is connected to.
pub proof fn law_the_smallest_key_becomes_the_root<S: Signer>(
    network: Map<PublicKey, NodeView<S>>,
    chain: Seq<PublicKey>,
)
    requires
        is_settled(network),
        is_chain(network, chain),
    ensures
        ({
            let root = network[chain[0]].walk[0].key;
            &&& network.contains_key(root)
            &&& bargain::parent(network[root].walk) is None
            &&& network[root].walk[0].key == root
            &&& root.rank() <= chain.last().rank()
        }),
{
    let (first, last) = (chain[0], chain.last());
    assert(has_settled_into(network, first));
    let walk = network[first].walk;
    law_a_settled_walk_is_made_of_walks(network, first, 0);
    let root = walk[0].key;
    assert(has_settled_into(network, root));
    assert(bargain::keys(network[root].walk).len() == bargain::keys(walk.take(1)).len());
    assert(bargain::keys(network[root].walk)[0] == bargain::keys(walk.take(1))[0]);
    law_a_settled_network_agrees_on_its_root(network, chain);
    lemma_settled_root_is_no_larger_than_itself(network, last);
}

/// The way up a settled tree: every node on a walk but the last is linked to
/// the next, so a node is connected to its root.
pub proof fn law_a_settled_walk_is_a_chain<S: Signer>(
    network: Map<PublicKey, NodeView<S>>,
    at: PublicKey,
)
    requires
        is_settled(network),
        network.contains_key(at),
    ensures
        is_chain(network, bargain::keys(network[at].walk)),
{
    assert(has_settled_into(network, at));
    let walk = network[at].walk;
    let keys = bargain::keys(walk);
    law_a_settled_walk_is_made_of_walks(network, at, 0);
    assert forall|i: int| 0 < i < keys.len() implies network[keys[i - 1]].peers.contains_key(
        #[trigger] keys[i],
    ) by {
        law_a_settled_walk_is_made_of_walks(network, at, i);
        let child = walk[i].key;
        let part = walk.take(i + 1);
        assert(has_settled_into(network, child));
        assert(bargain::keys(network[child].walk).len() == bargain::keys(part).len());
        assert(bargain::keys(network[child].walk)[i - 1] == bargain::keys(part)[i - 1]);
        let above = lemma_settled_below_a_peer(network, child);
        assert(above == walk[i - 1].key);
        assert(has_settled_into(network, above));
    }
}

/// In a settled network every node holds what greedy forwarding rests on: its
/// parent's position, and that of its child on the way to anybody.
proof fn lemma_settled_towards<S: Signer>(
    network: Map<PublicKey, NodeView<S>>,
    at: PublicKey,
    to: PublicKey,
)
    requires
        is_settled(network),
        network.contains_key(at),
        network.contains_key(to),
    ensures
        knows_its_parent(network[at]),
        knows_the_way_down(network[at], network[to].walk),
{
    assert(has_settled_into(network, at));
    assert(has_settled_into(network, to));
    let node = network[at];
    let dst = network[to].walk;
    if node.walk.len() > 1 {
        let above = lemma_settled_below_a_peer(network, at);
    }
    if lies_below(node, dst) {
        let depth = node.walk.len() as int;
        let child = dst[depth].key;
        law_a_settled_walk_is_made_of_walks(network, to, depth);
        law_a_settled_walk_is_a_chain(network, to);
        assert(bargain::keys(dst)[depth] == child);
        assert(bargain::keys(dst)[depth - 1] == at) by {
            assert(bargain::keys(dst.take(depth))[depth - 1] == bargain::keys(node.walk)[depth - 1]);
        }
        assert(node.peers.contains_key(child));
    }
}

/// In a settled network whatever anybody connected to it sends a node by where
/// it sits is delivered.
///
/// No way there may be priced past what can be counted.
pub proof fn law_a_settled_network_delivers<S: Signer>(
    network: Map<PublicKey, NodeView<S>>,
    from: PublicKey,
    to: PublicKey,
) -> (route: Seq<NodeView<S>>)
    requires
        is_settled(network),
        network.contains_key(from),
        network.contains_key(to),
        forall|at: PublicKey| #[trigger]
            network.contains_key(at) ==> network[at].walk[0].key == network[to].walk[0].key
                && walk::toll_between(
                bargain::keys(network[at].walk),
                bargain::prices(network[at].walk),
                bargain::keys(network[to].walk),
                bargain::prices(network[to].walk),
            ) <= u64::MAX,
    ensures
        route.len() > 0,
        route[0] == network[from],
        is_route(route, network[to].walk),
        route.last().key == to,
{
    let dst = network[to].walk;
    assert(has_settled_into(network, to));
    assert forall|at: PublicKey| #[trigger] network.contains_key(at) implies is_settled_towards(
        network,
        at,
        dst,
    ) by {
        assert(has_settled_into(network, at));
        lemma_settled_towards(network, at, to);
    }
    law_a_settled_tree_delivers(network, from, dst)
}

/// Whether two nodes hold links to the same peers, and have leave to sit below
/// each at the same price.
pub open spec fn are_linked_alike<S: Signer>(a: NodeView<S>, b: NodeView<S>) -> bool {
    &&& a.peers.dom() == b.peers.dom()
    &&& forall|peer: PublicKey| #[trigger]
        a.peers.contains_key(peer) ==> (match (a.peers[peer].consent, b.peers[peer].consent) {
            (Some(x), Some(y)) => x.price() == y.price(),
            (None, None) => true,
            _ => false,
        })
}

/// A walk is preferred to whatever lies one step below another copy of it.
proof fn lemma_above_is_preferred(up: Seq<Hop>, walk: Seq<Hop>)
    requires
        walk.len() > 1,
        bargain::same_walk(up, walk.drop_last()),
    ensures
        bargain::preferred(up, walk),
{
    let above = walk.drop_last();
    assert(bargain::keys(up).len() == bargain::keys(above).len());
    assert(bargain::keys(up)[0] == bargain::keys(above)[0]);
    assert(bargain::prices(walk).drop_last() =~= bargain::prices(above));
}

/// The more preferred of where a node sits in two networks.
spec fn better<S: Signer>(
    a: Map<PublicKey, NodeView<S>>,
    b: Map<PublicKey, NodeView<S>>,
    at: PublicKey,
) -> Seq<Hop> {
    if bargain::preferred(a[at].walk, b[at].walk) {
        a[at].walk
    } else {
        b[at].walk
    }
}

/// Of some nodes, the one that sits in the most preferred position.
proof fn lemma_best_placed<S: Signer>(
    a: Map<PublicKey, NodeView<S>>,
    b: Map<PublicKey, NodeView<S>>,
    some: Set<PublicKey>,
) -> (best: PublicKey)
    requires
        some.finite(),
        some.len() > 0,
        forall|at: PublicKey| #[trigger]
            some.contains(at) ==> a[at].walk.len() > 0 && b[at].walk.len() > 0,
    ensures
        some.contains(best),
        forall|at: PublicKey| #[trigger]
            some.contains(at) ==> !bargain::preferred(better(a, b, at), better(a, b, best)),
    decreases some.len(),
{
    let one = some.choose();
    let rest = some.remove(one);
    bargain::law_preference_never_ties(better(a, b, one), better(a, b, one));
    if rest.len() == 0 {
        assert forall|at: PublicKey| #[trigger] some.contains(at) implies !bargain::preferred(
            better(a, b, at),
            better(a, b, one),
        ) by {
            if at != one {
                assert(rest.contains(at));
            }
        }
        one
    } else {
        let other = lemma_best_placed(a, b, rest);
        assert(some.contains(other));
        let (x, y) = (better(a, b, one), better(a, b, other));
        bargain::law_preference_never_ties(x, y);
        if bargain::preferred(x, y) {
            assert forall|at: PublicKey| #[trigger] some.contains(at) implies !bargain::preferred(
                better(a, b, at),
                x,
            ) by {
                if at != one && bargain::preferred(better(a, b, at), x) {
                    assert(rest.contains(at));
                    bargain::law_preference_is_transitive(better(a, b, at), x, y);
                }
            }
            one
        } else {
            assert forall|at: PublicKey| #[trigger] some.contains(at) implies !bargain::preferred(
                better(a, b, at),
                y,
            ) by {
                if at != one {
                    assert(rest.contains(at));
                }
            }
            other
        }
    }
}

/// A settled node is not offered anything it would sit better in.
proof fn lemma_settled_for_the_best<S: Signer>(
    network: Map<PublicKey, NodeView<S>>,
    at: PublicKey,
    position: Seq<Hop>,
    walk: Seq<Hop>,
)
    requires
        is_settled(network),
        network.contains_key(at),
        network[at].on_offer(position, network[at].next_seq()),
        bargain::same_walk(position, walk),
    ensures
        bargain::same_walk(walk, network[at].walk) || bargain::preferred(network[at].walk, walk),
{
    assert(has_settled_into(network, at));
    let node = network[at];
    let seq = node.next_seq();
    let best = node.best_position(seq);
    law_some_position_is_best(node, seq);
    if !bargain::same_walk(walk, node.walk) {
        assert(position != best);
        bargain::law_preference_ignores_stamps(best, node.walk, position, walk);
    }
}

/// Where a node sits in one settled network, better than it sits in another
/// that is linked alike, some node above it sits differently and better.
proof fn lemma_no_better_place<S: Signer>(
    a: Map<PublicKey, NodeView<S>>,
    b: Map<PublicKey, NodeView<S>>,
    at: PublicKey,
) -> (above: PublicKey)
    requires
        is_settled(a),
        is_settled(b),
        a.contains_key(at),
        b.contains_key(at),
        are_linked_alike(a[at], b[at]),
        !bargain::same_walk(a[at].walk, b[at].walk),
        bargain::preferred(a[at].walk, b[at].walk),
    ensures
        a.contains_key(above),
        !bargain::same_walk(a[above].walk, b[above].walk),
        bargain::preferred(a[above].walk, a[at].walk),
{
    assert(has_settled_into(a, at));
    assert(has_settled_into(b, at));
    let walk = a[at].walk;
    let seq = b[at].next_seq();
    bargain::law_preference_never_ties(walk, b[at].walk);
    if walk.len() == 1 {
        let alone = bargain::rooted(b[at].signer, seq);
        assert(bargain::keys(alone) =~= bargain::keys(walk));
        assert(bargain::prices(alone) =~= bargain::prices(walk));
        lemma_settled_for_the_best(b, at, alone, walk);
        assert(false);
    }
    let above = lemma_settled_below_a_peer(a, at);
    assert(has_settled_into(a, above));
    assert(a[at].peers.dom().contains(above));
    assert(b[at].peers.contains_key(above));
    lemma_above_is_preferred(a[above].walk, walk);
    if bargain::same_walk(a[above].walk, b[above].walk) {
        let up = b[at].infos[above].walk;
        let consent = b[at].peers[above].consent->0;
        assert(bargain::same_walk(up, walk.drop_last()));
        lemma_settled_price(a, at, above);
        assert(!bargain::keys(up).contains(at)) by {
            if bargain::keys(walk.drop_last()).contains(at) {
                let i = choose|i: int|
                    0 <= i < walk.len() - 1 && bargain::keys(walk.drop_last())[i] == at;
                assert(walk[i].key != walk[walk.len() - 1].key);
            }
        }
        let position = bargain::extended(up, b[at].signer, consent, seq)->0;
        assert(b[at].candidate(above, seq) == Some(position));
        assert(b[at].on_offer(position, seq));
        assert(bargain::keys(walk) =~= bargain::keys(walk.drop_last()).push(at));
        assert(bargain::keys(position) =~= bargain::keys(up).push(at));
        assert(bargain::prices(walk) =~= bargain::prices(walk.drop_last()).push(walk.last().cost));
        assert(bargain::prices(position) =~= bargain::prices(up).push(consent.price()));
        lemma_settled_for_the_best(b, at, position, walk);
        assert(false);
    }
    above
}

/// A settled node pays what its parent asks.
proof fn lemma_settled_price<S: Signer>(
    network: Map<PublicKey, NodeView<S>>,
    at: PublicKey,
    above: PublicKey,
)
    requires
        is_settled(network),
        network.contains_key(at),
        bargain::parent(network[at].walk) == Some(above),
    ensures
        network[at].peers.contains_key(above),
        network[at].peers[above].consent is Some,
        network[at].walk.last().cost == network[at].peers[above].consent->0.price(),
{
    assert(has_settled_into(network, at));
    let node = network[at];
    let seq = node.next_seq();
    let best = node.best_position(seq);
    let walk = node.walk;
    law_some_position_is_best(node, seq);
    assert(bargain::keys(best).len() == bargain::keys(walk).len());
    assert(bargain::prices(best).len() == bargain::prices(walk).len());
    let peer = choose|peer: PublicKey| #[trigger] node.candidate(peer, seq) == Some(best);
    lemma_candidate(node, peer, seq);
    assert(bargain::keys(best)[walk.len() - 2] == bargain::keys(walk)[walk.len() - 2]);
    assert(bargain::prices(best)[walk.len() - 1] == bargain::prices(walk)[walk.len() - 1]);
}

/// The tree has a single fixed point: two settled networks with the same nodes
/// and the same links at the same prices have every node sit in the same
/// place, however often anybody has stamped where it sits.
pub proof fn law_the_tree_has_one_fixed_point<S: Signer>(
    a: Map<PublicKey, NodeView<S>>,
    b: Map<PublicKey, NodeView<S>>,
    at: PublicKey,
)
    requires
        is_settled(a),
        is_settled(b),
        a.dom() == b.dom(),
        a.dom().finite(),
        forall|node: PublicKey| #[trigger]
            a.contains_key(node) ==> are_linked_alike(a[node], b[node]),
        a.contains_key(at),
    ensures
        bargain::same_walk(a[at].walk, b[at].walk),
{
    let differs = |node: PublicKey| !bargain::same_walk(a[node].walk, b[node].walk);
    let odd = a.dom().filter(differs);
    a.dom().lemma_len_filter(differs);
    if !bargain::same_walk(a[at].walk, b[at].walk) {
        assert(odd.contains(at));
        assert(odd.len() > 0);
        assert forall|node: PublicKey| #[trigger] odd.contains(node) implies a[node].walk.len() > 0
            && b[node].walk.len() > 0 by {
            assert(a.contains_key(node) && b.contains_key(node));
            assert(has_settled_into(a, node) && has_settled_into(b, node));
        }
        let best = lemma_best_placed(a, b, odd);
        assert(a.contains_key(best) && b.dom().contains(best));
        assert(has_settled_into(a, best) && has_settled_into(b, best));
        let (x, y) = (a[best].walk, b[best].walk);
        bargain::law_preference_never_ties(x, y);
        if bargain::preferred(x, y) {
            let above = lemma_no_better_place(a, b, best);
            assert(b.dom().contains(above));
            lemma_better_above(a, b, above, best);
            assert(odd.contains(above));
        } else {
            assert(are_linked_alike(a[best], b[best]));
            assert forall|peer: PublicKey| #[trigger] b[best].peers.contains_key(peer) implies (
            match (b[best].peers[peer].consent, a[best].peers[peer].consent) {
                (Some(x), Some(y)) => x.price() == y.price(),
                (None, None) => true,
                _ => false,
            }) by {
                assert(a[best].peers.dom().contains(peer));
                assert(a[best].peers.contains_key(peer));
            }
            let above = lemma_no_better_place(b, a, best);
            assert(a.dom().contains(above));
            lemma_better_above(a, b, above, best);
            assert(odd.contains(above));
        }
    }
}

/// Whoever sits better in either network than the best of two places is better
/// placed.
proof fn lemma_better_above<S: Signer>(
    a: Map<PublicKey, NodeView<S>>,
    b: Map<PublicKey, NodeView<S>>,
    above: PublicKey,
    at: PublicKey,
)
    requires
        is_settled(a),
        is_settled(b),
        a.contains_key(above),
        b.contains_key(above),
        bargain::preferred(a[above].walk, better(a, b, at)) || bargain::preferred(
            b[above].walk,
            better(a, b, at),
        ),
    ensures
        bargain::preferred(better(a, b, above), better(a, b, at)),
{
    assert(has_settled_into(a, above) && has_settled_into(b, above));
    let (x, y) = (a[above].walk, b[above].walk);
    let z = better(a, b, at);
    bargain::law_preference_never_ties(x, y);
    if bargain::preferred(x, y) && bargain::preferred(y, z) {
        bargain::law_preference_is_transitive(x, y, z);
    }
    if bargain::preferred(y, x) && bargain::preferred(x, z) {
        bargain::law_preference_is_transitive(y, x, z);
    }
}

} // verus!
