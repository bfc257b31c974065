//! Why gossip comes to rest: there is only so much that can be news.

use vstd::prelude::*;
use vstd::arithmetic::{div_mod, power};
use vstd::set_lib;
use crate::flood::claim;
use crate::flood::claim::{Claim, Hop};
use crate::flood::message::{EnvelopeView, MessageView};
use crate::flood::model::{InfoView, NodeView};
use crate::flood::node::Info;
use crate::flood::reach;
use crate::key::{PublicKey, KEY_LEN};
use crate::order;
use crate::sorted_map;
use crate::sorted_map::Ranked;

verus! {

/// How many keys there are.
pub open spec fn keys_in_all() -> nat {
    power::pow(256, KEY_LEN as nat) as nat
}

/// How many numbers fit in 64 bits.
pub open spec fn numbers_in_all() -> nat {
    (u64::MAX + 1) as nat
}

/// How many hops there are.
pub open spec fn hops_in_all() -> nat {
    keys_in_all() * numbers_in_all()
}

/// A number no claim's own number reaches.
pub open spec fn claims_in_all() -> nat {
    (power::pow((hops_in_all() + 1) as int, keys_in_all()) * numbers_in_all()) as nat
}

/// Every claim that can be made.
pub open spec fn every_claim() -> Set<Claim> {
    Set::new(|claim: Claim| claim::shaped(claim.walk))
}

/// The claims that would be news to a node.
pub open spec fn unheard(node: NodeView) -> Set<Claim> {
    every_claim().filter(|claim: Claim| node.is_news(claim))
}

/// A hop's own number, counting from one.
spec fn hop_number(hop: Hop) -> int {
    hop.key.rank() * numbers_in_all() + hop.cost + 1
}

/// A walk's own number.
spec fn walk_number(walk: Seq<Hop>) -> int
    decreases walk.len(),
{
    if walk.len() == 0 {
        0
    } else {
        walk_number(walk.drop_last()) * (hops_in_all() + 1) + hop_number(walk.last())
    }
}

/// A claim's own number.
spec fn claim_number(claim: Claim) -> int {
    walk_number(claim.walk) * numbers_in_all() + claim.seq
}

/// What is counted in steps of one size and a remainder is counted in only one
/// way.
proof fn lemma_counted_once(q: int, r: int, p: int, t: int, d: int)
    requires
        0 <= r < d,
        0 <= t < d,
        q * d + r == p * d + t,
    ensures
        q == p,
        r == t,
{
    div_mod::lemma_fundamental_div_mod_converse_mod(q * d + r, d, q, r);
    div_mod::lemma_fundamental_div_mod_converse_mod(p * d + t, d, p, t);
    div_mod::lemma_fundamental_div_mod_converse_div(q * d + r, d, q, r);
    div_mod::lemma_fundamental_div_mod_converse_div(p * d + t, d, p, t);
}

/// Every hop has a number of its own, within the count of all hops.
proof fn lemma_hop_number(hop: Hop)
    ensures
        1 <= hop_number(hop) <= hops_in_all(),
{
    order::lemma_rank_is_bounded(hop.key@);
    let (rank, keys, numbers) = (hop.key.rank(), keys_in_all() as int, numbers_in_all() as int);
    assert(0 <= rank <= keys - 1);
    assert(rank * numbers >= 0) by (nonlinear_arith)
        requires
            rank >= 0,
            numbers >= 0,
    ;
    assert(rank * numbers + numbers <= keys * numbers) by (nonlinear_arith)
        requires
            rank <= keys - 1,
            numbers >= 0,
    ;
}

proof fn lemma_hop_number_tells_apart(a: Hop, b: Hop)
    requires
        hop_number(a) == hop_number(b),
    ensures
        a == b,
{
    lemma_counted_once(
        a.key.rank(),
        a.cost as int,
        b.key.rank(),
        b.cost as int,
        numbers_in_all() as int,
    );
    PublicKey::rank_tells_apart(a.key, b.key);
}

proof fn lemma_walk_number(walk: Seq<Hop>)
    ensures
        0 <= walk_number(walk) < power::pow((hops_in_all() + 1) as int, walk.len()),
        walk_number(walk) == 0 <==> walk.len() == 0,
    decreases walk.len(),
{
    let base = (hops_in_all() + 1) as int;
    if walk.len() == 0 {
        power::lemma_pow0(base);
    } else {
        let head = walk.drop_last();
        lemma_walk_number(head);
        lemma_hop_number(walk.last());
        reveal(power::pow);
        let (number, most) = (walk_number(head), power::pow(base, head.len()));
        assert(power::pow(base, walk.len()) == base * most);
        assert(number * base >= 0 && number * base + base <= base * most) by (nonlinear_arith)
            requires
                0 <= number <= most - 1,
                base >= 1,
        ;
    }
}

proof fn lemma_walk_number_tells_apart(a: Seq<Hop>, b: Seq<Hop>)
    requires
        walk_number(a) == walk_number(b),
    ensures
        a == b,
    decreases a.len(),
{
    lemma_walk_number(a);
    lemma_walk_number(b);
    if a.len() == 0 {
        assert(a =~= b);
    } else {
        lemma_hop_number(a.last());
        lemma_hop_number(b.last());
        lemma_counted_once(
            walk_number(a.drop_last()),
            hop_number(a.last()),
            walk_number(b.drop_last()),
            hop_number(b.last()),
            (hops_in_all() + 1) as int,
        );
        lemma_hop_number_tells_apart(a.last(), b.last());
        lemma_walk_number_tells_apart(a.drop_last(), b.drop_last());
        assert(a =~= a.drop_last().push(a.last()));
        assert(b =~= b.drop_last().push(b.last()));
    }
}

/// No walk is longer than there are keys to name along it.
proof fn lemma_walks_end(walk: Seq<Hop>)
    requires
        claim::acyclic(walk),
    ensures
        walk.len() <= keys_in_all(),
{
    let ranks = walk.map_values(|hop: Hop| hop.key.rank());
    let range = set_lib::set_int_range(0, keys_in_all() as int);
    assert(ranks.no_duplicates()) by {
        assert forall|i: int, j: int|
            0 <= i < ranks.len() && 0 <= j < ranks.len() && i != j implies ranks[i] != ranks[j] by {
            if ranks[i] == ranks[j] {
                PublicKey::rank_tells_apart(walk[i].key, walk[j].key);
                if i < j {
                    assert(walk[i].key != walk[j].key);
                } else {
                    assert(walk[j].key != walk[i].key);
                }
            }
        }
    }
    ranks.unique_seq_to_set();
    assert forall|rank: int| #[trigger] ranks.to_set().contains(rank) implies range.contains(
        rank,
    ) by {
        let i = choose|i: int| 0 <= i < ranks.len() && ranks[i] == rank;
        order::lemma_rank_is_bounded(walk[i].key@);
    }
    power::lemma_pow_positive(256, KEY_LEN as nat);
    set_lib::lemma_int_range(0, keys_in_all() as int);
    set_lib::lemma_len_subset(ranks.to_set(), range);
}

/// There are only so many claims that can be made: stamps are numbers that run
/// out, and a walk names nobody twice.
pub proof fn law_only_so_many_claims_can_be_made()
    ensures
        every_claim().finite(),
        every_claim().len() <= claims_in_all(),
{
    let range = set_lib::set_int_range(0, claims_in_all() as int);
    let base = (hops_in_all() + 1) as int;
    let numbers = numbers_in_all() as int;
    power::lemma_pow_positive(base, keys_in_all());
    let most = power::pow(base, keys_in_all());
    assert(most * numbers >= 0) by (nonlinear_arith)
        requires
            most >= 0,
            numbers >= 0,
    ;
    set_lib::lemma_int_range(0, claims_in_all() as int);
    let numbered = |number: int|
        choose|claim: Claim| #[trigger]
            every_claim().contains(claim) && claim_number(claim) == number;
    assert forall|claim: Claim| #[trigger] every_claim().contains(claim) implies range.map(
        numbered,
    ).contains(claim) by {
        let number = claim_number(claim);
        let walk = claim.walk;
        lemma_walks_end(walk);
        lemma_walk_number(walk);
        power::lemma_pow_increases(base as nat, walk.len(), keys_in_all());
        let along = walk_number(walk);
        assert(0 <= along * numbers && along * numbers + numbers <= most * numbers)
            by (nonlinear_arith)
            requires
                0 <= along <= most - 1,
                numbers >= 0,
        ;
        assert(range.contains(number));
        let found = numbered(number);
        assert(every_claim().contains(found) && claim_number(found) == number);
        lemma_counted_once(
            walk_number(found.walk),
            found.seq as int,
            walk_number(walk),
            claim.seq as int,
            numbers,
        );
        lemma_walk_number_tells_apart(found.walk, walk);
        assert(found == claim);
        assert(range.map(numbered).contains(numbered(number)));
    }
    set_lib::lemma_map_size_bound(range, range.map(numbered), numbered);
    set_lib::lemma_len_subset(every_claim(), range.map(numbered));
}

/// How many links a node holds.
pub open spec fn links_of(node: NodeView) -> nat {
    sorted_map::ascending(node.peers).len()
}

/// Hearing news uses some of it up: there is strictly less left that a node has
/// not heard, and it says no more than two things to each of its peers. What is
/// no news changes nothing.
pub proof fn law_news_is_used_up(node: NodeView, now: u64, from: PublicKey, claim: Claim)
    requires
        node.peers.contains_key(from),
        claim::shaped(claim.walk),
    ensures
        unheard(node).finite(),
        ({
            let step = node.handled(now, from, MessageView::Announce(claim));
            if node.is_news(claim) {
                &&& unheard(step.node).len() < unheard(node).len()
                &&& step.out.len() <= 2 * links_of(node)
                &&& step.node.peers == node.peers
            } else {
                step == node.still()
            }
        }),
{
    law_only_so_many_claims_can_be_made();
    every_claim().lemma_len_filter(|other: Claim| node.is_news(other));
    let step = node.handled(now, from, MessageView::Announce(claim));
    if node.is_news(claim) {
        let (before, after) = (unheard(node), unheard(step.node));
        let author = claim::author(claim.walk);
        assert(before.contains(claim));
        claim::law_supersedes_never_ties(claim, claim);
        assert(!after.contains(claim));
        assert forall|other: Claim| #[trigger] after.contains(other) implies before.remove(
            claim,
        ).contains(other) by {
            if claim::author(other.walk) == author && node.infos.contains_key(author) {
                claim::law_supersedes_is_transitive(other, claim, node.infos[author].claim);
            }
        }
        set_lib::lemma_len_subset(after, before.remove(claim));
        let listed = sorted_map::ascending(node.peers);
        listed.lemma_filter_len(|entry: (PublicKey, u64)| Some(entry.0) != Some(from));
        listed.lemma_filter_len(|entry: (PublicKey, u64)| Some(entry.0) != None::<PublicKey>);
    }
}

/// Whether a message is a claim shaped like one.
pub open spec fn is_gossip(message: MessageView) -> bool {
    message matches MessageView::Announce(claim) && claim::shaped(claim.walk)
}

/// Whether everything a node says is a claim shaped like one.
pub open spec fn only_gossips(out: Seq<EnvelopeView>) -> bool {
    forall|i: int| 0 <= i < out.len() ==> is_gossip((#[trigger] out[i]).message)
}

/// Whether a node is at rest, and what it has heard can be gone through in
/// order.
pub open spec fn is_in_order(node: NodeView) -> bool {
    node.is_at_rest() && sorted_map::is_listed(node.infos)
}

/// Hearing a claim has a node say nothing but claims, and leaves it in order.
pub proof fn law_gossip_begets_gossip(node: NodeView, now: u64, from: PublicKey, claim: Claim)
    requires
        is_in_order(node),
        claim::shaped(claim.walk),
    ensures
        only_gossips(node.handled(now, from, MessageView::Announce(claim)).out),
        is_in_order(node.handled(now, from, MessageView::Announce(claim)).node),
{
    let hear = reach::Event::Hear { now, from, message: MessageView::Announce(claim) };
    reach::law_every_event_leaves_a_node_at_rest(node, hear);
    sorted_map::lemma_insert_is_listed(
        node.infos,
        claim::author(claim.walk),
        InfoView { claim, heard_at: now },
    );
}

/// Whatever happens to a node's links, it says nothing but claims, and is left
/// in order.
pub proof fn law_links_are_told_as_claims(node: NodeView, now: u64, peer: PublicKey, cost: u64)
    requires
        is_in_order(node),
        cost >= 1,
    ensures
        only_gossips(node.peer_added(now, peer, cost).out),
        is_in_order(node.peer_added(now, peer, cost).node),
        only_gossips(node.peer_removed(now, peer).out),
        is_in_order(node.peer_removed(now, peer).node),
{
    reach::law_every_event_leaves_a_node_at_rest(
        node,
        reach::Event::AddPeer { now, peer, cost },
    );
    reach::law_every_event_leaves_a_node_at_rest(node, reach::Event::RemovePeer { now, peer });
    let greeting = node.greeting(peer);
    let listed = sorted_map::ascending(node.infos);
    assert forall|i: int| 0 <= i < greeting.len() implies is_gossip(
        (#[trigger] greeting[i]).message,
    ) by {
        if i > 0 {
            sorted_map::lemma_entry_is_mapped(listed, i - 1);
            assert(node.infos.contains_key(listed[i - 1].0));
        }
    }
    let linked = NodeView { peers: node.peers.insert(peer, cost), ..node };
    let moved = linked.reparented(now);
    let out = node.peer_added(now, peer, cost).out;
    if peer != node.key && !node.peers.contains_key(peer) {
        assert(only_gossips(moved.out));
        assert forall|i: int| 0 <= i < out.len() implies is_gossip((#[trigger] out[i]).message) by {
            if i < greeting.len() {
                assert(out[i] == greeting[i]);
            } else {
                assert(out[i] == moved.out[i - greeting.len()]);
            }
        }
    }
}

/// Whatever the time is, a node says nothing but claims, and is left in order.
pub proof fn law_time_is_told_as_claims(node: NodeView, now: u64)
    requires
        is_in_order(node),
    ensures
        only_gossips(node.ticked(now).out),
        is_in_order(node.ticked(now).node),
{
    reach::law_every_event_leaves_a_node_at_rest(node, reach::Event::Tick { now });
    let fresh = sorted_map::fresh_part::<PublicKey, Info>(node.infos, now, node.timing.expiry);
    sorted_map::lemma_part_is_listed(node.infos, fresh);
    let kept = NodeView { infos: fresh, ..node };
    assert(kept.wf()) by {
        assert forall|key: PublicKey| #[trigger] kept.infos.contains_key(key) implies claim::shaped(
            kept.infos[key].claim.walk,
        ) && claim::author(kept.infos[key].claim.walk) == key by {
            assert(node.infos.contains_key(key));
        }
    }
    reach::law_reparenting_puts_a_node_at_rest(kept, now);
}

} // verus!
