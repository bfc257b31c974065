//! What each event does to a flooding node, and what it leaves alone.

use vstd::prelude::*;
use crate::flood::claim;
use crate::flood::claim::{Claim, Hop};
use crate::flood::laws;
use crate::flood::message::{EnvelopeView, MessageView, PacketView};
use crate::flood::model;
use crate::flood::model::{InfoView, NodeView, Step};
use crate::flood::node::{Info, SendError, Timing};
use crate::flood::reach;
use crate::key::PublicKey;
use crate::sorted_map;
use crate::sorted_map::Ranked;

verus! {

/// A packet is handed to a linked peer strictly closer to where it is going,
/// and no other such peer is on a cheaper way there, counting the link to it
/// and the walk left after it; of equally cheap ones it is the smallest key.
pub proof fn law_a_packet_takes_the_cheapest_way_on(
    node: NodeView,
    to: PublicKey,
    peer: PublicKey,
    other: PublicKey,
)
    requires
        node.next_hop(to) == Some(peer),
        node.peers.contains_key(other),
        node.infos.contains_key(other),
        claim::separation(node.infos[other].claim.walk, node.infos[to].claim.walk)
            < claim::separation(node.claim.walk, node.infos[to].claim.walk),
    ensures
        node.infos.contains_key(to),
        node.peers.contains_key(peer),
        node.infos.contains_key(peer),
        claim::separation(node.infos[peer].claim.walk, node.infos[to].claim.walk)
            < claim::separation(node.claim.walk, node.infos[to].claim.walk),
        ({
            let dst = node.infos[to].claim.walk;
            let this = node.peers[peer] + claim::separation(node.infos[peer].claim.walk, dst);
            let that = node.peers[other] + claim::separation(node.infos[other].claim.walk, dst);
            let this = if this <= u64::MAX { this } else { u64::MAX as int };
            let that = if that <= u64::MAX { that } else { u64::MAX as int };
            this < that || this == that && peer.rank() <= other.rank()
        }),
{
    let dst = node.infos[to].claim.walk;
    assert(node.is_next_hop(peer, dst));
    assert(node.is_closer(other, dst));
}

/// There is somebody to hand a packet to exactly where its destination is known
/// and some linked peer is known to sit strictly closer to it.
pub proof fn law_a_packet_goes_on_while_anybody_is_closer(node: NodeView, to: PublicKey)
    requires
        sorted_map::is_listed(node.peers),
    ensures
        node.next_hop(to) is Some <==> node.infos.contains_key(to) && exists|peer: PublicKey|
            #[trigger] node.peers.contains_key(peer) && node.infos.contains_key(peer)
                && claim::separation(node.infos[peer].claim.walk, node.infos[to].claim.walk)
                < claim::separation(node.claim.walk, node.infos[to].claim.walk),
{
    let dst = node.infos[to].claim.walk;
    if let Some(peer) = node.next_hop(to) {
        assert(node.is_next_hop(peer, dst));
        assert(node.peers.contains_key(peer));
    }
    if node.infos.contains_key(to) && exists|peer: PublicKey|
        #[trigger] node.peers.contains_key(peer) && node.infos.contains_key(peer)
            && claim::separation(node.infos[peer].claim.walk, dst) < claim::separation(
            node.claim.walk,
            dst,
        ) {
        let peer = choose|peer: PublicKey|
            #[trigger] node.peers.contains_key(peer) && node.infos.contains_key(peer)
                && claim::separation(node.infos[peer].claim.walk, dst) < claim::separation(
                node.claim.walk,
                dst,
            );
        laws::law_a_closer_peer_is_a_next_hop(node, to, peer);
    }
}

/// Sending a packet to oneself delivers it; to anybody nobody is closer to
/// fails for want of a route; and otherwise puts it, whole, in one envelope to
/// the peer it takes next. Nothing else changes.
pub proof fn law_a_sent_packet_sets_out_whole(node: NodeView, dst: PublicKey, payload: Seq<u8>)
    ensures
        ({
            let (after, sent) = node.sent(dst, payload);
            let packet = PacketView { src: node.key, dst, payload };
            &&& dst == node.key ==> after == (NodeView {
                delivered: node.delivered.push(packet),
                ..node
            }) && sent == Ok::<Seq<EnvelopeView>, SendError>(Seq::empty())
            &&& dst != node.key ==> after == node && match node.next_hop(dst) {
                None => sent == Err::<Seq<EnvelopeView>, SendError>(SendError::NoRoute),
                Some(peer) => sent matches Ok(out) && out.len() == 1 && out[0].to == peer
                    && out[0].message == MessageView::Packet(packet),
            }
        }),
{
}

/// A packet handed over by a peer is delivered where it is addressed, and
/// otherwise goes on as it came to the peer it takes next, or is dropped where
/// there is none.
pub proof fn law_a_packet_is_delivered_or_passed_on_whole(
    node: NodeView,
    now: u64,
    from: PublicKey,
    packet: PacketView,
)
    requires
        node.peers.contains_key(from),
    ensures
        ({
            let step = node.handled(now, from, MessageView::Packet(packet));
            &&& packet.dst == node.key ==> step.out.len() == 0 && step.node == (NodeView {
                delivered: node.delivered.push(packet),
                ..node
            })
            &&& packet.dst != node.key ==> step.node == node && match node.next_hop(packet.dst) {
                None => step.out.len() == 0,
                Some(peer) => step.out.len() == 1 && step.out[0].to == peer && step.out[0].message
                    == MessageView::Packet(packet),
            }
        }),
{
}

/// A link that comes up, or is measured again, is held at the cost just given,
/// whatever it cost before, and no other link is touched, nor anything heard.
pub proof fn law_a_link_is_held_at_its_latest_cost(
    node: NodeView,
    now: u64,
    peer: PublicKey,
    cost: u64,
)
    requires
        peer != node.key,
    ensures
        ({
            let after = node.peer_added(now, peer, cost).node;
            &&& after.peers == node.peers.insert(peer, cost)
            &&& after.peers[peer] == cost
            &&& after.key == node.key
            &&& after.timing == node.timing
            &&& after.infos == node.infos
            &&& after.delivered == node.delivered
        }),
        node.peer_added(now, node.key, cost) == node.still(),
        node.peers.contains_key(peer) && node.peers[peer] == cost ==> node.peer_added(
            now,
            peer,
            cost,
        ) == node.still(),
{
    assert(node.peer_added(now, peer, cost).node.peers =~= node.peers.insert(peer, cost));
}

/// A new peer is told everything this node knows before anything else is said:
/// first where the node itself sits, and then every claim that it holds.
pub proof fn law_a_new_peer_is_told_everything(
    node: NodeView,
    now: u64,
    peer: PublicKey,
    cost: u64,
    author: PublicKey,
)
    requires
        peer != node.key,
        !node.peers.contains_key(peer),
        sorted_map::is_listed(node.infos),
    ensures
        ({
            let out = node.peer_added(now, peer, cost).out;
            &&& out.len() > 0
            &&& out[0] == (EnvelopeView { to: peer, message: MessageView::Announce(node.claim) })
            &&& out.len() > sorted_map::ascending(node.infos).len()
            &&& forall|i: int|
                0 <= i < sorted_map::ascending(node.infos).len() ==> #[trigger] out[i + 1] == (
                EnvelopeView {
                    to: peer,
                    message: MessageView::Announce(sorted_map::ascending(node.infos)[i].1.claim),
                })
            &&& node.infos.contains_key(author) ==> out.contains(
                EnvelopeView {
                    to: peer,
                    message: MessageView::Announce(node.infos[author].claim),
                },
            )
        }),
{
    let out = node.peer_added(now, peer, cost).out;
    assert(out[0] == node.greeting(peer)[0]);
    assert forall|i: int| 0 <= i < sorted_map::ascending(node.infos).len() implies #[trigger] out[i
        + 1] == (EnvelopeView {
        to: peer,
        message: MessageView::Announce(sorted_map::ascending(node.infos)[i].1.claim),
    }) by {
        assert(out[i + 1] == node.greeting(peer)[i + 1]);
    }
    if node.infos.contains_key(author) {
        let listed = sorted_map::ascending(node.infos);
        let i = sorted_map::lemma_mapped_key_is_listed(listed, author);
        sorted_map::lemma_entry_is_mapped(listed, i);
        assert(node.greeting(peer)[i + 1] == out[i + 1]);
    }
}

/// Tearing a link down lets go of that peer and of no other, and of nothing
/// that anybody has said.
pub proof fn law_a_link_torn_down_is_gone(node: NodeView, now: u64, peer: PublicKey)
    ensures
        ({
            let after = node.peer_removed(now, peer).node;
            &&& after.peers == node.peers.remove(peer)
            &&& !after.peers.contains_key(peer)
            &&& after.key == node.key
            &&& after.timing == node.timing
            &&& after.infos == node.infos
            &&& after.delivered == node.delivered
        }),
        !node.peers.contains_key(peer) ==> node.peer_removed(now, peer) == node.still(),
{
    assert(node.peer_removed(now, peer).node.peers =~= node.peers.remove(peer));
}

/// What is said to every peer but one reaches each of the others once, in the
/// order of their keys, and nobody else.
proof fn lemma_gossip_reaches(
    node: NodeView,
    message: MessageView,
    except: Option<PublicKey>,
    peer: PublicKey,
    at: int,
    next: int,
)
    requires
        sorted_map::is_listed(node.peers),
    ensures
        ({
            let out = node.gossiped(message, except);
            &&& node.peers.contains_key(peer) && Some(peer) != except ==> out.contains(
                EnvelopeView { to: peer, message },
            )
            &&& 0 <= at < out.len() ==> out[at].message == message && node.peers.contains_key(
                out[at].to,
            ) && Some(out[at].to) != except
            &&& 0 <= at < next < out.len() ==> out[at].to.rank() < out[next].to.rank()
        }),
{
    let listed = sorted_map::ascending(node.peers);
    let keep = |entry: (PublicKey, u64)| Some(entry.0) != except;
    let picked = listed.filter(keep);
    let out = node.gossiped(message, except);
    if node.peers.contains_key(peer) && Some(peer) != except {
        let i = sorted_map::lemma_mapped_key_is_listed(listed, peer);
        assert(keep(listed[i]));
        assert(picked.contains(listed[i]));
        let j = choose|j: int| 0 <= j < picked.len() && picked[j] == listed[i];
        assert(out[j] == (EnvelopeView { to: peer, message }));
    }
    if 0 <= at < out.len() {
        assert(keep(picked[at]));
        let i = lemma_picked_from(listed, keep, at);
        sorted_map::lemma_entry_is_mapped(listed, i);
        if at < next < out.len() {
            lemma_picked_in_order(listed, keep, at, next);
        }
    }
}

/// Whatever is picked out of a sequence is somewhere in it.
proof fn lemma_picked_from<T>(entries: Seq<T>, keep: spec_fn(T) -> bool, at: int) -> (found: int)
    requires
        0 <= at < entries.filter(keep).len(),
    ensures
        0 <= found < entries.len(),
        entries[found] == entries.filter(keep)[at],
        keep(entries[found]),
    decreases entries.len(),
{
    reveal(Seq::filter);
    let head = entries.drop_last();
    if at < head.filter(keep).len() {
        lemma_picked_from(head, keep, at)
    } else {
        entries.len() - 1
    }
}

/// Of the entries in a sorted listing, the ones picked out are sorted too.
proof fn lemma_picked_in_order<V>(
    entries: Seq<(PublicKey, V)>,
    keep: spec_fn((PublicKey, V)) -> bool,
    i: int,
    j: int,
)
    requires
        sorted_map::sorted(entries),
        0 <= i < j < entries.filter(keep).len(),
    ensures
        entries.filter(keep)[i].0.rank() < entries.filter(keep)[j].0.rank(),
    decreases entries.len(),
{
    reveal(Seq::filter);
    let head = entries.drop_last();
    assert(sorted_map::sorted(head)) by {
        assert forall|x: int, y: int| 0 <= x < y < head.len() implies (
        #[trigger] head[x]).0.rank() < (#[trigger] head[y]).0.rank() by {
            assert(entries[x].0.rank() < entries[y].0.rank());
        }
    }
    if j < head.filter(keep).len() {
        lemma_picked_in_order(head, keep, i, j);
    } else {
        let x = lemma_picked_from(head, keep, i);
        assert(entries[x].0.rank() < entries[entries.len() - 1].0.rank());
    }
}

/// News is filed under its author, dated now, and passed on as it came to every
/// peer but the one it came from. What is not news changes nothing, whether it
/// is about this node or no later than what is held.
pub proof fn law_news_is_filed_and_passed_on(
    node: NodeView,
    now: u64,
    from: PublicKey,
    claim: Claim,
    peer: PublicKey,
)
    requires
        sorted_map::is_listed(node.peers),
        node.peers.contains_key(from),
        claim.walk.len() > 0,
    ensures
        ({
            let author = claim.walk[claim.walk.len() - 1].key;
            let step = node.handled(now, from, MessageView::Announce(claim));
            let later = node.infos.contains_key(author) ==> claim::supersedes(
                claim,
                node.infos[author].claim,
            );
            &&& author == node.key || !later ==> step == node.still()
            &&& author != node.key && later ==> {
                &&& step.node.infos == node.infos.insert(author, InfoView { claim, heard_at: now })
                &&& step.node.peers == node.peers
                &&& step.node.key == node.key
                &&& step.node.timing == node.timing
                &&& step.node.delivered == node.delivered
                &&& node.peers.contains_key(peer) && peer != from ==> step.out.contains(
                    EnvelopeView { to: peer, message: MessageView::Announce(claim) },
                )
            }
        }),
{
    let author = claim.walk[claim.walk.len() - 1].key;
    let message = MessageView::Announce(claim);
    let step = node.handled(now, from, message);
    if node.is_news(claim) && node.peers.contains_key(peer) && peer != from {
        lemma_gossip_reaches(node, message, Some(from), peer, 0, 0);
        let passed = node.gossiped(message, Some(from));
        let i = choose|i: int|
            0 <= i < passed.len() && passed[i] == (EnvelopeView { to: peer, message });
        assert(step.out[i] == passed[i]);
    }
}

/// A claim is never sent back to whoever it came from.
pub proof fn law_news_is_not_echoed(
    node: NodeView,
    now: u64,
    from: PublicKey,
    claim: Claim,
    at: int,
)
    requires
        node.wf(),
        sorted_map::is_listed(node.peers),
        claim::shaped(claim.walk),
        0 <= at < node.handled(now, from, MessageView::Announce(claim)).out.len(),
    ensures
        ({
            let out = node.handled(now, from, MessageView::Announce(claim)).out;
            &&& node.peers.contains_key(out[at].to)
            &&& out[at].to == from ==> (out[at].message matches MessageView::Announce(said)
                && said.walk[said.walk.len() - 1].key == node.key)
        }),
{
    let message = MessageView::Announce(claim);
    let passed = node.gossiped(message, Some(from));
    let kept = node.keeping(now, claim);
    let moved = kept.reparented(now);
    let out = node.handled(now, from, message).out;
    if at < passed.len() {
        assert(out[at] == passed[at]);
        lemma_gossip_reaches(node, message, Some(from), from, at, at);
    } else {
        assert(out[at] == moved.out[at - passed.len()]);
        let best = kept.best_position();
        laws::law_gossip_is_passed_on_as_it_was_heard(node, now, from, claim, at);
        let mine = MessageView::Announce(Claim { seq: kept.next_seq(), walk: best });
        lemma_gossip_reaches(kept, mine, None, from, at - passed.len(), at - passed.len());
        laws::law_some_position_is_best(kept);
        assert(best.last().key == node.key) by {
            if best != claim::rooted(node.key) {
                let above = choose|above: PublicKey| #[trigger] kept.candidate(above) == Some(best);
                assert(kept.candidate(above) == Some(best));
            }
        }
    }
}

/// A tick forgets exactly the claims that are as old as the expiry by then, and
/// keeps every other as it was, and every link.
pub proof fn law_a_tick_forgets_exactly_what_is_too_old(
    node: NodeView,
    now: u64,
    key: PublicKey,
)
    ensures
        ({
            let after = node.ticked(now).node;
            &&& after.infos.contains_key(key) <==> node.infos.contains_key(key) && now
                - node.infos[key].heard_at < node.timing.expiry && node.timing.expiry > 0
            &&& after.infos.contains_key(key) ==> after.infos[key] == node.infos[key]
            &&& after.peers == node.peers
            &&& after.key == node.key
            &&& after.timing == node.timing
            &&& after.delivered == node.delivered
        }),
{
}

/// After a tick a node's own announcement is younger than the refresh, and every
/// claim it holds is younger than the expiry.
pub proof fn law_a_tick_leaves_everything_fresh(node: NodeView, now: u64, key: PublicKey)
    requires
        node.timing.refresh > 0,
    ensures
        ({
            let after = node.ticked(now).node;
            &&& now - after.announced_at < node.timing.refresh
            &&& after.infos.contains_key(key) ==> now - after.infos[key].heard_at
                < node.timing.expiry
        }),
{
}

/// An announcement that has stood for as long as the refresh is made again, one
/// stamp on and to every peer; one that has not is left alone by a node at rest
/// that has nothing to forget.
pub proof fn law_an_announcement_is_reissued_when_due(node: NodeView, now: u64, peer: PublicKey)
    requires
        node.is_at_rest(),
        reach::holds_only_fresh(node, now),
        node.timing.refresh > 0,
        node.claim.seq < u64::MAX,
    ensures
        ({
            let after = node.ticked(now).node;
            &&& after.claim.walk == node.claim.walk
            &&& now - node.announced_at >= node.timing.refresh ==> after.announced_at == now
                && after.claim.seq == node.claim.seq + 1 && (node.peers.contains_key(peer)
                ==> node.ticked(now).out.contains(
                EnvelopeView { to: peer, message: MessageView::Announce(after.claim) },
            ))
            &&& now - node.announced_at < node.timing.refresh ==> after == node && node.ticked(
                now,
            ).out.len() == 0
        }),
{
    reach::law_time_disturbs_nobody(node, now);
    let fresh = Claim { seq: node.next_seq(), walk: node.claim.walk };
    lemma_gossip_reaches(node, MessageView::Announce(fresh), None, peer, 0, 0);
}

/// Whenever reconsidering moves a node, it stamps the new position one on, dates
/// it now, and tells every peer; and when it does not, it says nothing.
pub proof fn law_every_move_is_announced(node: NodeView, now: u64, peer: PublicKey)
    requires
        sorted_map::is_listed(node.peers),
    ensures
        ({
            let step = node.reparented(now);
            let moved = step.node.claim.walk != node.claim.walk;
            &&& moved && node.peers.contains_key(peer) ==> step.out.contains(
                EnvelopeView { to: peer, message: MessageView::Announce(step.node.claim) },
            )
            &&& moved ==> step.node.announced_at == now && step.node.claim.seq == (
            if node.claim.seq < u64::MAX {
                node.claim.seq + 1
            } else {
                u64::MAX as int
            })
            &&& !moved ==> step.node == node && step.out.len() == 0
            &&& step.node.peers == node.peers
            &&& step.node.infos == node.infos
        }),
{
    let best = node.best_position();
    let mine = Claim { seq: node.next_seq(), walk: best };
    lemma_gossip_reaches(node, MessageView::Announce(mine), None, peer, 0, 0);
}

/// A node that has just come up sits alone: its own root, under the stamp zero,
/// with no links and nothing heard.
pub proof fn law_a_new_node_sits_alone(now: u64, key: PublicKey, timing: Timing)
    ensures
        ({
            let node = model::isolated(now, key, timing);
            &&& node.key == key
            &&& node.timing == timing
            &&& node.announced_at == now
            &&& node.claim.seq == 0
            &&& node.claim.walk.len() == 1
            &&& node.claim.walk[0].key == key
            &&& node.claim.walk[0].cost == 0
            &&& forall|peer: PublicKey| !#[trigger] node.peers.contains_key(peer)
            &&& forall|other: PublicKey| !#[trigger] node.infos.contains_key(other)
            &&& node.delivered.len() == 0
        }),
{
}

/// A node at rest has nowhere better to sit: below any peer with something on
/// offer, its root would be no smaller, and with the same root its way there no
/// cheaper, and as cheap no shorter. Counted are the prices of the peer's walk
/// and what the link to the peer costs.
pub proof fn law_nobody_could_sit_better(node: NodeView, peer: PublicKey)
    requires
        node.is_at_rest(),
        node.peers.contains_key(peer),
        node.infos.contains_key(peer),
        forall|i: int|
            0 <= i < node.infos[peer].claim.walk.len() ==> (
            #[trigger] node.infos[peer].claim.walk[i]).key != node.key,
    ensures
        ({
            let (mine, theirs) = (node.claim.walk, node.infos[peer].claim.walk);
            let here = mine.fold_left(0nat, |sum: nat, hop: Hop| sum + hop.cost as nat);
            let there = theirs.fold_left(0nat, |sum: nat, hop: Hop| sum + hop.cost as nat)
                + node.peers[peer] as nat;
            let here = if here <= u64::MAX { here } else { u64::MAX as nat };
            let there = if there <= u64::MAX { there } else { u64::MAX as nat };
            let (root, other) = (mine[0].key, theirs[0].key);
            &&& root.rank() <= other.rank()
            &&& root.rank() <= node.key.rank()
            &&& root == other ==> here <= there
            &&& root == other && here == there ==> mine.len() <= theirs.len() + 1
        }),
{
    let (mine, theirs) = (node.claim.walk, node.infos[peer].claim.walk);
    assert(!claim::keys(theirs).contains(node.key)) by {
        if claim::keys(theirs).contains(node.key) {
            let i = choose|i: int|
                0 <= i < claim::keys(theirs).len() && claim::keys(theirs)[i] == node.key;
            assert(theirs[i].key == node.key);
        }
    }
    reach::law_the_root_is_the_smallest_on_offer(node);
    let position = node.candidate(peer)->0;
    assert(node.candidate(peer) == Some(position));
    assert(node.on_offer(position));
    assert(reach::offers(node, peer));
    assert(position.drop_last() =~= theirs);
    assert(position[0] == theirs[0]);
    claim::law_the_cost_to_the_root_is_the_sum_of_the_prices(mine);
    claim::law_the_cost_to_the_root_is_the_sum_of_the_prices(position);
    let plus = |sum: nat, hop: Hop| sum + hop.cost as nat;
    assert(position.fold_left(0nat, plus) == theirs.fold_left(0nat, plus) + position.last().cost
        as nat);
    claim::law_preference_never_ties(mine, position);
}

/// Where a node sits is either alone or right below one of its peers: the peer's
/// own walk as it was last heard, and one step more at what the link costs.
pub proof fn law_a_node_sits_alone_or_below_a_peer(node: NodeView)
    requires
        node.is_at_rest(),
    ensures
        ({
            let mine = node.claim.walk;
            &&& mine.len() > 0
            &&& mine[mine.len() - 1].key == node.key
            &&& mine.len() == 1 ==> mine[0].cost == 0
            &&& mine.len() > 1 ==> {
                let above = mine[mine.len() - 2].key;
                &&& node.peers.contains_key(above)
                &&& node.infos.contains_key(above)
                &&& mine == node.infos[above].claim.walk.push(
                    Hop { key: node.key, cost: node.peers[above] },
                )
            }
        }),
{
    let mine = node.claim.walk;
    if mine != claim::rooted(node.key) {
        let above = choose|above: PublicKey| #[trigger] node.candidate(above) == Some(mine);
        assert(node.candidate(above) == Some(mine));
        assert(claim::author(node.infos[above].claim.walk) == above);
    }
}

/// What is said in either part is said in the whole.
proof fn lemma_said_in_part(a: Seq<EnvelopeView>, b: Seq<EnvelopeView>, said: EnvelopeView)
    requires
        a.contains(said) || b.contains(said),
    ensures
        (a + b).contains(said),
{
    let whole = a + b;
    if a.contains(said) {
        let i = choose|i: int| 0 <= i < a.len() && a[i] == said;
        assert(whole[i] == said);
    } else {
        let i = choose|i: int| 0 <= i < b.len() && b[i] == said;
        assert(whole[a.len() + i] == said);
    }
}

/// Whether a peer is told where a node now sits, if it has announced anything new
/// of itself.
pub open spec fn is_told_what_changed(node: NodeView, step: Step, peer: PublicKey) -> bool {
    step.node.peers.contains_key(peer) && step.node.claim != node.claim ==> step.out.contains(
        EnvelopeView { to: peer, message: MessageView::Announce(step.node.claim) },
    )
}

/// Reconsidering tells a peer of a move, whatever else is said first.
proof fn lemma_moving_tells(
    node: NodeView,
    base: NodeView,
    first: Seq<EnvelopeView>,
    now: u64,
    peer: PublicKey,
)
    requires
        base.claim == node.claim,
        sorted_map::is_listed(base.peers),
    ensures
        ({
            let moved = base.reparented(now);
            is_told_what_changed(node, Step { node: moved.node, out: first + moved.out }, peer)
        }),
{
    law_every_move_is_announced(base, now, peer);
    let moved = base.reparented(now);
    let said = EnvelopeView { to: peer, message: MessageView::Announce(moved.node.claim) };
    if moved.out.contains(said) {
        lemma_said_in_part(first, moved.out, said);
    }
}

/// Whatever happens to a node, every peer it has afterwards is told what it now
/// says of itself, if that has changed.
pub proof fn law_every_change_is_told_whatever_brought_it_about(
    node: NodeView,
    now: u64,
    peer: PublicKey,
    cost: u64,
    message: MessageView,
    other: PublicKey,
)
    requires
        sorted_map::is_listed(node.peers),
    ensures
        is_told_what_changed(node, node.peer_added(now, peer, cost), other),
        is_told_what_changed(node, node.peer_removed(now, peer), other),
        is_told_what_changed(node, node.handled(now, peer, message), other),
        is_told_what_changed(node, node.ticked(now), other),
{
    let none = Seq::<EnvelopeView>::empty();
    let linked = NodeView { peers: node.peers.insert(peer, cost), ..node };
    sorted_map::lemma_insert_is_listed(node.peers, peer, cost);
    lemma_moving_tells(node, linked, node.greeting(peer), now, other);
    lemma_moving_tells(node, linked, none, now, other);
    assert(none + linked.reparented(now).out =~= linked.reparented(now).out);
    let cut = NodeView { peers: node.peers.remove(peer), ..node };
    sorted_map::lemma_remove_is_listed(node.peers, peer);
    lemma_moving_tells(node, cut, none, now, other);
    assert(none + cut.reparented(now).out =~= cut.reparented(now).out);
    if let MessageView::Announce(claim) = message {
        lemma_moving_tells(
            node,
            node.keeping(now, claim),
            node.gossiped(MessageView::Announce(claim), Some(peer)),
            now,
            other,
        );
    }
    let kept = NodeView {
        infos: sorted_map::fresh_part::<PublicKey, Info>(node.infos, now, node.timing.expiry),
        ..node
    };
    lemma_moving_tells(node, kept, none, now, other);
    let moved = kept.reparented(now);
    assert(none + moved.out =~= moved.out);
    let again = Claim { seq: moved.node.next_seq(), walk: moved.node.claim.walk };
    lemma_gossip_reaches(moved.node, MessageView::Announce(again), None, other, 0, 0);
    let said = moved.node.gossiped(MessageView::Announce(again), None);
    let word = EnvelopeView { to: other, message: MessageView::Announce(again) };
    if said.contains(word) {
        lemma_said_in_part(moved.out, said, word);
    }
}

} // verus!
