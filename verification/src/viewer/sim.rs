//! A simulated network of nodes.
//!
//! A queue of messages in flight, the nodes to hand them to, and a clock that
//! moves only when somebody asks it to. Nothing here reaches the operating
//! system.

use vstd::prelude::*;
use std::collections::VecDeque;
use vstd::slice::slice_to_vec;
use crate::cost::Cost;
use crate::flood::claim;
use crate::flood::claim::Hop;
use crate::flood::message;
use crate::flood::message::{Envelope, EnvelopeView, Message};
use crate::flood::model::NodeView;
use crate::flood::node::Node;
use crate::key;
use crate::key::{PublicKey, KEY_LEN};
use crate::sorted_map;
use crate::sorted_map::SortedMap;
use crate::text;
use crate::text::push_decimal;
use crate::viewer::json;
use crate::viewer::json::{push_boolean, push_ids, push_labels, push_quoted};
use crate::viewer::model;
use crate::viewer::model::{DeliveryView, Ends, InFlightView, SimView, MAX_STEPS, TICK};
use crate::walk;

verus! {

/// A short label for a node, used as its identity throughout the UI.
pub type Id = u8;

/// A node's key is its label repeated, so the two convert freely.
fn key_of(id: Id) -> (key: PublicKey)
    ensures
        key == model::key_of(id),
        model::id_of(key) == id,
{
    let key = PublicKey::new([id; KEY_LEN]);
    proof {
        assert(key@ =~= Seq::new(KEY_LEN as nat, |i: int| id));
        key::lemma_key_is_its_bytes(key, model::key_of(id));
    }
    key
}

fn id_of(key: PublicKey) -> (id: Id)
    ensures
        id == model::id_of(key),
{
    key.as_bytes()[0]
}

fn ordered(a: Id, b: Id) -> (pair: Ends)
    ensures
        pair == model::ordered(a, b),
{
    if a <= b {
        Ends { a, b }
    } else {
        Ends { a: b, b: a }
    }
}

/// A message on its way from one node to a linked peer.
struct InFlight {
    to: PublicKey,
    from: PublicKey,
    message: Message,
}

impl View for InFlight {
    type V = InFlightView;

    closed spec fn view(&self) -> InFlightView {
        InFlightView { to: self.to, from: self.from, message: self.message@ }
    }
}

/// The outcome of pushing one packet through the network.
pub struct Delivery {
    /// The nodes the packet passed through, in order, starting at the sender.
    pub route: Vec<Id>,
    /// Whether it reached the node it was addressed to.
    pub delivered: bool,
    /// What the links it crossed cost, added up.
    pub cost: u64,
}

impl View for Delivery {
    type V = DeliveryView;

    open spec fn view(&self) -> DeliveryView {
        DeliveryView { route: self.route@, delivered: self.delivered, cost: self.cost }
    }
}

impl Delivery {
    /// The JSON fields a caller adds to its response, without the braces.
    pub fn json_fields(&self) -> (fields: String)
        ensures
            fields@ == model::delivery_fields(self@),
    {
        let mut fields = String::from_str("\"route\":");
        push_ids(&mut fields, &self.route);
        fields.append(",\"delivered\":");
        push_boolean(&mut fields, self.delivered);
        fields.append(",\"cost\":");
        push_decimal(&mut fields, self.cost);
        fields
    }
}

/// Everything the viewer knows.
pub struct Sim {
    /// The nodes, in order of their labels.
    nodes: Vec<(Id, Node)>,
    /// Links and what each costs to cross, each held once with the smaller
    /// label first. Both ends of a link agree on its cost here; a node itself
    /// makes no such assumption, since each end measures for itself.
    links: SortedMap<Ends, Cost>,
    queue: VecDeque<InFlight>,
    /// The clock every node shares. Only [`Sim::advance`] moves it, so nothing
    /// expires or is reissued except when the viewer asks for it.
    now: u64,
    /// Labels are never reused. Reusing one is only safe once the network has
    /// forgotten the node that held it, and the viewer cannot promise that at
    /// the moment somebody presses the button.
    next_id: Id,
    log: Vec<String>,
    /// Bumped on every change, so the UI can tell whether it needs to redraw.
    version: u64,
}

impl View for Sim {
    type V = SimView;

    closed spec fn view(&self) -> SimView {
        SimView {
            nodes: self.nodes@.map_values(|entry: (Id, Node)| (entry.0, entry.1@)),
            links: self.links@,
            queue: self.queue@.map_values(|in_flight: InFlight| in_flight@),
            now: self.now,
            next_id: self.next_id,
            log: self.log@.map_values(|line: String| line@),
            version: self.version,
        }
    }
}

/// Changing one node leaves the network in order, and every label where it was.
proof fn lemma_node_changed(sim: SimView, id: Id, at: int, node: NodeView)
    requires
        sim.wf(),
        sim.bears(id, at),
        node.wf(),
        node.key == sim.nodes[at].1.key,
    ensures
        sim.place(id) == at,
        sim.with_node(id, node).wf(),
        sim.with_node(id, node).nodes == sim.nodes.update(at, (id, node)),
        forall|other: Id| #[trigger] sim.with_node(id, node).has(other) <==> sim.has(other),
{
    lemma_place(sim, id, at);
    let after = sim.with_node(id, node);
    assert forall|i: int, j: int| 0 <= i < j < after.nodes.len() implies (
    #[trigger] after.nodes[i]).0 < (#[trigger] after.nodes[j]).0 by {
        assert(sim.nodes[i].0 < sim.nodes[j].0);
    }
    assert forall|i: int| 0 <= i < after.nodes.len() implies (#[trigger] after.nodes[i]).0
        < after.next_id && after.nodes[i].1.wf() && after.nodes[i].1.key == model::key_of(
        after.nodes[i].0,
    ) by {
        assert(sim.nodes[i].0 < sim.next_id);
        assert(sim.nodes[at].1.key == model::key_of(sim.nodes[at].0));
    }
    assert forall|other: Id| #[trigger] after.has(other) <==> sim.has(other) by {
        if after.has(other) {
            let i = choose|i: int| after.bears(other, i);
            assert(sim.bears(other, i));
        }
        if sim.has(other) {
            let i = choose|i: int| sim.bears(other, i);
            assert(after.bears(other, i));
        }
    }
}

/// A label is borne in one place.
proof fn lemma_place(sim: SimView, id: Id, at: int)
    requires
        sim.wf(),
        sim.bears(id, at),
    ensures
        sim.has(id),
        sim.place(id) == at,
{
    let found = sim.place(id);
    assert(sim.bears(id, found));
    if found < at {
        assert(sim.nodes[found].0 < sim.nodes[at].0);
    } else if at < found {
        assert(sim.nodes[at].0 < sim.nodes[found].0);
    }
}

impl Sim {
    /// Whether every node is in order, and the network as a whole.
    pub closed spec fn wf(&self) -> bool {
        &&& self.links.wf()
        &&& forall|i: int| 0 <= i < self.nodes@.len() ==> (#[trigger] self.nodes@[i]).1.wf()
        &&& self@.wf()
    }

    /// Where the node a label names is.
    fn find(&self, id: Id) -> (at: Option<usize>)
        requires
            self.wf(),
        ensures
            match at {
                Some(at) => at < self.nodes@.len() && self@.bears(id, at as int) && self@.has(id)
                    && self@.place(id) == at,
                None => !self@.has(id),
            },
    {
        let mut i: usize = 0;
        while i < self.nodes.len()
            invariant
                self.wf(),
                0 <= i <= self.nodes@.len(),
                forall|j: int| 0 <= j < i ==> (#[trigger] self.nodes@[j]).0 != id,
            decreases self.nodes@.len() - i,
        {
            if self.nodes[i].0 == id {
                proof {
                    lemma_place(self@, id, i as int);
                }
                return Some(i);
            }
            i += 1;
        }
        proof {
            if self@.has(id) {
                let j = choose|j: int| self@.bears(id, j);
                assert(self.nodes@[j].0 == id);
            }
        }
        None
    }

    /// Notes what happened.
    fn note(&mut self, line: String)
        requires
            old(self).wf(),
        ensures
            final(self).wf(),
            final(self)@ == old(self)@.noted(line@),
    {
        let ghost before = self@;
        self.version = self.version.wrapping_add(1);
        self.log.push(line);
        proof {
            assert(self@.log =~= before.log.push(line@));
            assert(self@.nodes == before.nodes);
            assert(self@.links == before.links);
        }
    }

    /// Puts what a node said on its way.
    fn enqueue(&mut self, from: Id, outbound: &Vec<Envelope>)
        requires
            old(self).wf(),
        ensures
            final(self).wf(),
            final(self)@ == old(self)@.enqueued(from, message::posted(outbound@)),
    {
        let ghost before = self@;
        let ghost out = message::posted(outbound@);
        let ghost carry = |envelope: EnvelopeView|
            InFlightView {
                to: envelope.to,
                from: model::key_of(from),
                message: envelope.message,
            };
        let mut i: usize = 0;
        assert(self@.queue =~= before.queue + out.take(0).map_values(carry));
        while i < outbound.len()
            invariant
                self.wf(),
                out == message::posted(outbound@),
                carry == (|envelope: EnvelopeView|
                    InFlightView {
                        to: envelope.to,
                        from: model::key_of(from),
                        message: envelope.message,
                    }),
                0 <= i <= outbound@.len(),
                self@ == (SimView {
                    queue: before.queue + out.take(i as int).map_values(carry),
                    ..before
                }),
            decreases outbound@.len() - i,
        {
            let ghost was = self@;
            let envelope = &outbound[i];
            self.queue.push_back(
                InFlight { to: envelope.to, from: key_of(from), message: envelope.message.clone() },
            );
            proof {
                assert(out[i as int] == envelope@);
                assert(self@.queue =~= was.queue.push(carry(out[i as int])));
                assert(self@.nodes == was.nodes);
                assert(self@.links == was.links);
                assert(self@.queue =~= before.queue + out.take(i + 1).map_values(carry));
                assert(self@ =~= (SimView {
                    queue: before.queue + out.take(i + 1).map_values(carry),
                    ..before
                }));
            }
            i += 1;
        }
        assert(out.take(i as int) =~= out);
        assert(self@ =~= before.enqueued(from, out));
    }

    /// Tells the node at one place what time it is.
    fn tick_at(&mut self, at: usize)
        requires
            old(self).wf(),
            at < old(self)@.nodes.len(),
        ensures
            final(self).wf(),
            ({
                let id = old(self)@.nodes[at as int].0;
                final(self)@ == old(self)@.acted(
                    id,
                    old(self)@.node(id).ticked(old(self)@.now),
                )
            }),
            final(self)@.nodes.len() == old(self)@.nodes.len(),
            forall|i: int|
                0 <= i < old(self)@.nodes.len() ==> (#[trigger] final(self)@.nodes[i]).0 == old(
                    self,
                )@.nodes[i].0,
    {
        let ghost before = self@;
        let id = self.nodes[at].0;
        let now = self.now;
        let entry = &mut self.nodes[at];
        let outbound = entry.1.tick(now);
        proof {
            let node = before.nodes[at as int].1.ticked(now).node;
            lemma_place(before, id, at as int);
            lemma_node_changed(before, id, at as int, node);
            assert(self@.nodes =~= before.nodes.update(at as int, (id, node)));
            assert(self@ =~= before.with_node(id, node));
        }
        self.enqueue(id, &outbound);
    }

    /// Hands the node at one place a message.
    fn handle_at(&mut self, at: usize, from: PublicKey, message: Message) -> (outbound: Vec<Envelope>)
        requires
            old(self).wf(),
            at < old(self)@.nodes.len(),
        ensures
            final(self).wf(),
            ({
                let id = old(self)@.nodes[at as int].0;
                let step = old(self)@.node(id).handled(old(self)@.now, from, message@);
                &&& final(self)@ == old(self)@.with_node(id, step.node)
                &&& message::posted(outbound@) == step.out
            }),
            forall|other: Id| #[trigger] final(self)@.has(other) <==> old(self)@.has(other),
    {
        let ghost before = self@;
        let ghost id = self.nodes@[at as int].0;
        let now = self.now;
        let ghost said = message@;
        let entry = &mut self.nodes[at];
        let outbound = entry.1.handle(now, from, message);
        proof {
            let node = before.nodes[at as int].1.handled(now, from, said).node;
            lemma_place(before, id, at as int);
            lemma_node_changed(before, id, at as int, node);
            assert(self@.nodes =~= before.nodes.update(at as int, (id, node)));
            assert(self@ =~= before.with_node(id, node));
        }
        outbound
    }

    /// Delivers gossip until the network falls quiet.
    fn run(&mut self)
        requires
            old(self).wf(),
        ensures
            final(self).wf(),
            final(self)@ == old(self)@.ran(),
    {
        let ghost start = self@;
        let mut left: usize = MAX_STEPS;
        while left > 0
            invariant
                self.wf(),
                left <= MAX_STEPS,
                start == old(self)@,
                self@.run_for(left as nat) == start.ran(),
            decreases left,
        {
            let ghost before = self@;
            let in_flight = match self.queue.pop_front() {
                Some(in_flight) => in_flight,
                None => {
                    proof {
                        assert(before.queue.len() == 0);
                        assert(self@.queue =~= before.queue);
                        assert(self@ =~= before);
                        assert(before.run_for(left as nat) == before);
                    }
                    return;
                },
            };
            assert(self@.queue =~= before.queue.drop_first());
            assert(self@ =~= (SimView { queue: before.queue.drop_first(), ..before }));
            let to = id_of(in_flight.to);
            if let Some(at) = self.find(to) {
                let outbound = self.handle_at(at, in_flight.from, in_flight.message);
                self.enqueue(to, &outbound);
            }
            assert(self@ == before.next_delivered());
            left -= 1;
        }
        self.note(String::from_str("gossip did not settle; stopping"));
        self.queue.clear();
        assert(self@.queue =~= Seq::empty());
    }

    /// The clock every node shares.
    pub fn now(&self) -> (now: u64)
        ensures
            now == self@.now,
    {
        self.now
    }

    /// Whether a label names a node.
    fn require(&self, id: Id) -> (found: Result<(), String>)
        requires
            self.wf(),
        ensures
            told(
                found,
                if self@.has(id) {
                    Ok(())
                } else {
                    Err(model::no_node(id))
                },
            ),
    {
        match self.find(id) {
            Some(_) => Ok(()),
            None => Err(no_node(id)),
        }
    }

    /// Adds an isolated node and returns its label.
    pub fn add_node(&mut self) -> (added: Result<Id, String>)
        requires
            old(self).wf(),
        ensures
            final(self).wf(),
            final(self)@ == old(self)@.node_added().0,
            told(added, old(self)@.node_added().1),
    {
        let ghost before = self@;
        let id = self.next_id;
        if id == u8::MAX {
            return Err(String::from_str("out of labels"));
        }
        self.next_id = id + 1;
        let node = Node::new(self.now, key_of(id));
        let ghost state = node@;
        self.nodes.push((id, node));
        proof {
            assert(self@.nodes =~= before.nodes.push((id, state)));
            assert(self@.links == before.links);
            assert forall|i: int, j: int| 0 <= i < j < self@.nodes.len() implies (
            #[trigger] self@.nodes[i]).0 < (#[trigger] self@.nodes[j]).0 by {
                if j < before.nodes.len() {
                    assert(before.nodes[i].0 < before.nodes[j].0);
                } else {
                    assert(before.nodes[i].0 < before.next_id);
                }
            }
            assert forall|i: int| 0 <= i < self@.nodes.len() implies (
            #[trigger] self@.nodes[i]).0 < self@.next_id && self@.nodes[i].1.wf()
                && self@.nodes[i].1.key == model::key_of(self@.nodes[i].0) by {
                if i < before.nodes.len() {
                    assert(before.nodes[i].0 < before.next_id);
                }
            }
            assert(self@.wf());
        }
        let mut line = String::from_str("added node ");
        push_decimal(&mut line, id as u64);
        self.note(line);
        Ok(id)
    }

    /// Tells one end of a link what it costs.
    fn price_end(&mut self, near: Id, far: Id, cost: Cost)
        requires
            old(self).wf(),
        ensures
            final(self).wf(),
            final(self)@ == old(self)@.end_priced(near, far, cost@),
    {
        let ghost before = self@;
        if let Some(at) = self.find(near) {
            let now = self.now;
            let entry = &mut self.nodes[at];
            let outbound = entry.1.add_peer(now, key_of(far), cost);
            proof {
                let node = before.nodes[at as int].1.peer_added(
                    now,
                    model::key_of(far),
                    cost@,
                ).node;
                lemma_node_changed(before, near, at as int, node);
                assert(self@.nodes =~= before.nodes.update(at as int, (near, node)));
                assert(self@ =~= before.with_node(near, node));
            }
            self.enqueue(near, &outbound);
        }
    }

    /// Tells one end of a link it is gone.
    fn drop_end(&mut self, near: Id, far: Id)
        requires
            old(self).wf(),
        ensures
            final(self).wf(),
            final(self)@ == old(self)@.end_dropped(near, far),
            forall|other: Id| #[trigger] final(self)@.has(other) <==> old(self)@.has(other),
    {
        let ghost before = self@;
        if let Some(at) = self.find(near) {
            let now = self.now;
            let entry = &mut self.nodes[at];
            let outbound = entry.1.remove_peer(now, key_of(far));
            proof {
                let node = before.nodes[at as int].1.peer_removed(now, model::key_of(far)).node;
                lemma_node_changed(before, near, at as int, node);
                assert(self@.nodes =~= before.nodes.update(at as int, (near, node)));
                assert(self@ =~= before.with_node(near, node));
            }
            let ghost changed = self@;
            self.enqueue(near, &outbound);
            assert forall|other: Id| #[trigger] self@.has(other) <==> before.has(other) by {
                lemma_same_labels(changed, self@, other);
            }
        }
    }

    /// Prices a link on both sides and lets the network settle.
    ///
    /// Each node is told separately what its own end costs, because that is
    /// all a node ever knows: nothing assumes the two ends of a link agree, and
    /// it is only this simulator that makes them.
    fn connect(&mut self, a: Id, b: Id, cost: Cost)
        requires
            old(self).wf(),
        ensures
            final(self).wf(),
            final(self)@ == old(self)@.connected(a, b, cost@),
    {
        let ghost before = self@;
        let price = cost.get();
        self.links.insert(ordered(a, b), cost);
        proof {
            assert(self@.nodes == before.nodes);
            assert(self@.links == before.links.insert(model::ordered(a, b), cost@));
            assert forall|pair: Ends| #[trigger]
                self@.links.contains_key(pair) implies self@.links[pair] >= 1 by {
                assert(pair == model::ordered(a, b) || before.links.contains_key(pair));
                assert(price >= 1 && price == cost@);
            }
            assert(self@ =~= (SimView {
                links: before.links.insert(model::ordered(a, b), cost@),
                ..before
            }));
        }
        self.price_end(a, b, cost);
        self.price_end(b, a, cost);
        self.run();
    }

    /// Drops a link on both sides without logging or running the queue.
    fn unlink(&mut self, a: Id, b: Id)
        requires
            old(self).wf(),
        ensures
            final(self).wf(),
            final(self)@ == old(self)@.unlinked(a, b),
            forall|other: Id| #[trigger] final(self)@.has(other) <==> old(self)@.has(other),
    {
        let ghost before = self@;
        let _ = self.links.remove(&ordered(a, b));
        proof {
            assert(self@.nodes == before.nodes);
            assert(self@.links == before.links.remove(model::ordered(a, b)));
            assert forall|pair: Ends| #[trigger]
                self@.links.contains_key(pair) implies self@.links[pair] >= 1 by {
                assert(before.links.contains_key(pair));
            }
            assert(self@ =~= (SimView {
                links: before.links.remove(model::ordered(a, b)),
                ..before
            }));
        }
        let ghost cut = self@;
        self.drop_end(a, b);
        self.drop_end(b, a);
        assert forall|other: Id| #[trigger] self@.has(other) <==> before.has(other) by {
            lemma_same_labels(before, cut, other);
        }
    }

    /// The labels of a node's peers, in order.
    fn peers_at(&self, at: usize) -> (peers: Vec<Id>)
        requires
            self.wf(),
            at < self@.nodes.len(),
        ensures
            peers@ == model::peer_labels(self@.nodes[at as int].1),
    {
        let listed = self.nodes[at].1.peers();
        let ghost entries = sorted_map::ascending(self@.nodes[at as int].1.peers);
        let ghost read = |entry: (PublicKey, u64)| model::id_of(entry.0);
        let mut peers: Vec<Id> = Vec::new();
        let mut i: usize = 0;
        while i < listed.len()
            invariant
                entries == listed@.map_values(|entry: (PublicKey, Cost)| (entry.0, entry.1@)),
                read == (|entry: (PublicKey, u64)| model::id_of(entry.0)),
                0 <= i <= listed@.len(),
                peers@ == entries.take(i as int).map_values(read),
            decreases listed@.len() - i,
        {
            peers.push(id_of(listed[i].0));
            assert(entries[i as int].0 == listed@[i as int].0);
            assert(peers@ =~= entries.take(i + 1).map_values(read));
            i += 1;
        }
        assert(entries.take(i as int) =~= entries);
        peers
    }

    /// Removes a node and every link it held.
    pub fn remove_node(&mut self, id: Id) -> (removed: Result<(), String>)
        requires
            old(self).wf(),
        ensures
            final(self).wf(),
            final(self)@ == old(self)@.node_removed(id).0,
            told(removed, old(self)@.node_removed(id).1),
    {
        let ghost before = self@;
        let at = match self.find(id) {
            Some(at) => at,
            None => {
                return Err(no_node(id));
            },
        };
        let peers = self.peers_at(at);
        let mut i: usize = 0;
        assert(peers@.take(0) =~= Seq::empty());
        while i < peers.len()
            invariant
                self.wf(),
                0 <= i <= peers@.len(),
                self@.has(id),
                self@ == before.unlinked_from(id, peers@.take(i as int)),
            decreases peers@.len() - i,
        {
            self.unlink(id, peers[i]);
            proof {
                let taken = peers@.take(i + 1);
                assert(taken.drop_last() =~= peers@.take(i as int));
                assert(taken.last() == peers@[i as int]);
            }
            i += 1;
        }
        assert(peers@.take(i as int) =~= peers@);
        let ghost cut = self@;
        if let Some(at) = self.find(id) {
            let _ = self.nodes.remove(at);
            proof {
                assert(self@.nodes =~= cut.nodes.remove(at as int));
                assert(self@.links == cut.links);
                lemma_node_gone(cut, at as int);
                assert(self@ =~= (SimView { nodes: cut.nodes.remove(cut.place(id)), ..cut }));
            }
        }
        self.run();
        let mut line = String::from_str("removed node ");
        push_decimal(&mut line, id as u64);
        self.note(line);
        Ok(())
    }

    /// Brings up a link between two nodes, costing `cost` to cross.
    pub fn add_link(&mut self, a: Id, b: Id, cost: u64) -> (added: Result<(), String>)
        requires
            old(self).wf(),
        ensures
            final(self).wf(),
            final(self)@ == old(self)@.link_added(a, b, cost).0,
            told(added, old(self)@.link_added(a, b, cost).1),
    {
        if a == b {
            return Err(String::from_str("a node cannot link to itself"));
        }
        if let Err(missing) = self.require(a) {
            return Err(missing);
        }
        if let Err(missing) = self.require(b) {
            return Err(missing);
        }
        let price = match Cost::new(cost) {
            Some(price) => price,
            None => {
                return Err(String::from_str("a link costs at least 1"));
            },
        };
        if self.links.contains_key(&ordered(a, b)) {
            return Err(naming("", a, " and ", b, " are already linked"));
        }
        self.connect(a, b, price);
        let mut line = naming("linked ", a, " and ", b, " at cost ");
        push_decimal(&mut line, cost);
        self.note(line);
        Ok(())
    }

    /// Re-prices a link that is already up.
    ///
    /// This is what a real caller does when it measures a peering again, and
    /// it is the whole of what link cost changes: no message crosses the
    /// network, but every node that was routing over this link reconsiders.
    pub fn set_link_cost(&mut self, a: Id, b: Id, cost: u64) -> (repriced: Result<(), String>)
        requires
            old(self).wf(),
        ensures
            final(self).wf(),
            final(self)@ == old(self)@.link_repriced(a, b, cost).0,
            told(repriced, old(self)@.link_repriced(a, b, cost).1),
    {
        let price = match Cost::new(cost) {
            Some(price) => price,
            None => {
                return Err(String::from_str("a link costs at least 1"));
            },
        };
        let current = match self.links.get(&ordered(a, b)) {
            Some(current) => current.get(),
            None => {
                return Err(naming("", a, " and ", b, " are not linked"));
            },
        };
        if current == cost {
            let mut line = naming("", a, " and ", b, " already cost ");
            push_decimal(&mut line, cost);
            return Err(line);
        }
        self.connect(a, b, price);
        let mut line = naming("", a, " and ", b, " now cost ");
        push_decimal(&mut line, cost);
        line.append(", was ");
        push_decimal(&mut line, current);
        self.note(line);
        Ok(())
    }

    /// Tears down a link.
    pub fn remove_link(&mut self, a: Id, b: Id) -> (removed: Result<(), String>)
        requires
            old(self).wf(),
        ensures
            final(self).wf(),
            final(self)@ == old(self)@.link_removed(a, b).0,
            told(removed, old(self)@.link_removed(a, b).1),
    {
        if !self.links.contains_key(&ordered(a, b)) {
            return Err(naming("", a, " and ", b, " are not linked"));
        }
        self.unlink(a, b);
        self.run();
        let line = naming("unlinked ", a, " and ", b, "");
        self.note(line);
        Ok(())
    }

    /// How many announcements the network holds in total, which is what
    /// expiry shrinks.
    fn total_known(&self) -> (total: u64)
        requires
            self.wf(),
        ensures
            total == self@.total_known(),
    {
        let mut total: u64 = 0;
        let mut i: usize = 0;
        while i < self.nodes.len()
            invariant
                self.wf(),
                0 <= i <= self.nodes@.len(),
                total == walk::capped(self@.known_upto(i as nat)),
            decreases self.nodes@.len() - i,
        {
            let known = self.nodes[i].1.known();
            assert(known@.len() == sorted_map::ascending(self@.nodes[i as int].1.infos).len());
            total = total.saturating_add(known.len() as u64);
            i += 1;
        }
        total
    }

    /// Tells every node that it is `now`, and lets the network settle.
    fn step_to(&mut self, now: u64)
        requires
            old(self).wf(),
        ensures
            final(self).wf(),
            final(self)@ == old(self)@.stepped_to(now),
            final(self)@.now == now,
    {
        let ghost before = self@;
        self.now = now;
        proof {
            assert(self@.nodes == before.nodes);
            assert(self@.links == before.links);
        }
        let ghost later = self@;
        assert(later =~= (SimView { now, ..before }));
        let mut i: usize = 0;
        while i < self.nodes.len()
            invariant
                self.wf(),
                0 <= i <= self@.nodes.len(),
                self@.nodes.len() == later.nodes.len(),
                forall|j: int|
                    0 <= j < later.nodes.len() ==> (#[trigger] self@.nodes[j]).0
                        == later.nodes[j].0,
                self@ == later.ticked_upto(i as nat),
                self@.now == now,
            decreases later.nodes.len() - i,
        {
            assert(self@.nodes[i as int].0 == later.nodes[i as int].0);
            self.tick_at(i);
            i += 1;
        }
        let ghost ticked = self@;
        self.run();
        proof {
            lemma_running_takes_no_time(ticked, MAX_STEPS as nat);
        }
    }

    /// Moves the clock forward, letting nodes reissue and expire announcements.
    ///
    /// Time is stepped in refresh-sized increments rather than jumped in one
    /// go, because a jump would look to every node as though the whole network
    /// had fallen silent for the entire interval.
    ///
    /// `clock` is what the clock will read, in seconds, for the log.
    pub fn advance(&mut self, by: u64, clock: &str)
        requires
            old(self).wf(),
        ensures
            final(self).wf(),
            final(self)@ == old(self)@.advanced(by, clock@),
    {
        let ghost start = self@;
        let before = self.total_known();
        let target = self.now.saturating_add(by);
        while self.now < target
            invariant
                self.wf(),
                self@.advanced_from(self@.now, target) == start.advanced_from(start.now, target),
            decreases target - self.now,
        {
            let next = if target - self.now <= TICK {
                target
            } else {
                self.now + TICK
            };
            self.step_to(next);
        }
        let left = self.total_known();
        let forgotten = before.saturating_sub(left);
        let mut line = String::from_str("clock at ");
        line.append(clock);
        line.append("s");
        if forgotten == 1 {
            line.append(", 1 announcement expired");
        } else if forgotten > 1 {
            line.append(", ");
            push_decimal(&mut line, forgotten);
            line.append(" announcements expired");
        }
        self.note(line);
    }

    /// What crossing every link along `route` costs.
    fn cost_of(&self, route: &Vec<Id>) -> (cost: u64)
        requires
            self.wf(),
            route@.len() > 0,
        ensures
            cost == walk::capped(self@.fares(route@)),
    {
        let mut cost: u64 = 0;
        let mut i: usize = 1;
        assert(self@.fares(route@.take(1)) == 0);
        while i < route.len()
            invariant
                self.wf(),
                1 <= i <= route@.len(),
                cost == walk::capped(self@.fares(route@.take(i as int))),
            decreases route@.len() - i,
        {
            let pair = ordered(route[i - 1], route[i]);
            proof {
                let taken = route@.take(i + 1);
                assert(taken.drop_last() =~= route@.take(i as int));
                assert(taken[taken.len() - 2] == route@[i - 1]);
                assert(taken.last() == route@[i as int]);
            }
            if let Some(price) = self.links.get(&pair) {
                cost = cost.saturating_add(price.get());
            }
            i += 1;
        }
        assert(route@.take(i as int) =~= route@);
        cost
    }

    /// Follows a packet from the end of `route` for at most `hops` hops, and
    /// says which label it was handed to that names nobody, if it came to
    /// that.
    fn follow(&mut self, route: &mut Vec<Id>, first: Option<Envelope>, hops: usize) -> (lost:
        Option<Id>)
        requires
            old(self).wf(),
            old(route)@.len() > 0,
            old(self)@.has(old(route)@.last()),
        ensures
            final(self).wf(),
            ({
                let trip = old(self)@.followed(old(route)@, seen(first), hops as nat);
                &&& final(self)@ == trip.sim
                &&& final(route)@ == trip.route
                &&& lost == trip.lost
            }),
            final(route)@.len() > 0,
            lost is None ==> final(self)@.has(final(route)@.last()),
    {
        let ghost trip = self@.followed(route@, seen(first), hops as nat);
        let mut left: usize = hops;
        let mut hop = first;
        while left > 0
            invariant
                self.wf(),
                route@.len() > 0,
                self@.has(route@.last()),
                self@.followed(route@, seen(hop), left as nat) == trip,
                trip == old(self)@.followed(old(route)@, seen(first), hops as nat),
            decreases left,
        {
            let envelope = match hop {
                Some(envelope) => envelope,
                None => {
                    return None;
                },
            };
            let moving = match &envelope.message {
                Message::Packet(_) => true,
                Message::Announce(_) => false,
            };
            if !moving {
                return None;
            }
            let carrier = route[route.len() - 1];
            let next = id_of(envelope.to);
            route.push(next);
            let at = match self.find(next) {
                Some(at) => at,
                None => {
                    return Some(next);
                },
            };
            let produced = self.handle_at(at, key_of(carrier), envelope.message);
            hop = first_of(produced);
            left -= 1;
        }
        None
    }

    /// Sends one packet and traces the path it took.
    ///
    /// Carrying a packet changes nobody's mind, so one that has crossed as many
    /// links as there are nodes has been somewhere twice and would go round for
    /// ever. It is dropped where it is.
    pub fn send(&mut self, from: Id, to: Id) -> (sent: Result<Delivery, String>)
        requires
            old(self).wf(),
        ensures
            final(self).wf(),
            final(self)@ == old(self)@.sent(from, to).0,
            match old(self)@.sent(from, to).1 {
                Ok(expected) => sent matches Ok(delivery) && delivery@ == expected,
                Err(words) => sent matches Err(error) && error@ == words,
            },
    {
        let ghost before = self@;
        let at = match self.find(from) {
            Some(at) => at,
            None => {
                return Err(no_node(from));
            },
        };
        if let Err(missing) = self.require(to) {
            return Err(missing);
        }
        let hello = slice_to_vec("hello".as_bytes());
        let entry = &mut self.nodes[at];
        let outcome = entry.1.send(key_of(to), hello);
        proof {
            let node = before.nodes[at as int].1.sent(model::key_of(to), hello@).0;
            lemma_node_changed(before, from, at as int, node);
            assert(self@.nodes =~= before.nodes.update(at as int, (from, node)));
            assert(self@ =~= before.with_node(from, node));
        }
        let outbound = match outcome {
            Ok(outbound) => outbound,
            Err(error) => {
                let mut line = naming("", from, " to ", to, ": ");
                line.append(error.text());
                return Err(line);
            },
        };
        // Forwarding a packet yields at most one packet, so following it is a
        // walk rather than a search. The sender of each hop is whichever node
        // is holding the packet, which is what the receiver checks it against.
        let mut route: Vec<Id> = vec![from];
        assert(route@ =~= seq![from]);
        let hop = first_of(outbound);
        let left = self.nodes.len();
        if let Some(id) = self.follow(&mut route, hop, left) {
            return Err(no_node(id));
        }
        let last = route[route.len() - 1];
        let cost = self.cost_of(&route);
        let ghost arrived = self@;
        let mut delivered = false;
        if let Some(at) = self.find(last) {
            let entry = &mut self.nodes[at];
            let taken = entry.1.take_delivered();
            delivered = taken.len() > 0;
            proof {
                let was = arrived.nodes[at as int].1;
                let node = NodeView { delivered: Seq::empty(), ..was };
                assert(taken@.len() == was.delivered.len());
                lemma_node_changed(arrived, last, at as int, node);
                assert(self@.nodes =~= arrived.nodes.update(at as int, (last, node)));
                assert(self@ =~= arrived.with_node(last, node));
            }
        }
        let mut line = naming("packet ", from, " to ", to, ": ");
        push_labels(&mut line, &route, " \u{2192} ");
        if delivered {
            line.append(" (delivered, cost ");
        } else {
            line.append(" (dropped, cost ");
        }
        push_decimal(&mut line, cost);
        line.append(")");
        self.note(line);
        Ok(Delivery { route, delivered, cost })
    }

    /// The parent of the node a label names.
    fn parent_of(&self, id: Id) -> (parent: Option<Id>)
        requires
            self.wf(),
        ensures
            parent == self@.parent_of(id),
    {
        match self.find(id) {
            Some(at) => match self.nodes[at].1.parent() {
                Some(parent) => Some(id_of(parent)),
                None => None,
            },
            None => None,
        }
    }

    /// Writes one node onto the end of `out`.
    fn push_node(&self, out: &mut String, at: usize)
        requires
            self.wf(),
            at < self@.nodes.len(),
        ensures
            final(out)@ == old(out)@ + model::node_json(self@.nodes[at as int]),
    {
        let ghost before = out@;
        let ghost entry = self@.nodes[at as int];
        let node = &self.nodes[at].1;
        let known = node.known();
        let path = labels_of(node.path());
        let peers = self.peers_at(at);
        out.append("{\"id\":");
        push_decimal(out, self.nodes[at].0 as u64);
        out.append(",\"root\":");
        push_decimal(out, id_of(node.root()) as u64);
        out.append(",\"parent\":");
        match node.parent() {
            Some(parent) => push_decimal(out, id_of(parent) as u64),
            None => out.append("null"),
        }
        out.append(",\"path\":");
        push_ids(out, &path);
        out.append(",\"cost\":");
        push_decimal(out, node.cost_to_root());
        out.append(",\"peers\":");
        push_ids(out, &peers);
        out.append(",\"knows\":");
        push_decimal(out, known.len() as u64);
        out.append("}");
        proof {
            assert(known@.len() == sorted_map::ascending(entry.1.infos).len());
            assert(out@ =~= before + model::node_json(entry));
        }
    }

    /// Writes every node onto the end of `out`.
    fn push_nodes(&self, out: &mut String)
        requires
            self.wf(),
        ensures
            final(out)@ == old(out)@ + text::joined(
                self@.nodes.map_values(|entry: (u8, NodeView)| model::node_json(entry)),
                ","@,
            ),
    {
        let ghost before = out@;
        let ghost write = |entry: (u8, NodeView)| model::node_json(entry);
        let ghost pieces = self@.nodes.map_values(write);
        let mut i: usize = 0;
        assert(out@ =~= before + text::joined(pieces.take(0), ","@));
        while i < self.nodes.len()
            invariant
                self.wf(),
                write == (|entry: (u8, NodeView)| model::node_json(entry)),
                pieces == self@.nodes.map_values(write),
                0 <= i <= self@.nodes.len(),
                out@ == before + text::joined(pieces.take(i as int), ","@),
            decreases self@.nodes.len() - i,
        {
            if i > 0 {
                out.append(",");
            }
            self.push_node(out, i);
            proof {
                text::lemma_join_one_more(pieces, i as int, ","@);
                assert(out@ =~= before + text::joined(pieces.take(i + 1), ","@));
            }
            i += 1;
        }
        assert(pieces.take(i as int) =~= pieces);
    }

    /// Writes every link onto the end of `out`.
    fn push_links(&self, out: &mut String)
        requires
            self.wf(),
        ensures
            final(out)@ == old(out)@ + text::joined(
                sorted_map::ascending(self@.links).map_values(
                    |entry: (Ends, u64)| self@.link_json(entry),
                ),
                ","@,
            ),
    {
        let ghost before = out@;
        let ghost sim = self@;
        let ghost write = |entry: (Ends, u64)| sim.link_json(entry);
        let ghost listed = sorted_map::ascending(sim.links);
        let ghost pieces = listed.map_values(write);
        let mut i: usize = 0;
        assert(out@ =~= before + text::joined(pieces.take(0), ","@));
        while i < self.links.len()
            invariant
                self.wf(),
                sim == self@,
                write == (|entry: (Ends, u64)| sim.link_json(entry)),
                listed == sorted_map::ascending(self.links@),
                pieces == listed.map_values(write),
                0 <= i <= listed.len(),
                out@ == before + text::joined(pieces.take(i as int), ","@),
            decreases listed.len() - i,
        {
            let ends = self.links.key_at(i);
            let cost = self.links.value_at(i).get();
            let tree = is_label(self.parent_of(ends.a), ends.b) || is_label(
                self.parent_of(ends.b),
                ends.a,
            );
            let ghost was = out@;
            if i > 0 {
                out.append(",");
            }
            out.append("{\"a\":");
            push_decimal(out, ends.a as u64);
            out.append(",\"b\":");
            push_decimal(out, ends.b as u64);
            out.append(",\"cost\":");
            push_decimal(out, cost);
            out.append(",\"tree\":");
            push_boolean(out, tree);
            out.append("}");
            proof {
                let between = if i > 0 { ","@ } else { Seq::empty() };
                assert(pieces[i as int] == sim.link_json(listed[i as int]));
                assert(out@ =~= was + between + pieces[i as int]);
                text::lemma_join_one_more(pieces, i as int, ","@);
                assert(out@ =~= before + text::joined(pieces.take(i + 1), ","@));
            }
            i += 1;
        }
        assert(pieces.take(i as int) =~= pieces);
        assert(sorted_map::ascending(self@.links).map_values(
            |entry: (Ends, u64)| self@.link_json(entry),
        ) =~= pieces);
    }

    /// Writes the last lines of the log onto the end of `out`, newest first.
    fn push_log(&self, out: &mut String)
        ensures
            final(out)@ == old(out)@ + text::joined(
                model::recent(self@.log).map_values(|line: Seq<char>| json::quoted(line)),
                ","@,
            ),
    {
        let ghost before = out@;
        let ghost write = |line: Seq<char>| json::quoted(line);
        let ghost pieces = model::recent(self@.log).map_values(write);
        let count: usize = if self.log.len() < 40 {
            self.log.len()
        } else {
            40
        };
        let mut i: usize = 0;
        assert(out@ =~= before + text::joined(pieces.take(0), ","@));
        while i < count
            invariant
                write == (|line: Seq<char>| json::quoted(line)),
                pieces == model::recent(self@.log).map_values(write),
                count == pieces.len(),
                count <= self.log@.len(),
                0 <= i <= count,
                out@ == before + text::joined(pieces.take(i as int), ","@),
            decreases count - i,
        {
            let line = &self.log[self.log.len() - 1 - i];
            let ghost was = out@;
            if i > 0 {
                out.append(",");
            }
            push_quoted(out, line.as_str());
            proof {
                assert(model::recent(self@.log)[i as int] == line@);
                assert(pieces[i as int] == json::quoted(line@));
                text::lemma_join_one_more(pieces, i as int, ","@);
                assert(out@ =~= before + text::joined(pieces.take(i + 1), ","@));
            }
            i += 1;
        }
        assert(pieces.take(i as int) =~= pieces);
    }

    /// The current state of the whole network, as JSON.
    pub fn snapshot(&self) -> (json: String)
        requires
            self.wf(),
        ensures
            json@ == self@.snapshot(),
    {
        let mut json = String::from_str("{\"version\":");
        push_decimal(&mut json, self.version);
        json.append(",\"now\":");
        push_decimal(&mut json, self.now);
        json.append(",\"nodes\":[");
        self.push_nodes(&mut json);
        json.append("],\"links\":[");
        self.push_links(&mut json);
        json.append("],\"log\":[");
        self.push_log(&mut json);
        json.append("]}");
        json
    }

    /// Builds a network worth looking at.
    pub fn new() -> (sim: Self)
        ensures
            sim.wf(),
            sim@ == model::opening(),
    {
        let mut sim = Sim {
            nodes: Vec::new(),
            links: SortedMap::new(),
            queue: VecDeque::new(),
            now: 0,
            next_id: 1,
            log: Vec::new(),
            version: 0,
        };
        proof {
            assert(sim@.nodes =~= Seq::empty());
            assert(sim@.queue =~= Seq::empty());
            assert(sim@.log =~= Seq::empty());
            assert(sim@ =~= model::vacant());
        }
        // These cannot fail: the labels are fresh, the links are between
        // distinct nodes that were just created, and no cost is zero.
        let _ = sim.add_node();
        let _ = sim.add_node();
        let _ = sim.add_node();
        let _ = sim.add_node();
        let _ = sim.add_node();
        // The 2-4 link is the short way round and the dear one, so the tree
        // that forms is the cheapest one rather than the shallowest.
        let _ = sim.add_link(1, 2, 1);
        let _ = sim.add_link(2, 3, 1);
        let _ = sim.add_link(3, 4, 1);
        let _ = sim.add_link(2, 4, 5);
        let _ = sim.add_link(4, 5, 1);
        let ghost linked = sim@;
        sim.log = Vec::new();
        proof {
            assert(sim@.log =~= Seq::empty());
            assert(sim@.nodes == linked.nodes);
            assert(sim@.links == linked.links);
            assert(sim@ =~= (SimView { log: Seq::empty(), ..linked }));
        }
        sim.note(String::from_str("network ready"));
        sim
    }
}

impl Default for Sim {
    fn default() -> (sim: Self)
        ensures
            sim.wf(),
            sim@ == model::opening(),
    {
        Sim::new()
    }
}

/// Whether an optional label is this one.
fn is_label(label: Option<Id>, id: Id) -> (same: bool)
    ensures
        same == (label == Some(id)),
{
    match label {
        Some(label) => label == id,
        None => false,
    }
}

/// The labels along a path.
fn labels_of(path: &[Hop]) -> (labels: Vec<Id>)
    ensures
        labels@ == model::path_labels(path@),
{
    let mut labels: Vec<Id> = Vec::new();
    let mut i: usize = 0;
    while i < path.len()
        invariant
            0 <= i <= path@.len(),
            labels@ == model::path_labels(path@.take(i as int)),
        decreases path@.len() - i,
    {
        labels.push(id_of(path[i].key));
        assert(labels@ =~= model::path_labels(path@.take(i + 1)));
        i += 1;
    }
    assert(path@.take(i as int) =~= path@);
    labels
}

/// What the envelope at hand says, if there is one.
pub open spec fn seen(hop: Option<Envelope>) -> Option<EnvelopeView> {
    match hop {
        Some(envelope) => Some(envelope@),
        None => None,
    }
}

/// The first of some envelopes, if there are any.
fn first_of(envelopes: Vec<Envelope>) -> (first: Option<Envelope>)
    ensures
        seen(first) == model::first(message::posted(envelopes@)),
{
    let mut envelopes = envelopes;
    if envelopes.len() > 0 {
        Some(envelopes.remove(0))
    } else {
        None
    }
}

/// Delivering messages does not move the clock.
proof fn lemma_running_takes_no_time(sim: SimView, left: nat)
    ensures
        sim.run_for(left).now == sim.now,
    decreases left,
{
    if left > 0 && sim.queue.len() > 0 {
        lemma_running_takes_no_time(sim.next_delivered(), (left - 1) as nat);
    }
}

/// Whether an outcome is the one expected, an error told by its words.
pub open spec fn told<T>(outcome: Result<T, String>, expected: Result<T, Seq<char>>) -> bool {
    match (outcome, expected) {
        (Ok(value), Ok(other)) => value == other,
        (Err(error), Err(words)) => error@ == words,
        _ => false,
    }
}

/// What is said of a label that names nobody.
fn no_node(id: Id) -> (line: String)
    ensures
        line@ == model::no_node(id),
{
    let mut line = String::from_str("no node ");
    push_decimal(&mut line, id as u64);
    line
}

/// Two labels with words around and between them.
fn naming(before: &str, a: Id, between: &str, b: Id, after: &str) -> (line: String)
    ensures
        line@ == model::naming(before@, a, between@, b, after@),
{
    let mut line = String::from_str(before);
    push_decimal(&mut line, a as u64);
    line.append(between);
    push_decimal(&mut line, b as u64);
    line.append(after);
    line
}

/// Networks with the same nodes have the same labels.
proof fn lemma_same_labels(a: SimView, b: SimView, id: Id)
    requires
        a.nodes == b.nodes,
    ensures
        a.has(id) <==> b.has(id),
{
    if a.has(id) {
        let i = choose|i: int| a.bears(id, i);
        assert(b.bears(id, i));
    }
    if b.has(id) {
        let i = choose|i: int| b.bears(id, i);
        assert(a.bears(id, i));
    }
}

/// Taking a node out leaves the rest in order.
proof fn lemma_node_gone(sim: SimView, at: int)
    requires
        sim.wf(),
        0 <= at < sim.nodes.len(),
    ensures
        (SimView { nodes: sim.nodes.remove(at), ..sim }).wf(),
{
    let after = SimView { nodes: sim.nodes.remove(at), ..sim };
    assert forall|i: int, j: int| 0 <= i < j < after.nodes.len() implies (
    #[trigger] after.nodes[i]).0 < (#[trigger] after.nodes[j]).0 by {
        let from = if i < at { i } else { i + 1 };
        let to = if j < at { j } else { j + 1 };
        assert(sim.nodes[from].0 < sim.nodes[to].0);
    }
    assert forall|i: int| 0 <= i < after.nodes.len() implies (#[trigger] after.nodes[i]).0
        < after.next_id && after.nodes[i].1.wf() && after.nodes[i].1.key == model::key_of(
        after.nodes[i].0,
    ) by {
        let from = if i < at { i } else { i + 1 };
        assert(sim.nodes[from].0 < sim.next_id);
    }
}

} // verus!
