//! What the simulated network does, as mathematics.

use vstd::prelude::*;
use crate::flood::claim;
use crate::flood::claim::Hop;
use crate::flood::message::{EnvelopeView, MessageView};
use crate::flood::model;
use crate::flood::model::{NodeView, Step};
use crate::flood::node::Timing;
use crate::key::{PublicKey, KEY_LEN};
use crate::order::Standing;
use crate::sorted_map;
use crate::sorted_map::Ranked;
use crate::text;
use crate::viewer::json;
use crate::walk;

verus! {

/// How many messages are delivered before gossip is taken not to be settling.
pub const MAX_STEPS: usize = 100_000;

/// How far the clock moves at once.
pub const TICK: u64 = 1_000;

/// A message on its way from one node to a linked peer.
#[verifier::ext_equal]
pub struct InFlightView {
    pub to: PublicKey,
    pub from: PublicKey,
    pub message: MessageView,
}

/// The outcome of pushing one packet through the network.
#[verifier::ext_equal]
pub struct DeliveryView {
    pub route: Seq<u8>,
    pub delivered: bool,
    pub cost: u64,
}

/// The JSON fields that say how a packet fared, without the braces.
pub open spec fn delivery_fields(delivery: DeliveryView) -> Seq<char> {
    "\"route\":"@ + json::labels(delivery.route) + ",\"delivered\":"@ + json::boolean(
        delivery.delivered,
    ) + ",\"cost\":"@ + text::decimal(delivery.cost as nat)
}

/// Everything the viewer knows.
#[verifier::ext_equal]
pub struct SimView {
    /// The nodes by their labels, in order.
    pub nodes: Seq<(u8, NodeView)>,
    /// The links by the labels of their ends, and what each costs.
    pub links: Map<Ends, u64>,
    /// The messages on their way, next first.
    pub queue: Seq<InFlightView>,
    /// The clock every node shares.
    pub now: u64,
    /// The next label to give out.
    pub next_id: u8,
    /// What has happened.
    pub log: Seq<Seq<char>>,
    /// How often anything has.
    pub version: u64,
}

/// A packet being followed: the network as it passes through, where it has
/// been, and the label it was handed to that names nobody, if it came to that.
#[verifier::ext_equal]
pub struct Trip {
    pub sim: SimView,
    pub route: Seq<u8>,
    pub lost: Option<u8>,
}

/// A node's key is its label repeated, so the two convert freely.
pub open spec fn key_of(id: u8) -> PublicKey {
    choose|key: PublicKey| key@ == Seq::new(KEY_LEN as nat, |i: int| id)
}

/// The label a key was made from.
pub open spec fn id_of(key: PublicKey) -> u8 {
    key@[0]
}

/// The two ends of a link.
#[derive(Clone, Copy, PartialEq, Eq, Debug, Structural)]
pub struct Ends {
    /// One of them.
    pub a: u8,
    /// The other.
    pub b: u8,
}

impl Ranked for Ends {
    open spec fn rank(self) -> int {
        self.a * 256 + self.b
    }

    proof fn rank_tells_apart(a: Self, b: Self) {
    }

    fn compare_rank(&self, other: &Self) -> (standing: Standing) {
        if self.a < other.a || self.a == other.a && self.b < other.b {
            Standing::Before
        } else if self.a == other.a && self.b == other.b {
            Standing::Same
        } else {
            Standing::After
        }
    }
}

/// The two ends of a link, the smaller label first.
pub open spec fn ordered(a: u8, b: u8) -> Ends {
    if a <= b {
        Ends { a, b }
    } else {
        Ends { a: b, b: a }
    }
}

/// What is said of a label that names nobody.
pub open spec fn no_node(id: u8) -> Seq<char> {
    "no node "@ + text::decimal(id as nat)
}

/// Two labels with words around and between them.
pub open spec fn naming(before: Seq<char>, a: u8, between: Seq<char>, b: u8, after: Seq<char>) -> Seq<
    char,
> {
    before + text::decimal(a as nat) + between + text::decimal(b as nat) + after
}

/// The first of some envelopes, if there are any.
pub open spec fn first(out: Seq<EnvelopeView>) -> Option<EnvelopeView> {
    if out.len() > 0 {
        Some(out[0])
    } else {
        None
    }
}

/// The labels along a path.
pub open spec fn path_labels(path: Seq<Hop>) -> Seq<u8> {
    path.map_values(|hop: Hop| id_of(hop.key))
}

/// The labels of a node's peers, in order of their keys.
pub open spec fn peer_labels(node: NodeView) -> Seq<u8> {
    sorted_map::ascending(node.peers).map_values(|entry: (PublicKey, u64)| id_of(entry.0))
}

/// The next instant on the way from `now` to `target`.
pub open spec fn next_instant(now: u64, target: u64) -> u64 {
    if target - now <= TICK {
        target
    } else {
        (now + TICK) as u64
    }
}

/// The line noting a clock that has moved.
pub open spec fn clock_line(clock: Seq<char>, forgotten: u64) -> Seq<char> {
    let at = "clock at "@ + clock + "s"@;
    if forgotten == 0 {
        at
    } else if forgotten == 1 {
        at + ", 1 announcement expired"@
    } else {
        at + ", "@ + text::decimal(forgotten as nat) + " announcements expired"@
    }
}

/// The line noting how a packet fared.
pub open spec fn packet_line(from: u8, to: u8, delivery: DeliveryView) -> Seq<char> {
    naming("packet "@, from, " to "@, to, ": "@) + text::joined(
        delivery.route.map_values(|id: u8| text::decimal(id as nat)),
        " \u{2192} "@,
    ) + (if delivery.delivered {
        " (delivered, cost "@
    } else {
        " (dropped, cost "@
    }) + text::decimal(delivery.cost as nat) + ")"@
}

/// The network with nobody in it.
pub open spec fn vacant() -> SimView {
    SimView {
        nodes: Seq::empty(),
        links: Map::empty(),
        queue: Seq::empty(),
        now: 0,
        next_id: 1,
        log: Seq::empty(),
        version: 0,
    }
}

/// The network the viewer opens on: five nodes, and a link between 2 and 4 that
/// is the short way round and the dear one, so the tree that forms is the
/// cheapest one rather than the shallowest.
pub open spec fn opening() -> SimView {
    let five = vacant().node_added().0.node_added().0.node_added().0.node_added().0.node_added().0;
    let linked = five.link_added(1, 2, 1).0.link_added(2, 3, 1).0.link_added(3, 4, 1).0.link_added(
        2,
        4,
        5,
    ).0.link_added(4, 5, 1).0;
    SimView { log: Seq::empty(), ..linked }.noted("network ready"@)
}

impl SimView {
    /// What holds of the network at every moment: labels run upwards and have
    /// all been given out, every node is in order and answers to the key its
    /// label makes, and no link is free.
    pub open spec fn wf(self) -> bool {
        &&& self.next_id >= 1
        &&& forall|i: int, j: int|
            0 <= i < j < self.nodes.len() ==> (#[trigger] self.nodes[i]).0 < (
            #[trigger] self.nodes[j]).0
        &&& forall|i: int|
            0 <= i < self.nodes.len() ==> (#[trigger] self.nodes[i]).0 < self.next_id
                && self.nodes[i].1.wf() && self.nodes[i].1.key == key_of(self.nodes[i].0)
        &&& forall|pair: Ends| #[trigger] self.links.contains_key(pair) ==> self.links[pair] >= 1
    }

    /// Whether the node at one place bears a label.
    pub open spec fn bears(self, id: u8, at: int) -> bool {
        0 <= at < self.nodes.len() && self.nodes[at].0 == id
    }

    /// Whether a label names a node.
    pub open spec fn has(self, id: u8) -> bool {
        exists|at: int| self.bears(id, at)
    }

    /// Where the node a label names is.
    pub open spec fn place(self, id: u8) -> int {
        choose|at: int| self.bears(id, at)
    }

    /// The node a label names.
    pub open spec fn node(self, id: u8) -> NodeView {
        self.nodes[self.place(id)].1
    }

    /// The network with one node changed.
    pub open spec fn with_node(self, id: u8, node: NodeView) -> SimView {
        SimView { nodes: self.nodes.update(self.place(id), (id, node)), ..self }
    }

    /// One line more in the log.
    pub open spec fn noted(self, line: Seq<char>) -> SimView {
        SimView { log: self.log.push(line), version: self.version.wrapping_add(1), ..self }
    }

    /// What one node said, on its way.
    pub open spec fn enqueued(self, from: u8, out: Seq<EnvelopeView>) -> SimView {
        SimView {
            queue: self.queue + out.map_values(
                |envelope: EnvelopeView|
                    InFlightView {
                        to: envelope.to,
                        from: key_of(from),
                        message: envelope.message,
                    },
            ),
            ..self
        }
    }

    /// Something happening to one node, if the label names one.
    pub open spec fn acted(self, id: u8, step: Step) -> SimView {
        self.with_node(id, step.node).enqueued(id, step.out)
    }

    /// The next message arriving. One addressed to nobody is lost.
    pub open spec fn next_delivered(self) -> SimView {
        let in_flight = self.queue[0];
        let rest = SimView { queue: self.queue.drop_first(), ..self };
        let to = id_of(in_flight.to);
        if rest.has(to) {
            rest.acted(to, rest.node(to).handled(rest.now, in_flight.from, in_flight.message))
        } else {
            rest
        }
    }

    /// Delivering gossip until the network falls quiet, or until it is taken
    /// not to be going to.
    pub open spec fn run_for(self, left: nat) -> SimView
        decreases left,
    {
        if left == 0 {
            SimView { queue: Seq::empty(), ..self.noted("gossip did not settle; stopping"@) }
        } else if self.queue.len() == 0 {
            self
        } else {
            self.next_delivered().run_for((left - 1) as nat)
        }
    }

    /// Delivering gossip until the network falls quiet.
    pub open spec fn ran(self) -> SimView {
        self.run_for(MAX_STEPS as nat)
    }

    /// A node joining, isolated, under the next label.
    pub open spec fn node_added(self) -> (SimView, Result<u8, Seq<char>>) {
        let id = self.next_id;
        if id == u8::MAX {
            (self, Err("out of labels"@))
        } else {
            let joined = SimView {
                next_id: (id + 1) as u8,
                nodes: self.nodes.push(
                    (id, model::isolated(self.now, key_of(id), Timing::usual())),
                ),
                ..self
            };
            (joined.noted("added node "@ + text::decimal(id as nat)), Ok(id))
        }
    }

    /// One end of a link being told what it costs.
    pub open spec fn end_priced(self, near: u8, far: u8, cost: u64) -> SimView {
        if self.has(near) {
            self.acted(near, self.node(near).peer_added(self.now, key_of(far), cost))
        } else {
            self
        }
    }

    /// One end of a link being told it is gone.
    pub open spec fn end_dropped(self, near: u8, far: u8) -> SimView {
        if self.has(near) {
            self.acted(near, self.node(near).peer_removed(self.now, key_of(far)))
        } else {
            self
        }
    }

    /// A link priced on both sides, and the network settling.
    pub open spec fn connected(self, a: u8, b: u8, cost: u64) -> SimView {
        SimView { links: self.links.insert(ordered(a, b), cost), ..self }.end_priced(
            a,
            b,
            cost,
        ).end_priced(b, a, cost).ran()
    }

    /// A link dropped on both sides.
    pub open spec fn unlinked(self, a: u8, b: u8) -> SimView {
        SimView { links: self.links.remove(ordered(a, b)), ..self }.end_dropped(a, b).end_dropped(
            b,
            a,
        )
    }

    /// A node's links to each of `peers` dropped in turn.
    pub open spec fn unlinked_from(self, id: u8, peers: Seq<u8>) -> SimView
        decreases peers.len(),
    {
        if peers.len() == 0 {
            self
        } else {
            self.unlinked_from(id, peers.drop_last()).unlinked(id, peers.last())
        }
    }

    /// A node leaving, and every link it held with it.
    pub open spec fn node_removed(self, id: u8) -> (SimView, Result<(), Seq<char>>) {
        if !self.has(id) {
            (self, Err(no_node(id)))
        } else {
            let cut = self.unlinked_from(id, peer_labels(self.node(id)));
            let gone = SimView { nodes: cut.nodes.remove(cut.place(id)), ..cut };
            (gone.ran().noted("removed node "@ + text::decimal(id as nat)), Ok(()))
        }
    }

    /// A link coming up.
    pub open spec fn link_added(self, a: u8, b: u8, cost: u64) -> (SimView, Result<(), Seq<char>>) {
        if a == b {
            (self, Err("a node cannot link to itself"@))
        } else if !self.has(a) {
            (self, Err(no_node(a)))
        } else if !self.has(b) {
            (self, Err(no_node(b)))
        } else if cost == 0 {
            (self, Err("a link costs at least 1"@))
        } else if self.links.contains_key(ordered(a, b)) {
            (self, Err(naming(""@, a, " and "@, b, " are already linked"@)))
        } else {
            (
                self.connected(a, b, cost).noted(
                    naming("linked "@, a, " and "@, b, " at cost "@) + text::decimal(cost as nat),
                ),
                Ok(()),
            )
        }
    }

    /// A link being measured again.
    pub open spec fn link_repriced(self, a: u8, b: u8, cost: u64) -> (
        SimView,
        Result<(), Seq<char>>,
    ) {
        let current = self.links[ordered(a, b)];
        if cost == 0 {
            (self, Err("a link costs at least 1"@))
        } else if !self.links.contains_key(ordered(a, b)) {
            (self, Err(naming(""@, a, " and "@, b, " are not linked"@)))
        } else if current == cost {
            (
                self,
                Err(naming(""@, a, " and "@, b, " already cost "@) + text::decimal(cost as nat)),
            )
        } else {
            (
                self.connected(a, b, cost).noted(
                    naming(""@, a, " and "@, b, " now cost "@) + text::decimal(cost as nat)
                        + ", was "@ + text::decimal(current as nat),
                ),
                Ok(()),
            )
        }
    }

    /// A link going down.
    pub open spec fn link_removed(self, a: u8, b: u8) -> (SimView, Result<(), Seq<char>>) {
        if !self.links.contains_key(ordered(a, b)) {
            (self, Err(naming(""@, a, " and "@, b, " are not linked"@)))
        } else {
            (
                self.unlinked(a, b).ran().noted(naming("unlinked "@, a, " and "@, b, ""@)),
                Ok(()),
            )
        }
    }

    /// The first `upto` nodes being told the time.
    pub open spec fn ticked_upto(self, upto: nat) -> SimView
        decreases upto,
    {
        if upto == 0 {
            self
        } else {
            let before = self.ticked_upto((upto - 1) as nat);
            let id = self.nodes[upto - 1].0;
            before.acted(id, before.node(id).ticked(before.now))
        }
    }

    /// Every node being told that it is `now`, and the network settling.
    pub open spec fn stepped_to(self, now: u64) -> SimView {
        let later = SimView { now, ..self };
        later.ticked_upto(later.nodes.len()).ran()
    }

    /// Time passing from `now` to `target`, a tick at a time.
    pub open spec fn advanced_from(self, now: u64, target: u64) -> SimView
        decreases target - now,
    {
        if now < target {
            let next = next_instant(now, target);
            self.stepped_to(next).advanced_from(next, target)
        } else {
            self
        }
    }

    /// How many announcements the first `upto` nodes hold between them.
    pub open spec fn known_upto(self, upto: nat) -> nat
        decreases upto,
    {
        if upto == 0 {
            0
        } else {
            self.known_upto((upto - 1) as nat) + sorted_map::ascending(
                self.nodes[upto - 1].1.infos,
            ).len()
        }
    }

    /// How many announcements the network holds in total, as far as can be
    /// counted.
    pub open spec fn total_known(self) -> u64 {
        walk::capped(self.known_upto(self.nodes.len()))
    }

    /// The clock moving forward.
    pub open spec fn advanced(self, by: u64, clock: Seq<char>) -> SimView {
        let target = walk::capped((self.now + by) as nat);
        let after = self.advanced_from(self.now, target);
        let (was, left) = (self.total_known(), after.total_known());
        after.noted(
            clock_line(
                clock,
                if was >= left {
                    (was - left) as u64
                } else {
                    0
                },
            ),
        )
    }

    /// What the links along a route cost, added up.
    pub open spec fn fares(self, route: Seq<u8>) -> nat
        decreases route.len(),
    {
        if route.len() < 2 {
            0
        } else {
            let pair = ordered(route[route.len() - 2], route.last());
            self.fares(route.drop_last()) + (if self.links.contains_key(pair) {
                self.links[pair] as nat
            } else {
                0
            })
        }
    }

    /// Following a packet from the end of `route` for at most `left` hops.
    pub open spec fn followed(self, route: Seq<u8>, hop: Option<EnvelopeView>, left: nat) -> Trip
        decreases left,
    {
        match hop {
            Some(envelope) if left > 0 && envelope.message is Packet => {
                let next = id_of(envelope.to);
                let further = route.push(next);
                if !self.has(next) {
                    Trip { sim: self, route: further, lost: Some(next) }
                } else {
                    let step = self.node(next).handled(
                        self.now,
                        key_of(route.last()),
                        envelope.message,
                    );
                    self.with_node(next, step.node).followed(
                        further,
                        first(step.out),
                        (left - 1) as nat,
                    )
                }
            },
            _ => Trip { sim: self, route, lost: None },
        }
    }

    /// A packet that has come to rest being taken in.
    pub open spec fn arrived(self, from: u8, to: u8, route: Seq<u8>) -> (SimView, DeliveryView) {
        let last = self.node(route.last());
        let delivery = DeliveryView {
            route,
            delivered: last.delivered.len() > 0,
            cost: walk::capped(self.fares(route)),
        };
        let taken = self.with_node(
            route.last(),
            NodeView { delivered: Seq::empty(), ..last },
        );
        (taken.noted(packet_line(from, to, delivery)), delivery)
    }

    /// Sending one packet and following it.
    ///
    /// Carrying a packet changes nobody's mind, so one that has crossed as many
    /// links as there are nodes has been somewhere twice and would go round for
    /// ever. It is dropped where it is.
    pub open spec fn sent(self, from: u8, to: u8) -> (SimView, Result<DeliveryView, Seq<char>>) {
        if !self.has(from) {
            (self, Err(no_node(from)))
        } else if !self.has(to) {
            (self, Err(no_node(to)))
        } else {
            match self.node(from).sent(key_of(to), vstd::utf8::encode_utf8("hello"@)) {
                (node, Err(error)) => (
                    self.with_node(from, node),
                    Err(naming(""@, from, " to "@, to, ": "@) + error.words()),
                ),
                (node, Ok(out)) => {
                    let trip = self.with_node(from, node).followed(
                        seq![from],
                        first(out),
                        self.nodes.len(),
                    );
                    match trip.lost {
                        Some(id) => (trip.sim, Err(no_node(id))),
                        None => {
                            let (sim, delivery) = trip.sim.arrived(from, to, trip.route);
                            (sim, Ok(delivery))
                        },
                    }
                },
            }
        }
    }

    /// The parent of the node a label names.
    pub open spec fn parent_of(self, id: u8) -> Option<u8> {
        if self.has(id) {
            match claim::parent(self.node(id).claim.walk) {
                Some(parent) => Some(id_of(parent)),
                None => None,
            }
        } else {
            None
        }
    }

    /// One link as JSON.
    pub open spec fn link_json(self, entry: (Ends, u64)) -> Seq<char> {
        let (a, b) = (entry.0.a, entry.0.b);
        "{\"a\":"@ + text::decimal(a as nat) + ",\"b\":"@ + text::decimal(b as nat) + ",\"cost\":"@
            + text::decimal(entry.1 as nat) + ",\"tree\":"@ + json::boolean(
            self.parent_of(a) == Some(b) || self.parent_of(b) == Some(a),
        ) + "}"@
    }

    /// The current state of the whole network, as JSON: the nodes, the links,
    /// and the last lines of the log, newest first.
    pub open spec fn snapshot(self) -> Seq<char> {
        "{\"version\":"@ + text::decimal(self.version as nat) + ",\"now\":"@ + text::decimal(
            self.now as nat,
        ) + ",\"nodes\":["@ + text::joined(
            self.nodes.map_values(|entry: (u8, NodeView)| node_json(entry)),
            ","@,
        ) + "],\"links\":["@ + text::joined(
            sorted_map::ascending(self.links).map_values(
                |entry: (Ends, u64)| self.link_json(entry),
            ),
            ","@,
        ) + "],\"log\":["@ + text::joined(
            recent(self.log).map_values(|line: Seq<char>| json::quoted(line)),
            ","@,
        ) + "]}"@
    }
}

/// The last forty lines of a log, newest first.
pub open spec fn recent(log: Seq<Seq<char>>) -> Seq<Seq<char>> {
    Seq::new(
        if log.len() < 40 {
            log.len()
        } else {
            40
        },
        |i: int| log[log.len() - 1 - i],
    )
}

/// One node as JSON.
pub open spec fn node_json(entry: (u8, NodeView)) -> Seq<char> {
    let node = entry.1;
    "{\"id\":"@ + text::decimal(entry.0 as nat) + ",\"root\":"@ + text::decimal(
        id_of(node.claim.walk[0].key) as nat,
    ) + ",\"parent\":"@ + (match claim::parent(node.claim.walk) {
        Some(parent) => text::decimal(id_of(parent) as nat),
        None => "null"@,
    }) + ",\"path\":"@ + json::labels(path_labels(node.claim.walk)) + ",\"cost\":"@ + text::decimal(
        claim::cost_to_root(node.claim.walk) as nat,
    ) + ",\"peers\":"@ + json::labels(peer_labels(node)) + ",\"knows\":"@ + text::decimal(
        sorted_map::ascending(node.infos).len(),
    ) + "}"@
}

} // verus!
