//! Positions in the spanning tree taken on the word of the node that claims
//! them, and the metric derived from them.

use vstd::prelude::*;
use std::cmp::Ordering;
use vstd::slice::slice_subrange;
use crate::cost::Cost;
use crate::key::PublicKey;
use crate::order;
use crate::order::{compare_numbers, compare_slices, Ordered, Standing};
use crate::sorted_map::Ranked;
use crate::walk;

verus! {

/// One step down the tree: a node, and what reaching it costs.
#[derive(Clone, Copy, PartialEq, Eq, PartialOrd, Ord, Hash, Debug)]
pub struct Hop {
    /// The node this step arrives at.
    pub key: PublicKey,
    /// What the link from the previous hop to this one costs to cross.
    ///
    /// Zero at the root, which nothing precedes, and at least one at every
    /// other hop.
    pub cost: u64,
}

impl Hop {
    /// The hop a walk starts with.
    pub fn root(key: PublicKey) -> (hop: Self)
        ensures
            hop == (Hop { key, cost: 0 }),
    {
        Hop { key, cost: 0 }
    }

    /// A hop reached over a link costing `cost`.
    pub fn new(key: PublicKey, cost: Cost) -> (hop: Self)
        ensures
            hop == (Hop { key, cost: cost.value() }),
    {
        Hop { key, cost: cost.get() }
    }
}

impl Ordered for Hop {
    open spec fn before(self, other: Self) -> bool {
        ||| self.key.rank() < other.key.rank()
        ||| self.key == other.key && self.cost < other.cost
    }

    proof fn order_is_total(a: Self, b: Self) {
        if a.key.rank() == b.key.rank() {
            PublicKey::rank_tells_apart(a.key, b.key);
        }
    }

    proof fn order_is_transitive(a: Self, b: Self, c: Self) {
    }

    fn compare(&self, other: &Self) -> (standing: Standing) {
        proof {
            Self::order_is_total(*self, *other);
        }
        match self.key.compare_rank(&other.key) {
            Standing::Same => {},
            decided => return decided,
        }
        compare_numbers(self.cost, other.cost)
    }
}

/// The nodes a walk names, root first.
pub open spec fn keys(walk: Seq<Hop>) -> Seq<PublicKey> {
    walk.map_values(|hop: Hop| hop.key)
}

/// What each step of a walk costs.
pub open spec fn prices(walk: Seq<Hop>) -> Seq<u64> {
    walk.map_values(|hop: Hop| hop.cost)
}

/// Whether no node appears in a walk twice.
pub open spec fn acyclic(walk: Seq<Hop>) -> bool {
    forall|i: int, j: int|
        0 <= i < j < walk.len() ==> (#[trigger] walk[i]).key != (#[trigger] walk[j]).key
}

/// Whether a walk has the shape every announcement's has: it starts somewhere,
/// names nobody twice, and is priced at every step but the first.
pub open spec fn shaped(walk: Seq<Hop>) -> bool {
    &&& walk.len() > 0
    &&& acyclic(walk)
    &&& walk[0].cost == 0
    &&& forall|i: int| 0 < i < walk.len() ==> (#[trigger] walk[i]).cost != 0
}

/// The node at the end of a walk.
pub open spec fn author(walk: Seq<Hop>) -> PublicKey {
    walk.last().key
}

/// The node above the one at the end of a walk.
pub open spec fn parent(walk: Seq<Hop>) -> Option<PublicKey> {
    if walk.len() >= 2 {
        Some(walk[walk.len() - 2].key)
    } else {
        None
    }
}

/// The walk of a node that considers itself the root.
pub open spec fn rooted(key: PublicKey) -> Seq<Hop> {
    seq![Hop { key, cost: 0 }]
}

/// The walk `child` takes up below `walk` over a link costing `cost`, if the
/// walk does not already run through it.
pub open spec fn extended(walk: Seq<Hop>, child: PublicKey, cost: u64) -> Option<Seq<Hop>> {
    if keys(walk).contains(child) {
        None
    } else {
        Some(walk.push(Hop { key: child, cost }))
    }
}

/// What the walk up to the root costs.
pub open spec fn cost_to_root(walk: Seq<Hop>) -> u64 {
    walk::capped(walk::total(prices(walk)))
}

/// Whether the walk `a` is preferred to `b`: the smaller root, then the cheaper
/// walk to it, then the fewer hops, then the lesser walk.
pub open spec fn preferred(a: Seq<Hop>, b: Seq<Hop>) -> bool {
    ||| a[0].key.rank() < b[0].key.rank()
    ||| a[0].key == b[0].key && cost_to_root(a) < cost_to_root(b)
    ||| a[0].key == b[0].key && cost_to_root(a) == cost_to_root(b) && a.len() < b.len()
    ||| a[0].key == b[0].key && cost_to_root(a) == cost_to_root(b) && a.len() == b.len()
        && order::precedes(a, b)
}

/// What the walk between two nodes costs along the tree.
pub open spec fn separation(a: Seq<Hop>, b: Seq<Hop>) -> u64 {
    walk::capped(walk::toll_between(keys(a), prices(a), keys(b), prices(b)))
}

/// A node's claimed position in the spanning tree.
///
/// The path runs from the root down to the announcing node, inclusive, so
/// `path[0]` is the root and the last element is the author. Carrying the whole
/// path rather than just a parent pointer is what makes routing decisions
/// local: a node can compute its distance to any other node it has heard of
/// without consulting anyone.
///
/// Every constructor guarantees the path is non-empty, free of repeated keys,
/// and priced as [`Hop::cost`] describes. Nothing says it is true.
#[derive(PartialEq, Eq, Debug)]
pub struct Announcement {
    seq: u64,
    path: Vec<Hop>,
}

/// What an [`Announcement`] says.
#[verifier::ext_equal]
pub struct Claim {
    /// The stamp its author put on it.
    pub seq: u64,
    /// The walk from the root down to its author.
    pub walk: Seq<Hop>,
}

impl View for Announcement {
    type V = Claim;

    closed spec fn view(&self) -> Claim {
        Claim { seq: self.seq, walk: self.path@ }
    }
}

/// Whether the claim `a` replaces `b` as the last word of their author: the
/// later stamp wins, and the greater walk breaks a tie.
pub open spec fn supersedes(a: Claim, b: Claim) -> bool {
    ||| b.seq < a.seq
    ||| b.seq == a.seq && order::precedes(b.walk, a.walk)
}

/// Why a path could not be made into an [`Announcement`].
#[derive(Clone, Copy, PartialEq, Eq, Debug, Structural)]
pub enum MalformedAnnouncement {
    /// The path had no hops, so it named no author.
    EmptyPath,
    /// A key appeared twice, which would describe a loop rather than a path.
    RepeatedKey,
    /// The root hop carried a cost, though no link reaches the root.
    CostAtRoot,
    /// A link below the root cost nothing, so crossing it would be no progress.
    FreeLink,
}

impl MalformedAnnouncement {
    /// What went wrong, in words.
    pub open spec fn words(self) -> Seq<char> {
        match self {
            MalformedAnnouncement::EmptyPath => "announcement path is empty"@,
            MalformedAnnouncement::RepeatedKey => "announcement path repeats a key"@,
            MalformedAnnouncement::CostAtRoot => "announcement prices the link into its root"@,
            MalformedAnnouncement::FreeLink => "announcement path contains a link costing nothing"@,
        }
    }

    /// What went wrong, in words.
    pub fn text(&self) -> (text: &'static str)
        ensures
            text@ == self.words(),
    {
        match self {
            MalformedAnnouncement::EmptyPath => "announcement path is empty",
            MalformedAnnouncement::RepeatedKey => "announcement path repeats a key",
            MalformedAnnouncement::CostAtRoot => "announcement prices the link into its root",
            MalformedAnnouncement::FreeLink => "announcement path contains a link costing nothing",
        }
    }
}

/// Whether some link below the root is priced at nothing.
pub open spec fn has_free_link(walk: Seq<Hop>) -> bool {
    exists|i: int| 0 < i < walk.len() && (#[trigger] walk[i]).cost == 0
}

/// The first thing wrong with a walk, or `None` if nothing is.
pub open spec fn flaw(walk: Seq<Hop>) -> Option<MalformedAnnouncement> {
    if walk.len() == 0 {
        Some(MalformedAnnouncement::EmptyPath)
    } else if walk[0].cost != 0 {
        Some(MalformedAnnouncement::CostAtRoot)
    } else if has_free_link(walk) {
        Some(MalformedAnnouncement::FreeLink)
    } else if !acyclic(walk) {
        Some(MalformedAnnouncement::RepeatedKey)
    } else {
        None
    }
}

/// Whether any of `hops` names `key`.
pub fn names(hops: &[Hop], key: PublicKey) -> (named: bool)
    ensures
        named == keys(hops@).contains(key),
{
    let mut i: usize = 0;
    while i < hops.len()
        invariant
            0 <= i <= hops@.len(),
            forall|j: int| 0 <= j < i ==> (#[trigger] hops@[j]).key != key,
        decreases hops@.len() - i,
    {
        if hops[i].key == key {
            assert(keys(hops@)[i as int] == key);
            return true;
        }
        i += 1;
    }
    assert(!keys(hops@).contains(key)) by {
        if keys(hops@).contains(key) {
            let j = choose|j: int| 0 <= j < keys(hops@).len() && keys(hops@)[j] == key;
            assert(hops@[j].key == key);
        }
    }
    false
}

fn some_free_link(hops: &[Hop]) -> (found: bool)
    ensures
        found == has_free_link(hops@),
{
    let mut i: usize = 1;
    while i < hops.len()
        invariant
            1 <= i,
            forall|j: int| 0 < j < i && j < hops@.len() ==> (#[trigger] hops@[j]).cost != 0,
        decreases hops@.len() - i,
    {
        if hops[i].cost == 0 {
            return true;
        }
        i += 1;
    }
    false
}

fn some_key_repeated(hops: &[Hop]) -> (found: bool)
    ensures
        found == !acyclic(hops@),
{
    let mut i: usize = 0;
    while i < hops.len()
        invariant
            0 <= i <= hops@.len(),
            acyclic(hops@.take(i as int)),
        decreases hops@.len() - i,
    {
        let above = slice_subrange(hops, 0, i);
        if names(above, hops[i].key) {
            proof {
                let at = choose|j: int|
                    0 <= j < keys(above@).len() && keys(above@)[j] == hops@[i as int].key;
                assert(hops@[at].key == hops@[i as int].key);
            }
            return true;
        }
        proof {
            let longer = hops@.take(i + 1);
            assert forall|a: int, b: int| 0 <= a < b < longer.len() implies (
            #[trigger] longer[a]).key != (#[trigger] longer[b]).key by {
                let shorter = hops@.take(i as int);
                if b < i {
                    assert(shorter[a].key != shorter[b].key);
                } else {
                    assert(keys(above@)[a] == longer[a].key);
                }
            }
        }
        i += 1;
    }
    assert(hops@.take(i as int) =~= hops@);
    false
}

impl Clone for Announcement {
    fn clone(&self) -> (copy: Self)
        ensures
            copy@ == self@,
    {
        proof {
            use_type_invariant(self);
        }
        let path = self.path.clone();
        assert(path@ =~= self.path@);
        Announcement { seq: self.seq, path }
    }
}

impl Announcement {
    /// Every path is shaped like a walk down the tree.
    #[verifier::type_invariant]
    closed spec fn is_shaped(self) -> bool {
        shaped(self.path@)
    }

    /// The announcement of a node that considers itself the root of its own tree.
    pub fn root_of(key: PublicKey, seq: u64) -> (announcement: Self)
        ensures
            announcement@ == (Claim { seq, walk: rooted(key) }),
    {
        let path: Vec<Hop> = vec![Hop::root(key)];
        assert(path@ =~= rooted(key));
        Announcement { seq, path }
    }

    /// Builds an announcement from its parts, rejecting anything malformed.
    ///
    /// Every other constructor preserves the invariants by construction; this
    /// is the entry point a wire format decodes through.
    pub fn new(seq: u64, path: Vec<Hop>) -> (built: Result<Self, MalformedAnnouncement>)
        ensures
            match flaw(path@) {
                Some(flaw) => built == Err::<Self, MalformedAnnouncement>(flaw),
                None => built matches Ok(announcement) && announcement@ == (Claim {
                    seq,
                    walk: path@,
                }) && shaped(path@),
            },
    {
        if path.len() == 0 {
            return Err(MalformedAnnouncement::EmptyPath);
        }
        if path[0].cost != 0 {
            return Err(MalformedAnnouncement::CostAtRoot);
        }
        if some_free_link(path.as_slice()) {
            return Err(MalformedAnnouncement::FreeLink);
        }
        if some_key_repeated(path.as_slice()) {
            return Err(MalformedAnnouncement::RepeatedKey);
        }
        Ok(Announcement { seq, path })
    }

    /// The announcement `child` would make by attaching itself below this one
    /// across a link costing `cost`.
    ///
    /// Returns `None` when the child already appears in the path. That single
    /// check is what keeps the tree loop-free: a node never adopts a path that
    /// runs through itself, so no cycle can form however stale its view is.
    pub fn extend(&self, child: PublicKey, cost: Cost, seq: u64) -> (longer: Option<Self>)
        ensures
            longer is Some <==> extended(self@.walk, child, cost.value()) is Some,
            longer matches Some(announcement) ==> announcement@.seq == seq && Some(
                announcement@.walk,
            ) == extended(self@.walk, child, cost.value()) && shaped(announcement@.walk),
    {
        proof {
            use_type_invariant(self);
        }
        if names(self.path.as_slice(), child) {
            return None;
        }
        let mut path = self.path.clone();
        assert(path@ =~= self.path@);
        let hop = Hop { key: child, cost: cost.get() };
        path.push(hop);
        proof {
            let walk = self@.walk;
            assert forall|i: int, j: int| 0 <= i < j < path@.len() implies (
            #[trigger] path@[i]).key != (#[trigger] path@[j]).key by {
                if j < walk.len() {
                    assert(walk[i].key != walk[j].key);
                } else {
                    assert(keys(walk)[i] == path@[i].key);
                }
            }
        }
        Some(Announcement { seq, path })
    }

    /// The same walk, stamped with a new sequence number.
    pub fn with_seq(&self, seq: u64) -> (restamped: Self)
        ensures
            restamped@ == (Claim { seq, walk: self@.walk }),
    {
        proof {
            use_type_invariant(self);
        }
        let path = self.path.clone();
        assert(path@ =~= self.path@);
        Announcement { seq, path }
    }

    /// The sequence number its author last stamped it with.
    pub fn seq(&self) -> (seq: u64)
        ensures
            seq == self@.seq,
    {
        self.seq
    }

    /// The path from the root down to the author.
    pub fn path(&self) -> (path: &[Hop])
        ensures
            path@ == self@.walk,
            shaped(self@.walk),
    {
        proof {
            use_type_invariant(self);
        }
        self.path.as_slice()
    }

    /// The root of the tree this announcement belongs to.
    pub fn root(&self) -> (root: PublicKey)
        ensures
            root == self@.walk[0].key,
    {
        proof {
            use_type_invariant(self);
        }
        self.path[0].key
    }

    /// The node that made this announcement.
    pub fn author(&self) -> (author: PublicKey)
        ensures
            author == self::author(self@.walk),
            shaped(self@.walk),
    {
        proof {
            use_type_invariant(self);
        }
        self.path[self.path.len() - 1].key
    }

    /// The author's parent, or `None` if the author is the root.
    pub fn parent(&self) -> (parent: Option<PublicKey>)
        ensures
            parent == self::parent(self@.walk),
    {
        if self.path.len() >= 2 {
            Some(self.path[self.path.len() - 2].key)
        } else {
            None
        }
    }

    /// What the walk from the author up to the root costs.
    ///
    /// This is the number parent selection minimises, and it is zero exactly
    /// for a node that believes it is the root.
    pub fn cost_to_root(&self) -> (cost: u64)
        ensures
            cost == self::cost_to_root(self@.walk),
            cost == 0 <==> self@.walk.len() == 1,
    {
        proof {
            use_type_invariant(self);
            lemma_cost_is_zero_at_the_root(self@.walk);
            assert(prices(self@.walk).skip(0) =~= prices(self@.walk));
        }
        total_cost(self.path.as_slice(), 0)
    }

    /// Whether this announcement describes the same walk as `other`, however
    /// either of them was stamped.
    pub fn same_path(&self, other: &Self) -> (same: bool)
        ensures
            same == (self@.walk == other@.walk),
    {
        match compare_slices(self.path.as_slice(), other.path.as_slice()) {
            Standing::Same => true,
            _ => false,
        }
    }

    /// Whether this announcement replaces `other` in the set of known
    /// announcements.
    ///
    /// Announcements are only ever authored by the node they describe, so per
    /// author this set is a max register: the join is whichever announcement is
    /// greater. Sequence number decides, with the path as a tie-break purely so
    /// that the rule is total and every node reaches the same answer.
    pub fn supersedes(&self, other: &Self) -> (newer: bool)
        ensures
            newer == self::supersedes(self@, other@),
    {
        match compare_numbers(self.seq, other.seq) {
            Standing::Before => false,
            Standing::After => true,
            Standing::Same => {
                match compare_slices(other.path.as_slice(), self.path.as_slice()) {
                    Standing::Before => true,
                    _ => false,
                }
            },
        }
    }

    /// How this position stands to `other`, most preferred first.
    ///
    /// Smallest root key wins, so the network agrees on one root; then the
    /// cheapest walk to that root; then the fewest hops; then the smallest
    /// path, so that ties are broken identically everywhere and the tree has a
    /// single fixed point.
    pub fn preference(&self, other: &Self) -> (standing: Standing)
        ensures
            standing == Standing::Before <==> preferred(self@.walk, other@.walk),
            standing == Standing::Same <==> self@.walk == other@.walk,
            standing == Standing::After <==> preferred(other@.walk, self@.walk),
    {
        proof {
            use_type_invariant(self);
            use_type_invariant(other);
            law_preference_never_ties(self@.walk, other@.walk);
        }
        match self.root().compare_rank(&other.root()) {
            Standing::Same => {},
            decided => return decided,
        }
        match compare_numbers(self.cost_to_root(), other.cost_to_root()) {
            Standing::Same => {},
            decided => return decided,
        }
        if self.path.len() < other.path.len() {
            return Standing::Before;
        }
        if self.path.len() > other.path.len() {
            return Standing::After;
        }
        compare_slices(self.path.as_slice(), other.path.as_slice())
    }

    /// Orders candidate parents, most preferred first.
    pub fn preference_cmp(&self, other: &Self) -> (ordering: Ordering)
        ensures
            ordering == Ordering::Less <==> preferred(self@.walk, other@.walk),
            ordering == Ordering::Equal <==> self@.walk == other@.walk,
            ordering == Ordering::Greater <==> preferred(other@.walk, self@.walk),
    {
        match self.preference(other) {
            Standing::Before => Ordering::Less,
            Standing::Same => Ordering::Equal,
            Standing::After => Ordering::Greater,
        }
    }
}

/// Only the root is no distance from the root.
proof fn lemma_cost_is_zero_at_the_root(walk: Seq<Hop>)
    requires
        shaped(walk),
    ensures
        cost_to_root(walk) == 0 <==> walk.len() == 1,
{
    let below = prices(walk).skip(1);
    walk::lemma_total_of_rest(prices(walk), 1);
    walk::lemma_total_at_least_one_each(below);
    assert(prices(walk).take(1) =~= seq![0u64]);
    assert(seq![0u64].drop_last() =~= Seq::empty());
    reveal_with_fuel(walk::total, 2);
    if walk.len() == 1 {
        assert(below =~= Seq::empty());
    }
}

/// What crossing every link from `from` on costs, saturating rather than
/// wrapping.
fn total_cost(hops: &[Hop], from: usize) -> (cost: u64)
    requires
        from <= hops@.len(),
    ensures
        cost == walk::capped(walk::total(prices(hops@).skip(from as int))),
{
    let ghost priced = prices(hops@);
    let mut sum: u64 = 0;
    let mut i: usize = from;
    assert(priced.subrange(from as int, i as int) =~= Seq::empty());
    while i < hops.len()
        invariant
            priced == prices(hops@),
            from <= i <= hops@.len(),
            sum == walk::capped(walk::total(priced.subrange(from as int, i as int))),
        decreases hops@.len() - i,
    {
        let ghost longer = priced.subrange(from as int, i + 1);
        assert(longer.drop_last() =~= priced.subrange(from as int, i as int));
        assert(longer.last() == hops@[i as int].cost);
        sum = sum.saturating_add(hops[i].cost);
        i += 1;
    }
    assert(priced.subrange(from as int, i as int) =~= priced.skip(from as int));
    sum
}

/// What the walk between two nodes costs along the tree.
///
/// Both paths descend from the root, so they share a prefix ending at the two
/// nodes' lowest common ancestor; the distance is the climb up to it plus the
/// descent back down, each link counted at what it costs. Within one tree that
/// is zero only between a node and itself, since no link is free.
pub fn distance(a: &[Hop], b: &[Hop]) -> (cost: u64)
    ensures
        cost == separation(a@, b@),
{
    let mut shared: usize = 0;
    while shared < a.len() && shared < b.len() && a[shared].key == b[shared].key
        invariant
            shared <= a@.len(),
            shared <= b@.len(),
            forall|i: int| 0 <= i < shared ==> a@[i].key == b@[i].key,
        decreases a@.len() - shared,
    {
        shared += 1;
    }
    proof {
        walk::lemma_shared(keys(a@), keys(b@));
        assert(walk::forks_after(keys(a@), keys(b@), shared as nat));
    }
    total_cost(a, shared).saturating_add(total_cost(b, shared))
}

/// Preference never ties between two different walks, and never holds both
/// ways.
pub proof fn law_preference_never_ties(a: Seq<Hop>, b: Seq<Hop>)
    requires
        a.len() > 0,
        b.len() > 0,
    ensures
        !preferred(a, a),
        preferred(a, b) ==> !preferred(b, a),
        a == b || preferred(a, b) || preferred(b, a),
{
    order::lemma_precedes_is_total(a, b);
    order::lemma_precedes_is_total(b, a);
    if a[0].key.rank() == b[0].key.rank() {
        PublicKey::rank_tells_apart(a[0].key, b[0].key);
    }
}

/// What is preferred to something preferred is itself preferred.
pub proof fn law_preference_is_transitive(a: Seq<Hop>, b: Seq<Hop>, c: Seq<Hop>)
    requires
        preferred(a, b),
        preferred(b, c),
    ensures
        preferred(a, c),
{
    if a.len() == b.len() && b.len() == c.len() && order::precedes(a, b) && order::precedes(b, c) {
        order::lemma_precedes_is_transitive(a, b, c);
    }
}

/// Of any two different claims by one author, exactly one is the later word.
pub proof fn law_supersedes_never_ties(a: Claim, b: Claim)
    ensures
        !supersedes(a, a),
        supersedes(a, b) ==> !supersedes(b, a),
        a == b || supersedes(a, b) || supersedes(b, a),
{
    order::lemma_precedes_is_total(a.walk, b.walk);
    order::lemma_precedes_is_total(b.walk, a.walk);
}

/// What replaces a later word replaces every word that one replaced.
pub proof fn law_supersedes_is_transitive(a: Claim, b: Claim, c: Claim)
    requires
        supersedes(a, b),
        supersedes(b, c),
    ensures
        supersedes(a, c),
{
    if order::precedes(b.walk, a.walk) && order::precedes(c.walk, b.walk) {
        order::lemma_precedes_is_transitive(c.walk, b.walk, a.walk);
    }
}

/// The later of two claims by one author.
pub open spec fn later(a: Claim, b: Claim) -> Claim {
    if supersedes(a, b) {
        a
    } else {
        b
    }
}

/// What is held of one author is a join: the order in which claims arrive does
/// not matter, and neither does hearing one twice.
pub proof fn law_last_word_is_a_join(a: Claim, b: Claim, c: Claim)
    ensures
        later(a, a) == a,
        later(a, b) == later(b, a),
        later(later(a, b), c) == later(a, later(b, c)),
{
    law_supersedes_never_ties(a, b);
    law_supersedes_never_ties(b, c);
    law_supersedes_never_ties(a, c);
    if supersedes(a, b) && supersedes(b, c) {
        law_supersedes_is_transitive(a, b, c);
    }
    if supersedes(c, b) && supersedes(b, a) {
        law_supersedes_is_transitive(c, b, a);
    }
    if supersedes(b, a) && supersedes(a, c) {
        law_supersedes_is_transitive(b, a, c);
    }
    if supersedes(c, a) && supersedes(a, b) {
        law_supersedes_is_transitive(c, a, b);
    }
    if supersedes(a, c) && supersedes(c, b) {
        law_supersedes_is_transitive(a, c, b);
    }
    if supersedes(b, c) && supersedes(c, a) {
        law_supersedes_is_transitive(b, c, a);
    }
}

/// Attaching below a walk adds one link to it and never forms a loop.
pub proof fn law_extending_adds_one_link(walk: Seq<Hop>, child: PublicKey, cost: u64)
    requires
        shaped(walk),
        cost >= 1,
        extended(walk, child, cost) is Some,
    ensures
        ({
            let longer = extended(walk, child, cost)->0;
            &&& shaped(longer)
            &&& longer.len() == walk.len() + 1
            &&& longer.drop_last() == walk
            &&& longer[0].key == walk[0].key
            &&& author(longer) == child
            &&& parent(longer) == Some(author(walk))
            &&& walk::total(prices(longer)) == walk::total(prices(walk)) + cost
        }),
{
    let longer = extended(walk, child, cost)->0;
    assert forall|i: int, j: int| 0 <= i < j < longer.len() implies (#[trigger] longer[i]).key != (
    #[trigger] longer[j]).key by {
        if j < walk.len() {
            assert(walk[i].key != walk[j].key);
        } else {
            assert(keys(walk)[i] == longer[i].key);
        }
    }
    assert(longer.drop_last() =~= walk);
    assert(prices(longer).drop_last() =~= prices(walk));
}

/// A node already on a walk cannot attach below its end, so no cycle can form
/// however stale anybody's view is.
pub proof fn law_extending_refuses_a_loop(walk: Seq<Hop>, at: int, cost: u64)
    requires
        0 <= at < walk.len(),
    ensures
        extended(walk, walk[at].key, cost) is None,
{
    assert(keys(walk)[at] == walk[at].key);
}

/// Distance is the same from either end.
pub proof fn law_distance_is_symmetric(a: Seq<Hop>, b: Seq<Hop>)
    ensures
        separation(a, b) == separation(b, a),
{
    walk::lemma_tolls_are_symmetric(keys(a), prices(a), keys(b), prices(b));
}

/// Within one tree, distance is zero only between a node and itself.
pub proof fn law_distance_is_zero_at_home(a: Seq<Hop>, b: Seq<Hop>)
    requires
        shaped(a),
        shaped(b),
        a[0].key == b[0].key,
    ensures
        separation(a, b) == 0 <==> keys(a) == keys(b),
{
    walk::lemma_tolls_are_zero_at_home(keys(a), prices(a), keys(b), prices(b));
}

/// What the walk up to the root costs is the sum of its prices, as far as that
/// can be counted.
pub proof fn law_the_cost_to_the_root_is_the_sum_of_the_prices(walk: Seq<Hop>)
    ensures
        ({
            let sum = walk.fold_left(0nat, |sum: nat, hop: Hop| sum + hop.cost as nat);
            cost_to_root(walk) == if sum <= u64::MAX {
                sum
            } else {
                u64::MAX as nat
            }
        }),
{
    lemma_total_is_the_sum(walk);
}

proof fn lemma_total_is_the_sum(walk: Seq<Hop>)
    ensures
        walk::total(prices(walk)) == walk.fold_left(
            0nat,
            |sum: nat, hop: Hop| sum + hop.cost as nat,
        ),
    decreases walk.len(),
{
    reveal_with_fuel(Seq::fold_left, 2);
    if walk.len() > 0 {
        assert(prices(walk).drop_last() =~= prices(walk.drop_last()));
        lemma_total_is_the_sum(walk.drop_last());
    }
}

/// The distance between two nodes is what every link below the last node their
/// walks share costs, on either side, as far as that can be counted.
pub proof fn law_the_distance_is_what_lies_below_the_fork(a: Seq<Hop>, b: Seq<Hop>, fork: int)
    requires
        0 <= fork <= a.len(),
        fork <= b.len(),
        forall|i: int| 0 <= i < fork ==> (#[trigger] a[i]).key == b[i].key,
        fork == a.len() || fork == b.len() || a[fork].key != b[fork].key,
    ensures
        ({
            let up = a.skip(fork).fold_left(0nat, |sum: nat, hop: Hop| sum + hop.cost as nat);
            let down = b.skip(fork).fold_left(0nat, |sum: nat, hop: Hop| sum + hop.cost as nat);
            separation(a, b) == if up + down <= u64::MAX {
                up + down
            } else {
                u64::MAX as nat
            }
        }),
{
    walk::lemma_shared(keys(a), keys(b));
    assert(walk::forks_after(keys(a), keys(b), fork as nat));
    assert(prices(a).skip(fork) =~= prices(a.skip(fork)));
    assert(prices(b).skip(fork) =~= prices(b.skip(fork)));
    lemma_total_is_the_sum(a.skip(fork));
    lemma_total_is_the_sum(b.skip(fork));
}

/// Of two positions the one with the smaller root is preferred; of two with one
/// root, the one whose prices add up to less; of two as cheap, the one with
/// fewer hops; and of two as long, the one with the smaller key, or else the
/// smaller price, where their walks first differ.
pub proof fn law_positions_are_preferred_by_root_cost_hops_and_path(
    a: Seq<Hop>,
    b: Seq<Hop>,
    at: int,
)
    requires
        a.len() > 0,
        b.len() > 0,
    ensures
        ({
            let x = walk::capped(a.fold_left(0nat, |sum: nat, hop: Hop| sum + hop.cost as nat));
            let y = walk::capped(b.fold_left(0nat, |sum: nat, hop: Hop| sum + hop.cost as nat));
            let same_root = a[0].key == b[0].key;
            &&& a[0].key.rank() < b[0].key.rank() ==> preferred(a, b)
            &&& same_root && x < y ==> preferred(a, b)
            &&& same_root && x == y && a.len() < b.len() ==> preferred(a, b)
            &&& same_root && x == y && a.len() == b.len() && 0 <= at < a.len() && (forall|i: int|
                0 <= i < at ==> (#[trigger] a[i]).key == b[i].key && a[i].cost == b[i].cost) && (
            a[at].key.rank() < b[at].key.rank() || a[at].key == b[at].key && a[at].cost
                < b[at].cost) ==> preferred(a, b)
        }),
{
    lemma_total_is_the_sum(a);
    lemma_total_is_the_sum(b);
    if a.len() == b.len() && 0 <= at < a.len() && (forall|i: int|
        0 <= i < at ==> (#[trigger] a[i]).key == b[i].key && a[i].cost == b[i].cost) && (
    a[at].key.rank() < b[at].key.rank() || a[at].key == b[at].key && a[at].cost < b[at].cost) {
        assert(order::parts_first_at(a, b, at));
    }
}

/// The later stamp is the later word, whatever the walks; under one stamp it is
/// the walk with the greater key, or else the greater price, where the two
/// first differ, or the longer one where they do not.
pub proof fn law_the_later_stamp_is_the_later_word(a: Claim, b: Claim, at: int)
    ensures
        a.seq > b.seq ==> supersedes(a, b) && !supersedes(b, a),
        a.seq == b.seq && 0 <= at < a.walk.len() && at < b.walk.len() && (forall|i: int|
            0 <= i < at ==> #[trigger] a.walk[i] == b.walk[i]) && (a.walk[at].key.rank()
            > b.walk[at].key.rank() || a.walk[at].key == b.walk[at].key && a.walk[at].cost
            > b.walk[at].cost) ==> supersedes(a, b) && !supersedes(b, a),
        a.seq == b.seq && a.walk.len() > b.walk.len() && a.walk.take(b.walk.len() as int) == b.walk
            ==> supersedes(a, b) && !supersedes(b, a),
{
    law_supersedes_never_ties(a, b);
    let (x, y) = (a.walk, b.walk);
    if 0 <= at < x.len() && at < y.len() && (forall|i: int| 0 <= i < at ==> #[trigger] x[i] == y[i])
        && (x[at].key.rank() > y[at].key.rank() || x[at].key == y[at].key && x[at].cost
        > y[at].cost) {
        assert(order::parts_first_at(y, x, at));
    }
    if x.len() > y.len() && x.take(y.len() as int) == y {
        assert forall|i: int| 0 <= i < y.len() implies y[i] == x[i] by {
            assert(x.take(y.len() as int)[i] == x[i]);
        }
        assert(order::parts_first_at(y, x, y.len() as int));
    }
}

/// A walk is refused for the first of these that is wrong with it, and for
/// nothing else: it names nobody; its root is priced; a link below the root is
/// free; a node is named twice.
pub proof fn law_a_walk_is_refused_for_its_first_fault(walk: Seq<Hop>)
    ensures
        ({
            let fault = flaw(walk);
            let free = exists|i: int| 0 < i < walk.len() && (#[trigger] walk[i]).cost == 0;
            let twice = exists|i: int, j: int|
                0 <= i < j < walk.len() && (#[trigger] walk[i]).key == (#[trigger] walk[j]).key;
            &&& walk.len() == 0 ==> fault == Some(MalformedAnnouncement::EmptyPath)
            &&& walk.len() > 0 && walk[0].cost != 0 ==> fault == Some(
                MalformedAnnouncement::CostAtRoot,
            )
            &&& walk.len() > 0 && walk[0].cost == 0 ==> {
                &&& free ==> fault == Some(MalformedAnnouncement::FreeLink)
                &&& !free && twice ==> fault == Some(MalformedAnnouncement::RepeatedKey)
                &&& !free && !twice ==> fault is None
            }
        }),
{
}

/// A node alone is its own root, at no cost; below a walk that does not name it,
/// it is one step more at what the link costs; and below one that does it cannot
/// sit.
pub proof fn law_a_node_adds_its_own_hop(walk: Seq<Hop>, child: PublicKey, cost: u64)
    ensures
        ({
            let taken = exists|i: int| 0 <= i < walk.len() && (#[trigger] walk[i]).key == child;
            &&& rooted(child) == seq![Hop { key: child, cost: 0 }]
            &&& taken <==> extended(walk, child, cost) is None
            &&& !taken ==> extended(walk, child, cost) == Some(walk.push(Hop { key: child, cost }))
        }),
{
    if exists|i: int| 0 <= i < walk.len() && (#[trigger] walk[i]).key == child {
        let i = choose|i: int| 0 <= i < walk.len() && (#[trigger] walk[i]).key == child;
        assert(keys(walk)[i] == child);
    }
    if keys(walk).contains(child) {
        let i = choose|i: int| 0 <= i < keys(walk).len() && keys(walk)[i] == child;
        assert(walk[i].key == child);
    }
}

/// A walk runs from its root to its author, whose parent is the step before.
pub proof fn law_a_walk_ends_at_its_author(walk: Seq<Hop>)
    requires
        walk.len() > 0,
    ensures
        author(walk) == walk[walk.len() - 1].key,
        walk.len() == 1 ==> parent(walk) is None,
        walk.len() > 1 ==> parent(walk) == Some(walk[walk.len() - 2].key),
{
}

/// Hops sort by key and cost, the first of these in which they differ.
pub proof fn law_hops_sort_by_key_and_cost(a: Hop, b: Hop)
    ensures
        a.key.rank() < b.key.rank() ==> a.before(b),
        a.key == b.key && a.cost < b.cost ==> a.before(b),
{
}

/// Every way a walk can be wrong is put in words of its own.
pub proof fn law_every_fault_has_its_own_words(fault: MalformedAnnouncement)
    ensures
        fault.words() == (match fault {
            MalformedAnnouncement::EmptyPath => "announcement path is empty"@,
            MalformedAnnouncement::RepeatedKey => "announcement path repeats a key"@,
            MalformedAnnouncement::CostAtRoot => "announcement prices the link into its root"@,
            MalformedAnnouncement::FreeLink => "announcement path contains a link costing nothing"@,
        }),
{
}

} // verus!
