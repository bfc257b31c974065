//! Walks down the tree, as sequences of keys and of prices.

use vstd::prelude::*;
use crate::key::PublicKey;
use crate::order::{compare_numbers, Ordered, Standing};
use crate::sorted_map::Ranked;

verus! {

/// One step of a walk with nothing of how it was signed: a node, and what
/// reaching it costs.
#[derive(Clone, Copy, PartialEq, Eq, PartialOrd, Ord, Hash, Debug)]
pub struct Leg {
    /// The node this step arrives at.
    pub key: PublicKey,
    /// What the link from the previous step to this one costs to cross.
    pub cost: u64,
}

impl Ordered for Leg {
    open spec fn before(self, other: Self) -> bool {
        ||| self.key.rank() < other.key.rank()
        ||| self.key == other.key && self.cost < other.cost
    }

    proof fn order_is_total(a: Self, b: Self) {
        if a.key.rank() == b.key.rank() {
            PublicKey::rank_tells_apart(a.key, b.key);
        }
    }

    proof fn order_is_transitive(a: Self, b: Self, c: Self) {
    }

    fn compare(&self, other: &Self) -> (standing: Standing) {
        proof {
            Self::order_is_total(*self, *other);
        }
        match self.key.compare_rank(&other.key) {
            Standing::Same => {},
            decided => return decided,
        }
        compare_numbers(self.cost, other.cost)
    }
}

/// Whether two walks name the same nodes for their first `n` steps.
pub open spec fn agree(a: Seq<PublicKey>, b: Seq<PublicKey>, n: nat) -> bool {
    &&& n <= a.len()
    &&& n <= b.len()
    &&& forall|i: int| 0 <= i < n ==> a[i] == b[i]
}

/// Whether two walks part company after exactly `n` steps.
pub open spec fn forks_after(a: Seq<PublicKey>, b: Seq<PublicKey>, n: nat) -> bool {
    &&& agree(a, b, n)
    &&& n == a.len() || n == b.len() || a[n as int] != b[n as int]
}

/// How many steps two walks share before they part company: the depth of the
/// lowest common ancestor, counting the root as one.
pub open spec fn shared(a: Seq<PublicKey>, b: Seq<PublicKey>) -> nat {
    choose|n: nat| forks_after(a, b, n)
}

proof fn lemma_fork_exists(a: Seq<PublicKey>, b: Seq<PublicKey>, from: nat) -> (n: nat)
    requires
        agree(a, b, from),
    ensures
        forks_after(a, b, n),
    decreases a.len() - from,
{
    if from == a.len() || from == b.len() || a[from as int] != b[from as int] {
        from
    } else {
        lemma_fork_exists(a, b, from + 1)
    }
}

/// Two walks part company in exactly one place.
pub proof fn lemma_shared(a: Seq<PublicKey>, b: Seq<PublicKey>)
    ensures
        forks_after(a, b, shared(a, b)),
        forall|n: nat| #[trigger] forks_after(a, b, n) ==> n == shared(a, b),
        shared(a, b) == shared(b, a),
{
    let n = lemma_fork_exists(a, b, 0);
    let m = shared(a, b);
    assert(forks_after(a, b, m));
    assert forall|k: nat| #[trigger] forks_after(a, b, k) implies k == m by {
        if k < m {
            assert(a[k as int] == b[k as int]);
        } else if m < k {
            assert(a[m as int] == b[m as int]);
        }
    }
    assert(forks_after(b, a, m));
    let back = shared(b, a);
    assert(forks_after(b, a, back));
    assert(forks_after(a, b, back));
}

/// What every price in a walk adds up to.
pub open spec fn total(prices: Seq<u64>) -> nat
    decreases prices.len(),
{
    if prices.len() == 0 {
        0
    } else {
        total(prices.drop_last()) + prices.last() as nat
    }
}

/// The nearest a sum can come to its true value in 64 bits.
pub open spec fn capped(sum: nat) -> u64 {
    if sum <= u64::MAX {
        sum as u64
    } else {
        u64::MAX
    }
}

/// Prices add up in parts.
pub proof fn lemma_total_in_parts(a: Seq<u64>, b: Seq<u64>)
    ensures
        total(a + b) == total(a) + total(b),
    decreases b.len(),
{
    if b.len() == 0 {
        assert(a + b =~= a);
    } else {
        assert((a + b).drop_last() =~= a + b.drop_last());
        lemma_total_in_parts(a, b.drop_last());
    }
}

/// What is left of a walk after `n` steps costs what the whole does, less what
/// those steps cost.
pub proof fn lemma_total_of_rest(prices: Seq<u64>, n: int)
    requires
        0 <= n <= prices.len(),
    ensures
        total(prices.skip(n)) == total(prices) - total(prices.take(n)),
{
    lemma_total_in_parts(prices.take(n), prices.skip(n));
    assert(prices.take(n) + prices.skip(n) =~= prices);
}

/// A walk of links none of which is free costs at least one per link.
pub proof fn lemma_total_at_least_one_each(prices: Seq<u64>)
    requires
        forall|i: int| 0 <= i < prices.len() ==> prices[i] >= 1,
    ensures
        total(prices) >= prices.len(),
    decreases prices.len(),
{
    if prices.len() > 0 {
        lemma_total_at_least_one_each(prices.drop_last());
    }
}

/// How many links the walk between two nodes crosses along the tree.
pub open spec fn links_between(a: Seq<PublicKey>, b: Seq<PublicKey>) -> nat {
    let n = shared(a, b);
    ((a.len() - n) + (b.len() - n)) as nat
}

/// What the links between two nodes cost along the tree: the climb from each
/// of them up to where their walks part company.
pub open spec fn toll_between(
    a: Seq<PublicKey>,
    a_prices: Seq<u64>,
    b: Seq<PublicKey>,
    b_prices: Seq<u64>,
) -> nat {
    let n = shared(a, b);
    total(a_prices.skip(n as int)) + total(b_prices.skip(n as int))
}

/// Distance is the same from either end.
pub proof fn lemma_links_are_symmetric(a: Seq<PublicKey>, b: Seq<PublicKey>)
    ensures
        links_between(a, b) == links_between(b, a),
{
    lemma_shared(a, b);
}

/// Distance is zero exactly between a walk and itself.
pub proof fn lemma_links_are_zero_at_home(a: Seq<PublicKey>, b: Seq<PublicKey>)
    ensures
        links_between(a, b) == 0 <==> a == b,
{
    lemma_shared(a, b);
    if links_between(a, b) == 0 {
        assert(a =~= b);
    }
    if a == b {
        assert(forks_after(a, b, a.len()));
    }
}

/// Priced distance is the same from either end.
pub proof fn lemma_tolls_are_symmetric(
    a: Seq<PublicKey>,
    a_prices: Seq<u64>,
    b: Seq<PublicKey>,
    b_prices: Seq<u64>,
)
    ensures
        toll_between(a, a_prices, b, b_prices) == toll_between(b, b_prices, a, a_prices),
{
    lemma_shared(a, b);
}

/// Where two walks from one root end at the same node, nothing is left to pay;
/// where they do not, something is.
pub proof fn lemma_tolls_are_zero_at_home(
    a: Seq<PublicKey>,
    a_prices: Seq<u64>,
    b: Seq<PublicKey>,
    b_prices: Seq<u64>,
)
    requires
        a.len() == a_prices.len(),
        b.len() == b_prices.len(),
        a.len() > 0,
        b.len() > 0,
        a[0] == b[0],
        forall|i: int| 0 < i < a.len() ==> a_prices[i] >= 1,
        forall|i: int| 0 < i < b.len() ==> b_prices[i] >= 1,
    ensures
        toll_between(a, a_prices, b, b_prices) == 0 <==> a == b,
{
    lemma_shared(a, b);
    let n = shared(a, b);
    assert(n >= 1) by {
        if n == 0 {
            assert(a[0] == b[0]);
        }
    }
    lemma_total_at_least_one_each(a_prices.skip(n as int));
    lemma_total_at_least_one_each(b_prices.skip(n as int));
    if toll_between(a, a_prices, b, b_prices) == 0 {
        assert(a =~= b);
    }
    if a == b {
        assert(forks_after(a, b, a.len()));
        assert(a_prices.skip(n as int) =~= Seq::empty());
        assert(b_prices.skip(n as int) =~= Seq::empty());
    }
}

/// What every price in a walk adds up to is their sum.
pub proof fn law_a_total_is_the_sum(prices: Seq<u64>)
    ensures
        total(prices) == prices.fold_left(0nat, |sum: nat, price: u64| sum + price as nat),
    decreases prices.len(),
{
    reveal_with_fuel(Seq::fold_left, 2);
    if prices.len() > 0 {
        law_a_total_is_the_sum(prices.drop_last());
    }
}

/// A sum is what it is while it can be counted, and stops at the most that can.
pub proof fn law_a_sum_stops_at_the_ceiling(sum: nat)
    ensures
        sum <= u64::MAX ==> capped(sum) == sum,
        sum >= u64::MAX ==> capped(sum) == u64::MAX,
{
}

} // verus!
