//! What links cost to cross.

use vstd::prelude::*;

verus! {

/// What crossing one link costs.
///
/// The number is whatever the caller measured, counted in whatever unit it
/// likes. Only the ordering matters, and only among the links of one network.
///
/// A cost is at least one, which is what keeps both of the protocol's
/// guarantees standing: a packet makes strict progress at every hop, and a
/// node's parent is strictly nearer the root than the node itself. A network
/// whose links all cost [`Cost::unit`] measures distance in hops.
#[derive(Clone, Copy, PartialEq, Eq, PartialOrd, Ord, Hash, Debug)]
pub struct Cost(u64);

impl View for Cost {
    type V = u64;

    open spec fn view(&self) -> u64 {
        self.value()
    }
}

impl Cost {
    /// The measurement.
    pub closed spec fn value(self) -> u64 {
        self.0
    }

    /// No link is free.
    #[verifier::type_invariant]
    closed spec fn is_not_free(self) -> bool {
        self.0 >= 1
    }

    /// The cost of a link counted as a single hop.
    pub fn unit() -> (cost: Self)
        ensures
            cost.value() == 1,
    {
        Cost(1)
    }

    /// Wraps a measurement, rejecting the zero a free link would claim to be.
    pub fn new(value: u64) -> (cost: Option<Self>)
        ensures
            cost is Some <==> value != 0,
            cost matches Some(c) ==> c.value() == value,
    {
        if value == 0 {
            None
        } else {
            Some(Cost(value))
        }
    }

    /// The measurement itself.
    pub fn get(self) -> (value: u64)
        ensures
            value == self.value(),
            value >= 1,
    {
        proof {
            use_type_invariant(self);
        }
        self.0
    }
}

/// Two costs are the same when they measure the same.
pub proof fn lemma_cost_is_its_value(a: Cost, b: Cost)
    ensures
        a.value() == b.value() <==> a == b,
{
}

impl Default for Cost {
    fn default() -> (cost: Self)
        ensures
            cost.value() == 1,
    {
        Cost::unit()
    }
}

} // verus!
