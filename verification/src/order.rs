//! How keys, stamps and walks are put in order.

use vstd::prelude::*;
use vstd::arithmetic::power;

verus! {

/// How one value stands to another in some total order.
#[derive(Clone, Copy, PartialEq, Eq, Debug, Structural)]
pub enum Standing {
    /// It comes first.
    Before,
    /// They are the same value.
    Same,
    /// It comes second.
    After,
}

/// The number a string of bytes spells, most significant byte first.
///
/// Between strings of one length this is exactly the order in which they sort.
pub open spec fn rank(bytes: Seq<u8>) -> nat
    decreases bytes.len(),
{
    if bytes.len() == 0 {
        0
    } else {
        rank(bytes.drop_last()) * 256 + bytes.last() as nat
    }
}

/// The first byte in which two strings of one length part decides their ranks.
pub proof fn lemma_rank_follows_first_difference(a: Seq<u8>, b: Seq<u8>, at: int)
    requires
        a.len() == b.len(),
        0 <= at < a.len(),
        a.take(at) == b.take(at),
        a[at] < b[at],
    ensures
        rank(a) < rank(b),
    decreases a.len(),
{
    let (a_head, b_head) = (a.drop_last(), b.drop_last());
    if at == a.len() - 1 {
        assert(a_head == a.take(at));
        assert(b_head == b.take(at));
    } else {
        assert(a_head.take(at) == a.take(at));
        assert(b_head.take(at) == b.take(at));
        lemma_rank_follows_first_difference(a_head, b_head, at);
    }
}

/// Two strings of one length that spell the same number are the same string.
pub proof fn lemma_rank_tells_apart(a: Seq<u8>, b: Seq<u8>)
    requires
        a.len() == b.len(),
        rank(a) == rank(b),
    ensures
        a == b,
    decreases a.len(),
{
    if a.len() > 0 {
        lemma_rank_tells_apart(a.drop_last(), b.drop_last());
        assert(a == a.drop_last().push(a.last()));
        assert(b == b.drop_last().push(b.last()));
    } else {
        assert(a =~= b);
    }
}

/// A string of so many bytes spells a number below so many powers of 256.
pub proof fn lemma_rank_is_bounded(bytes: Seq<u8>)
    ensures
        rank(bytes) < power::pow(256, bytes.len()),
    decreases bytes.len(),
{
    if bytes.len() == 0 {
        power::lemma_pow0(256);
    } else {
        let head = bytes.drop_last();
        lemma_rank_is_bounded(head);
        reveal(power::pow);
        assert(power::pow(256, bytes.len()) == 256 * power::pow(256, head.len()));
    }
}

/// Compares two strings of one length byte by byte.
pub fn compare_bytes(a: &[u8], b: &[u8]) -> (standing: Standing)
    requires
        a@.len() == b@.len(),
    ensures
        standing == Standing::Before <==> rank(a@) < rank(b@),
        standing == Standing::Same <==> a@ == b@,
        standing == Standing::After <==> rank(b@) < rank(a@),
{
    let mut i: usize = 0;
    while i < a.len()
        invariant
            a@.len() == b@.len(),
            0 <= i <= a@.len(),
            a@.take(i as int) == b@.take(i as int),
        decreases a@.len() - i,
    {
        if a[i] < b[i] {
            proof {
                lemma_rank_follows_first_difference(a@, b@, i as int);
            }
            return Standing::Before;
        }
        if a[i] > b[i] {
            proof {
                lemma_rank_follows_first_difference(b@, a@, i as int);
            }
            return Standing::After;
        }
        assert(a@.take(i + 1) =~= a@.take(i as int).push(a@[i as int]));
        assert(b@.take(i + 1) =~= b@.take(i as int).push(b@[i as int]));
        i += 1;
    }
    assert(a@ =~= a@.take(i as int));
    assert(b@ =~= b@.take(i as int));
    Standing::Same
}

/// Compares two numbers.
pub fn compare_numbers(a: u64, b: u64) -> (standing: Standing)
    ensures
        standing == Standing::Before <==> a < b,
        standing == Standing::Same <==> a == b,
        standing == Standing::After <==> b < a,
{
    if a < b {
        Standing::Before
    } else if a > b {
        Standing::After
    } else {
        Standing::Same
    }
}

/// A value with a place in a total order.
pub trait Ordered: Copy {
    /// Whether this comes strictly before `other`.
    spec fn before(self, other: Self) -> bool;

    /// The order is strict and total.
    proof fn order_is_total(a: Self, b: Self)
        ensures
            !a.before(a),
            a.before(b) ==> !b.before(a),
            a == b || a.before(b) || b.before(a),
    ;

    /// And it is transitive.
    proof fn order_is_transitive(a: Self, b: Self, c: Self)
        requires
            a.before(b),
            b.before(c),
        ensures
            a.before(c),
    ;

    /// Compares two values.
    fn compare(&self, other: &Self) -> (standing: Standing)
        ensures
            standing == Standing::Before <==> self.before(*other),
            standing == Standing::Same <==> *self == *other,
            standing == Standing::After <==> other.before(*self),
    ;
}

/// Whether `a` and `b` agree before `at`, and `a` comes first there: either it
/// has run out, or its element at `at` is the earlier one.
pub open spec fn parts_first_at<T: Ordered>(a: Seq<T>, b: Seq<T>, at: int) -> bool {
    &&& 0 <= at <= a.len()
    &&& at < b.len()
    &&& forall|i: int| 0 <= i < at ==> a[i] == b[i]
    &&& at == a.len() || a[at].before(b[at])
}

/// Dictionary order on sequences.
pub open spec fn precedes<T: Ordered>(a: Seq<T>, b: Seq<T>) -> bool {
    exists|at: int| parts_first_at(a, b, at)
}

/// Where two different sequences part company.
proof fn lemma_some_first_difference<T: Ordered>(a: Seq<T>, b: Seq<T>, from: int) -> (at: int)
    requires
        a != b,
        0 <= from <= a.len(),
        from <= b.len(),
        forall|i: int| 0 <= i < from ==> a[i] == b[i],
    ensures
        parts_first_at(a, b, at) || parts_first_at(b, a, at),
    decreases a.len() - from,
{
    if from == a.len() || from == b.len() {
        if a.len() == b.len() {
            assert(a =~= b);
        }
        from
    } else if a[from] != b[from] {
        T::order_is_total(a[from], b[from]);
        from
    } else {
        lemma_some_first_difference(a, b, from + 1)
    }
}

/// Dictionary order is strict and total.
pub proof fn lemma_precedes_is_total<T: Ordered>(a: Seq<T>, b: Seq<T>)
    ensures
        !precedes(a, a),
        precedes(a, b) ==> !precedes(b, a),
        a == b || precedes(a, b) || precedes(b, a),
{
    if precedes(a, a) {
        let at = choose|at: int| parts_first_at(a, a, at);
        T::order_is_total(a[at], a[at]);
    }
    if precedes(a, b) && precedes(b, a) {
        let i = choose|at: int| parts_first_at(a, b, at);
        let j = choose|at: int| parts_first_at(b, a, at);
        if i < a.len() && j < b.len() {
            T::order_is_total(a[i], b[i]);
            T::order_is_total(a[j], b[j]);
        } else if i == a.len() {
            if j < b.len() {
                T::order_is_total(a[j], b[j]);
            }
        } else {
            T::order_is_total(a[i], b[i]);
        }
    }
    if a != b {
        let at = lemma_some_first_difference(a, b, 0);
    }
}

/// Dictionary order is transitive.
pub proof fn lemma_precedes_is_transitive<T: Ordered>(a: Seq<T>, b: Seq<T>, c: Seq<T>)
    requires
        precedes(a, b),
        precedes(b, c),
    ensures
        precedes(a, c),
{
    let i = choose|at: int| parts_first_at(a, b, at);
    let j = choose|at: int| parts_first_at(b, c, at);
    let at = if i <= j { i } else { j };
    if at == i && at == j && i < a.len() {
        T::order_is_transitive(a[at], b[at], c[at]);
    }
    assert(parts_first_at(a, c, at));
}

/// Compares two sequences in dictionary order.
pub fn compare_slices<T: Ordered>(a: &[T], b: &[T]) -> (standing: Standing)
    ensures
        standing == Standing::Before <==> precedes(a@, b@),
        standing == Standing::Same <==> a@ == b@,
        standing == Standing::After <==> precedes(b@, a@),
{
    proof {
        lemma_precedes_is_total(a@, b@);
        lemma_precedes_is_total(b@, a@);
    }
    let mut i: usize = 0;
    while i < a.len() && i < b.len()
        invariant
            0 <= i <= a@.len(),
            i <= b@.len(),
            forall|j: int| 0 <= j < i ==> a@[j] == b@[j],
            !precedes(a@, a@),
            precedes(a@, b@) ==> !precedes(b@, a@),
        decreases a@.len() - i,
    {
        match a[i].compare(&b[i]) {
            Standing::Before => {
                assert(parts_first_at(a@, b@, i as int));
                return Standing::Before;
            },
            Standing::After => {
                assert(parts_first_at(b@, a@, i as int));
                return Standing::After;
            },
            Standing::Same => {},
        }
        i += 1;
    }
    if a.len() < b.len() {
        assert(parts_first_at(a@, b@, i as int));
        Standing::Before
    } else if b.len() < a.len() {
        assert(parts_first_at(b@, a@, i as int));
        Standing::After
    } else {
        assert(a@ =~= b@);
        Standing::Same
    }
}

/// Sequences sort by the first element in which they differ, and where there is
/// none the shorter comes first.
pub proof fn law_sequences_sort_by_their_first_difference<T: Ordered>(
    a: Seq<T>,
    b: Seq<T>,
    at: int,
)
    requires
        0 <= at <= a.len(),
        at <= b.len(),
        forall|i: int| 0 <= i < at ==> #[trigger] a[i] == b[i],
        at == a.len() || at == b.len() || a[at] != b[at],
    ensures
        at < a.len() && at < b.len() ==> (precedes(a, b) <==> a[at].before(b[at])),
        at == a.len() ==> (precedes(a, b) <==> a.len() < b.len()),
        at == b.len() ==> !precedes(a, b),
{
    lemma_precedes_is_total(a, b);
    lemma_precedes_is_total(b, a);
    if at < a.len() && at < b.len() {
        T::order_is_total(a[at], b[at]);
        if a[at].before(b[at]) {
            assert(parts_first_at(a, b, at));
        } else {
            assert(parts_first_at(b, a, at));
        }
    } else if at == a.len() && at < b.len() {
        assert(parts_first_at(a, b, at));
    } else if at == b.len() && at < a.len() {
        assert(parts_first_at(b, a, at));
    } else {
        assert(a =~= b);
    }
}

} // verus!
