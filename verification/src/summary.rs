//! What lies beyond a link, summarised.

use vstd::prelude::*;
use crate::hash;
use crate::hash::{fnv1a, mix};
use crate::key::PublicKey;
use crate::text;
use crate::text::push_decimal;

verus! {

/// The set of keys reachable through one link, as a Bloom filter.
///
/// A node keeps one of these per tree neighbour and sends one back, so what it
/// holds is a fixed number of bytes per link rather than an entry per node in
/// the network. That is the whole trade: a summary cannot be read back, only
/// asked about, and it answers "no" exactly and "yes" approximately.
///
/// A key that was inserted always tests present, so a search guided by
/// summaries never overlooks the branch its target is really on. A key that was
/// not may test present anyway, which costs a search a wasted detour and
/// nothing else.
#[derive(Clone, Copy, Eq, Hash, Debug)]
pub struct Summary {
    words: [u64; 4],
}

/// Whether one bit of a word is set.
pub open spec fn bit_set(word: u64, bit: u64) -> bool {
    (word >> bit) & 1 == 1
}

/// Which bit `key` sets on the given round.
pub open spec fn position(key: PublicKey, round: int) -> int {
    (hash::mixed(hash::salted_fnv1a(round as u8, key@)) % 256) as int
}

/// The bits `key` sets.
pub open spec fn bits_of(key: PublicKey) -> Set<int> {
    set![position(key, 0), position(key, 1), position(key, 2), position(key, 3)]
}

/// What a summary holding exactly the set bits `bits` says of `key`.
pub open spec fn claims(bits: Set<int>, key: PublicKey) -> bool {
    bits_of(key).subset_of(bits)
}

impl View for Summary {
    type V = Set<int>;

    /// The bits that are set.
    closed spec fn view(&self) -> Set<int> {
        Set::new(|bit: int| 0 <= bit < 256 && bit_set(self.words@[bit / 64], (bit % 64) as u64))
    }
}

proof fn lemma_bits_agree_from(x: u64, y: u64, n: u64)
    requires
        forall|i: u64| i < 64 ==> (bit_set(x, i) <==> bit_set(y, i)),
        n <= 63,
    ensures
        x >> n == y >> n,
    decreases 63 - n,
{
    assert(bit_set(x, n) <==> bit_set(y, n));
    if n == 63 {
        assert(x >> n == y >> n) by (bit_vector)
            requires
                n == 63,
                (x >> n) & 1 == 1 <==> (y >> n) & 1 == 1,
        ;
    } else {
        lemma_bits_agree_from(x, y, (n + 1) as u64);
        let next = (n + 1) as u64;
        assert(x >> n == y >> n) by (bit_vector)
            requires
                n < 63,
                next == n + 1,
                x >> next == y >> next,
                (x >> n) & 1 == 1 <==> (y >> n) & 1 == 1,
        ;
    }
}

/// Two words with the same bits are the same word.
proof fn lemma_word_is_its_bits(x: u64, y: u64)
    requires
        forall|i: u64| i < 64 ==> (bit_set(x, i) <==> bit_set(y, i)),
    ensures
        x == y,
{
    lemma_bits_agree_from(x, y, 0);
    assert(x >> 0 == x) by (bit_vector);
    assert(y >> 0 == y) by (bit_vector);
}

/// A summary is nothing but the bits that are set in it.
pub proof fn lemma_summary_is_its_bits(a: Summary, b: Summary)
    ensures
        a@ == b@ <==> a == b,
{
    if a@ == b@ {
        assert forall|w: int| 0 <= w < 4 implies a.words@[w] == b.words@[w] by {
            assert forall|i: u64| i < 64 implies (bit_set(a.words@[w], i) <==> bit_set(
                b.words@[w],
                i,
            )) by {
                let bit = 64 * w + i;
                assert(bit / 64 == w && bit % 64 == i);
                assert(a@.contains(bit) <==> b@.contains(bit));
            }
            lemma_word_is_its_bits(a.words@[w], b.words@[w]);
        }
        assert(a.words =~= b.words);
    }
}

/// Only so many bits can be set in a summary, and no others.
pub proof fn law_bits_are_bounded(summary: Summary)
    ensures
        summary@.finite(),
        summary@.len() <= Summary::BITS,
        forall|bit: int| #[trigger] summary@.contains(bit) ==> 0 <= bit < Summary::BITS,
{
    let every = vstd::set_lib::set_int_range(0, 256);
    vstd::set_lib::lemma_int_range(0, 256);
    assert(summary@.subset_of(every));
    vstd::set_lib::lemma_len_subset(summary@, every);
}

impl PartialEq for Summary {
    fn eq(&self, other: &Self) -> (same: bool) {
        let same = self.words[0] == other.words[0] && self.words[1] == other.words[1]
            && self.words[2] == other.words[2] && self.words[3] == other.words[3];
        proof {
            if same {
                assert(self.words =~= other.words);
            }
        }
        same
    }
}

impl vstd::std_specs::cmp::PartialEqSpecImpl for Summary {
    open spec fn obeys_eq_spec() -> bool {
        true
    }

    open spec fn eq_spec(&self, other: &Self) -> bool {
        *self == *other
    }
}

/// Which bit `key` sets on the given round.
///
/// The mix after the hash is not decoration: the bit index is taken from the
/// bottom of the word, and those are the bits FNV moves least, so without it
/// keys that share a suffix would pile onto the same handful of positions.
fn find_position(key: PublicKey, round: u8) -> (bit: usize)
    ensures
        bit == position(key, round as int),
        bit < 256,
{
    let hash = mix(fnv1a(round, key.as_bytes()));
    (hash % 256) as usize
}

impl Summary {
    /// How many bits a summary holds.
    pub const BITS: usize = 256;

    /// How many of them each key sets.
    pub const HASHES: usize = 4;

    /// The summary of nothing at all, which claims no key.
    pub fn new() -> (summary: Self)
        ensures
            summary@ == Set::<int>::empty(),
    {
        let summary = Summary { words: [0; 4] };
        proof {
            assert forall|bit: int| !summary@.contains(bit) by {
                if 0 <= bit < 256 {
                    let shift = (bit % 64) as u64;
                    assert((0u64 >> shift) & 1 == 0) by (bit_vector);
                }
            }
            assert(summary@ =~= Set::empty());
        }
        summary
    }

    /// Sets one bit.
    fn set(&mut self, bit: usize)
        requires
            bit < 256,
        ensures
            final(self)@ == old(self)@.insert(bit as int),
    {
        let ghost before = self.words@;
        let shift: u64 = (bit % 64) as u64;
        let word: u64 = self.words[bit / 64] | (1u64 << shift);
        self.words[bit / 64] = word;
        proof {
            assert forall|other: int| self@.contains(other) <==> old(self)@.insert(
                bit as int,
            ).contains(other) by {
                if 0 <= other < 256 && other / 64 == bit as int / 64 {
                    let at = (other % 64) as u64;
                    let was = before[bit as int / 64];
                    assert(((was | (1u64 << shift)) >> at) & 1 == 1 <==> ((was >> at) & 1 == 1
                        || at == shift)) by (bit_vector)
                        requires
                            at < 64,
                            shift < 64,
                    ;
                    assert(at == shift <==> other == bit);
                }
            }
            assert(self@ =~= old(self)@.insert(bit as int));
        }
    }

    /// Whether one bit is set.
    fn is_set(&self, bit: usize) -> (set: bool)
        requires
            bit < 256,
        ensures
            set == self@.contains(bit as int),
    {
        let shift: u64 = (bit % 64) as u64;
        (self.words[bit / 64] >> shift) & 1 == 1
    }

    /// Records that `key` is reachable.
    pub fn insert(&mut self, key: PublicKey)
        ensures
            final(self)@ == old(self)@.union(bits_of(key)),
    {
        let ghost before = self@;
        self.set(find_position(key, 0));
        self.set(find_position(key, 1));
        self.set(find_position(key, 2));
        self.set(find_position(key, 3));
        assert(self@ =~= before.union(bits_of(key)));
    }

    /// Whether `key` may be reachable.
    ///
    /// False for a key that was never inserted unless every one of its bits was
    /// set by other keys; never false for one that was.
    pub fn contains(&self, key: PublicKey) -> (claimed: bool)
        ensures
            claimed == claims(self@, key),
    {
        let mut round: u8 = 0;
        while round < 4
            invariant
                0 <= round <= 4,
                forall|r: int| 0 <= r < round ==> self@.contains(#[trigger] position(key, r)),
            decreases 4 - round,
        {
            if !self.is_set(find_position(key, round)) {
                assert(bits_of(key).contains(position(key, round as int)));
                return false;
            }
            round += 1;
        }
        assert(self@.contains(position(key, 0)) && self@.contains(position(key, 1)));
        assert(self@.contains(position(key, 2)) && self@.contains(position(key, 3)));
        true
    }

    /// Folds `other` in, so this claims everything either of them did.
    ///
    /// This is how a summary is built from the ones a node's other links gave
    /// it: the union is exact, which is what lets a node describe a whole
    /// subtree without ever holding it.
    pub fn union(&mut self, other: &Self)
        ensures
            final(self)@ == old(self)@.union(other@),
    {
        let ghost before = self.words@;
        let words: [u64; 4] = [
            self.words[0] | other.words[0],
            self.words[1] | other.words[1],
            self.words[2] | other.words[2],
            self.words[3] | other.words[3],
        ];
        self.words = words;
        proof {
            assert forall|bit: int| self@.contains(bit) <==> old(self)@.union(other@).contains(
                bit,
            ) by {
                if 0 <= bit < 256 {
                    let (x, y) = (before[bit / 64], other.words@[bit / 64]);
                    let at = (bit % 64) as u64;
                    assert(self.words@[bit / 64] == x | y);
                    assert(((x | y) >> at) & 1 == 1 <==> ((x >> at) & 1 == 1 || (y >> at) & 1 == 1))
                        by (bit_vector)
                        requires
                            at < 64,
                    ;
                }
            }
            assert(self@ =~= old(self)@.union(other@));
        }
    }

    /// How many bits are set, out of [`BITS`](Self::BITS).
    ///
    /// A summary that is filling up is one whose answers are getting vaguer,
    /// which is the only warning a Bloom filter ever gives.
    pub fn filled(&self) -> (filled: u32)
        ensures
            filled == self@.len(),
            filled <= Self::BITS,
            self@.finite(),
            forall|bit: int| #[trigger] self@.contains(bit) ==> 0 <= bit < Self::BITS,
    {
        let mut filled: u32 = 0;
        let mut bit: usize = 0;
        let ghost mut counted = Set::<int>::empty();
        while bit < 256
            invariant
                0 <= bit <= 256,
                filled <= bit,
                counted.finite(),
                filled == counted.len(),
                forall|b: int| counted.contains(b) <==> (0 <= b < bit && self@.contains(b)),
            decreases 256 - bit,
        {
            if self.is_set(bit) {
                filled += 1;
                proof {
                    counted = counted.insert(bit as int);
                }
            }
            bit += 1;
        }
        assert(counted =~= self@);
        filled
    }

    /// How full the summary is, for a person to read.
    pub fn label(&self) -> (label: String)
        ensures
            label@ == "Summary("@ + text::decimal(self@.len()) + "/256 bits)"@,
    {
        let mut label = String::from_str("Summary(");
        push_decimal(&mut label, self.filled() as u64);
        label.append("/256 bits)");
        label
    }
}

impl Default for Summary {
    fn default() -> (summary: Self)
        ensures
            summary@ == Set::<int>::empty(),
    {
        Summary::new()
    }
}

/// A key that was inserted always tests present, whatever is folded in before
/// or after it.
pub proof fn law_inserted_is_never_missed(bits: Set<int>, key: PublicKey, more: Set<int>)
    ensures
        claims(bits.union(bits_of(key)), key),
        claims(bits.union(bits_of(key)).union(more), key),
{
}

/// Inserting a key only ever sets bits, at most one for each of its hashes:
/// whatever was claimed still is, inserting it again changes nothing, and the
/// order in which keys go in does not matter.
pub proof fn law_inserting_only_sets_bits(
    bits: Set<int>,
    key: PublicKey,
    next: PublicKey,
    other: PublicKey,
)
    requires
        bits.finite(),
    ensures
        ({
            let after = bits.union(bits_of(key));
            &&& claims(bits, other) ==> claims(after, other)
            &&& after.finite()
            &&& bits.len() <= after.len() <= bits.len() + Summary::HASHES
            &&& after.union(bits_of(key)) == after
            &&& after.union(bits_of(next)) == bits.union(bits_of(next)).union(bits_of(key))
        }),
{
    let after = bits.union(bits_of(key));
    let set = bits.insert(position(key, 0)).insert(position(key, 1)).insert(
        position(key, 2),
    ).insert(position(key, 3));
    assert(after =~= set);
    assert(after.union(bits_of(key)) =~= after);
    assert(after.union(bits_of(next)) =~= bits.union(bits_of(next)).union(bits_of(key)));
}

/// A union claims whatever either side did.
pub proof fn law_union_claims_either(a: Set<int>, b: Set<int>, key: PublicKey)
    requires
        claims(a, key) || claims(b, key),
    ensures
        claims(a.union(b), key),
{
}

/// The summary of nothing claims nothing.
pub proof fn law_empty_claims_nothing(key: PublicKey)
    ensures
        !claims(Set::empty(), key),
{
    assert(bits_of(key).contains(position(key, 0)));
}

/// Folding summaries together is indifferent to order, grouping and repeats.
pub proof fn law_union_is_a_join(a: Set<int>, b: Set<int>, c: Set<int>)
    ensures
        a.union(a) == a,
        a.union(b) == b.union(a),
        a.union(b).union(c) == a.union(b.union(c)),
{
    assert(a.union(a) =~= a);
    assert(a.union(b) =~= b.union(a));
    assert(a.union(b).union(c) =~= a.union(b.union(c)));
}

/// A key sets four bits, one to a round: each is the mixed hash of the key,
/// salted with the round, counted round a circle of as many bits as there are.
pub proof fn law_a_key_sets_its_four_bits(key: PublicKey, bit: int)
    ensures
        bits_of(key).contains(bit) <==> exists|round: u8|
            round < 4 && bit == (#[trigger] hash::mixed(hash::salted_fnv1a(round, key@))) as int
                % 256,
        bits_of(key).contains(bit) ==> 0 <= bit < 256,
{
    if bits_of(key).contains(bit) {
        let round: u8 = if bit == position(key, 0) {
            0
        } else if bit == position(key, 1) {
            1
        } else if bit == position(key, 2) {
            2
        } else {
            3
        };
        assert(bit == hash::mixed(hash::salted_fnv1a(round, key@)) as int % 256);
    }
    if exists|round: u8|
        round < 4 && bit == (#[trigger] hash::mixed(hash::salted_fnv1a(round, key@))) as int
            % 256 {
        let round = choose|round: u8|
            round < 4 && bit == (#[trigger] hash::mixed(hash::salted_fnv1a(round, key@))) as int
                % 256;
        assert(round == 0 || round == 1 || round == 2 || round == 3);
    }
}

/// A summary claims a key exactly where every bit the key sets is set.
pub proof fn law_a_key_is_claimed_by_its_bits(bits: Set<int>, key: PublicKey)
    ensures
        claims(bits, key) <==> forall|bit: int| #[trigger]
            bits_of(key).contains(bit) ==> bits.contains(bit),
{
}

} // verus!
