//! Node addresses.

use vstd::prelude::*;
use crate::sorted_map::Ranked;
use crate::order::{compare_bytes, Standing};
use crate::text;
use crate::text::push_hex;

verus! {

/// The length of a key in bytes, matching ed25519.
pub const KEY_LEN: usize = 32;

/// The address of a node.
///
/// A key is an opaque identifier here. The one thing routing asks of it is its
/// total order: the node holding the smallest key in a connected component
/// becomes the root of the spanning tree.
#[derive(Clone, Copy, Eq, PartialOrd, Ord, Hash, Debug)]
pub struct PublicKey(pub [u8; KEY_LEN]);

impl View for PublicKey {
    type V = Seq<u8>;

    open spec fn view(&self) -> Seq<u8> {
        self.0@
    }
}

impl PartialEq for PublicKey {
    fn eq(&self, other: &Self) -> (same: bool) {
        let standing = compare_bytes(&self.0, &other.0);
        proof {
            lemma_key_is_its_bytes(*self, *other);
        }
        standing == Standing::Same
    }
}

impl vstd::std_specs::cmp::PartialEqSpecImpl for PublicKey {
    open spec fn obeys_eq_spec() -> bool {
        true
    }

    open spec fn eq_spec(&self, other: &Self) -> bool {
        *self == *other
    }
}

/// A key is nothing but its bytes.
pub proof fn lemma_key_is_its_bytes(a: PublicKey, b: PublicKey)
    ensures
        a@ == b@ <==> a == b,
{
    if a@ == b@ {
        assert(a.0 =~= b.0);
    }
}

impl PublicKey {
    /// Wraps raw key bytes.
    pub fn new(bytes: [u8; KEY_LEN]) -> (key: Self)
        ensures
            key@ == bytes@,
            key == PublicKey(bytes),
    {
        PublicKey(bytes)
    }

    /// The raw key bytes.
    pub fn as_bytes(&self) -> (bytes: &[u8; KEY_LEN])
        ensures
            bytes@ == self@,
            *bytes == self.0,
    {
        &self.0
    }

    /// The key for a person to read.
    pub fn label(&self) -> (label: String)
        ensures
            label@ == text::hex(self@),
    {
        let mut label = String::new();
        push_hex(&mut label, &self.0);
        assert(label@ =~= text::hex(self@));
        label
    }
}

impl Ranked for PublicKey {
    open spec fn rank(self) -> int {
        crate::order::rank(self@) as int
    }

    proof fn rank_tells_apart(a: Self, b: Self) {
        crate::order::lemma_rank_tells_apart(a@, b@);
        lemma_key_is_its_bytes(a, b);
    }

    fn compare_rank(&self, other: &Self) -> (standing: Standing) {
        proof {
            lemma_key_is_its_bytes(*self, *other);
        }
        compare_bytes(&self.0, &other.0)
    }
}

/// Keys sort by the first byte in which they differ.
pub proof fn law_keys_sort_by_the_first_byte_that_differs(a: PublicKey, b: PublicKey, at: int)
    requires
        0 <= at < 32,
        forall|i: int| 0 <= i < at ==> #[trigger] a@[i] == b@[i],
        a@[at] < b@[at],
    ensures
        a.rank() < b.rank(),
        a != b,
{
    assert(a@.take(at) =~= b@.take(at));
    crate::order::lemma_rank_follows_first_difference(a@, b@, at);
}

} // verus!
