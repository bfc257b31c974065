//! Laying values out as bytes.

use vstd::prelude::*;

verus! {

/// The eight bytes of a number, most significant first.
pub open spec fn be_bytes(x: u64) -> Seq<u8> {
    seq![
        (x >> 56) as u8,
        (x >> 48) as u8,
        (x >> 40) as u8,
        (x >> 32) as u8,
        (x >> 24) as u8,
        (x >> 16) as u8,
        (x >> 8) as u8,
        x as u8,
    ]
}

/// Two numbers with the same bytes are the same number.
pub proof fn lemma_be_bytes_tell_apart(x: u64, y: u64)
    requires
        be_bytes(x) == be_bytes(y),
    ensures
        x == y,
{
    let (a, b) = (be_bytes(x), be_bytes(y));
    assert(a[0] == b[0] && a[1] == b[1] && a[2] == b[2] && a[3] == b[3]);
    assert(a[4] == b[4] && a[5] == b[5] && a[6] == b[6] && a[7] == b[7]);
    assert(x == y) by (bit_vector)
        requires
            (x >> 56) as u8 == (y >> 56) as u8,
            (x >> 48) as u8 == (y >> 48) as u8,
            (x >> 40) as u8 == (y >> 40) as u8,
            (x >> 32) as u8 == (y >> 32) as u8,
            (x >> 24) as u8 == (y >> 24) as u8,
            (x >> 16) as u8 == (y >> 16) as u8,
            (x >> 8) as u8 == (y >> 8) as u8,
            x as u8 == y as u8,
    ;
}

/// Writes `more` onto the end of `bytes`.
pub fn append(bytes: &mut Vec<u8>, more: &[u8])
    ensures
        final(bytes)@ == old(bytes)@ + more@,
{
    bytes.extend_from_slice(more);
    assert(bytes@ =~= old(bytes)@ + more@);
}

/// The eight bytes of a number, most significant first.
pub fn to_be_bytes(x: u64) -> (bytes: [u8; 8])
    ensures
        bytes@ == be_bytes(x),
{
    let bytes: [u8; 8] = [
        #[verifier::truncate] ((x >> 56) as u8),
        #[verifier::truncate] ((x >> 48) as u8),
        #[verifier::truncate] ((x >> 40) as u8),
        #[verifier::truncate] ((x >> 32) as u8),
        #[verifier::truncate] ((x >> 24) as u8),
        #[verifier::truncate] ((x >> 16) as u8),
        #[verifier::truncate] ((x >> 8) as u8),
        #[verifier::truncate] (x as u8),
    ];
    assert(bytes@ =~= be_bytes(x));
    bytes
}

/// Writes the eight bytes of `x` onto the end of `bytes`.
pub fn append_number(bytes: &mut Vec<u8>, x: u64)
    ensures
        final(bytes)@ == old(bytes)@ + be_bytes(x),
{
    let written = to_be_bytes(x);
    append(bytes, &written);
}

/// What follows a prefix both sides share tells them apart exactly as the
/// wholes do.
pub proof fn lemma_split<T>(a: Seq<T>, b: Seq<T>, c: Seq<T>, d: Seq<T>)
    requires
        a + b == c + d,
        a.len() == c.len(),
    ensures
        a == c,
        b == d,
{
    assert(a =~= (a + b).take(a.len() as int));
    assert(c =~= (c + d).take(a.len() as int));
    assert(b =~= (a + b).skip(a.len() as int));
    assert(d =~= (c + d).skip(a.len() as int));
}

/// A number is the sum of its bytes, the first counting most.
pub proof fn law_bytes_count_from_the_greatest(x: u64)
    ensures
        be_bytes(x).len() == 8,
        x == be_bytes(x)[0] * 0x100_0000_0000_0000 + be_bytes(x)[1] * 0x1_0000_0000_0000 + be_bytes(
            x,
        )[2] * 0x100_0000_0000 + be_bytes(x)[3] * 0x1_0000_0000 + be_bytes(x)[4] * 0x100_0000
            + be_bytes(x)[5] * 0x1_0000 + be_bytes(x)[6] * 0x100 + be_bytes(x)[7],
{
    assert(x == ((x >> 56) as u8) as u64 * 0x100_0000_0000_0000 + ((x >> 48) as u8) as u64
        * 0x1_0000_0000_0000 + ((x >> 40) as u8) as u64 * 0x100_0000_0000 + ((x >> 32) as u8) as u64
        * 0x1_0000_0000 + ((x >> 24) as u8) as u64 * 0x100_0000 + ((x >> 16) as u8) as u64 * 0x1_0000
        + ((x >> 8) as u8) as u64 * 0x100 + (x as u8) as u64) by (bit_vector);
}

} // verus!
