//! A small non-cryptographic hash, used where only spread matters.
//!
//! Bloom filters need bits that scatter, and a signer with no secret in it
//! needs bytes that change when its input does. Neither needs to be hard to
//! reverse, and nothing here is.

use vstd::prelude::*;

verus! {

/// Where FNV-1a starts.
pub const FNV_OFFSET: u64 = 0xcbf2_9ce4_8422_2325;

/// What FNV-1a multiplies by at every byte.
pub const FNV_PRIME: u64 = 0x0000_0100_0000_01b3;

/// What the finishing mix multiplies by.
pub const MIX_PRIME: u64 = 0xff51_afd7_ed55_8ccd;

/// FNV-1a taken on from `start` over `bytes`.
pub open spec fn fnv1a_from(start: u64, bytes: Seq<u8>) -> u64
    decreases bytes.len(),
{
    if bytes.len() == 0 {
        start
    } else {
        (fnv1a_from(start, bytes.drop_last()) ^ (bytes.last() as u64)).wrapping_mul(FNV_PRIME)
    }
}

/// FNV-1a over `round` and then `bytes`.
pub open spec fn salted_fnv1a(round: u8, bytes: Seq<u8>) -> u64 {
    fnv1a_from(FNV_OFFSET, seq![round] + bytes)
}

/// FNV-1a over `bytes`, salted with `round` so one input can yield several
/// independent values.
pub fn fnv1a(round: u8, bytes: &[u8]) -> (hash: u64)
    ensures
        hash == salted_fnv1a(round, bytes@),
{
    let ghost whole = seq![round] + bytes@;
    let mut hash: u64 = (FNV_OFFSET ^ (round as u64)).wrapping_mul(FNV_PRIME);
    proof {
        assert(whole.take(1) =~= seq![round]);
        assert(seq![round].drop_last() =~= Seq::empty());
        reveal_with_fuel(fnv1a_from, 2);
    }
    let mut i: usize = 0;
    while i < bytes.len()
        invariant
            whole == seq![round] + bytes@,
            0 <= i <= bytes@.len(),
            hash == fnv1a_from(FNV_OFFSET, whole.take(i + 1)),
        decreases bytes@.len() - i,
    {
        assert(whole.take(i + 2).drop_last() =~= whole.take(i + 1));
        assert(whole.take(i + 2).last() == bytes@[i as int]);
        hash = (hash ^ (bytes[i] as u64)).wrapping_mul(FNV_PRIME);
        i += 1;
    }
    assert(whole.take(i + 1) =~= whole);
    hash
}

/// The mix that finishes a murmur hash.
pub open spec fn mixed(hash: u64) -> u64 {
    let folded = (hash ^ (hash >> 33)).wrapping_mul(MIX_PRIME);
    folded ^ (folded >> 33)
}

/// The mix that finishes a murmur hash, for when only some of the bits of a
/// hash are going to be read.
///
/// FNV moves its low bits least, so anything taking a small index from the
/// bottom of the word wants this first.
pub fn mix(hash: u64) -> (mix: u64)
    ensures
        mix == mixed(hash),
{
    let folded: u64 = (hash ^ (hash >> 33)).wrapping_mul(MIX_PRIME);
    folded ^ (folded >> 33)
}

/// One byte more is folded into the hash with an exclusive or and spread by a
/// multiplication, and a salt is hashed as if it stood first.
pub proof fn law_every_byte_is_folded_in(start: u64, round: u8, bytes: Seq<u8>, byte: u8)
    ensures
        fnv1a_from(start, Seq::empty()) == start,
        fnv1a_from(start, bytes.push(byte)) == (fnv1a_from(start, bytes) ^ (byte as u64)).wrapping_mul(
            0x0000_0100_0000_01b3,
        ),
        salted_fnv1a(round, bytes) == fnv1a_from(0xcbf2_9ce4_8422_2325, seq![round] + bytes),
        salted_fnv1a(round, bytes.push(byte)) == (salted_fnv1a(round, bytes) ^ (
        byte as u64)).wrapping_mul(0x0000_0100_0000_01b3),
{
    assert(bytes.push(byte).drop_last() =~= bytes);
    assert(seq![round] + bytes.push(byte) =~= (seq![round] + bytes).push(byte));
    assert((seq![round] + bytes).push(byte).drop_last() =~= seq![round] + bytes);
}

/// The finishing mix folds the high bits onto the low ones, multiplies, and folds
/// them again.
pub proof fn law_the_mix_folds_twice(hash: u64)
    ensures
        ({
            let folded = (hash ^ (hash >> 33)).wrapping_mul(0xff51_afd7_ed55_8ccd);
            mixed(hash) == folded ^ (folded >> 33)
        }),
{
}

} // verus!
