//! The checksum that peers compare to find out whether their states agree.

use vstd::prelude::*;

verus! {

/// Where the 64-bit FNV-1a hash starts.
pub const FNV_OFFSET: u64 = 0xcbf2_9ce4_8422_2325;

/// What the 64-bit FNV-1a hash multiplies by.
pub const FNV_PRIME: u64 = 0x0000_0100_0000_01b3;

/// One step of the hash: the byte is mixed in, then the result is
/// multiplied, modulo 2^64.
pub open spec fn fold(hash: u64, byte: u8) -> u64 {
    (hash ^ (byte as u64)).wrapping_mul(FNV_PRIME)
}

/// The 64-bit FNV-1a hash of `bytes`.
pub open spec fn digest(bytes: Seq<u8>) -> u64
    decreases bytes.len(),
{
    if bytes.len() == 0 {
        FNV_OFFSET
    } else {
        fold(digest(bytes.drop_last()), bytes.last())
    }
}

/// Computes the checksum of a serialized state.
pub fn checksum(bytes: &Vec<u8>) -> (sum: u64)
    ensures
        sum == digest(bytes@),
{
    let mut sum: u64 = FNV_OFFSET;
    let mut i: usize = 0;
    while i < bytes.len()
        invariant
            i <= bytes@.len(),
            sum == digest(bytes@.take(i as int)),
        decreases bytes@.len() - i,
    {
        assert(bytes@.take(i + 1).drop_last() =~= bytes@.take(i as int));
        sum = (sum ^ (bytes[i] as u64)).wrapping_mul(FNV_PRIME);
        i = i + 1;
    }
    assert(bytes@.take(i as int) =~= bytes@);
    sum
}

} // verus!
