//! A content fingerprint over exact bytes. Deduplication itself compares
//! full byte content; the fingerprint is a fast digest offered alongside.

use vstd::prelude::*;

verus! {

/// Seed value of the 64-bit FNV-1a hash.
pub const FNV_OFFSET: u64 = 0xcbf2_9ce4_8422_2325;

/// Multiplier of the 64-bit FNV-1a hash.
pub const FNV_PRIME: u64 = 0x100_0000_01b3;

/// The 64-bit FNV-1a hash of a byte sequence: fold each byte in with an
/// exclusive-or, then multiply modulo 2^64.
pub open spec fn fnv1a(bytes: Seq<u8>) -> u64
    decreases bytes.len(),
{
    if bytes.len() == 0 {
        FNV_OFFSET
    } else {
        let folded = fnv1a(bytes.drop_last()) ^ (bytes.last() as u64);
        (((folded as int) * (FNV_PRIME as int)) % 0x1_0000_0000_0000_0000) as u64
    }
}

/// The FNV-1a fingerprint of the exact byte content.
pub fn hash(bytes: &Vec<u8>) -> (r: u64)
    ensures
        r == fnv1a(bytes@),
{
    let mut h: u64 = FNV_OFFSET;
    let mut i: usize = 0;
    proof {
        assert(bytes@.take(0) =~= Seq::<u8>::empty());
    }
    while i < bytes.len()
        invariant
            i <= bytes@.len(),
            h == fnv1a(bytes@.take(i as int)),
        decreases bytes@.len() - i,
    {
        let x: u128 = ((h ^ (bytes[i] as u64)) as u128) * (FNV_PRIME as u128);
        h = (x % 0x1_0000_0000_0000_0000u128) as u64;
        proof {
            assert(bytes@.take(i + 1).drop_last() =~= bytes@.take(i as int));
            assert(bytes@.take(i + 1).last() == bytes@[i as int]);
        }
        i += 1;
    }
    proof {
        assert(bytes@.take(bytes@.len() as int) =~= bytes@);
    }
    h
}

} // verus!
