//! The 64-bit FNV-1a digest used for shard assignment and pin-set
//! fingerprints.

use vstd::prelude::*;

verus! {

pub const FNV_OFFSET: u64 = 0xcbf29ce484222325;

pub const FNV_PRIME: u64 = 0x100000001b3;

/// One FNV-1a step: mix in a byte, then multiply modulo 2^64.
pub open spec fn fnv_step(h: u64, b: u8) -> u64 {
    (((h ^ (b as u64)) as nat * FNV_PRIME as nat) % 0x1_0000_0000_0000_0000) as u64
}

/// FNV-1a of `bs` continued from state `h`.
pub open spec fn fnv_fold(h: u64, bs: Seq<u8>) -> u64
    decreases bs.len(),
{
    if bs.len() == 0 {
        h
    } else {
        fnv_step(fnv_fold(h, bs.drop_last()), bs.last())
    }
}

/// Continues an FNV-1a digest over `bs`.
pub fn fnv_extend(h: u64, bs: &[u8]) -> (r: u64)
    ensures
        r == fnv_fold(h, bs@),
{
    let mut acc = h;
    let mut i: usize = 0;
    assert(bs@.take(0) =~= Seq::<u8>::empty());
    while i < bs.len()
        invariant
            i <= bs.len(),
            acc == fnv_fold(h, bs@.take(i as int)),
        decreases bs.len() - i,
    {
        assert(bs@.take(i + 1).drop_last() =~= bs@.take(i as int));
        acc = (acc ^ (bs[i] as u64)).wrapping_mul(FNV_PRIME);
        i = i + 1;
    }
    assert(bs@.take(bs.len() as int) =~= bs@);
    acc
}

} // verus!
