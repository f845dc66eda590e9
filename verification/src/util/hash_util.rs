//! The hash of the dictionary's table.

use vstd::prelude::*;

verus! {

/// One step of the hash: the hash so far, times a prime, plus the byte,
/// in 32 bits.
pub open spec fn hash_step(h: u32, b: u8) -> u32 {
    ((h as int * 16777619 + b as int + 1) % 0x1_0000_0000) as u32
}

/// The hash of `data` from `seed`.
pub open spec fn hash_spec(data: Seq<u8>, seed: u32) -> u32
    decreases data.len(),
{
    if data.len() == 0 {
        seed
    } else {
        hash_step(hash_spec(data.drop_last(), seed), data.last())
    }
}

/// A 32-bit hash of `data`, the same for the same bytes and seed.
pub fn hash(data: &[u8], seed: u32) -> (h: u32)
    ensures
        h == hash_spec(data@, seed),
{
    let n = data.len();
    let mut h: u32 = seed;
    let mut i: usize = 0;
    assert(data@.take(0) =~= Seq::<u8>::empty());
    while i < n
        invariant
            i <= n,
            n == data@.len(),
            h == hash_spec(data@.take(i as int), seed),
        decreases n - i,
    {
        assert(data@.take(i + 1).drop_last() =~= data@.take(i as int));
        h = ((h as u64 * 16777619 + data[i] as u64 + 1) % 0x1_0000_0000) as u32;
        i = i + 1;
    }
    assert(data@.take(n as int) =~= data@);
    h
}

} // verus!
