//! Hash codes that depend on nothing but what a value stands for.

use vstd::prelude::*;

verus! {

/// Mixes a number into a hash code.
pub open spec fn mixed(hash: u64, x: usize) -> u64 {
    ((hash * 1_099_511_628_211 + x) % 0x1_0000_0000_0000_0000) as u64
}

/// The hash code of a sequence of numbers.
pub open spec fn hash_of_seq(s: Seq<usize>) -> u64
    decreases s.len(),
{
    if s.len() == 0 {
        14_695_981_039_346_656_037
    } else {
        mixed(hash_of_seq(s.drop_last()), s.last())
    }
}

/// Mixes a number into a hash code.
pub fn mix(hash: u64, x: usize) -> (new_hash: u64)
    ensures
        new_hash == mixed(hash, x),
{
    let wide: u128 = hash as u128 * 1_099_511_628_211 + x as u128;
    (wide % 0x1_0000_0000_0000_0000) as u64
}

/// Computes the hash code of a sequence of numbers.
pub fn hash_seq(s: &Vec<usize>) -> (hash: u64)
    ensures
        hash == hash_of_seq(s@),
{
    let mut hash: u64 = 14_695_981_039_346_656_037;
    let mut i: usize = 0;
    while i < s.len()
        invariant
            i <= s@.len(),
            hash == hash_of_seq(s@.take(i as int)),
        decreases s@.len() - i,
    {
        assert(s@.take(i + 1).drop_last() =~= s@.take(i as int));
        hash = mix(hash, s[i]);
        i = i + 1;
    }
    assert(s@.take(i as int) =~= s@);
    hash
}

} // verus!
