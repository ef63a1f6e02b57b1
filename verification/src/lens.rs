//! The holiday-lens label hash: fold each byte into a running value with
//! `value = (value + byte) * 17 mod 256`.

use vstd::prelude::*;

verus! {

/// One folding step of the hash.
pub open spec fn hash_step(acc: int, byte: int) -> int {
    ((acc + byte) * 17) % 256
}

/// The hash of a byte string, folded left to right from zero.
pub open spec fn spec_hash(s: Seq<u8>) -> int
    decreases s.len(),
{
    if s.len() == 0 {
        0
    } else {
        hash_step(spec_hash(s.drop_last()), s.last() as int)
    }
}

/// Hashes a label. The result is always below 256.
pub fn hash(s: &[u8]) -> (h: u8)
    ensures
        h == spec_hash(s@),
{
    let mut v: usize = 0;
    proof {
        assert(s@.take(0) =~= Seq::<u8>::empty());
    }
    let mut i: usize = 0;
    while i < s.len()
        invariant
            0 <= i <= s@.len(),
            0 <= v < 256,
            v == spec_hash(s@.take(i as int)),
        decreases s@.len() - i,
    {
        let c = s[i];
        v = v + (c as usize);
        v = v * 17;
        v = v % 256;
        proof {
            assert(s@.take(i + 1).drop_last() =~= s@.take(i as int));
            assert(s@.take(i + 1).last() == s@[i as int]);
        }
        i = i + 1;
    }
    proof {
        assert(s@.take(s@.len() as int) =~= s@);
    }
    v as u8
}

} // verus!
