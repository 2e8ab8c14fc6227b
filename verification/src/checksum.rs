use vstd::prelude::*;

verus! {

use vstd::wrapping::u64_specs;

/// The 64-bit FNV-1a digest of a byte sequence, used as the per-entry
/// content hash: a fixed-size integrity check, not a cryptographic
/// commitment.
pub open spec fn spec_digest(s: Seq<u8>) -> u64
    decreases s.len(),
{
    if s.len() == 0 {
        0xcbf29ce484222325u64
    } else {
        u64_specs::wrapping_mul(spec_digest(s.drop_last()) ^ (s.last() as u64), 0x100000001b3u64)
    }
}

/// Computes the content digest of a byte buffer.
pub fn digest(data: &Vec<u8>) -> (r: u64)
    ensures
        r == spec_digest(data@),
{
    let mut h: u64 = 0xcbf29ce484222325u64;
    let mut i: usize = 0;
    while i < data.len()
        invariant
            i <= data@.len(),
            h == spec_digest(data@.take(i as int)),
        decreases data@.len() - i,
    {
        proof {
            assert(data@.take(i + 1).drop_last() =~= data@.take(i as int));
            assert(data@.take(i + 1).last() == data@[i as int]);
        }
        h = (h ^ (data[i] as u64)).wrapping_mul(0x100000001b3u64);
        i += 1;
    }
    proof {
        assert(data@.take(data@.len() as int) =~= data@);
    }
    h
}

} // verus!
