use std::collections::hash_map::DefaultHasher;
use std::hash::Hasher;
use vstd::bytes::{spec_u64_to_le_bytes, u64_to_le_bytes};
use vstd::prelude::*;
use vstd::std_specs::hash::DefaultHasherAdditionalSpecFns;

verus! {

/// The writes that feed a run of signatures to a hasher: each value as
/// eight little-endian bytes.
pub open spec fn run_writes(s: Seq<u64>) -> Seq<Seq<u8>> {
    s.map_values(|x: u64| spec_u64_to_le_bytes(x))
}

/// The hash of a run of signatures.
pub open spec fn run_hash(s: Seq<u64>) -> u64 {
    DefaultHasher::spec_finish(run_writes(s))
}

/// Feeds one signature to `h`.
pub fn feed_u64(h: &mut DefaultHasher, x: u64)
    ensures
        final(h)@ == old(h)@.push(spec_u64_to_le_bytes(x)),
{
    let b = u64_to_le_bytes(x);
    h.write(b.as_slice());
}

/// Hashes a run of signatures.
pub fn hash_run(s: &[u64]) -> (r: u64)
    ensures
        r == run_hash(s@),
{
    let mut h = DefaultHasher::new();
    let mut i: usize = 0;
    while i < s.len()
        invariant
            i <= s@.len(),
            h@ == run_writes(s@.subrange(0, i as int)),
        decreases s@.len() - i,
    {
        feed_u64(&mut h, s[i]);
        assert(s@.subrange(0, i + 1) == s@.subrange(0, i as int).push(s@[i as int]));
        i += 1;
    }
    assert(s@.subrange(0, s@.len() as int) == s@);
    h.finish()
}

} // verus!
