use crate::hashing::{hash_run, run_hash};
use vstd::prelude::*;
use vstd::slice::slice_subrange;

verus! {

/// The hash of the `w` signatures of `s` that start at `i`.
pub open spec fn window_hash(s: Seq<u64>, i: int, w: int) -> u64 {
    run_hash(s.subrange(i, i + w))
}

/// How many windows of `w` lines fit in `n` lines.
pub open spec fn window_count(n: int, w: int) -> int {
    if n >= w {
        n - w + 1
    } else {
        0
    }
}

/// A window is kept unless its hash repeats that of the window just before it.
pub open spec fn window_kept(s: Seq<u64>, w: int, i: int) -> bool {
    i == 0 || window_hash(s, i, w) != window_hash(s, i - 1, w)
}

/// The kept windows among the first `n`, as hash and start line.
pub open spec fn windows_upto(s: Seq<u64>, w: int, n: int) -> Seq<(u64, u32)>
    decreases n,
{
    if n <= 0 {
        seq![]
    } else {
        let prev = windows_upto(s, w, n - 1);
        if window_kept(s, w, n - 1) {
            prev.push((window_hash(s, n - 1, w), (n - 1) as u32))
        } else {
            prev
        }
    }
}

/// The kept windows of a file's signatures.
pub open spec fn windows_of(s: Seq<u64>, w: int) -> Seq<(u64, u32)> {
    windows_upto(s, w, window_count(s.len() as int, w))
}

/// Slides a window of `min_lines` signatures over a file and hashes each
/// position, dropping a window whose hash repeats the one just before it.
pub fn rolling_hashes(file_signatures: &[u64], min_lines: usize) -> (r: Vec<(u64, u32)>)
    requires
        min_lines >= 1,
        file_signatures@.len() <= u32::MAX,
    ensures
        r@ == windows_of(file_signatures@, min_lines as int),
{
    let ghost s = file_signatures@;
    let ghost w = min_lines as int;
    let mut rc: Vec<(u64, u32)> = Vec::new();
    if file_signatures.len() < min_lines {
        return rc;
    }
    let count: usize = file_signatures.len() - min_lines + 1;
    let mut prev_hash: u64 = 0;
    let mut i: usize = 0;
    while i < count
        invariant
            s == file_signatures@,
            w == min_lines,
            w >= 1,
            count == window_count(s.len() as int, w),
            s.len() <= u32::MAX,
            i <= count,
            i > 0 ==> prev_hash == window_hash(s, i - 1, w),
            rc@ == windows_upto(s, w, i as int),
        decreases count - i,
    {
        let window = slice_subrange(file_signatures, i, i + min_lines);
        let digest = hash_run(window);
        if i == 0 || prev_hash != digest {
            rc.push((digest, i as u32));
        }
        prev_hash = digest;
        i += 1;
    }
    rc
}

} // verus!
