use crate::extend::{anchors_in, files_fit, files_view, Anchor, Entry};
use crate::window::{rolling_hashes, windows_of};
use vstd::prelude::*;

verus! {

/// Two records belong to one run when their first two fields agree.
pub open spec fn same_run(a: Entry, b: Entry) -> bool {
    a.0 == b.0 && a.1 == b.1
}

/// End (exclusive) of the run of records that starts at `i`.
pub open spec fn run_end(s: Seq<Entry>, i: int) -> int
    decreases s.len() - i,
{
    if i + 1 >= s.len() {
        s.len() as int
    } else if same_run(s[i], s[i + 1]) {
        run_end(s, i + 1)
    } else {
        i + 1
    }
}

/// A run holds the records equal to its first one in their first two fields,
/// and ends where one differs.
pub proof fn lemma_run_end(s: Seq<Entry>, i: int)
    requires
        0 <= i < s.len(),
    ensures
        i < run_end(s, i) <= s.len(),
        forall|k: int| i <= k < run_end(s, i) ==> same_run(s[i], #[trigger] s[k]),
        run_end(s, i) < s.len() ==> !same_run(s[i], s[run_end(s, i)]),
    decreases s.len() - i,
{
    if i + 1 < s.len() && same_run(s[i], s[i + 1]) {
        lemma_run_end(s, i + 1);
    }
}

/// Finds the end of the run of records that starts at `i`.
pub fn find_run_end(s: &Vec<Entry>, i: usize) -> (e: usize)
    requires
        i < s@.len(),
    ensures
        e == run_end(s@, i as int),
{
    let mut j: usize = i;
    while j < s.len() - 1 && s[j].0 == s[j + 1].0 && s[j].1 == s[j + 1].1
        invariant
            i <= j < s@.len(),
            run_end(s@, i as int) == run_end(s@, j as int),
        decreases s@.len() - j,
    {
        j += 1;
    }
    j + 1
}

/// The registry records of one file's windows: hash, a zero, file id, start line.
pub open spec fn file_entries(s: Seq<u64>, f: int, w: int) -> Seq<Entry> {
    windows_of(s, w).map_values(|x: (u64, u32)| (x.0, 0u64, f as u64, x.1 as u64))
}

/// The registry records of the first `n` files.
pub open spec fn registry_upto(files: Seq<Seq<u64>>, w: int, n: int) -> Seq<Entry>
    decreases n,
{
    if n <= 0 {
        seq![]
    } else {
        registry_upto(files, w, n - 1) + file_entries(files[n - 1], n - 1, w)
    }
}

/// The registry records of every file.
pub open spec fn registry_of(files: Seq<Seq<u64>>, w: int) -> Seq<Entry> {
    registry_upto(files, w, files.len() as int)
}

/// Every registry record names a file below `n`.
pub proof fn lemma_registry_files(files: Seq<Seq<u64>>, w: int, n: int)
    requires
        n <= files.len(),
    ensures
        forall|k: int|
            0 <= k < registry_upto(files, w, n).len() ==> (#[trigger] registry_upto(
                files,
                w,
                n,
            )[k]).2 < n,
    decreases n,
{
    if n > 0 {
        lemma_registry_files(files, w, n - 1);
        let prev = registry_upto(files, w, n - 1);
        let cur = file_entries(files[n - 1], n - 1, w);
        assert forall|k: int| 0 <= k < (prev + cur).len() implies (#[trigger] (prev + cur)[k]).2
            < n by {
            if k >= prev.len() {
                assert((prev + cur)[k] == cur[k - prev.len()]);
            } else {
                assert((prev + cur)[k] == prev[k]);
            }
        }
    }
}

/// Hashes the windows of every file and records each kept window with its
/// file and start line.
pub fn register_windows(file_hashes: &Vec<Vec<u64>>, min_lines: u32) -> (r: Vec<Entry>)
    requires
        files_fit(files_view(file_hashes@)),
        min_lines >= 1,
    ensures
        r@ == registry_of(files_view(file_hashes@), min_lines as int),
{
    let ghost files = files_view(file_hashes@);
    let ghost w = min_lines as int;
    let mut out: Vec<Entry> = Vec::new();
    let mut f: usize = 0;
    while f < file_hashes.len()
        invariant
            files == files_view(file_hashes@),
            w == min_lines,
            min_lines >= 1,
            files_fit(files),
            f <= files.len(),
            out@ == registry_upto(files, w, f as int),
        decreases files.len() - f,
    {
        assert(files[f as int].len() <= u32::MAX);
        let windows = rolling_hashes(file_hashes[f].as_slice(), min_lines as usize);
        let ghost cur = file_entries(files[f as int], f as int, w);
        let ghost start = out@;
        let mut k: usize = 0;
        while k < windows.len()
            invariant
                windows@ == windows_of(files[f as int], w),
                cur == file_entries(files[f as int], f as int, w),
                k <= windows@.len(),
                out@ == start + cur.subrange(0, k as int),
            decreases windows@.len() - k,
        {
            let (h, line) = windows[k];
            out.push((h, 0u64, f as u64, line as u64));
            assert(cur.subrange(0, k + 1) =~= cur.subrange(0, k as int).push(cur[k as int]));
            k += 1;
        }
        assert(cur.subrange(0, k as int) =~= cur);
        f += 1;
    }
    out
}

/// The anchor that a registry record names.
pub open spec fn window_anchor(e: Entry) -> Anchor {
    Anchor { file_id: e.2 as u32, line_number: e.3 as u32 }
}

/// The buckets of the sorted registry records from `i` on: one for each run
/// of records with equal hashes that holds at least two anchors.
pub open spec fn buckets_from(s: Seq<Entry>, i: int) -> Seq<Seq<Anchor>>
    decreases s.len() - i,
{
    if 0 <= i < s.len() {
        let e = run_end(s, i);
        if e <= i || e > s.len() {
            seq![]
        } else if e - i >= 2 {
            seq![s.subrange(i, e).map_values(|x: Entry| window_anchor(x))] + buckets_from(s, e)
        } else {
            buckets_from(s, e)
        }
    } else {
        seq![]
    }
}

/// The anchors of each bucket name a file below `n`.
pub proof fn lemma_buckets_files(files: Seq<Seq<u64>>, s: Seq<Entry>, i: int)
    requires
        forall|k: int| 0 <= k < s.len() ==> (#[trigger] s[k]).2 < files.len(),
        files.len() <= u32::MAX + 1,
    ensures
        forall|k: int|
            0 <= k < buckets_from(s, i).len() ==> anchors_in(files, #[trigger] buckets_from(s, i)[k]),
    decreases s.len() - i,
{
    if 0 <= i < s.len() {
        lemma_run_end(s, i);
        let e = run_end(s, i);
        lemma_buckets_files(files, s, e);
        if e - i >= 2 {
            let b = s.subrange(i, e).map_values(|x: Entry| window_anchor(x));
            assert(anchors_in(files, b)) by {
                assert forall|k: int| 0 <= k < b.len() implies (#[trigger] b[k]).file_id
                    < files.len() by {
                    assert(s.subrange(i, e)[k] == s[i + k]);
                    assert(b[k] == window_anchor(s[i + k]));
                    assert(s[i + k].2 < files.len());
                }
            }
            let rest = buckets_from(s, e);
            assert forall|k: int| 0 <= k < (seq![b] + rest).len() implies anchors_in(
                files,
                #[trigger] (seq![b] + rest)[k],
            ) by {
                if k > 0 {
                    assert((seq![b] + rest)[k] == rest[k - 1]);
                } else {
                    assert((seq![b] + rest)[k] == b);
                }
            }
            assert(buckets_from(s, i) == seq![b] + rest);
        } else {
            assert(buckets_from(s, i) == buckets_from(s, e));
        }
    }
}

/// Splits sorted registry records into buckets of anchors that share a
/// window hash, dropping hashes seen only once.
pub fn collect_buckets(sorted: &Vec<Entry>) -> (r: Vec<Vec<Anchor>>)
    ensures
        r@.map_values(|b: Vec<Anchor>| b@) == buckets_from(sorted@, 0),
{
    let ghost s = sorted@;
    let mut out: Vec<Vec<Anchor>> = Vec::new();
    let mut i: usize = 0;
    while i < sorted.len()
        invariant
            s == sorted@,
            i <= s.len(),
            out@.map_values(|b: Vec<Anchor>| b@) + buckets_from(s, i as int) == buckets_from(s, 0),
        decreases s.len() - i,
    {
        let e = find_run_end(sorted, i);
        proof {
            lemma_run_end(s, i as int);
        }
        let ghost before = out@.map_values(|b: Vec<Anchor>| b@);
        if e - i >= 2 {
            let mut bucket: Vec<Anchor> = Vec::new();
            let mut k: usize = i;
            while k < e
                invariant
                    s == sorted@,
                    i <= k <= e,
                    e <= s.len(),
                    bucket@ == s.subrange(i as int, k as int).map_values(|x: Entry| window_anchor(x)),
                decreases e - k,
            {
                let x = sorted[k];
                bucket.push(Anchor { file_id: x.2 as u32, line_number: x.3 as u32 });
                assert(s.subrange(i as int, k + 1).map_values(|x: Entry| window_anchor(x))
                    =~= s.subrange(i as int, k as int).map_values(|x: Entry| window_anchor(x)).push(
                    window_anchor(s[k as int]),
                ));
                k += 1;
            }
            out.push(bucket);
            assert(out@.map_values(|b: Vec<Anchor>| b@) =~= before.push(
                s.subrange(i as int, e as int).map_values(|x: Entry| window_anchor(x)),
            ));
        } else {
            assert(out@.map_values(|b: Vec<Anchor>| b@) =~= before);
        }
        assert(out@.map_values(|b: Vec<Anchor>| b@) + buckets_from(s, e as int) =~= buckets_from(s, 0));
        i = e;
    }
    assert(buckets_from(s, i as int) =~= Seq::<Seq<Anchor>>::empty());
    assert(out@.map_values(|b: Vec<Anchor>| b@) =~= buckets_from(s, 0));
    out
}

} // verus!
