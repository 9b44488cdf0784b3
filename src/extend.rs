use crate::hashing::{feed_u64, run_hash, run_writes};
use std::collections::hash_map::DefaultHasher;
use std::hash::Hasher;
use vstd::prelude::*;

verus! {

/// One candidate occurrence of a duplicated block: a file and the line it
/// starts on (counted from zero).
#[derive(Clone, Copy, Debug, PartialEq, Eq, Structural)]
pub struct Anchor {
    pub file_id: u32,
    pub line_number: u32,
}

/// The signatures of every file, indexed by file id.
pub open spec fn files_view(files: Seq<Vec<u64>>) -> Seq<Seq<u64>> {
    files.map_values(|f: Vec<u64>| f@)
}

/// Every file is short enough for its line numbers and lengths to fit in 32 bits.
pub open spec fn files_fit(files: Seq<Seq<u64>>) -> bool {
    forall|f: int| 0 <= f < files.len() ==> #[trigger] files[f].len() <= u32::MAX
}

/// Two anchors overlap for a span when they lie in the same file and the
/// line ranges `[start, start + span)` intersect.
pub open spec fn overlaps(a: Anchor, b: Anchor, span: int) -> bool {
    &&& a.file_id == b.file_id
    &&& a.line_number < b.line_number + span
    &&& b.line_number < a.line_number + span
}

/// The number of equal signatures met walking `a` from `p` and `b` from `q` in step.
pub open spec fn common_run(a: Seq<u64>, p: int, b: Seq<u64>, q: int) -> nat
    decreases a.len() - p,
{
    if 0 <= p < a.len() && 0 <= q < b.len() && a[p] == b[q] {
        1 + common_run(a, p + 1, b, q + 1)
    } else {
        0
    }
}

/// The `n` signatures of file `a.file_id` from line `a.line_number` on.
pub open spec fn run_at(files: Seq<Seq<u64>>, a: Anchor, n: int) -> Seq<u64> {
    files[a.file_id as int].subrange(a.line_number as int, a.line_number + n)
}

/// Whether the block of `n` lines at `a` lies inside its file.
pub open spec fn run_fits(files: Seq<Seq<u64>>, a: Anchor, n: int) -> bool {
    a.file_id < files.len() && a.line_number + n <= files[a.file_id as int].len()
}

/// The duplicate that starts at `l` and `r`, as its key and length: none when
/// the two overlap over `w` lines, when the maximal common run is shorter than
/// `w`, or when the anchors overlap over that run.
pub open spec fn extension(files: Seq<Seq<u64>>, l: Anchor, r: Anchor, w: int) -> Option<(u64, nat)> {
    if overlaps(l, r, w) {
        None
    } else {
        let n = common_run(
            files[l.file_id as int],
            l.line_number as int,
            files[r.file_id as int],
            r.line_number as int,
        );
        if n < w || overlaps(l, r, n as int) {
            None
        } else {
            Some((run_hash(run_at(files, l, n as int)), n))
        }
    }
}

/// Both walks stay inside their files, and match at every step.
pub proof fn lemma_common_run(a: Seq<u64>, p: int, b: Seq<u64>, q: int)
    requires
        0 <= p,
        0 <= q,
    ensures
        common_run(a, p, b, q) > 0 ==> p + common_run(a, p, b, q) <= a.len() && q + common_run(
            a,
            p,
            b,
            q,
        ) <= b.len(),
        forall|k: int| 0 <= k < common_run(a, p, b, q) ==> #[trigger] a[p + k] == b[q + k],
        ({
            let n = common_run(a, p, b, q) as int;
            p + n >= a.len() || q + n >= b.len() || a[p + n] != b[q + n]
        }),
    decreases a.len() - p,
{
    if 0 <= p < a.len() && 0 <= q < b.len() && a[p] == b[q] {
        lemma_common_run(a, p + 1, b, q + 1);
        assert forall|k: int| 0 <= k < common_run(a, p, b, q) implies #[trigger] a[p + k] == b[q + k] by {
            if k > 0 {
                assert(a[(p + 1) + (k - 1)] == b[(q + 1) + (k - 1)]);
            }
        }
    }
}

/// The key and length of a duplicate are those of a block that both anchors
/// hold, line for line, and the block cannot be extended by one more line.
pub proof fn lemma_extension(files: Seq<Seq<u64>>, l: Anchor, r: Anchor, w: int)
    requires
        l.file_id < files.len(),
        r.file_id < files.len(),
        w >= 1,
        extension(files, l, r, w) is Some,
    ensures
        ({
            let (k, n) = extension(files, l, r, w)->0;
            &&& n >= w
            &&& run_fits(files, l, n as int)
            &&& run_fits(files, r, n as int)
            &&& run_at(files, l, n as int) == run_at(files, r, n as int)
            &&& k == run_hash(run_at(files, l, n as int))
            &&& !overlaps(l, r, n as int)
            &&& (l.line_number + n >= files[l.file_id as int].len() || r.line_number + n
                >= files[r.file_id as int].len() || files[l.file_id as int][l.line_number + n]
                != files[r.file_id as int][r.line_number + n])
        }),
{
    let a = files[l.file_id as int];
    let b = files[r.file_id as int];
    let p = l.line_number as int;
    let q = r.line_number as int;
    lemma_common_run(a, p, b, q);
    let n = common_run(a, p, b, q);
    assert(n >= w);
    assert forall|k: int| 0 <= k < n implies #[trigger] run_at(files, l, n as int)[k] == run_at(
        files,
        r,
        n as int,
    )[k] by {
        assert(a[p + k] == b[q + k]);
    }
    assert(run_at(files, l, n as int) =~= run_at(files, r, n as int));
}

proof fn lemma_common_run_symmetric(a: Seq<u64>, p: int, b: Seq<u64>, q: int)
    ensures
        common_run(a, p, b, q) == common_run(b, q, a, p),
    decreases a.len() - p,
{
    if 0 <= p < a.len() && 0 <= q < b.len() && a[p] == b[q] {
        lemma_common_run_symmetric(a, p + 1, b, q + 1);
    }
}

/// The order of two anchors does not matter: extending from `l` and `r` or
/// from `r` and `l` finds the same duplicate, with the same key and length.
pub proof fn lemma_extension_symmetric(files: Seq<Seq<u64>>, l: Anchor, r: Anchor, w: int)
    requires
        l.file_id < files.len(),
        r.file_id < files.len(),
        w >= 1,
    ensures
        extension(files, l, r, w) == extension(files, r, l, w),
{
    lemma_common_run_symmetric(
        files[l.file_id as int],
        l.line_number as int,
        files[r.file_id as int],
        r.line_number as int,
    );
    if extension(files, l, r, w) is Some {
        lemma_extension(files, l, r, w);
    }
}

/// Whether `left` and `right` overlap for `span` lines.
pub fn overlap(left: &Anchor, right: &Anchor, span: u32) -> (r: bool)
    ensures
        r == overlaps(*left, *right, span as int),
{
    left.file_id == right.file_id && (left.line_number as u64) < right.line_number as u64
        + span as u64 && (right.line_number as u64) < left.line_number as u64 + span as u64
}

/// Used to record a block of duplicated text: the hash of its signatures,
/// how many lines it spans, where it starts, and the signature of the group
/// once it has been scrubbed.
pub struct Collision {
    pub key: u64,
    pub num_lines: u32,
    pub start_lines: Vec<Anchor>,
    pub sig: u64,
}

/// Extends the match between `l_info` and `r_info` line by line to its
/// maximal length.
pub fn maximize_collision(
    file_hashes: &Vec<Vec<u64>>,
    l_info: &Anchor,
    r_info: &Anchor,
    min_lines: u32,
) -> (r: Option<Collision>)
    requires
        l_info.file_id < file_hashes@.len(),
        r_info.file_id < file_hashes@.len(),
        files_fit(files_view(file_hashes@)),
        min_lines >= 1,
    ensures
        match r {
            Some(c) => {
                &&& extension(files_view(file_hashes@), *l_info, *r_info, min_lines as int) == Some(
                    (c.key, c.num_lines as nat),
                )
                &&& c.start_lines@ == seq![*l_info, *r_info]
                &&& c.sig == 0
            },
            None => extension(files_view(file_hashes@), *l_info, *r_info, min_lines as int) is None,
        },
{
    let ghost files = files_view(file_hashes@);
    if overlap(l_info, r_info, min_lines) {
        return None;
    }
    let l_h = &file_hashes[l_info.file_id as usize];
    let r_h = &file_hashes[r_info.file_id as usize];
    let ghost a = l_h@;
    let ghost b = r_h@;
    assert(a == files[l_info.file_id as int]);
    assert(b == files[r_info.file_id as int]);
    let p = l_info.line_number as usize;
    let q = r_info.line_number as usize;
    if p > l_h.len() || q > r_h.len() {
        assert(common_run(a, p as int, b, q as int) == 0);
        return None;
    }
    let mut s = DefaultHasher::new();
    let mut offset: usize = 0;
    assert(a.subrange(p as int, p as int) =~= Seq::<u64>::empty());
    while offset < l_h.len() - p && offset < r_h.len() - q && l_h[p + offset] == r_h[q + offset]
        invariant
            a == l_h@,
            b == r_h@,
            p <= a.len(),
            q <= b.len(),
            offset <= a.len() - p,
            offset <= b.len() - q,
            offset + common_run(a, p + offset, b, q + offset) == common_run(a, p as int, b, q as int),
            s@ == run_writes(a.subrange(p as int, p + offset)),
        decreases a.len() - p - offset,
    {
        feed_u64(&mut s, l_h[p + offset]);
        assert(a.subrange(p as int, p + offset + 1) == a.subrange(p as int, p + offset).push(
            a[p + offset],
        ));
        offset += 1;
    }
    proof {
        assert(files_fit(files));
        assert(files[l_info.file_id as int].len() <= u32::MAX);
    }
    let num_lines = offset as u32;
    if num_lines < min_lines || overlap(l_info, r_info, num_lines) {
        return None;
    }
    let key = s.finish();
    Some(Collision { key, num_lines, start_lines: vec![*l_info, *r_info], sig: 0 })
}

/// A record of four integers, sorted field by field. A duplicate's anchor is
/// recorded as key, length, start line, file id; a registered window as
/// hash, zero, file id, start line.
pub type Entry = (u64, u64, u64, u64);

/// The record of anchor `a` in a duplicate with key `k` and length `n`.
pub open spec fn entry_of(k: u64, n: nat, a: Anchor) -> Entry {
    (k, n as u64, a.line_number as u64, a.file_id as u64)
}

/// The anchor that a record names.
pub open spec fn entry_anchor(e: Entry) -> Anchor {
    Anchor { file_id: e.3 as u32, line_number: e.2 as u32 }
}

/// A record of a duplicate of at least `w` lines whose block lies inside its
/// file and hashes to its key.
pub open spec fn entry_valid(files: Seq<Seq<u64>>, e: Entry, w: int) -> bool {
    &&& w <= e.1 <= u32::MAX
    &&& e.2 <= u32::MAX
    &&& e.3 <= u32::MAX
    &&& run_fits(files, entry_anchor(e), e.1 as int)
    &&& e.0 == run_hash(run_at(files, entry_anchor(e), e.1 as int))
}

/// The records of the duplicate found from anchors `i` and `j` of a bucket.
pub open spec fn pair_entries(files: Seq<Seq<u64>>, b: Seq<Anchor>, i: int, j: int, w: int) -> Seq<
    Entry,
> {
    match extension(files, b[i], b[j], w) {
        Some(e) => seq![entry_of(e.0, e.1, b[i]), entry_of(e.0, e.1, b[j])],
        None => seq![],
    }
}

/// The records found pairing anchor `i` with anchors `j` and later.
pub open spec fn row_entries(files: Seq<Seq<u64>>, b: Seq<Anchor>, i: int, j: int, w: int) -> Seq<
    Entry,
>
    decreases b.len() - j,
{
    if 0 <= j < b.len() {
        pair_entries(files, b, i, j, w) + row_entries(files, b, i, j + 1, w)
    } else {
        seq![]
    }
}

/// The records found pairing each anchor from `i` on with every later one.
pub open spec fn bucket_entries_from(files: Seq<Seq<u64>>, b: Seq<Anchor>, i: int, w: int) -> Seq<
    Entry,
>
    decreases b.len() - i,
{
    if 0 <= i < b.len() {
        row_entries(files, b, i, i + 1, w) + bucket_entries_from(files, b, i + 1, w)
    } else {
        seq![]
    }
}

/// The records found pairing every two anchors of a bucket, earlier one first.
pub open spec fn bucket_entries(files: Seq<Seq<u64>>, b: Seq<Anchor>, w: int) -> Seq<Entry> {
    bucket_entries_from(files, b, 0, w)
}

/// Every anchor of `b` names a file.
pub open spec fn anchors_in(files: Seq<Seq<u64>>, b: Seq<Anchor>) -> bool {
    forall|k: int| 0 <= k < b.len() ==> (#[trigger] b[k]).file_id < files.len()
}

proof fn lemma_row_entries_valid(files: Seq<Seq<u64>>, b: Seq<Anchor>, i: int, j: int, w: int)
    requires
        anchors_in(files, b),
        files_fit(files),
        0 <= i < b.len(),
        w >= 1,
    ensures
        forall|k: int|
            0 <= k < row_entries(files, b, i, j, w).len() ==> entry_valid(
                files,
                #[trigger] row_entries(files, b, i, j, w)[k],
                w,
            ),
    decreases b.len() - j,
{
    if 0 <= j < b.len() {
        lemma_row_entries_valid(files, b, i, j + 1, w);
        let p = pair_entries(files, b, i, j, w);
        let rest = row_entries(files, b, i, j + 1, w);
        assert forall|k: int| 0 <= k < p.len() implies entry_valid(files, #[trigger] p[k], w) by {
            lemma_extension(files, b[i], b[j], w);
            assert(files[b[i].file_id as int].len() <= u32::MAX);
            assert(entry_anchor(p[0]) == b[i]);
            assert(entry_anchor(p[1]) == b[j]);
        }
        assert forall|k: int| 0 <= k < (p + rest).len() implies entry_valid(
            files,
            #[trigger] (p + rest)[k],
            w,
        ) by {
            if k >= p.len() {
                assert((p + rest)[k] == rest[k - p.len()]);
            }
        }
    }
}

/// Every record found in a bucket is valid.
pub proof fn lemma_bucket_entries_valid(files: Seq<Seq<u64>>, b: Seq<Anchor>, i: int, w: int)
    requires
        anchors_in(files, b),
        files_fit(files),
        w >= 1,
    ensures
        forall|k: int|
            0 <= k < bucket_entries_from(files, b, i, w).len() ==> entry_valid(
                files,
                #[trigger] bucket_entries_from(files, b, i, w)[k],
                w,
            ),
    decreases b.len() - i,
{
    if 0 <= i < b.len() {
        lemma_row_entries_valid(files, b, i, i + 1, w);
        lemma_bucket_entries_valid(files, b, i + 1, w);
        let row = row_entries(files, b, i, i + 1, w);
        let rest = bucket_entries_from(files, b, i + 1, w);
        assert forall|k: int| 0 <= k < (row + rest).len() implies entry_valid(
            files,
            #[trigger] (row + rest)[k],
            w,
        ) by {
            if k >= row.len() {
                assert((row + rest)[k] == rest[k - row.len()]);
            } else {
                assert((row + rest)[k] == row[k]);
            }
        }
    }
}

/// The record of one anchor of a duplicate.
fn entry_for(c: &Collision, a: &Anchor) -> (e: Entry)
    ensures
        e == entry_of(c.key, c.num_lines as nat, *a),
{
    (c.key, c.num_lines as u64, a.line_number as u64, a.file_id as u64)
}

/// Pairs every two anchors of a bucket and extends each pair to its maximal
/// duplicate, recording both anchors of every duplicate found.
pub fn walk_collision(collisions: &Vec<Anchor>, file_hashes: &Vec<Vec<u64>>, min_lines: u32) -> (r:
    Vec<Entry>)
    requires
        anchors_in(files_view(file_hashes@), collisions@),
        files_fit(files_view(file_hashes@)),
        min_lines >= 1,
    ensures
        r@ == bucket_entries(files_view(file_hashes@), collisions@, min_lines as int),
{
    let ghost files = files_view(file_hashes@);
    let ghost b = collisions@;
    let ghost w = min_lines as int;
    let mut out: Vec<Entry> = Vec::new();
    let mut i: usize = 0;
    while i < collisions.len()
        invariant
            files == files_view(file_hashes@),
            b == collisions@,
            w == min_lines,
            anchors_in(files, b),
            files_fit(files),
            min_lines >= 1,
            i <= b.len(),
            out@ + bucket_entries_from(files, b, i as int, w) == bucket_entries(files, b, w),
        decreases b.len() - i,
    {
        let mut j: usize = i + 1;
        assert(bucket_entries_from(files, b, i as int, w) == row_entries(files, b, i as int, j as int, w)
            + bucket_entries_from(files, b, i + 1, w));
        assert(out@ + row_entries(files, b, i as int, j as int, w) + bucket_entries_from(files, b, i + 1, w)
            =~= bucket_entries(files, b, w));
        while j < collisions.len()
            invariant
                files == files_view(file_hashes@),
                b == collisions@,
                w == min_lines,
                anchors_in(files, b),
                files_fit(files),
                min_lines >= 1,
                i < b.len(),
                i < j <= b.len(),
                out@ + row_entries(files, b, i as int, j as int, w) + bucket_entries_from(files, b, i + 1, w)
                    == bucket_entries(files, b, w),
            decreases b.len() - j,
        {
            let ghost before = out@;
            assert(b[i as int].file_id < files.len());
            assert(b[j as int].file_id < files.len());
            match maximize_collision(file_hashes, &collisions[i], &collisions[j], min_lines) {
                Some(c) => {
                    let el = entry_for(&c, &collisions[i]);
                    let er = entry_for(&c, &collisions[j]);
                    out.push(el);
                    out.push(er);
                },
                None => {},
            }
            assert(out@ =~= before + pair_entries(files, b, i as int, j as int, w));
            assert(out@ + row_entries(files, b, i as int, j + 1, w) + bucket_entries_from(files, b, i + 1, w)
                =~= bucket_entries(files, b, w));
            j += 1;
        }
        assert(row_entries(files, b, i as int, j as int, w) =~= Seq::<Entry>::empty());
        assert(out@ + bucket_entries_from(files, b, i + 1, w) =~= bucket_entries(files, b, w));
        i += 1;
    }
    assert(bucket_entries_from(files, b, i as int, w) =~= Seq::<Entry>::empty());
    assert(out@ =~= bucket_entries(files, b, w));
    out
}

} // verus!
