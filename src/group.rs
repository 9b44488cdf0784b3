use crate::extend::{
    entry_anchor, entry_valid, files_view, overlaps, run_at, run_fits, Anchor, Collision, Entry,
};
use crate::hashing::feed_u64;
use crate::parallel::{entry_order, lemma_sorted_from, sort_entries};
use crate::registry::{find_run_end, lemma_run_end, run_end, same_run};
use std::collections::hash_map::DefaultHasher;
use std::hash::Hasher;
use vstd::bytes::spec_u64_to_le_bytes;
use vstd::prelude::*;
use vstd::std_specs::hash::DefaultHasherAdditionalSpecFns;

verus! {

/// A group of duplicates as a value: its key, its length, its anchors and its
/// signature.
pub struct GroupView {
    pub key: u64,
    pub num_lines: u32,
    pub anchors: Seq<Anchor>,
    pub sig: u64,
}

impl View for Collision {
    type V = GroupView;

    open spec fn view(&self) -> GroupView {
        GroupView {
            key: self.key,
            num_lines: self.num_lines,
            anchors: self.start_lines@,
            sig: self.sig,
        }
    }
}

/// The record by which an anchor is sorted: start line, then file id.
pub open spec fn anchor_key(a: Anchor) -> Entry {
    (a.line_number as u64, a.file_id as u64, 0u64, 0u64)
}

/// The anchor that a sort record stands for.
pub open spec fn key_anchor(e: Entry) -> Anchor {
    Anchor { file_id: e.1 as u32, line_number: e.0 as u32 }
}

/// Anchors ordered by start line, then by file id.
pub open spec fn sorted_anchors(a: Seq<Anchor>) -> Seq<Anchor> {
    a.map_values(|x: Anchor| anchor_key(x)).sort_by(entry_order()).map_values(
        |e: Entry| key_anchor(e),
    )
}

/// Whether the block of `n` lines at `a` holds, line for line, the
/// signatures of the block at `first`.
pub open spec fn block_matches(files: Seq<Seq<u64>>, a: Anchor, first: Anchor, n: int) -> bool {
    &&& run_fits(files, a, n)
    &&& run_fits(files, first, n)
    &&& run_at(files, a, n) == run_at(files, first, n)
}

/// The first `m` anchors of a sorted list without repeats.
pub open spec fn dedup_upto(a: Seq<Anchor>, m: int) -> Seq<Anchor>
    decreases m,
{
    if m <= 0 {
        seq![]
    } else {
        let prev = dedup_upto(a, m - 1);
        let k = m - 1;
        if k == 0 || a[k] != a[k - 1] {
            prev.push(a[k])
        } else {
            prev
        }
    }
}

/// The first `m` anchors whose block matches the first anchor's.
pub open spec fn matching_upto(files: Seq<Seq<u64>>, a: Seq<Anchor>, n: int, m: int) -> Seq<Anchor>
    decreases m,
{
    if m <= 0 {
        seq![]
    } else {
        let prev = matching_upto(files, a, n, m - 1);
        if block_matches(files, a[m - 1], a[0], n) {
            prev.push(a[m - 1])
        } else {
            prev
        }
    }
}

/// Whether every anchor lies in the file of the first.
pub open spec fn all_same_file(a: Seq<Anchor>) -> bool {
    forall|k: int| 0 <= k < a.len() ==> (#[trigger] a[k]).file_id == a[0].file_id
}

/// The first `m` anchors, keeping one only when it starts at least `n`
/// lines after the last one kept.
pub open spec fn collapse_upto(a: Seq<Anchor>, n: int, m: int) -> Seq<Anchor>
    decreases m,
{
    if m <= 0 {
        seq![]
    } else {
        let prev = collapse_upto(a, n, m - 1);
        if prev.len() == 0 || a[m - 1].line_number >= prev.last().line_number + n {
            prev.push(a[m - 1])
        } else {
            prev
        }
    }
}

/// Each anchor starts at least `n` lines after every earlier one.
pub open spec fn spaced(a: Seq<Anchor>, n: int) -> bool {
    forall|i: int, j: int|
        0 <= i < j < a.len() ==> #[trigger] a[j].line_number >= #[trigger] a[i].line_number + n
}

/// The anchors of a group once scrubbed: sorted, without repeats, and, when
/// all lie in one file, without anchors that overlap the one kept before them.
pub open spec fn scrubbed_anchors(a: Seq<Anchor>, n: int) -> Seq<Anchor> {
    let s = sorted_anchors(a);
    let d = dedup_upto(s, s.len() as int);
    if all_same_file(d) {
        collapse_upto(d, n, d.len() as int)
    } else {
        d
    }
}

/// The writes that feed a group's signature: for each anchor, the line just
/// past its block, then its file id.
pub open spec fn sig_writes(a: Seq<Anchor>, n: int) -> Seq<Seq<u8>>
    decreases a.len(),
{
    if a.len() == 0 {
        seq![]
    } else {
        let x = a.last();
        sig_writes(a.drop_last(), n).push(
            spec_u64_to_le_bytes((x.line_number + n) as u64),
        ).push(spec_u64_to_le_bytes(x.file_id as u64))
    }
}

/// The signature of a group with anchors `a` and length `n`: it depends on
/// where each block ends, not on what it holds.
pub open spec fn group_sig(a: Seq<Anchor>, n: int) -> u64 {
    DefaultHasher::spec_finish(sig_writes(a, n))
}

/// A group as scrubbing leaves it.
pub open spec fn scrubbed(g: GroupView) -> GroupView {
    let a = scrubbed_anchors(g.anchors, g.num_lines as int);
    GroupView { key: g.key, num_lines: g.num_lines, anchors: a, sig: group_sig(a, g.num_lines as int) }
}

/// A reported group: at least two anchors, each on a block of at least `w`
/// lines inside its file and equal line for line to the block of the first;
/// when all lie in one file, no two overlap.
pub open spec fn group_sound(files: Seq<Seq<u64>>, g: GroupView, w: int) -> bool {
    &&& g.num_lines >= w
    &&& g.anchors.len() >= 2
    &&& forall|k: int|
        0 <= k < g.anchors.len() ==> block_matches(
            files,
            #[trigger] g.anchors[k],
            g.anchors[0],
            g.num_lines as int,
        )
    &&& all_same_file(g.anchors) ==> spaced(g.anchors, g.num_lines as int)
}

/// No two anchors of a group overlap over its length when the group lies in one file.
pub proof fn lemma_spaced_no_overlap(a: Seq<Anchor>, n: int)
    requires
        spaced(a, n),
        n >= 0,
    ensures
        forall|i: int, j: int|
            0 <= i < a.len() && 0 <= j < a.len() && i != j ==> !overlaps(
                #[trigger] a[i],
                #[trigger] a[j],
                n,
            ),
{
    assert forall|i: int, j: int|
        0 <= i < a.len() && 0 <= j < a.len() && i != j implies !overlaps(
            #[trigger] a[i],
            #[trigger] a[j],
            n,
        ) by {
        if i < j {
            assert(a[j].line_number >= a[i].line_number + n);
        } else {
            assert(a[i].line_number >= a[j].line_number + n);
        }
    }
}

/// Sorts anchors by start line, then by file id.
pub fn sort_anchors(a: &Vec<Anchor>) -> (r: Vec<Anchor>)
    ensures
        r@ == sorted_anchors(a@),
        forall|k: int| 0 <= k < r@.len() ==> a@.contains(#[trigger] r@[k]),
{
    let mut keys: Vec<Entry> = Vec::new();
    let mut i: usize = 0;
    while i < a.len()
        invariant
            i <= a@.len(),
            keys@ == a@.subrange(0, i as int).map_values(|x: Anchor| anchor_key(x)),
        decreases a@.len() - i,
    {
        keys.push((a[i].line_number as u64, a[i].file_id as u64, 0u64, 0u64));
        assert(a@.subrange(0, i + 1).map_values(|x: Anchor| anchor_key(x)) =~= a@.subrange(
            0,
            i as int,
        ).map_values(|x: Anchor| anchor_key(x)).push(anchor_key(a@[i as int])));
        i += 1;
    }
    assert(a@.subrange(0, i as int) =~= a@);
    let ghost unsorted = keys@;
    sort_entries(&mut keys);
    proof {
        lemma_sorted_from(unsorted);
    }
    let mut r: Vec<Anchor> = Vec::new();
    let mut k: usize = 0;
    while k < keys.len()
        invariant
            k <= keys@.len(),
            r@ == keys@.subrange(0, k as int).map_values(|e: Entry| key_anchor(e)),
        decreases keys@.len() - k,
    {
        let e = keys[k];
        r.push(Anchor { file_id: e.1 as u32, line_number: e.0 as u32 });
        assert(keys@.subrange(0, k + 1).map_values(|e: Entry| key_anchor(e)) =~= keys@.subrange(
            0,
            k as int,
        ).map_values(|e: Entry| key_anchor(e)).push(key_anchor(keys@[k as int])));
        k += 1;
    }
    assert(keys@.subrange(0, k as int) =~= keys@);
    assert forall|t: int| 0 <= t < r@.len() implies a@.contains(#[trigger] r@[t]) by {
        let j = choose|j: int| 0 <= j < unsorted.len() && unsorted[j] == keys@[t];
        assert(unsorted[j] == anchor_key(a@[j]));
        assert(r@[t] == key_anchor(keys@[t]));
        assert(r@[t] == a@[j]);
    }
    r
}

/// Whether the block of `n` lines at `a` matches the block at `first`.
pub fn same_block(file_hashes: &Vec<Vec<u64>>, a: Anchor, first: Anchor, n: u32) -> (r: bool)
    ensures
        r == block_matches(files_view(file_hashes@), a, first, n as int),
{
    let ghost files = files_view(file_hashes@);
    if a.file_id as usize >= file_hashes.len() || first.file_id as usize >= file_hashes.len() {
        return false;
    }
    let fa = &file_hashes[a.file_id as usize];
    let fb = &file_hashes[first.file_id as usize];
    assert(fa@ == files[a.file_id as int]);
    assert(fb@ == files[first.file_id as int]);
    if a.line_number as u64 + n as u64 > fa.len() as u64 || first.line_number as u64 + n as u64
        > fb.len() as u64 {
        return false;
    }
    let p = a.line_number as usize;
    let q = first.line_number as usize;
    let len = n as usize;
    let la = fa.len();
    let lb = fb.len();
    let mut k: usize = 0;
    while k < len
        invariant
            len == n,
            la == fa@.len(),
            lb == fb@.len(),
            files == files_view(file_hashes@),
            a.file_id < files.len(),
            first.file_id < files.len(),
            fa@ == files[a.file_id as int],
            fb@ == files[first.file_id as int],
            p == a.line_number,
            q == first.line_number,
            p + n <= fa@.len(),
            q + n <= fb@.len(),
            k <= n,
            forall|t: int| 0 <= t < k ==> #[trigger] fa@[p + t] == fb@[q + t],
        decreases n - k,
    {
        if fa[p + k] != fb[q + k] {
            assert(run_at(files, a, n as int)[k as int] != run_at(files, first, n as int)[k as int]);
            return false;
        }
        k += 1;
    }
    assert forall|t: int| 0 <= t < n implies #[trigger] run_at(files, a, n as int)[t] == run_at(
        files,
        first,
        n as int,
    )[t] by {
        assert(fa@[p + t] == fb@[q + t]);
    }
    assert(run_at(files, a, n as int) =~= run_at(files, first, n as int));
    true
}

/// Drops repeated anchors from a sorted list.
pub fn remove_repeats(a: &Vec<Anchor>) -> (r: Vec<Anchor>)
    ensures
        r@ == dedup_upto(a@, a@.len() as int),
        forall|k: int| 0 <= k < r@.len() ==> a@.contains(#[trigger] r@[k]),
{
    let mut r: Vec<Anchor> = Vec::new();
    let mut i: usize = 0;
    while i < a.len()
        invariant
            i <= a@.len(),
            r@ == dedup_upto(a@, i as int),
            forall|k: int| 0 <= k < r@.len() ==> a@.contains(#[trigger] r@[k]),
        decreases a@.len() - i,
    {
        if i == 0 || a[i] != a[i - 1] {
            r.push(a[i]);
            assert(a@.contains(a@[i as int]));
        }
        i += 1;
    }
    r
}

/// Keeps the anchors whose block matches the first anchor's, signature by
/// signature. Anchors are merged into one group by the hash of their blocks;
/// this drops an anchor only when two different blocks hash alike.
pub fn keep_matching_blocks(file_hashes: &Vec<Vec<u64>>, a: &Vec<Anchor>, n: u32) -> (r: Vec<Anchor>)
    ensures
        r@ == matching_upto(files_view(file_hashes@), a@, n as int, a@.len() as int),
        forall|k: int|
            0 <= k < r@.len() ==> block_matches(
                files_view(file_hashes@),
                #[trigger] r@[k],
                a@[0],
                n as int,
            ),
{
    let ghost files = files_view(file_hashes@);
    let mut r: Vec<Anchor> = Vec::new();
    let mut i: usize = 0;
    while i < a.len()
        invariant
            files == files_view(file_hashes@),
            i <= a@.len(),
            r@ == matching_upto(files, a@, n as int, i as int),
            forall|k: int|
                0 <= k < r@.len() ==> block_matches(files, #[trigger] r@[k], a@[0], n as int),
        decreases a@.len() - i,
    {
        if same_block(file_hashes, a[i], a[0], n) {
            r.push(a[i]);
        }
        i += 1;
    }
    r
}

/// Whether every anchor lies in the file of the first.
pub fn same_file_only(a: &Vec<Anchor>) -> (r: bool)
    ensures
        r == all_same_file(a@),
{
    let mut i: usize = 0;
    while i < a.len()
        invariant
            i <= a@.len(),
            forall|k: int| 0 <= k < i ==> (#[trigger] a@[k]).file_id == a@[0].file_id,
        decreases a@.len() - i,
    {
        if a[i].file_id != a[0].file_id {
            return false;
        }
        i += 1;
    }
    true
}

/// Keeps an anchor only when it starts at least `num_lines` lines after the
/// last anchor kept, so that no two kept blocks overlap.
fn collapse_overlaps(a: &Vec<Anchor>, num_lines: u32) -> (r: Vec<Anchor>)
    ensures
        r@ == collapse_upto(a@, num_lines as int, a@.len() as int),
        spaced(r@, num_lines as int),
        forall|k: int| 0 <= k < r@.len() ==> a@.contains(#[trigger] r@[k]),
{
    let ghost n = num_lines as int;
    let mut keep: Vec<Anchor> = Vec::new();
    let mut i: usize = 0;
    while i < a.len()
        invariant
            n == num_lines,
            i <= a@.len(),
            keep@ == collapse_upto(a@, n, i as int),
            spaced(keep@, n),
            forall|k: int| 0 <= k < keep@.len() ==> a@.contains(#[trigger] keep@[k]),
        decreases a@.len() - i,
    {
        let cur = a[i];
        if keep.len() == 0 || cur.line_number as u64 >= keep[keep.len() - 1].line_number as u64
            + num_lines as u64 {
            let ghost before = keep@;
            proof {
                assert forall|k: int| 0 <= k < before.len() implies before[k].line_number
                    <= before.last().line_number by {
                    if k < before.len() - 1 {
                        assert(before[before.len() - 1].line_number >= before[k].line_number + n);
                    }
                }
            }
            keep.push(cur);
            assert(a@.contains(a@[i as int]));
            assert(spaced(keep@, n)) by {
                assert forall|x: int, y: int| 0 <= x < y < keep@.len() implies #[trigger] keep@[y].line_number
                    >= #[trigger] keep@[x].line_number + n by {
                    if y == keep@.len() - 1 {
                        assert(before[x].line_number <= before.last().line_number);
                    } else {
                        assert(before[y].line_number >= before[x].line_number + n);
                    }
                }
            }
        }
        i += 1;
    }
    keep
}

/// When every anchor lies in one file, keeps an anchor only when it starts
/// at least `num_lines` lines after the last anchor kept, so that no two
/// kept blocks overlap; anchors spread over several files are left as they are.
pub fn remove_overlap_same_file(a: Vec<Anchor>, num_lines: u32) -> (r: Vec<Anchor>)
    ensures
        all_same_file(a@) ==> r@ == collapse_upto(a@, num_lines as int, a@.len() as int),
        !all_same_file(a@) ==> r@ == a@,
        all_same_file(a@) ==> spaced(r@, num_lines as int),
        forall|k: int| 0 <= k < r@.len() ==> a@.contains(#[trigger] r@[k]),
{
    if same_file_only(&a) {
        collapse_overlaps(&a, num_lines)
    } else {
        proof {
            assert forall|k: int| 0 <= k < a@.len() implies a@.contains(#[trigger] a@[k]) by {}
        }
        a
    }
}

/// Computes the signature of a group from where its blocks end.
pub fn group_signature(a: &Vec<Anchor>, num_lines: u32) -> (r: u64)
    ensures
        r == group_sig(a@, num_lines as int),
{
    let mut s = DefaultHasher::new();
    let mut i: usize = 0;
    while i < a.len()
        invariant
            i <= a@.len(),
            s@ == sig_writes(a@.subrange(0, i as int), num_lines as int),
        decreases a@.len() - i,
    {
        let end: u64 = a[i].line_number as u64 + num_lines as u64;
        feed_u64(&mut s, end);
        feed_u64(&mut s, a[i].file_id as u64);
        assert(a@.subrange(0, i + 1).drop_last() =~= a@.subrange(0, i as int));
        i += 1;
    }
    assert(a@.subrange(0, i as int) =~= a@);
    s.finish()
}

impl Collision {
    /// The signature that identifies the group among equivalent ones found
    /// through other anchor pairs; set by `scrub`.
    pub fn signature(&self) -> (r: u64)
        ensures
            r == self.sig,
    {
        self.sig
    }

    /// Sorts the anchors by start line and file id, removes repeats,
    /// collapses overlapping anchors when all lie in one file, and computes
    /// the group's signature. Anchors spread over several files are all kept.
    pub fn scrub(&mut self)
        ensures
            final(self)@ == scrubbed(old(self)@),
            forall|k: int|
                0 <= k < final(self)@.anchors.len() ==> old(self)@.anchors.contains(
                    #[trigger] final(self)@.anchors[k],
                ),
            all_same_file(old(self)@.anchors) ==> spaced(
                final(self)@.anchors,
                final(self).num_lines as int,
            ),
            all_same_file(final(self)@.anchors) ==> spaced(
                final(self)@.anchors,
                final(self).num_lines as int,
            ),
    {
        let n = self.num_lines;
        let ghost a = self.start_lines@;
        let sorted = sort_anchors(&self.start_lines);
        let distinct = remove_repeats(&sorted);
        let ghost d = distinct@;
        let kept = remove_overlap_same_file(distinct, n);
        proof {
            assert forall|k: int| 0 <= k < d.len() implies a.contains(#[trigger] d[k]) by {
                assert(sorted@.contains(d[k]));
            }
            assert forall|k: int| 0 <= k < kept@.len() implies a.contains(#[trigger] kept@[k]) by {
                assert(d.contains(kept@[k]));
                let j = choose|j: int| 0 <= j < d.len() && d[j] == kept@[k];
                assert(a.contains(d[j]));
            }
            if all_same_file(a) && d.len() > 0 {
                assert forall|k: int| 0 <= k < d.len() implies (#[trigger] d[k]).file_id
                    == d[0].file_id by {
                    assert(a.contains(d[k]));
                    assert(a.contains(d[0]));
                }
                assert(all_same_file(d));
            }
        }
        self.sig = group_signature(&kept, n);
        self.start_lines = kept;
    }
}

/// The groups made of the sorted records from `i` on: one for each run of
/// records with equal key and length, holding the anchors whose block matches
/// the run's first, scrubbed, when at least two anchors remain.
pub open spec fn groups_from(files: Seq<Seq<u64>>, s: Seq<Entry>, i: int) -> Seq<GroupView>
    decreases s.len() - i,
{
    if 0 <= i < s.len() {
        let e = run_end(s, i);
        if e <= i || e > s.len() {
            seq![]
        } else {
            let raw = GroupView {
                key: s[i].0,
                num_lines: s[i].1 as u32,
                anchors: matching_upto(
                    files,
                    s.subrange(i, e).map_values(|x: Entry| entry_anchor(x)),
                    s[i].1 as int,
                    e - i,
                ),
                sig: 0,
            };
            let g = scrubbed(raw);
            if g.anchors.len() >= 2 {
                seq![g] + groups_from(files, s, e)
            } else {
                groups_from(files, s, e)
            }
        }
    } else {
        seq![]
    }
}

/// The views of some groups.
pub open spec fn views(v: Seq<Collision>) -> Seq<GroupView> {
    v.map_values(|c: Collision| c@)
}

/// Merges the sorted records of the duplicates found into groups, scrubs
/// each group, and keeps those left with at least two anchors.
///
/// Groups are formed by key and length together, not by key alone, and an
/// anchor whose block differs from that of the group's first anchor is left
/// out before scrubbing. Both differ from grouping by key only when two
/// different blocks hash to the same key: such blocks are then not merged.
pub fn merge_collisions(file_hashes: &Vec<Vec<u64>>, sorted: &Vec<Entry>, min_lines: u32) -> (r: Vec<
    Collision,
>)
    requires
        forall|k: int|
            0 <= k < sorted@.len() ==> entry_valid(
                files_view(file_hashes@),
                #[trigger] sorted@[k],
                min_lines as int,
            ),
    ensures
        views(r@) == groups_from(files_view(file_hashes@), sorted@, 0),
        forall|k: int|
            0 <= k < r@.len() ==> group_sound(
                files_view(file_hashes@),
                #[trigger] r@[k]@,
                min_lines as int,
            ),
{
    let ghost files = files_view(file_hashes@);
    let ghost s = sorted@;
    let mut out: Vec<Collision> = Vec::new();
    let mut i: usize = 0;
    while i < sorted.len()
        invariant
            files == files_view(file_hashes@),
            s == sorted@,
            i <= s.len(),
            forall|k: int| 0 <= k < s.len() ==> entry_valid(files, #[trigger] s[k], min_lines as int),
            views(out@) + groups_from(files, s, i as int) == groups_from(files, s, 0),
            forall|k: int| 0 <= k < out@.len() ==> group_sound(files, #[trigger] out@[k]@, min_lines as int),
        decreases s.len() - i,
    {
        let e = find_run_end(sorted, i);
        proof {
            lemma_run_end(s, i as int);
        }
        let mut anchors: Vec<Anchor> = Vec::new();
        let mut k: usize = i;
        while k < e
            invariant
                s == sorted@,
                i <= k <= e,
                e <= s.len(),
                forall|t: int| 0 <= t < s.len() ==> entry_valid(files, #[trigger] s[t], min_lines as int),
                anchors@ == s.subrange(i as int, k as int).map_values(|x: Entry| entry_anchor(x)),
            decreases e - k,
        {
            let x = sorted[k];
            assert(entry_valid(files, s[k as int], min_lines as int));
            anchors.push(Anchor { file_id: x.3 as u32, line_number: x.2 as u32 });
            assert(s.subrange(i as int, k + 1).map_values(|x: Entry| entry_anchor(x)) =~= s.subrange(
                i as int,
                k as int,
            ).map_values(|x: Entry| entry_anchor(x)).push(entry_anchor(s[k as int])));
            k += 1;
        }
        assert(entry_valid(files, s[i as int], min_lines as int));
        let n = sorted[i].1 as u32;
        let matching = keep_matching_blocks(file_hashes, &anchors, n);
        let ghost m = matching@;
        let mut c = Collision { key: sorted[i].0, num_lines: n, start_lines: matching, sig: 0 };
        c.scrub();
        proof {
            let f = c.start_lines@;
            assert forall|t: int| 0 <= t < f.len() implies block_matches(
                files,
                #[trigger] f[t],
                f[0],
                n as int,
            ) by {
                let j = choose|j: int| 0 <= j < m.len() && m[j] == f[t];
                let j0 = choose|j0: int| 0 <= j0 < m.len() && m[j0] == f[0];
                assert(block_matches(files, m[j], anchors@[0], n as int));
                assert(block_matches(files, m[j0], anchors@[0], n as int));
            }
        }
        let ghost before = views(out@);
        if c.start_lines.len() >= 2 {
            out.push(c);
            assert(views(out@) =~= before.push(out@[out@.len() - 1]@));
        }
        assert(views(out@) + groups_from(files, s, e as int) =~= groups_from(files, s, 0));
        i = e;
    }
    assert(groups_from(files, s, i as int) =~= Seq::<GroupView>::empty());
    assert(views(out@) =~= groups_from(files, s, 0));
    out
}

} // verus!
