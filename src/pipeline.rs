use crate::extend::{
    anchors_in, bucket_entries, entry_valid, files_fit, files_view, lemma_bucket_entries_valid,
    Anchor, Collision, Entry,
};
use crate::group::{groups_from, group_sound, merge_collisions, views, GroupView};
use crate::parallel::{
    entry_order, extend_buckets, lemma_entry_order_total, lemma_sorted_from, sort_entries,
};
use crate::registry::{
    buckets_from, collect_buckets, lemma_buckets_files, lemma_registry_files, register_windows,
    registry_of,
};
use vstd::prelude::*;

verus! {

/// Merging does not depend on the order in which the records of duplicates
/// arrive: any two deliveries of the same records, however the parallel
/// work interleaved, give the same groups.
pub proof fn lemma_merge_order_independent(files: Seq<Seq<u64>>, first: Seq<Entry>, second: Seq<Entry>)
    requires
        first.to_multiset() == second.to_multiset(),
    ensures
        groups_from(files, first.sort_by(entry_order()), 0) == groups_from(
            files,
            second.sort_by(entry_order()),
            0,
        ),
{
    lemma_entry_order_total();
    first.lemma_sort_by_ensures(entry_order());
    second.lemma_sort_by_ensures(entry_order());
    vstd::seq_lib::lemma_sorted_unique(
        first.sort_by(entry_order()),
        second.sort_by(entry_order()),
        entry_order(),
    );
}

/// The records of every duplicate found, bucket by bucket.
pub open spec fn raw_entries(files: Seq<Seq<u64>>, w: int) -> Seq<Entry> {
    buckets_from(registry_of(files, w).sort_by(entry_order()), 0).map_values(
        |b: Seq<Anchor>| bucket_entries(files, b, w),
    ).flatten()
}

/// The groups of duplicates of at least `w` lines in `files`, in the order of
/// their key and length.
pub open spec fn collisions_of(files: Seq<Seq<u64>>, w: int) -> Seq<GroupView> {
    groups_from(files, raw_entries(files, w).sort_by(entry_order()), 0)
}

/// Appends the records of every bucket, in order.
fn flatten_entries(parts: Vec<Vec<Entry>>, Ghost(files): Ghost<Seq<Seq<u64>>>, Ghost(w): Ghost<int>) -> (r: Vec<Entry>)
    requires
        forall|i: int, k: int| 0 <= i < parts@.len() && 0 <= k < parts@[i]@.len() ==> entry_valid(files, #[trigger] parts@[i]@[k], w),
    ensures
        r@ == parts@.map_values(|p: Vec<Entry>| p@).flatten(),
        forall|k: int| 0 <= k < r@.len() ==> entry_valid(files, #[trigger] r@[k], w),
{
    let ghost all = parts@.map_values(|p: Vec<Entry>| p@);
    let mut out: Vec<Entry> = Vec::new();
    let mut i: usize = 0;
    while i < parts.len()
        invariant
            all == parts@.map_values(|p: Vec<Entry>| p@),
            i <= parts@.len(),
            out@ == all.subrange(0, i as int).flatten(),
            forall|i: int, k: int| 0 <= i < parts@.len() && 0 <= k < parts@[i]@.len() ==> entry_valid(files, #[trigger] parts@[i]@[k], w),
            forall|k: int| 0 <= k < out@.len() ==> entry_valid(files, #[trigger] out@[k], w),
        decreases parts@.len() - i,
    {
        let part = &parts[i];
        let ghost start = out@;
        let mut k: usize = 0;
        while k < part.len()
            invariant
                k <= part@.len(),
                out@ == start + part@.subrange(0, k as int),
                forall|t: int| 0 <= t < part@.len() ==> entry_valid(files, #[trigger] part@[t], w),
                forall|t: int| 0 <= t < start.len() ==> entry_valid(files, #[trigger] start[t], w),
                forall|t: int| 0 <= t < out@.len() ==> entry_valid(files, #[trigger] out@[t], w),
            decreases part@.len() - k,
        {
            out.push(part[k]);
            assert(part@.subrange(0, k + 1) =~= part@.subrange(0, k as int).push(part@[k as int]));
            k += 1;
        }
        proof {
            assert(part@.subrange(0, k as int) =~= part@);
            assert(all.subrange(0, i + 1) =~= all.subrange(0, i as int).push(all[i as int]));
            all.subrange(0, i as int).lemma_flatten_push(all[i as int]);
        }
        i += 1;
    }
    assert(all.subrange(0, i as int) =~= all);
    out
}

/// Finds every group of duplicated runs of at least `min_lines` lines in the
/// files whose line signatures are given: windows are hashed and bucketed,
/// every pair in a bucket is extended to its maximal duplicate (in
/// parallel), and the duplicates are merged and scrubbed into groups.
pub fn find_collisions(file_hashes: &Vec<Vec<u64>>, min_lines: u32) -> (r: Vec<Collision>)
    requires
        min_lines >= 1,
        file_hashes@.len() <= u32::MAX,
        files_fit(files_view(file_hashes@)),
    ensures
        views(r@) == collisions_of(files_view(file_hashes@), min_lines as int),
        forall|k: int|
            0 <= k < r@.len() ==> group_sound(
                files_view(file_hashes@),
                #[trigger] r@[k]@,
                min_lines as int,
            ),
{
    let ghost files = files_view(file_hashes@);
    let ghost w = min_lines as int;
    let mut registry = register_windows(file_hashes, min_lines);
    let ghost unsorted = registry@;
    sort_entries(&mut registry);
    proof {
        lemma_registry_files(files, w, files.len() as int);
        lemma_sorted_from(unsorted);
        assert forall|k: int| 0 <= k < registry@.len() implies (#[trigger] registry@[k]).2
            < files.len() by {
            let j = choose|j: int| 0 <= j < unsorted.len() && unsorted[j] == registry@[k];
            assert(unsorted[j].2 < files.len());
        }
        lemma_buckets_files(files, registry@, 0);
    }
    let buckets = collect_buckets(&registry);
    proof {
        assert forall|i: int| 0 <= i < buckets@.len() implies anchors_in(
            files,
            #[trigger] buckets@[i]@,
        ) by {
            assert(buckets@.map_values(|b: Vec<Anchor>| b@)[i] == buckets@[i]@);
        }
    }
    let parts = extend_buckets(&buckets, file_hashes, min_lines);
    proof {
        assert forall|i: int, k: int| 0 <= i < parts@.len() && 0 <= k < parts@[i]@.len() implies entry_valid(
            files,
            #[trigger] parts@[i]@[k],
            w,
        ) by {
            lemma_bucket_entries_valid(files, buckets@[i]@, 0, w);
        }
        assert(parts@.map_values(|p: Vec<Entry>| p@) =~= buckets_from(
            registry@,
            0,
        ).map_values(|b: Seq<Anchor>| bucket_entries(files, b, w)));
    }
    let mut raw = flatten_entries(parts, Ghost(files), Ghost(w));
    let ghost unsorted_raw = raw@;
    sort_entries(&mut raw);
    proof {
        lemma_sorted_from(unsorted_raw);
        assert forall|k: int| 0 <= k < raw@.len() implies entry_valid(files, #[trigger] raw@[k], w) by {
            let j = choose|j: int| 0 <= j < unsorted_raw.len() && unsorted_raw[j] == raw@[k];
            assert(entry_valid(files, unsorted_raw[j], w));
        }
    }
    merge_collisions(file_hashes, &raw, min_lines)
}

} // verus!
