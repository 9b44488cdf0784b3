use crate::extend::{anchors_in, bucket_entries, files_fit, files_view, walk_collision, Anchor, Entry};
use rayon::iter::{IntoParallelRefIterator, ParallelIterator};
use rayon::slice::ParallelSliceMut;
use vstd::prelude::*;
use vstd::relations::{sorted_by, total_ordering};

verus! {

/// Records compare field by field, the first field first.
pub open spec fn entry_le(a: Entry, b: Entry) -> bool {
    a.0 < b.0 || (a.0 == b.0 && (a.1 < b.1 || (a.1 == b.1 && (a.2 < b.2 || (a.2 == b.2
        && a.3 <= b.3)))))
}

/// The order of records as a relation.
pub open spec fn entry_order() -> spec_fn(Entry, Entry) -> bool {
    |a: Entry, b: Entry| entry_le(a, b)
}

/// Records are totally ordered.
pub proof fn lemma_entry_order_total()
    ensures
        total_ordering(entry_order()),
{
}

/// Sorting keeps every record that was there.
pub proof fn lemma_sorted_from(s: Seq<Entry>)
    ensures
        forall|k: int|
            0 <= k < s.sort_by(entry_order()).len() ==> s.contains(
                #[trigger] s.sort_by(entry_order())[k],
            ),
{
    lemma_entry_order_total();
    broadcast use vstd::seq_lib::group_to_multiset_ensures;

    s.lemma_sort_by_ensures(entry_order());
    let t = s.sort_by(entry_order());
    assert forall|k: int| 0 <= k < t.len() implies s.contains(#[trigger] t[k]) by {
        assert(t.contains(t[k]));
        assert(t.to_multiset().count(t[k]) > 0);
    }
}

/// Relies on rayon's `ParallelSliceMut::par_sort_unstable`: afterwards the
/// vector holds the same records, in ascending order (tuples of integers
/// compare lexicographically).
#[verifier::external_body]
fn par_sort_entries(v: &mut Vec<Entry>)
    ensures
        final(v)@.to_multiset() == old(v)@.to_multiset(),
        sorted_by(final(v)@, entry_order()),
{
    v.par_sort_unstable();
}

/// Sorts records in ascending order.
pub fn sort_entries(v: &mut Vec<Entry>)
    ensures
        final(v)@ == old(v)@.sort_by(entry_order()),
{
    let ghost before = v@;
    par_sort_entries(v);
    proof {
        lemma_entry_order_total();
        before.lemma_sort_by_ensures(entry_order());
        vstd::seq_lib::lemma_sorted_unique(v@, before.sort_by(entry_order()), entry_order());
    }
}

/// Relies on rayon's `par_iter().map(..).collect()` over a vector: the
/// iterator is indexed, so the collected vector holds the result of
/// `walk_collision` for each bucket, in the buckets' order.
#[verifier::external_body]
pub(crate) fn extend_buckets(buckets: &Vec<Vec<Anchor>>, file_hashes: &Vec<Vec<u64>>, min_lines: u32) -> (r:
    Vec<Vec<Entry>>)
    requires
        forall|i: int|
            0 <= i < buckets@.len() ==> anchors_in(files_view(file_hashes@), #[trigger] buckets@[i]@),
        files_fit(files_view(file_hashes@)),
        min_lines >= 1,
    ensures
        r@.len() == buckets@.len(),
        forall|i: int|
            0 <= i < r@.len() ==> #[trigger] r@[i]@ == bucket_entries(
                files_view(file_hashes@),
                buckets@[i]@,
                min_lines as int,
            ),
{
    buckets.par_iter().map(|b| walk_collision(b, file_hashes, min_lines)).collect()
}

} // verus!
