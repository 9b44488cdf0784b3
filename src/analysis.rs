use crate::extend::{files_fit, files_view, overlaps, run_at, run_fits, Collision};
use crate::group::{all_same_file, group_sound, lemma_spaced_no_overlap, views, GroupView};
use crate::pipeline::{collisions_of, find_collisions};
use crate::report::{process_report, report_order};
use vstd::prelude::*;

verus! {

/// The groups reported for the files whose signatures are `files`, with a
/// threshold of `w` lines.
pub open spec fn report_of(files: Seq<Seq<u64>>, w: int) -> Seq<GroupView> {
    report_order(collisions_of(files, w))
}

/// Finds the duplicated runs of at least `min_lines` lines in the files whose
/// line signatures are given, and returns the groups to report, ordered by
/// length, then by the first anchor's start line and file.
pub fn find_duplicates(file_hashes: &Vec<Vec<u64>>, min_lines: u32) -> (r: Vec<Collision>)
    requires
        min_lines >= 1,
        file_hashes@.len() <= u32::MAX,
        files_fit(files_view(file_hashes@)),
    ensures
        views(r@) == report_of(files_view(file_hashes@), min_lines as int),
        forall|k: int| 0 <= k < r@.len() ==> (#[trigger] r@[k]).num_lines >= min_lines,
        forall|k: int| 0 <= k < r@.len() ==> (#[trigger] r@[k]).start_lines@.len() >= 2,
        forall|k: int, i: int, j: int|
            0 <= k < r@.len() && 0 <= i < r@[k].start_lines@.len() && 0 <= j
                < r@[k].start_lines@.len() ==> {
                let n = r@[k].num_lines as int;
                &&& run_fits(files_view(file_hashes@), #[trigger] r@[k].start_lines@[i], n)
                &&& run_at(files_view(file_hashes@), r@[k].start_lines@[i], n) == run_at(
                    files_view(file_hashes@),
                    #[trigger] r@[k].start_lines@[j],
                    n,
                )
            },
        forall|k: int, i: int, j: int|
            0 <= k < r@.len() && all_same_file(r@[k].start_lines@) && 0 <= i < r@[k].start_lines@.len()
                && 0 <= j < r@[k].start_lines@.len() && i != j ==> !overlaps(
                #[trigger] r@[k].start_lines@[i],
                #[trigger] r@[k].start_lines@[j],
                r@[k].num_lines as int,
            ),
{
    let ghost files = files_view(file_hashes@);
    let ghost w = min_lines as int;
    let groups = find_collisions(file_hashes, min_lines);
    assert forall|k: int| 0 <= k < groups@.len() implies (#[trigger] groups@[k]).start_lines@.len()
        >= 1 by {
        assert(group_sound(files, groups@[k]@, w));
    }
    let r = process_report(&groups);
    assert forall|k: int| 0 <= k < r@.len() implies group_sound(files, #[trigger] r@[k]@, w) by {
        assert(views(groups@).contains(views(r@)[k]));
        let j = choose|j: int| 0 <= j < groups@.len() && views(groups@)[j] == views(r@)[k];
        assert(group_sound(files, groups@[j]@, w));
    }
    assert forall|k: int| 0 <= k < r@.len() implies (#[trigger] r@[k]).num_lines >= min_lines
        && r@[k].start_lines@.len() >= 2 by {
        assert(group_sound(files, r@[k]@, w));
    }
    assert forall|k: int, i: int, j: int|
        0 <= k < r@.len() && 0 <= i < r@[k].start_lines@.len() && 0 <= j
            < r@[k].start_lines@.len() implies {
            let n = r@[k].num_lines as int;
            &&& run_fits(files, #[trigger] r@[k].start_lines@[i], n)
            &&& run_at(files, r@[k].start_lines@[i], n) == run_at(
                files,
                #[trigger] r@[k].start_lines@[j],
                n,
            )
        } by {
        let g = r@[k]@;
        assert(group_sound(files, g, w));
        assert(block_matches_first(files, g, i));
        assert(block_matches_first(files, g, j));
    }
    assert forall|k: int, i: int, j: int|
        0 <= k < r@.len() && all_same_file(r@[k].start_lines@) && 0 <= i < r@[k].start_lines@.len()
            && 0 <= j < r@[k].start_lines@.len() && i != j implies !overlaps(
            #[trigger] r@[k].start_lines@[i],
            #[trigger] r@[k].start_lines@[j],
            r@[k].num_lines as int,
        ) by {
        let g = r@[k]@;
        assert(group_sound(files, g, w));
        lemma_spaced_no_overlap(g.anchors, g.num_lines as int);
    }
    r
}

/// Anchor `i` of a group holds the block of the group's first anchor.
spec fn block_matches_first(files: Seq<Seq<u64>>, g: GroupView, i: int) -> bool {
    crate::group::block_matches(files, g.anchors[i], g.anchors[0], g.num_lines as int)
}

/// The report is a function of the files' signatures and the threshold
/// alone: two runs on the same input report the same groups in the same
/// order, whatever the number of worker threads.
pub proof fn lemma_report_deterministic(
    files: Seq<Seq<u64>>,
    w: int,
    first: Seq<GroupView>,
    second: Seq<GroupView>,
)
    requires
        first == report_of(files, w),
        second == report_of(files, w),
    ensures
        first == second,
{
}

} // verus!
