use crate::extend::{Anchor, Collision, Entry};
use crate::group::{views, GroupView};
use crate::parallel::{entry_order, lemma_sorted_from, sort_entries};
use crate::registry::{find_run_end, lemma_run_end, run_end};
use std::collections::HashSet;
use vstd::prelude::*;

verus! {

/// Sort records for dropping equivalent groups: signature, a zero, how far
/// the length falls short of the largest, position.
pub open spec fn sig_keys(g: Seq<GroupView>) -> Seq<Entry> {
    Seq::new(
        g.len(),
        |i: int| (g[i].sig, 0u64, (u64::MAX - g[i].num_lines) as u64, i as u64),
    )
}

/// The first record of each run from `i` on.
pub open spec fn firsts_from(s: Seq<Entry>, i: int) -> Seq<Entry>
    decreases s.len() - i,
{
    if 0 <= i < s.len() {
        let e = run_end(s, i);
        if e <= i || e > s.len() {
            seq![]
        } else {
            seq![s[i]] + firsts_from(s, e)
        }
    } else {
        seq![]
    }
}

/// One group for each signature: the longest, and the earliest among those.
pub open spec fn unique_groups(g: Seq<GroupView>) -> Seq<GroupView> {
    firsts_from(sig_keys(g).sort_by(entry_order()), 0).map_values(|e: Entry| g[e.3 as int])
}

/// Sort records for the report: length, start line and file of the first
/// anchor, position.
pub open spec fn report_keys(u: Seq<GroupView>) -> Seq<Entry> {
    Seq::new(
        u.len(),
        |i: int|
            (
                u[i].num_lines as u64,
                u[i].anchors[0].line_number as u64,
                u[i].anchors[0].file_id as u64,
                i as u64,
            ),
    )
}

/// The groups to report: equivalent groups dropped, the rest ordered by
/// length, then by the first anchor's start line and file.
pub open spec fn report_order(g: Seq<GroupView>) -> Seq<GroupView> {
    let u = unique_groups(g);
    report_keys(u).sort_by(entry_order()).map_values(|e: Entry| u[e.3 as int])
}

/// A copy of a group.
pub fn copy_collision(c: &Collision) -> (r: Collision)
    ensures
        r@ == c@,
{
    let mut a: Vec<Anchor> = Vec::new();
    let mut i: usize = 0;
    while i < c.start_lines.len()
        invariant
            i <= c.start_lines@.len(),
            a@ == c.start_lines@.subrange(0, i as int),
        decreases c.start_lines@.len() - i,
    {
        a.push(c.start_lines[i]);
        assert(c.start_lines@.subrange(0, i + 1) =~= c.start_lines@.subrange(0, i as int).push(
            c.start_lines@[i as int],
        ));
        i += 1;
    }
    assert(c.start_lines@.subrange(0, i as int) =~= c.start_lines@);
    Collision { key: c.key, num_lines: c.num_lines, start_lines: a, sig: c.sig }
}

/// Drops every group whose signature repeats that of a longer (or, at
/// equal length, earlier) group, found through other anchors.
pub fn unique_by_signature(groups: &Vec<Collision>) -> (r: Vec<Collision>)
    ensures
        views(r@) == unique_groups(views(groups@)),
        forall|k: int| 0 <= k < r@.len() ==> views(groups@).contains(#[trigger] views(r@)[k]),
{
    let ghost g = views(groups@);
    let mut keys: Vec<Entry> = Vec::new();
    let mut i: usize = 0;
    while i < groups.len()
        invariant
            g == views(groups@),
            i <= groups@.len(),
            keys@ == sig_keys(g).subrange(0, i as int),
        decreases groups@.len() - i,
    {
        let c = &groups[i];
        keys.push((c.sig, 0u64, u64::MAX - c.num_lines as u64, i as u64));
        assert(sig_keys(g).subrange(0, i + 1) =~= sig_keys(g).subrange(0, i as int).push(
            sig_keys(g)[i as int],
        ));
        i += 1;
    }
    assert(sig_keys(g).subrange(0, i as int) =~= sig_keys(g));
    sort_entries(&mut keys);
    let ghost s = keys@;
    proof {
        lemma_sorted_from(sig_keys(g));
        assert forall|k: int| 0 <= k < s.len() implies (#[trigger] s[k]).3 < g.len() by {
            let j = choose|j: int| 0 <= j < sig_keys(g).len() && sig_keys(g)[j] == s[k];
        }
    }
    let count = groups.len();
    let mut out: Vec<Collision> = Vec::new();
    let mut i: usize = 0;
    while i < keys.len()
        invariant
            count == groups@.len(),
            g == views(groups@),
            s == keys@,
            s == sig_keys(g).sort_by(entry_order()),
            forall|k: int| 0 <= k < s.len() ==> (#[trigger] s[k]).3 < g.len(),
            i <= s.len(),
            views(out@) + firsts_from(s, i as int).map_values(|e: Entry| g[e.3 as int])
                == unique_groups(g),
            forall|k: int| 0 <= k < out@.len() ==> views(groups@).contains(#[trigger] views(out@)[k]),
        decreases s.len() - i,
    {
        let e = find_run_end(&keys, i);
        proof {
            lemma_run_end(s, i as int);
        }
        assert(s[i as int].3 < groups@.len());
        let idx = keys[i].3 as usize;
        let c = copy_collision(&groups[idx]);
        let ghost before = views(out@);
        out.push(c);
        assert(views(out@) =~= before.push(g[idx as int]));
        assert(firsts_from(s, i as int) == seq![s[i as int]] + firsts_from(s, e as int));
        assert(firsts_from(s, i as int).map_values(|e: Entry| g[e.3 as int]) =~= seq![
            g[idx as int],
        ] + firsts_from(s, e as int).map_values(|e: Entry| g[e.3 as int]));
        assert(views(out@) + firsts_from(s, e as int).map_values(|e: Entry| g[e.3 as int])
            =~= unique_groups(g));
        assert(views(out@)[out@.len() - 1] == views(groups@)[idx as int]);
        assert(forall|k: int| 0 <= k < before.len() ==> views(out@)[k] == before[k]);
        i = e;
    }
    assert(firsts_from(s, i as int) =~= Seq::<Entry>::empty());
    assert(views(out@) =~= unique_groups(g));
    out
}

/// Orders groups for the report: by length, then by the first anchor's start
/// line and file.
pub fn order_for_report(groups: &Vec<Collision>) -> (r: Vec<Collision>)
    requires
        forall|k: int| 0 <= k < groups@.len() ==> (#[trigger] groups@[k]).start_lines@.len() >= 1,
    ensures
        views(r@) == report_keys(views(groups@)).sort_by(entry_order()).map_values(
            |e: Entry| views(groups@)[e.3 as int],
        ),
        forall|k: int| 0 <= k < r@.len() ==> views(groups@).contains(#[trigger] views(r@)[k]),
{
    let ghost u = views(groups@);
    let mut keys: Vec<Entry> = Vec::new();
    let mut i: usize = 0;
    while i < groups.len()
        invariant
            u == views(groups@),
            i <= groups@.len(),
            forall|k: int| 0 <= k < groups@.len() ==> (#[trigger] groups@[k]).start_lines@.len() >= 1,
            keys@ == report_keys(u).subrange(0, i as int),
        decreases groups@.len() - i,
    {
        let c = &groups[i];
        assert(c.start_lines@.len() >= 1);
        let first = c.start_lines[0];
        keys.push((c.num_lines as u64, first.line_number as u64, first.file_id as u64, i as u64));
        assert(report_keys(u).subrange(0, i + 1) =~= report_keys(u).subrange(0, i as int).push(
            report_keys(u)[i as int],
        ));
        i += 1;
    }
    assert(report_keys(u).subrange(0, i as int) =~= report_keys(u));
    sort_entries(&mut keys);
    let ghost s = keys@;
    proof {
        lemma_sorted_from(report_keys(u));
        assert forall|k: int| 0 <= k < s.len() implies (#[trigger] s[k]).3 < u.len() by {
            let j = choose|j: int| 0 <= j < report_keys(u).len() && report_keys(u)[j] == s[k];
        }
    }
    let count = groups.len();
    let mut out: Vec<Collision> = Vec::new();
    let mut k: usize = 0;
    while k < keys.len()
        invariant
            count == groups@.len(),
            u == views(groups@),
            s == keys@,
            forall|t: int| 0 <= t < s.len() ==> (#[trigger] s[t]).3 < u.len(),
            k <= s.len(),
            views(out@) == s.subrange(0, k as int).map_values(|e: Entry| u[e.3 as int]),
            forall|t: int| 0 <= t < out@.len() ==> views(groups@).contains(#[trigger] views(out@)[t]),
        decreases s.len() - k,
    {
        assert(s[k as int].3 < groups@.len());
        let idx = keys[k].3 as usize;
        let c = copy_collision(&groups[idx]);
        let ghost before = views(out@);
        out.push(c);
        assert(views(out@) =~= before.push(u[idx as int]));
        assert(s.subrange(0, k + 1) =~= s.subrange(0, k as int).push(s[k as int]));
        assert(views(out@) =~= s.subrange(0, k + 1).map_values(|e: Entry| u[e.3 as int]));
        assert(views(out@)[out@.len() - 1] == views(groups@)[idx as int]);
        assert(forall|t: int| 0 <= t < before.len() ==> views(out@)[t] == before[t]);
        k += 1;
    }
    assert(s.subrange(0, k as int) =~= s);
    out
}

/// Drops groups that are equivalent to a longer one and orders the rest for
/// the report: by length, then by the first anchor's start line and file.
pub fn process_report(groups: &Vec<Collision>) -> (r: Vec<Collision>)
    requires
        forall|k: int| 0 <= k < groups@.len() ==> (#[trigger] groups@[k]).start_lines@.len() >= 1,
    ensures
        views(r@) == report_order(views(groups@)),
        forall|k: int| 0 <= k < r@.len() ==> views(groups@).contains(#[trigger] views(r@)[k]),
{
    let unique = unique_by_signature(groups);
    assert forall|k: int| 0 <= k < unique@.len() implies (#[trigger] unique@[k]).start_lines@.len()
        >= 1 by {
        assert(views(groups@).contains(views(unique@)[k]));
        let j = choose|j: int| 0 <= j < groups@.len() && views(groups@)[j] == views(unique@)[k];
        assert(groups@[j].start_lines@.len() >= 1);
    }
    let r = order_for_report(&unique);
    assert forall|k: int| 0 <= k < r@.len() implies views(groups@).contains(
        #[trigger] views(r@)[k],
    ) by {
        assert(views(unique@).contains(views(r@)[k]));
        let i = choose|i: int| 0 <= i < unique@.len() && views(unique@)[i] == views(r@)[k];
        assert(views(groups@).contains(views(unique@)[i]));
    }
    r
}

/// The lines a group duplicates: its length once for every anchor past the first.
pub open spec fn group_lines(g: GroupView) -> int {
    if g.anchors.len() > 0 {
        g.num_lines * (g.anchors.len() - 1)
    } else {
        0
    }
}

/// The first `m` groups whose key is not ignored.
pub open spec fn kept_upto(g: Seq<GroupView>, ignore: Set<u64>, m: int) -> Seq<GroupView>
    decreases m,
{
    if m <= 0 {
        seq![]
    } else if ignore.contains(g[m - 1].key) {
        kept_upto(g, ignore, m - 1)
    } else {
        kept_upto(g, ignore, m - 1).push(g[m - 1])
    }
}

/// How many of the first `m` groups have an ignored key.
pub open spec fn ignored_upto(g: Seq<GroupView>, ignore: Set<u64>, m: int) -> nat
    decreases m,
{
    if m <= 0 {
        0
    } else if ignore.contains(g[m - 1].key) {
        ignored_upto(g, ignore, m - 1) + 1
    } else {
        ignored_upto(g, ignore, m - 1)
    }
}

/// The lines duplicated by the groups among the first `m` that are not ignored.
pub open spec fn lines_upto(g: Seq<GroupView>, ignore: Set<u64>, m: int) -> int
    decreases m,
{
    if m <= 0 {
        0
    } else if ignore.contains(g[m - 1].key) {
        lines_upto(g, ignore, m - 1)
    } else {
        lines_upto(g, ignore, m - 1) + group_lines(g[m - 1])
    }
}

/// A count, or the largest `u64` where it does not fit.
pub open spec fn saturated(x: int) -> u64 {
    if x > u64::MAX {
        u64::MAX
    } else {
        x as u64
    }
}

/// What the report states: the groups left once ignored keys are dropped,
/// the lines they duplicate, and how many groups were ignored.
pub struct Summary {
    pub num_lines: u64,
    pub num_ignored: u64,
    pub duplicates: Vec<Collision>,
}

/// Drops the groups whose key is ignored, counting them, and totals the
/// lines that the other groups duplicate.
pub fn apply_ignores(groups: &Vec<Collision>, ignore: &HashSet<u64>) -> (r: Summary)
    ensures
        views(r.duplicates@) == kept_upto(views(groups@), ignore@, groups@.len() as int),
        r.num_ignored == ignored_upto(views(groups@), ignore@, groups@.len() as int),
        r.num_lines == saturated(lines_upto(views(groups@), ignore@, groups@.len() as int)),
        forall|k: int|
            0 <= k < r.duplicates@.len() ==> !ignore@.contains(#[trigger] r.duplicates@[k].key),
{
    let ghost g = views(groups@);
    let mut kept: Vec<Collision> = Vec::new();
    let mut num_ignored: u64 = 0;
    let mut num_lines: u64 = 0;
    let mut i: usize = 0;
    while i < groups.len()
        invariant
            g == views(groups@),
            i <= groups@.len(),
            views(kept@) == kept_upto(g, ignore@, i as int),
            num_ignored == ignored_upto(g, ignore@, i as int),
            num_ignored <= i,
            num_lines == saturated(lines_upto(g, ignore@, i as int)),
            lines_upto(g, ignore@, i as int) >= 0,
            forall|k: int| 0 <= k < kept@.len() ==> !ignore@.contains(#[trigger] kept@[k].key),
        decreases groups@.len() - i,
    {
        let c = &groups[i];
        assert(g[i as int] == c@);
        if ignore.contains(&c.key) {
            num_ignored = num_ignored + 1;
        } else {
            let n = c.start_lines.len();
            let extra: u128 = if n > 0 {
                let a = c.num_lines as u128;
                let b = (n - 1) as u128;
                assert(a * b <= 0xffff_ffffu128 * 0xffff_ffff_ffff_ffffu128) by (nonlinear_arith)
                    requires
                        a <= 0xffff_ffffu128,
                        b <= 0xffff_ffff_ffff_ffffu128,
                ;
                a * b
            } else {
                0
            };
            assert(extra == group_lines(c@));
            let part: u64 = if extra > u64::MAX as u128 {
                u64::MAX
            } else {
                extra as u64
            };
            num_lines = num_lines.saturating_add(part);
            let ghost before = views(kept@);
            let copy = copy_collision(c);
            kept.push(copy);
            assert(views(kept@) =~= before.push(c@));
        }
        i += 1;
    }
    Summary { num_lines, num_ignored, duplicates: kept }
}

} // verus!
