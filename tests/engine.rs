use duplihere::{
    apply_ignores, find_duplicates, maximize_collision, overlap, rolling_hashes,
    signatures_from_bytes, Anchor, Collision,
};
use std::collections::HashSet;

fn sigs(text: &str) -> Vec<u64> {
    signatures_from_bytes(text.as_bytes())
}

fn block(prefix: &str, n: usize) -> String {
    let mut s = String::new();
    for i in 0..n {
        s.push_str(&format!("{} line {}\n", prefix, i));
    }
    s
}

fn anchors(c: &Collision) -> Vec<(u32, u32)> {
    c.start_lines.iter().map(|a| (a.file_id, a.line_number)).collect()
}

#[test]
fn identical_blocks_in_two_files_form_one_group() {
    let text = block("same", 6);
    let files = vec![sigs(&text), sigs(&text)];
    let groups = find_duplicates(&files, 6);
    assert_eq!(groups.len(), 1);
    assert_eq!(groups[0].num_lines, 6);
    assert_eq!(anchors(&groups[0]), vec![(0, 0), (1, 0)]);
}

#[test]
fn adjacent_copies_extend_to_full_length() {
    let b = block("blk", 10);
    let text = format!("{}{}", b, b);
    let files = vec![sigs(&text)];
    let groups = find_duplicates(&files, 6);
    assert_eq!(groups.len(), 1);
    assert_eq!(groups[0].num_lines, 10);
    assert_eq!(anchors(&groups[0]), vec![(0, 0), (0, 10)]);
}

#[test]
fn repeating_pattern_collapses_overlaps() {
    let mut text = String::new();
    for _ in 0..20 {
        text.push_str("alpha\nbeta\ngamma\n");
    }
    let files = vec![sigs(&text)];
    let groups = find_duplicates(&files, 3);
    assert!(!groups.is_empty());
    for g in &groups {
        assert!(g.start_lines.len() >= 2);
        assert!(g.start_lines.len() <= 20);
        for (i, a) in g.start_lines.iter().enumerate() {
            for (j, b) in g.start_lines.iter().enumerate() {
                if i != j {
                    assert!(!overlap(a, b, g.num_lines));
                }
            }
        }
    }
}

#[test]
fn file_shorter_than_threshold_gives_nothing() {
    let files = vec![sigs("a\nb\nc\n"), sigs("a\nb\nc\n")];
    let groups = find_duplicates(&files, 6);
    assert!(groups.is_empty());
    let summary = apply_ignores(&groups, &HashSet::new());
    assert_eq!(summary.num_lines, 0);
    assert_eq!(summary.num_ignored, 0);
}

#[test]
fn no_files_gives_empty_report() {
    let files: Vec<Vec<u64>> = Vec::new();
    let groups = find_duplicates(&files, 6);
    assert!(groups.is_empty());
    let summary = apply_ignores(&groups, &HashSet::new());
    assert_eq!(summary.num_lines, 0);
    assert_eq!(summary.duplicates.len(), 0);
}

fn mixed_files() -> Vec<Vec<u64>> {
    let shared = block("shared", 8);
    let other = block("other", 5);
    let a = format!("{}x\n{}y\n{}", shared, other, shared);
    let b = format!("z\n{}{}", other, shared);
    vec![sigs(&a), sigs(&b), sigs("unique\n")]
}

#[test]
fn no_group_is_shorter_than_threshold() {
    let files = mixed_files();
    for threshold in 3..8u32 {
        for g in find_duplicates(&files, threshold) {
            assert!(g.num_lines >= threshold);
        }
    }
}

#[test]
fn anchors_hold_identical_lines() {
    let files = mixed_files();
    let groups = find_duplicates(&files, 4);
    assert!(!groups.is_empty());
    for g in &groups {
        let n = g.num_lines as usize;
        let first = g.start_lines[0];
        let f0 = &files[first.file_id as usize];
        let l0 = first.line_number as usize;
        for a in &g.start_lines {
            let f = &files[a.file_id as usize];
            let l = a.line_number as usize;
            assert_eq!(&f[l..l + n], &f0[l0..l0 + n]);
        }
    }
}

#[test]
fn same_file_groups_do_not_overlap() {
    let files = mixed_files();
    for g in find_duplicates(&files, 3) {
        let one_file = g.start_lines.iter().all(|a| a.file_id == g.start_lines[0].file_id);
        if one_file {
            for (i, a) in g.start_lines.iter().enumerate() {
                for (j, b) in g.start_lines.iter().enumerate() {
                    if i != j {
                        assert!(!overlap(a, b, g.num_lines));
                    }
                }
            }
        }
    }
}

#[test]
fn repeated_runs_report_the_same_groups() {
    let files = mixed_files();
    let first = find_duplicates(&files, 4);
    let second = find_duplicates(&files, 4);
    assert_eq!(first.len(), second.len());
    for (a, b) in first.iter().zip(second.iter()) {
        assert_eq!(a.key, b.key);
        assert_eq!(a.num_lines, b.num_lines);
        assert_eq!(anchors(a), anchors(b));
        assert_eq!(a.sig, b.sig);
    }
}

#[test]
fn report_is_ordered_by_length_then_first_anchor() {
    let files = mixed_files();
    let groups = find_duplicates(&files, 3);
    for w in groups.windows(2) {
        let ka = (w[0].num_lines, w[0].start_lines[0].line_number, w[0].start_lines[0].file_id);
        let kb = (w[1].num_lines, w[1].start_lines[0].line_number, w[1].start_lines[0].file_id);
        assert!(ka <= kb);
    }
}

#[test]
fn ignored_groups_are_dropped_and_counted() {
    let text = block("same", 6);
    let files = vec![sigs(&text), sigs(&text), sigs(&text)];
    let groups = find_duplicates(&files, 6);
    assert_eq!(groups.len(), 1);
    let kept = apply_ignores(&groups, &HashSet::new());
    assert_eq!(kept.num_lines, 12);
    assert_eq!(kept.num_ignored, 0);
    assert_eq!(kept.duplicates.len(), 1);
    let mut ignore = HashSet::new();
    ignore.insert(groups[0].key);
    let summary = apply_ignores(&groups, &ignore);
    assert_eq!(summary.num_lines, 0);
    assert_eq!(summary.num_ignored, 1);
    assert!(summary.duplicates.is_empty());
}

#[test]
fn windows_drop_immediate_repeats() {
    assert_eq!(rolling_hashes(&[7, 7, 7, 7], 2).len(), 1);
    let w = rolling_hashes(&[1, 2, 3], 2);
    assert_eq!(w.len(), 2);
    assert_eq!(w[0].1, 0);
    assert_eq!(w[1].1, 1);
    assert!(rolling_hashes(&[1, 2], 3).is_empty());
    assert_eq!(rolling_hashes(&[1, 2, 3], 3).len(), 1);
    let v = rolling_hashes(&[1, 2, 1, 2], 2);
    assert_eq!(v.len(), 3);
    assert_eq!(v[0].0, v[2].0);
}

#[test]
fn overlap_uses_half_open_ranges() {
    let a = Anchor { file_id: 0, line_number: 0 };
    let b = Anchor { file_id: 0, line_number: 10 };
    let c = Anchor { file_id: 1, line_number: 0 };
    assert!(!overlap(&a, &b, 10));
    assert!(overlap(&a, &b, 11));
    assert!(overlap(&a, &a, 1));
    assert!(!overlap(&a, &c, 100));
}

#[test]
fn extension_finds_maximal_length() {
    let files = vec![vec![1, 2, 3, 4, 5, 9], vec![0, 1, 2, 3, 4, 5, 6]];
    let l = Anchor { file_id: 0, line_number: 0 };
    let r = Anchor { file_id: 1, line_number: 1 };
    let c = maximize_collision(&files, &l, &r, 3).unwrap();
    assert_eq!(c.num_lines, 5);
    assert_eq!(anchors(&c), vec![(0, 0), (1, 1)]);
    assert_eq!(c.key, duplihere::hashing::hash_run(&[1, 2, 3, 4, 5]));
    assert!(maximize_collision(&files, &l, &r, 6).is_none());
    let same = vec![vec![4, 4, 4, 4, 4, 4]];
    let a = Anchor { file_id: 0, line_number: 0 };
    let b = Anchor { file_id: 0, line_number: 2 };
    assert!(maximize_collision(&same, &a, &b, 2).is_none());
}

#[test]
fn extension_of_pair_that_only_overlaps_after_growth_is_rejected() {
    let files = vec![vec![5, 5, 5, 5, 5, 5, 5, 5]];
    let a = Anchor { file_id: 0, line_number: 0 };
    let b = Anchor { file_id: 0, line_number: 3 };
    assert!(maximize_collision(&files, &a, &b, 3).is_none());
}

#[test]
fn scrub_sorts_dedups_and_collapses() {
    let mut c = Collision {
        key: 9,
        num_lines: 4,
        start_lines: vec![
            Anchor { file_id: 0, line_number: 6 },
            Anchor { file_id: 0, line_number: 0 },
            Anchor { file_id: 0, line_number: 2 },
            Anchor { file_id: 0, line_number: 0 },
            Anchor { file_id: 0, line_number: 4 },
        ],
        sig: 0,
    };
    c.scrub();
    assert_eq!(anchors(&c), vec![(0, 0), (0, 4)]);
    assert_eq!(c.signature(), c.sig);
    assert_ne!(c.sig, 0);
}

#[test]
fn scrub_keeps_every_anchor_across_files() {
    let files = vec![vec![1, 2, 3, 1, 2, 3], vec![1, 2, 3], vec![7, 8, 9]];
    let mut c = Collision {
        key: 1,
        num_lines: 3,
        start_lines: vec![
            Anchor { file_id: 2, line_number: 0 },
            Anchor { file_id: 1, line_number: 0 },
            Anchor { file_id: 0, line_number: 0 },
            Anchor { file_id: 0, line_number: 3 },
        ],
        sig: 0,
    };
    c.scrub();
    assert_eq!(anchors(&c), vec![(0, 0), (1, 0), (2, 0), (0, 3)]);
    let kept = duplihere::group::keep_matching_blocks(&files, &c.start_lines, 3);
    let pairs: Vec<(u32, u32)> = kept.iter().map(|a| (a.file_id, a.line_number)).collect();
    assert_eq!(pairs, vec![(0, 0), (1, 0), (0, 3)]);
}

#[test]
fn equivalent_groups_keep_the_longest() {
    let long = Collision {
        key: 10,
        num_lines: 4,
        start_lines: vec![Anchor { file_id: 0, line_number: 0 }, Anchor { file_id: 1, line_number: 0 }],
        sig: 0,
    };
    let short = Collision {
        key: 11,
        num_lines: 3,
        start_lines: vec![Anchor { file_id: 0, line_number: 1 }, Anchor { file_id: 1, line_number: 1 }],
        sig: 0,
    };
    let mut groups = vec![short, long];
    for g in groups.iter_mut() {
        g.scrub();
    }
    assert_eq!(groups[0].sig, groups[1].sig);
    let report = duplihere::process_report(&groups);
    assert_eq!(report.len(), 1);
    assert_eq!(report[0].key, 10);
    assert_eq!(report[0].num_lines, 4);
}

#[test]
fn groups_spanning_files_are_not_collapsed() {
    let f = sigs("x\ny\nz\nx\ny\nz\nx\ny\nz\n");
    let g = sigs("x\ny\nz\nx\ny\nz\nq\n");
    let files = vec![f, g];
    let groups = find_duplicates(&files, 3);
    let six: Vec<&Collision> = groups.iter().filter(|c| c.num_lines == 6).collect();
    assert_eq!(six.len(), 1);
    assert_eq!(anchors(six[0]), vec![(0, 0), (1, 0), (0, 3)]);
}

#[test]
fn collapse_leaves_anchors_in_several_files_alone() {
    let mixed = vec![Anchor { file_id: 0, line_number: 0 }, Anchor { file_id: 1, line_number: 0 }];
    let r = duplihere::group::remove_overlap_same_file(mixed.clone(), 3);
    assert_eq!(r, mixed);
    let same = vec![
        Anchor { file_id: 0, line_number: 0 },
        Anchor { file_id: 0, line_number: 2 },
        Anchor { file_id: 0, line_number: 3 },
        Anchor { file_id: 0, line_number: 7 },
    ];
    let r = duplihere::group::remove_overlap_same_file(same, 3);
    assert_eq!(
        r,
        vec![
            Anchor { file_id: 0, line_number: 0 },
            Anchor { file_id: 0, line_number: 3 },
            Anchor { file_id: 0, line_number: 7 },
        ]
    );
}
