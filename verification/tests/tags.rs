use reverse_rusty::tag_summary::{sorted_intersects, TagPredicate, TagSummary};
use reverse_rusty::tagbench::{
    arg_u64, arg_usize, bench_config, build_category_local, category, disabled_first, repetitions,
    result_checksum,
};

#[test]
fn proves_only_group_absence() {
    let summary = TagSummary::build(&[9, 3, 3, 7]);
    assert!(summary.may_match(&TagPredicate::empty()));
    assert!(summary.may_match(&TagPredicate::new(vec![vec![3, 4]])));
    assert!(summary.may_match(&TagPredicate::new(vec![vec![3], vec![7]])));
    assert!(!summary.may_match(&TagPredicate::new(vec![vec![4]])));
    assert!(!summary.may_match(&TagPredicate::new(vec![vec![3], vec![8]])));
    assert!(!summary.may_match(&TagPredicate::new(vec![Vec::new()])));
}

#[test]
fn independent_group_presence_does_not_claim_row_correlation() {
    let summary = TagSummary::build(&[3, 7]);
    assert!(summary.may_match(&TagPredicate::new(vec![vec![3], vec![7]])));
}

#[test]
fn a_summary_holds_each_tag_once() {
    let summary = TagSummary::build(&[9, 3, 3, 7, 9, 0, u32::MAX]);
    assert_eq!(summary.heap_bytes(), 5 * 4);
    assert_eq!(TagSummary::build(&[]).heap_bytes(), 0);
    assert_eq!(summary.clone(), summary);
    assert!(!TagSummary::build(&[]).may_match(&TagPredicate::new(vec![vec![1]])));
}

#[test]
fn a_skipped_segment_has_no_row_that_passes() {
    let rows: Vec<Vec<u32>> = vec![vec![1, 4], vec![2], vec![4, 9], vec![]];
    let blob: Vec<u32> = rows.iter().flatten().copied().collect();
    let summary = TagSummary::build(&blob);
    let mut skipped = 0;
    for a in 0..11 {
        for b in 0..11 {
            let groups = vec![vec![b, a], vec![10, b]];
            let predicate = TagPredicate::new(groups.clone());
            let passes = rows
                .iter()
                .any(|row| groups.iter().all(|g| g.iter().any(|t| row.contains(t))));
            if !summary.may_match(&predicate) {
                skipped += 1;
                assert!(!passes);
            }
        }
    }
    assert!(skipped > 0);
}

#[test]
fn unordered_groups_are_searched_as_ordered_ones() {
    let summary = TagSummary::build(&[5]);
    let predicate = TagPredicate::new(vec![vec![9, 5, 1, 7, 3]]);
    assert_eq!(predicate.groups(), &vec![vec![1, 3, 5, 7, 9]]);
    assert!(summary.may_match(&predicate));
    assert!(sorted_intersects(&vec![1, 2, 3], &vec![3]));
    assert!(!sorted_intersects(&vec![1, 2, 3], &vec![0, 4, 5, 6]));
}

#[test]
fn arguments_fall_back_to_their_defaults() {
    let args: Vec<String> = ["tagbench", "12", "+7", "-1", "", "18446744073709551616"]
        .iter()
        .map(|s| s.to_string())
        .collect();
    assert_eq!(arg_usize(&args, 1, 5), 12);
    assert_eq!(arg_u64(&args, 2, 5), 7);
    assert_eq!(arg_usize(&args, 3, 5), 5);
    assert_eq!(arg_u64(&args, 4, 5), 5);
    assert_eq!(arg_u64(&args, 5, 5), 5);
    assert_eq!(arg_u64(&args, 9, 5), 5);
}

#[test]
fn a_run_has_at_least_one_of_everything() {
    let args = |texts: &[&str]| texts.iter().map(|s| s.to_string()).collect::<Vec<String>>();
    let default = bench_config(&args(&["tagbench"]));
    assert_eq!(default.num_queries, 160_000);
    assert_eq!(default.num_titles, 2_000);
    assert_eq!(default.segments, 8);
    assert_eq!(default.seed, 372);
    assert_eq!(default.num_entities, 4_000);
    assert_eq!(default.num_collections, 1_600);
    let small = bench_config(&args(&["tagbench", "0", "0", "9", "0.05", "1"]));
    assert_eq!(small.num_queries, 1);
    assert_eq!(small.num_titles, 1);
    assert_eq!(small.segments, 1);
    assert_eq!(small.seed, 1);
    assert_eq!(small.num_entities, 2_000);
    assert_eq!(small.num_collections, 1_000);
}

#[test]
fn queries_split_by_their_logical_id() {
    let queries: Vec<(u64, String)> = (0..7).map(|id| (id, format!("q{id}"))).collect();
    let groups = build_category_local(&queries, 3);
    assert_eq!(groups.len(), 3);
    assert_eq!(
        groups[0].iter().map(|q| q.0).collect::<Vec<_>>(),
        vec![0, 3, 6]
    );
    assert_eq!(groups[1][1], (4, "q4".to_string()));
    assert_eq!(category(0), "segment-0");
    assert_eq!(category(120), "segment-120");
}

#[test]
fn passes_take_turns_and_repeat() {
    assert_eq!(repetitions(0), 100_000);
    assert_eq!(repetitions(2_000), 50);
    assert_eq!(repetitions(200_000), 1);
    assert!(disabled_first(0));
    assert!(!disabled_first(1));
}

#[test]
fn the_checksum_is_fnv_over_lengths_and_ids() {
    assert_eq!(result_checksum(&vec![]), 0xcbf2_9ce4_8422_2325);
    let step = |hash: u64, word: u64| (hash ^ word).wrapping_mul(0x100_0000_01b3);
    let expected = step(step(step(step(0xcbf2_9ce4_8422_2325, 2), 5), 6), 0);
    assert_eq!(result_checksum(&vec![vec![5, 6], vec![]]), expected);
    assert_ne!(
        result_checksum(&vec![vec![5], vec![6]]),
        result_checksum(&vec![vec![5, 6]])
    );
}
