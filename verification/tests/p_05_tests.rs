use aoc2025::p_05::{binary_search_ranges, merge_overlapping_intervals, part1, part_2};

#[test]
fn p_05_test_basic() {
    let ranges = vec![[3u64, 5], [10, 14], [16, 20], [12, 18]];
    let ids = vec![1u64, 5, 8, 11, 17, 32];
    println!("The answer is {}", part1(ranges, ids));
    let ranges = vec![[3u64, 5], [10, 14], [16, 20], [12, 18]];
    let ids = vec![1u64, 5, 8, 11, 17, 32];
    assert_eq!(part1(ranges, ids), 3);
}

#[test]
fn p_05_test_1() {
    let merged = merge_overlapping_intervals(vec![[3u64, 5], [10, 14], [16, 20], [12, 18]]);
    assert_eq!(merged, vec![[3u64, 5], [10, 20]]);
    assert!(binary_search_ranges(&merged, 3));
    assert!(binary_search_ranges(&merged, 20));
    assert!(!binary_search_ranges(&merged, 8));
    assert!(!binary_search_ranges(&merged, 21));
}

#[test]
fn test_basic_2() {
    let ranges = vec![[3u64, 5], [10, 14], [16, 20], [12, 18]];
    println!("The answer is {}", part_2(ranges));
    let ranges = vec![[3u64, 5], [10, 14], [16, 20], [12, 18]];
    assert_eq!(part_2(ranges), 3 + 11);
}

#[test]
fn p_05_test_2() {
    // Touching ranges merge; adjacent-but-separate ranges do not.
    let merged = merge_overlapping_intervals(vec![[1u64, 2], [2, 5], [7, 9]]);
    assert_eq!(merged, vec![[1u64, 5], [7, 9]]);
    assert_eq!(part_2(vec![[1u64, 2], [2, 5], [7, 9]]), 5 + 3);
}
