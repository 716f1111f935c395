use aoc2025::p_02::Range;
use aoc2025::p_02_fp::{is_invalid, is_invalid_2, part1, part2};

#[test]
fn p_02_fp_test_sample() {
    // Same sums as the loop-style module, through the passed-in test.
    let ranges = vec![Range { start: 10, end: 30 }, Range { start: 1200, end: 1220 }];
    println!("{}", part1(ranges));
    let ranges = vec![Range { start: 10, end: 30 }, Range { start: 1200, end: 1220 }];
    assert_eq!(part1(ranges), 11 + 22 + 1212);
}

#[test]
fn p_02_fp_test_1() {
    assert!(is_invalid(1212));
    assert!(!is_invalid(1213));
    assert_eq!(
        part1(vec![Range { start: 1, end: 100 }]),
        11 + 22 + 33 + 44 + 55 + 66 + 77 + 88 + 99
    );
}

#[test]
fn p_02_fp_test_sample_2() {
    let ranges = vec![Range { start: 110, end: 112 }];
    println!("{}", part2(ranges));
    let ranges = vec![Range { start: 110, end: 112 }];
    assert_eq!(part2(ranges), 111);
}

#[test]
fn p_02_fp_test_2() {
    assert!(is_invalid_2(2121));
    assert!(!is_invalid_2(1231231));
    assert_eq!(part2(vec![Range { start: 100, end: 125 }]), 111);
}
