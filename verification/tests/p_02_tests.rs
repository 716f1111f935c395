use aoc2025::p_02::{get_invalid_ids, get_invalid_ids_2, is_invalid, is_invalid_2, part1, part2, Range};

#[test]
fn p_02_test_sample() {
    // 11, 22, ..., and 1212 are their first half written twice.
    let ranges = vec![Range { start: 10, end: 30 }, Range { start: 1200, end: 1220 }];
    // 11 + 22 + 1212
    println!("{}", part1(ranges));
    let ranges = vec![Range { start: 10, end: 30 }, Range { start: 1200, end: 1220 }];
    assert_eq!(part1(ranges), 11 + 22 + 1212);
}

#[test]
fn p_02_test_1() {
    assert!(is_invalid(1212));
    assert!(is_invalid(4545));
    assert!(!is_invalid(121));
    assert!(!is_invalid(1213));
    assert_eq!(get_invalid_ids(Range { start: 1, end: 100 }), 11 + 22 + 33 + 44 + 55 + 66 + 77 + 88 + 99);
}

#[test]
fn p_02_test_sample_2() {
    // The repeated-block rule also catches 111 and 2121 and 222222.
    let ranges = vec![Range { start: 110, end: 112 }];
    println!("{}", part2(ranges));
    let ranges = vec![Range { start: 110, end: 112 }];
    assert_eq!(part2(ranges), 111);
}

#[test]
fn p_02_test_2() {
    assert!(is_invalid_2(111));
    assert!(is_invalid_2(2121));
    assert!(is_invalid_2(123123123));
    assert!(!is_invalid_2(1231231));
    assert_eq!(get_invalid_ids_2(Range { start: 100, end: 125 }), 111);
}
