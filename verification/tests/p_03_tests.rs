use aoc2025::p_03::{find_max_digit, get_max_joltage, get_max_joltage_2, pr_1, pr_2};

#[test]
fn p_03_test_sample_1() {
    // [9,8,7]: best lead digit 9, best tail digit 8; [1,2,3]: 2 then 3.
    let banks = vec![vec![9, 8, 7], vec![1, 2, 3]];
    println!("The answer is {}", pr_1(banks));
    let banks = vec![vec![9, 8, 7], vec![1, 2, 3]];
    assert_eq!(pr_1(banks), 98 + 23);
}

#[test]
fn p_03_test_1() {
    assert_eq!(get_max_joltage(vec![3, 1, 4, 1, 5]), 45);
    // A single digit never reaches the tail scan: both picks stay 0.
    assert_eq!(get_max_joltage(vec![7]), 0);
    let (d, i) = find_max_digit(&vec![2, 9, 9, 1], 0, 4);
    assert_eq!((d, i), (9, 1));
}

#[test]
fn p_03_test_sample_2() {
    // Twelve digits, taken left to right; the scan keeps the first index
    // of the maximum, and a maximum of 0 resets it to the start, so after
    // the 0 the pick resumes from position 1 (the 8).
    let banks = vec![vec![9, 8, 7, 6, 5, 4, 3, 2, 1, 0, 1, 2]];
    println!("The answer is {}", pr_2(banks));
    let banks = vec![vec![9, 8, 7, 6, 5, 4, 3, 2, 1, 0, 1, 2]];
    assert_eq!(pr_2(banks), 987654321087);
}

#[test]
fn p_03_test_2() {
    // Thirteen digits: dropping the leading 1 beats keeping it.
    let bank = vec![1, 9, 9, 9, 9, 9, 9, 9, 9, 9, 9, 9, 9];
    println!("The answer is {}", get_max_joltage_2(bank));
    let bank = vec![1, 9, 9, 9, 9, 9, 9, 9, 9, 9, 9, 9, 9];
    assert_eq!(get_max_joltage_2(bank), 999_999_999_999);
}
