use aoc2025::p_06::{_read_num_line, _read_num_line_2, _read_operators, _get_digit_bounds, part1, part2, return_significant_sum};

#[test]
fn p_06_test_sample_1() {
    // Columns: 1+4, 2*5, 3+6.
    let numbers = vec![vec![1u128, 2, 3], vec![4u128, 5, 6]];
    let operators = vec!['+', '*', '+'];
    println!("The answer is : {}", part1(&numbers, &operators));
    assert_eq!(part1(&numbers, &operators), 5 + 10 + 9);
}

#[test]
fn p_06_test_1() {
    // A product column with a zero, and an empty table of rows.
    let numbers = vec![vec![7u128, 0], vec![2u128, 9], vec![1u128, 3]];
    let operators = vec!['*', '*'];
    assert_eq!(part1(&numbers, &operators), 14 + 0);
    let none: Vec<Vec<u128>> = vec![];
    assert_eq!(part1(&none, &vec!['+', '*']), 0 + 1);
}

#[test]
fn p_06_test_2() {
    // One column of digit strings, read position by position: "64", "23",
    // "314" give 4 (third digits), 431 (second digits), 623 (first
    // digits).
    let col: Vec<String> = vec!["64".to_string(), "23".to_string(), "314".to_string()];
    assert_eq!(_get_digit_bounds(&col), (3, 2));
    assert_eq!(return_significant_sum(&col), vec![4, 431, 623]);
    // The second column's digits concatenate into the single number 23.
    let cols = vec![col, vec!["2".to_string(), "3".to_string()]];
    let operators = vec!['+', '*'];
    println!("The answer is : {}", part2(&cols, &operators));
    assert_eq!(part2(&cols, &operators), (4 + 431 + 623) + 23);
}

#[test]
fn line_parsing_reads_tokens() {
    assert_eq!(_read_num_line("12 345  6"), vec![12, 345, 6]);
    assert_eq!(_read_num_line("   7 "), vec![7]);
    assert_eq!(_read_num_line(""), Vec::<u128>::new());
    assert_eq!(_read_operators("+ * +"), vec!['+', '*', '+']);
    assert_eq!(_read_operators("  *  "), vec!['*']);
    assert_eq!(_read_num_line_2(" 64 23  314 "), vec!["64", "23", "314"]);
}
