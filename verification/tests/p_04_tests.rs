use aoc2025::p_04::{enhance_grid, modify_grid, part1_helper, part2, part2_helper};

fn grid(rows: &[&str]) -> Vec<Vec<char>> {
    rows.iter().map(|r| r.chars().collect()).collect()
}

#[test]
fn p_04_test_sample_1() {
    // In a 3x3 block of rocks only the four corners have fewer than four
    // rock neighbours.
    let g = grid(&["@@@", "@@@", "@@@"]);
    println!("The solution is {}", part1_helper(&g));
    assert_eq!(part1_helper(&g), 4);
}

#[test]
fn p_04_test_1() {
    let g = grid(&["@@@", "@.@", "..."]);
    // The top-middle rock touches four rocks; the other four are free.
    println!("The solution is {}", part1_helper(&g));
    assert_eq!(part1_helper(&g), 4);
}

#[test]
fn p_04_test_sample_2() {
    // The 3x3 block erodes completely: corners, then the arms, then the
    // center.
    let g = grid(&["@@@", "@@@", "@@@"]);
    println!("The solution is {}", part2(g));
    let g = grid(&["@@@", "@@@", "@@@"]);
    assert_eq!(part2(g), 9);
}

#[test]
fn p_04_test_2() {
    let g = grid(&["@@@", "...", "@.@"]);
    println!("The solution is {}", part2(g));
    let g = grid(&["@@@", "...", "@.@"]);
    assert_eq!(part2(g), 5);
    // A single sweep of the same grid removes everything accessible at
    // once.
    let g0 = grid(&["@@@", "...", "@.@"]);
    let (cells, accessible) = enhance_grid(&g0);
    assert_eq!(accessible, 5);
    let eroded = modify_grid(grid(&["@@@", "...", "@.@"]), cells);
    assert_eq!(part2_helper(&eroded, &g0), 5);
}
