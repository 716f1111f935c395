use aoc2025::p_07::{part_1, part_2};

fn grid(rows: &[&str]) -> Vec<Vec<char>> {
    rows.iter().map(|r| r.chars().collect()).collect()
}

#[test]
fn p_07_test_sample_1() {
    // One split under the start, then both beams split again two rows on.
    let g = grid(&[
        "..S..",
        "..^..",
        ".....",
        ".^.^.",
        ".....",
    ]);
    println!("The solution is : {}", part_1(&g));
    assert_eq!(part_1(&g), 3);
}

#[test]
fn p_07_test_1() {
    // A beam splitting at the edge loses its outward half.
    let g = grid(&["S..", "^..", "..."]);
    println!("The solution is : {}", part_1(&g));
    assert_eq!(part_1(&g), 1);
    // No obstacles at all: the beam falls straight through.
    let clear = grid(&["S..", "...", "..."]);
    assert_eq!(part_1(&clear), 0);
}

#[test]
fn p_07_test_sample_2() {
    // Path counting: the two second-row splits both feed the middle
    // column.
    let g = grid(&[
        "..S..",
        "..^..",
        ".....",
        ".^.^.",
        ".....",
    ]);
    println!("The solution is : {}", part_2(&g));
    assert_eq!(part_2(&g), 4);
}

#[test]
fn p_07_test_2() {
    // The outward half of an edge split is lost for counting too.
    let g = grid(&["S..", "^..", "..."]);
    println!("The solution is : {}", part_2(&g));
    assert_eq!(part_2(&g), 1);
    let clear = grid(&["S..", "...", "..."]);
    assert_eq!(part_2(&clear), 1);
}
