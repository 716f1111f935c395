use aoc2025::visualizer_p04::{create_frame, enhance_grid, get_cell_color, get_neighbor_count, modify_grid};

fn grid(rows: &[&str]) -> Vec<Vec<char>> {
    rows.iter().map(|r| r.chars().collect()).collect()
}

#[test]
fn neighbor_counts_match_the_erosion_rule() {
    let g = grid(&["@@@", "@@@", "@@@"]);
    assert_eq!(get_neighbor_count(&g, 1, 1), 8);
    assert_eq!(get_neighbor_count(&g, 0, 0), 3);
    assert_eq!(get_neighbor_count(&g, 0, 1), 5);
}

#[test]
fn removal_list_holds_the_accessible_cells_in_order() {
    let g = grid(&["@@@", "@@@", "@@@"]);
    let (counts, cells) = enhance_grid(&g);
    assert_eq!(counts[0][0], 3);
    assert_eq!(counts[1][1], 8);
    // Exactly the four corners, row-major.
    assert_eq!(cells, vec![(0, 0), (0, 2), (2, 0), (2, 2)]);
    let eroded = modify_grid(grid(&["@@@", "@@@", "@@@"]), &cells);
    assert_eq!(eroded, grid(&[".@.", "@@@", ".@."]));
}

#[test]
fn frame_pixels_follow_the_palette() {
    // A lone rock has no neighbours: palette index 3 (about to vanish
    // twice over).
    let g = grid(&["@"]);
    let buf = create_frame(&g, 1);
    assert_eq!(buf, vec![3]);
    // With cell size 4 the first pixel row and column show grid lines.
    let buf4 = create_frame(&g, 4);
    assert_eq!(buf4.len(), 16);
    assert_eq!(buf4[0], 4);
    assert_eq!(buf4[1], 4);
    assert_eq!(buf4[4], 4);
    assert_eq!(buf4[5], 3);
    // Floor renders as the empty color.
    let f = grid(&["."]);
    assert_eq!(create_frame(&f, 1), vec![0]);
    assert_eq!(get_cell_color('@', 7), 1);
    assert_eq!(get_cell_color('@', 2), 2);
    assert_eq!(get_cell_color('.', 0), 0);
}
