use aoc2025::p_01::{get_password, get_password_0x434C49434B, mod_pos, Rotate};

fn rots(spec: &[(char, u32)]) -> Vec<Rotate> {
    spec.iter().map(|&(dir, amount)| Rotate { dir, amount }).collect()
}

#[test]
fn p_01_test_basic() {
    // From 50: L50 lands on 0 (hit), R30 lands on 30, L30 lands on 0 (hit).
    let input = rots(&[('L', 50), ('R', 30), ('L', 30)]);
    println!("the password is : {}", get_password(&input));
    assert_eq!(get_password(&input), 2);
}

#[test]
fn p_01_test_1() {
    // Wrap-arounds: from 50, R70 -> 20, L20 -> 0 (hit), L10 -> 90, R10 -> 0 (hit).
    let input = rots(&[('R', 70), ('L', 20), ('L', 10), ('R', 10)]);
    println!("the password is : {}", get_password(&input));
    assert_eq!(get_password(&input), 2);
}

#[test]
fn test_basic_0x434C49434B() {
    // Click-wise counting sees every pass over 0, not only rest positions.
    let input = rots(&[('L', 150)]);
    println!("the password is : {}", get_password_0x434C49434B(&input));
    assert_eq!(get_password_0x434C49434B(&input), 2);
    // The rest-position rule sees only the final stop, which is 0 here.
    assert_eq!(get_password(&rots(&[('L', 150)])), 1);
}

#[test]
fn test_1_0x434C49434B() {
    // A full lap to the right passes 0 exactly once.
    let input = rots(&[('R', 100), ('R', 100)]);
    println!("the password is : {}", get_password_0x434C49434B(&input));
    assert_eq!(get_password_0x434C49434B(&input), 2);
}

#[test]
fn mod_pos_is_euclidean() {
    assert_eq!(mod_pos(-30, 100), 70);
    assert_eq!(mod_pos(130, 100), 30);
    assert_eq!(mod_pos(-100, 100), 0);
    assert_eq!(mod_pos(0, 7), 0);
}
