use hlp_brute_force::constants::TARGET;
use hlp_brute_force::layer::{comparator, find_next, groups, through};
use hlp_brute_force::unique_vec::config_table;

const IDENTITY: [i16; 16] = [0, 1, 2, 3, 4, 5, 6, 7, 8, 9, 10, 11, 12, 13, 14, 15];

/// Configuration index of a layer written `side_a, side_b` in asterisk notation.
fn config(mode_a: bool, a: i16, mode_b: bool, b: i16) -> i16 {
    (if mode_a { 512 } else { 0 }) + (if mode_b { 256 } else { 0 }) + a * 16 + b
}

#[test]
fn comparator_compare_mode_passes_back() {
    assert_eq!(comparator(5, 3, false), 5);
    assert_eq!(comparator(5, 5, false), 5);
}

#[test]
fn comparator_subtract_mode_subtracts() {
    assert_eq!(comparator(5, 3, true), 2);
    assert_eq!(comparator(4, 4, true), 0);
}

#[test]
fn comparator_stronger_side_gives_zero() {
    assert_eq!(comparator(3, 5, true), 0);
    assert_eq!(comparator(3, 5, false), 0);
}

#[test]
fn through_identity_input_gives_layer() {
    let layer = [3, 1, 4, 1, 5, 9, 2, 6, 5, 3, 5, 8, 9, 7, 9, 3];
    assert_eq!(through(layer, IDENTITY), layer);
}

#[test]
fn through_identity_layer_gives_input() {
    let input = [3, 1, 4, 1, 5, 9, 2, 6, 5, 3, 5, 8, 9, 7, 9, 3];
    assert_eq!(through(IDENTITY, input), input);
}

#[test]
fn through_composes_in_order() {
    let layer = [15, 14, 13, 12, 11, 10, 9, 8, 7, 6, 5, 4, 3, 2, 1, 0];
    let input = [1, 1, 2, 3, 4, 5, 6, 7, 8, 9, 10, 11, 12, 13, 14, 15];
    assert_eq!(through(layer, input), [14, 14, 13, 12, 11, 10, 9, 8, 7, 6, 5, 4, 3, 2, 1, 0]);
}

#[test]
fn readme_first_example() {
    // `1, *2; *3, 4;`
    let first = config_table(config(false, 1, true, 2));
    let second = config_table(config(true, 3, false, 4));
    let out = through(second, through(first, IDENTITY));
    assert_eq!(out, [4, 4, 4, 4, 4, 2, 3, 4, 5, 6, 7, 8, 9, 10, 11, 12]);
}

#[test]
fn readme_second_example() {
    // `1, *F; C, 3; A, *F;`
    let first = config_table(config(false, 1, true, 15));
    let second = config_table(config(false, 12, false, 3));
    let third = config_table(config(false, 10, true, 15));
    let out = through(third, through(second, through(first, IDENTITY)));
    assert_eq!(out, [15, 14, 13, 12, 15, 15, 15, 15, 15, 15, 15, 15, 12, 13, 14, 15]);
}

#[test]
fn groups_counts_distinct_outputs() {
    assert_eq!(groups(IDENTITY), 16);
    assert_eq!(groups(TARGET), 3);
    assert_eq!(groups([7; 16]), 1);
}

#[test]
fn groups_never_grow_through_a_layer() {
    let layer = config_table(config(false, 1, true, 2));
    let input = [0, 0, 1, 1, 2, 2, 3, 3, 4, 4, 5, 5, 6, 6, 7, 7];
    assert!(groups(through(layer, input)) <= groups(input));
}

#[test]
fn find_next_appends_first_completing_ending() {
    let unique = vec![IDENTITY, TARGET, [0; 16]];
    let count = vec![[0, 0]];
    let endings = vec![2, 1, 0];
    assert_eq!(find_next(&count, &unique, &endings), vec![[0, 0], [1, 1]]);
}

#[test]
fn find_next_leaves_chain_when_nothing_completes() {
    let unique = vec![IDENTITY, [0; 16]];
    let count = vec![[1, 1]];
    let endings = vec![0, 1];
    assert_eq!(find_next(&count, &unique, &endings), vec![[1, 1]]);
}

#[test]
fn through_is_associative() {
    let a = config_table(config(true, 3, false, 4));
    let b = config_table(config(false, 1, true, 2));
    let x = [3, 1, 4, 1, 5, 9, 2, 6, 5, 3, 5, 8, 9, 7, 9, 3];
    assert_eq!(through(a, through(b, x)), through(through(a, b), x));
}
