use hlp_brute_force::constants::TARGET;
use hlp_brute_force::layer::through;
use hlp_brute_force::legality::{generate_legal, legal};

const IDENTITY: [i16; 16] = [0, 1, 2, 3, 4, 5, 6, 7, 8, 9, 10, 11, 12, 13, 14, 15];

#[test]
fn generate_legal_lists_split_pairs_in_order() {
    let legality = generate_legal();
    assert_eq!(legality.len(), 85);
    assert_eq!(&legality[..5], &[[0, 1], [0, 2], [0, 4], [0, 5], [0, 7]]);
    for w in legality.windows(2) {
        assert!(w[0] < w[1]);
    }
    for [a, b] in &legality {
        assert!(a < b && TARGET[*a] != TARGET[*b]);
    }
}

#[test]
fn identity_and_target_are_legal() {
    let legality = generate_legal();
    assert!(legal(IDENTITY, &legality));
    assert!(legal(TARGET, &legality));
}

#[test]
fn merging_split_inputs_is_illegal() {
    let legality = generate_legal();
    let mut merged = IDENTITY;
    merged[1] = 0;
    assert!(!legal(merged, &legality));
}

#[test]
fn merging_inputs_the_target_merges_is_legal() {
    let legality = generate_legal();
    let mut merged = IDENTITY;
    merged[3] = 0;
    assert!(legal(merged, &legality));
}

#[test]
fn illegal_stays_illegal_after_a_layer() {
    let legality = generate_legal();
    let mut merged = IDENTITY;
    merged[1] = 0;
    let layer = [15, 14, 13, 12, 11, 10, 9, 8, 7, 6, 5, 4, 3, 2, 1, 0];
    assert!(!legal(through(layer, merged), &legality));
}

#[test]
fn empty_table_is_always_legal() {
    assert!(legal([0; 16], &Vec::new()));
}

#[test]
fn legal_means_target_splits_are_kept_apart() {
    let legality = generate_legal();
    let table = [0, 1, 2, 0, 1, 2, 0, 1, 2, 0, 1, 2, 0, 1, 2, 0];
    assert!(legal(table, &legality));
    let coarse = [0, 1, 1, 0, 1, 1, 0, 1, 1, 0, 1, 1, 0, 1, 1, 0];
    assert!(!legal(coarse, &legality));
}
