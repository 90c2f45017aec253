use hlp_brute_force::constants::TARGET;
use hlp_brute_force::layer::through;
use hlp_brute_force::union_intersect::{ending_layers, generate_union, intersect_check};

const IDENTITY: [i16; 16] = [0, 1, 2, 3, 4, 5, 6, 7, 8, 9, 10, 11, 12, 13, 14, 15];

#[test]
fn ending_layers_lists_every_index() {
    let unique = vec![IDENTITY, TARGET, [0; 16]];
    assert_eq!(ending_layers(&3, &unique), vec![0, 1, 2]);
    assert_eq!(ending_layers(&0, &unique), Vec::<usize>::new());
}

#[test]
fn generate_union_bits() {
    let unique = vec![IDENTITY, TARGET];
    let endings = vec![0, 1];
    let union = generate_union(&endings, &unique);
    assert_eq!(union.len(), 16);
    // Input 4 must become TARGET[4] = 1: the identity sends output 1 there,
    // the target sends outputs 1, 4, 7, 10 and 13 there.
    assert!(union[4][1].eq_vec(&[true, true]));
    assert!(union[4][4].eq_vec(&[false, true]));
    assert!(union[4][2].eq_vec(&[false, false]));
    assert_eq!(union[0][0].len(), 2);
}

#[test]
fn intersect_finds_completing_layer() {
    let unique = vec![IDENTITY, TARGET];
    let endings = vec![0, 1];
    let union = generate_union(&endings, &unique);
    assert!(intersect_check(IDENTITY, &union));
    assert!(intersect_check(TARGET, &union));
}

#[test]
fn intersect_rejects_unreachable_function() {
    let unique = vec![IDENTITY, TARGET];
    let endings = vec![0, 1];
    let union = generate_union(&endings, &unique);
    assert!(!intersect_check([0; 16], &union));
}

#[test]
fn intersect_agrees_with_trying_every_ending() {
    let reverse = [15, 14, 13, 12, 11, 10, 9, 8, 7, 6, 5, 4, 3, 2, 1, 0];
    let shifted = [1, 2, 0, 1, 2, 0, 1, 2, 0, 1, 2, 0, 1, 2, 0, 1];
    let unique = vec![reverse, shifted, TARGET];
    let endings = vec![0, 1, 2];
    let union = generate_union(&endings, &unique);
    let outputs = [IDENTITY, reverse, [0; 16], TARGET, shifted];
    for output in outputs {
        let direct = endings.iter().any(|e| through(unique[*e], output) == TARGET);
        assert_eq!(intersect_check(output, &union), direct);
    }
}

#[test]
fn empty_endings_never_intersect() {
    let unique = vec![IDENTITY];
    let union = generate_union(&Vec::new(), &unique);
    assert!(!intersect_check(IDENTITY, &union));
}
