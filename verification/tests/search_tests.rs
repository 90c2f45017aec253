use hlp_brute_force::constants::TARGET;
use hlp_brute_force::layer::through;
use hlp_brute_force::legality::{generate_legal, legal};
use hlp_brute_force::pair_vec::{generate_pairs, pack};
use hlp_brute_force::search::{iter8, next};

const REVERSE: [i16; 16] = [15, 14, 13, 12, 11, 10, 9, 8, 7, 6, 5, 4, 3, 2, 1, 0];

fn small_unique() -> Vec<[i16; 16]> {
    vec![
        [1, 1, 2, 3, 4, 5, 6, 7, 8, 9, 10, 11, 12, 13, 14, 15],
        [2, 2, 2, 3, 4, 5, 6, 7, 8, 9, 10, 11, 12, 13, 14, 15],
        REVERSE,
    ]
}

#[test]
fn generate_pairs_on_small_set() {
    let pairs = generate_pairs(&small_unique());
    assert_eq!(pairs, vec![vec![[2, 0]], vec![[2, 0]], vec![[0, 0], [1, 1]]]);
}

#[test]
fn generate_pairs_entries_know_their_position() {
    let pairs = generate_pairs(&small_unique());
    for row in &pairs {
        for (k, entry) in row.iter().enumerate() {
            assert_eq!(entry[1], k);
            assert!(entry[0] < 3);
        }
    }
}

#[test]
fn iter8_moves_first_layer() {
    let pairs = generate_pairs(&small_unique());
    assert_eq!(iter8(vec![[0, 0]], 0, 0, 3, 1, &pairs), (vec![[1, 1]], 0, 0, 1));
}

#[test]
fn iter8_grows_chain_when_first_layer_is_exhausted() {
    let pairs = generate_pairs(&small_unique());
    assert_eq!(iter8(vec![[2, 2]], 0, 0, 3, 1, &pairs), (vec![[0, 0], [2, 0], [0, 0]], 0, 2, 3));
}

#[test]
fn iter8_carries_over_exhausted_rows() {
    let pairs = generate_pairs(&small_unique());
    assert_eq!(
        iter8(vec![[0, 0], [2, 0], [1, 1]], 2, 2, 3, 3, &pairs),
        (vec![[1, 1], [2, 0], [0, 0]], 0, 2, 3)
    );
}

#[test]
fn iter8_backs_off_empty_rows() {
    let pairs = vec![vec![[0, 0], [1, 1]], vec![]];
    assert_eq!(iter8(vec![[0, 0], [1, 1]], 1, 1, 2, 2, &pairs), (vec![[0, 0]; 4], 0, 3, 4));
}

#[test]
fn next_walks_the_search_order() {
    let unique = small_unique();
    let pairs = generate_pairs(&unique);
    let legality = vec![[0, 1]];
    let (count, current, depth) = next(vec![[0, 0]], vec![unique[0]], 1, &unique, 3, &pairs, &legality);
    assert_eq!((count.clone(), depth), (vec![[1, 1]], 1));
    assert_eq!(current, vec![unique[1]]);
    let (count, current, depth) = next(count, current, depth, &unique, 3, &pairs, &legality);
    assert_eq!((count.clone(), depth), (vec![[2, 2]], 1));
    let (count, current, depth) = next(count, current, depth, &unique, 3, &pairs, &legality);
    assert_eq!((count.clone(), depth), (vec![[2, 2], [0, 0], [2, 0]], 3));
    assert_eq!(
        current,
        vec![
            REVERSE,
            [15, 14, 13, 12, 11, 10, 9, 8, 7, 6, 5, 4, 3, 2, 1, 1],
            [0, 1, 2, 3, 4, 5, 6, 7, 8, 9, 10, 11, 12, 13, 14, 14],
        ]
    );
    let (count, _current, depth) = next(count, current, depth, &unique, 3, &pairs, &legality);
    assert_eq!((count, depth), (vec![[2, 2], [1, 1], [2, 0]], 3));
}

#[test]
fn generated_pairs_compute_new_functions() {
    let unique = hlp_brute_force::unique_vec::generate_unique();
    let some: Vec<[i16; 16]> = unique[..40].to_vec();
    let pairs = generate_pairs(&some);
    let identity: [i16; 16] = [0, 1, 2, 3, 4, 5, 6, 7, 8, 9, 10, 11, 12, 13, 14, 15];
    let mut passes: Vec<[i16; 16]> = Vec::new();
    for (f, row) in pairs.iter().enumerate() {
        for entry in row {
            let pass = through(some[entry[0]], some[f]);
            assert_ne!(pass, identity);
            assert!(!some.contains(&pass));
            assert!(!passes.contains(&pass));
            passes.push(pass);
        }
    }
}

#[test]
fn passed_over_chains_do_not_reach_target() {
    let legality = generate_legal();
    // A prefix that merges inputs 0 and 1 stays illegal, so no continuation reaches the target.
    let merged = [0, 0, 2, 3, 4, 5, 6, 7, 8, 9, 10, 11, 12, 13, 14, 15];
    assert!(!legal(merged, &legality));
    for layer in hlp_brute_force::unique_vec::generate_unique() {
        assert_ne!(through(layer, merged), TARGET);
    }
}

#[test]
fn iter8_skips_layer_without_followers() {
    let pairs = vec![vec![[1, 0], [2, 1]], vec![], vec![[0, 0], [1, 1]]];
    assert_eq!(iter8(vec![[0, 0], [2, 1]], 1, 1, 3, 2, &pairs), (vec![[2, 2], [0, 0]], 0, 1, 2));
}

#[test]
fn iter8_steps_without_carry() {
    let pairs = vec![vec![[1, 0], [2, 1]], vec![[2, 0]], vec![[0, 0], [1, 1]]];
    assert_eq!(iter8(vec![[0, 0], [1, 0]], 1, 1, 3, 2, &pairs), (vec![[0, 0], [2, 1]], 1, 1, 2));
}

#[test]
fn iter8_reports_lowest_changed_position() {
    let pairs = vec![vec![[1, 0]], vec![[2, 0], [0, 1]], vec![]];
    assert_eq!(
        iter8(vec![[0, 0], [1, 0], [0, 1]], 2, 2, 3, 3, &pairs),
        (vec![[1, 1], [0, 1], [1, 0]], 0, 2, 3)
    );
}

#[test]
fn next_recomputes_outputs_after_empty_rows() {
    let unique = small_unique();
    let pairs = vec![vec![[1, 0]], vec![[2, 0], [0, 1]], vec![]];
    let count = vec![[0, 0], [1, 0], [0, 1]];
    let current = vec![
        unique[0],
        through(unique[1], unique[0]),
        through(unique[0], through(unique[1], unique[0])),
    ];
    let (count, current, depth) = next(count, current, 3, &unique, 3, &pairs, &Vec::new());
    assert_eq!((count.clone(), depth), (vec![[1, 1], [0, 1], [1, 0]], 3));
    assert_eq!(current[0], unique[1]);
    assert_eq!(current[1], through(unique[0], unique[1]));
    assert_eq!(current[2], through(unique[1], current[1]));
}

#[test]
fn pack_separates_tables() {
    use_pack();
}

fn use_pack() {
    let a: [i16; 16] = [0, 1, 2, 3, 4, 5, 6, 7, 8, 9, 10, 11, 12, 13, 14, 15];
    let b: [i16; 16] = [1, 0, 2, 3, 4, 5, 6, 7, 8, 9, 10, 11, 12, 13, 14, 15];
    assert_eq!(pack(&a), 0xfedc_ba98_7654_3210);
    assert_ne!(pack(&a), pack(&b));
    assert_eq!(pack(&REVERSE), 0x0123_4567_89ab_cdef);
}

#[test]
fn full_pair_table_has_no_empty_row() {
    let unique = hlp_brute_force::unique_vec::generate_unique();
    let pairs = generate_pairs(&unique);
    assert_eq!(pairs.len(), 700);
    assert!(pairs.iter().all(|row| !row.is_empty()));
    assert_eq!(pairs.iter().map(|row| row.len()).sum::<usize>(), 150897);
}

#[test]
fn next_accepts_outputs_beyond_depth() {
    let unique = small_unique();
    let pairs = generate_pairs(&unique);
    let legality = vec![[0, 1]];
    let (count, current, depth) =
        next(vec![[0, 0]], vec![unique[0], REVERSE], 1, &unique, 3, &pairs, &legality);
    assert_eq!((count, depth), (vec![[1, 1]], 1));
    assert_eq!(current, vec![unique[1], REVERSE]);
}

#[test]
fn next_without_legality_is_one_iter8_step() {
    let unique = small_unique();
    let pairs = generate_pairs(&unique);
    let identity: [i16; 16] = [0, 1, 2, 3, 4, 5, 6, 7, 8, 9, 10, 11, 12, 13, 14, 15];
    let count = vec![[2, 2], [0, 0], [2, 0]];
    let out0 = through(unique[2], identity);
    let out1 = through(unique[0], out0);
    let out2 = through(unique[2], out1);
    let (c2, _current, d2) =
        next(count.clone(), vec![out0, out1, out2], 3, &unique, 3, &pairs, &Vec::new());
    let (c3, _change, _last, d3) = iter8(count, 2, 2, 3, 3, &pairs);
    assert_eq!((c2.clone(), d2), (c3, d3));
    assert_eq!(c2, vec![[2, 2], [1, 1], [2, 0]]);
}
