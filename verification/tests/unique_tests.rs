use hlp_brute_force::constants::TARGET;
use hlp_brute_force::layer::groups;
use hlp_brute_force::unique_vec::{config_table, generate_unique};

const IDENTITY: [i16; 16] = [0, 1, 2, 3, 4, 5, 6, 7, 8, 9, 10, 11, 12, 13, 14, 15];

#[test]
fn config_zero_is_identity() {
    assert_eq!(config_table(0), IDENTITY);
}

#[test]
fn single_layers_compute_739_functions() {
    let mut seen: Vec<[i16; 16]> = Vec::new();
    for i in 0..1024 {
        let l = config_table(i);
        if !seen.contains(&l) {
            seen.push(l);
        }
    }
    assert_eq!(seen.len(), 739);
}

#[test]
fn unique_layers_are_distinct_and_wide_enough() {
    let unique = generate_unique();
    assert_eq!(unique.len(), 700);
    assert!(!unique.contains(&IDENTITY));
    for (i, l) in unique.iter().enumerate() {
        assert!(groups(*l) >= groups(TARGET));
        assert!(!unique[i + 1..].contains(l));
    }
    assert_eq!(unique[0], [1, 1, 2, 3, 4, 5, 6, 7, 8, 9, 10, 11, 12, 13, 14, 15]);
    assert_eq!(unique[699], [15, 14, 13, 12, 11, 10, 9, 8, 7, 6, 5, 4, 3, 2, 1, 0]);
}

#[test]
fn unique_layers_cover_every_wide_layer() {
    let unique = generate_unique();
    for i in 1..1024 {
        let l = config_table(i);
        if l != IDENTITY && groups(l) >= groups(TARGET) {
            assert!(unique.contains(&l));
        }
    }
}
