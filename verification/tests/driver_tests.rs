use hlp_brute_force::constants::TARGET;
use hlp_brute_force::driver::{search_start, search_step, SearchEvent};
use hlp_brute_force::layer::{find_next, through};
use hlp_brute_force::legality::generate_legal;
use hlp_brute_force::union_intersect::{ending_layers, generate_union};

const REVERSE: [i16; 16] = [15, 14, 13, 12, 11, 10, 9, 8, 7, 6, 5, 4, 3, 2, 1, 0];

fn full_pairs() -> Vec<Vec<[usize; 2]>> {
    vec![vec![[0, 0], [1, 1]], vec![[0, 0], [1, 1]]]
}

#[test]
fn search_stops_at_chain_computing_target() {
    let unique = vec![REVERSE, TARGET];
    let pairs = full_pairs();
    let legality = generate_legal();
    let endings = ending_layers(&2, &unique);
    let union = generate_union(&endings, &unique);
    let state = search_start(&unique, 2, &pairs, &legality, &endings);
    let (state, event) = search_step(state, &unique, 2, &pairs, &legality, &endings, &union);
    assert!(matches!(event, SearchEvent::Solved));
    assert!(!state.next_layer);
    assert_eq!(state.candidate, vec![[1, 1]]);
}

#[test]
fn search_finishes_depth_before_accepting_longer_answer() {
    // The first layer maps `REVERSE` to the target.
    let mut finish = [0i16; 16];
    for v in 0..16 {
        finish[v] = TARGET[15 - v];
    }
    assert_eq!(through(finish, REVERSE), TARGET);
    let unique = vec![finish, REVERSE];
    let pairs = full_pairs();
    let legality = generate_legal();
    let endings = ending_layers(&2, &unique);
    let union = generate_union(&endings, &unique);
    let state = search_start(&unique, 2, &pairs, &legality, &endings);
    let (state, event) = search_step(state, &unique, 2, &pairs, &legality, &endings, &union);
    assert!(matches!(event, SearchEvent::Searching));
    assert!(state.next_layer);
    assert_eq!(state.candidate, vec![[1, 1]]);
    let (state, event) = search_step(state, &unique, 2, &pairs, &legality, &endings, &union);
    assert!(matches!(event, SearchEvent::Solved));
    assert!(state.next_layer);
    assert_eq!(state.depth, 3);
    assert_eq!(state.candidate, vec![[1, 1]]);
    assert_eq!(find_next(&state.candidate, &unique, &endings), vec![[1, 1], [0, 0]]);
}

#[test]
fn search_reports_new_depth() {
    let unique = vec![
        [1, 1, 2, 3, 4, 5, 6, 7, 8, 9, 10, 11, 12, 13, 14, 15],
        [2, 2, 2, 3, 4, 5, 6, 7, 8, 9, 10, 11, 12, 13, 14, 15],
        REVERSE,
    ];
    let pairs = vec![vec![[2, 0]], vec![[2, 0]], vec![[0, 0], [1, 1]]];
    let legality = vec![[0, 1]];
    let endings = vec![0];
    let union = generate_union(&endings, &unique);
    let state = search_start(&unique, 3, &pairs, &legality, &endings);
    let (state, event) = search_step(state, &unique, 3, &pairs, &legality, &endings, &union);
    assert!(matches!(event, SearchEvent::Searching));
    assert_eq!(state.count, vec![[1, 1]]);
    let (state, event) = search_step(state, &unique, 3, &pairs, &legality, &endings, &union);
    assert!(matches!(event, SearchEvent::Searching));
    let (state, event) = search_step(state, &unique, 3, &pairs, &legality, &endings, &union);
    assert!(matches!(event, SearchEvent::NewDepth));
    assert_eq!(state.count, vec![[2, 2], [0, 0], [2, 0]]);
    assert!(!state.next_layer);
}

#[test]
fn search_starts_from_first_layer_alone() {
    let unique = vec![REVERSE, TARGET];
    let pairs = full_pairs();
    let legality = generate_legal();
    let endings = ending_layers(&2, &unique);
    let state = search_start(&unique, 2, &pairs, &legality, &endings);
    assert_eq!(state.count, vec![[0, 0]]);
    assert_eq!(state.current, vec![REVERSE]);
    assert_eq!(state.depth, 1);
    assert!(!state.next_layer);
    assert!(state.candidate.is_empty());
}
