use pocket_cube::codec::encode_cube_state;
use pocket_cube::moves::{apply_move, invert_moves};
use pocket_cube::search::{check_full_coverage, explore_all};
use pocket_cube::state::{solved_state, NUM_STATES};

#[test]
fn coverage_check_spots_holes() {
    assert!(check_full_coverage(&vec![Some(vec![]), Some(vec![3u8])]));
    assert!(!check_full_coverage(&vec![Some(vec![]), None]));
    assert!(check_full_coverage(&Vec::new()));
}

#[test]
fn full_search_visits_every_index_with_shortest_paths() {
    let solutions = explore_all();
    assert_eq!(solutions.len(), NUM_STATES as usize);
    // every index of the whole space is reached: full coverage
    assert!(check_full_coverage(&solutions));
    // the solved configuration has the empty solution
    let solved_idx = encode_cube_state(&solved_state()) as usize;
    assert_eq!(solutions[solved_idx].as_ref().unwrap().len(), 0);
    // a configuration one F move from solved has a one-move path whose
    // inversion is exactly F'
    let mut s = solved_state();
    apply_move(&mut s, 3); // F
    let idx = encode_cube_state(&s) as usize;
    let path = solutions[idx].as_ref().unwrap().clone();
    assert_eq!(path, vec![3]);
    assert_eq!(invert_moves(path), vec![4]); // F'
    // no shortest solution exceeds the packing capacity
    assert!(solutions.iter().all(|e| e.as_ref().unwrap().len() <= 12));
    // the solved configuration is the only one with an empty solution
    let zero_len = solutions
        .iter()
        .filter(|e| e.as_ref().unwrap().is_empty())
        .count();
    assert_eq!(zero_len, 1);
    // every configuration one move away from solved has a one-move path
    for m in 0..9u8 {
        let mut t = solved_state();
        apply_move(&mut t, m);
        let ti = encode_cube_state(&t) as usize;
        assert_eq!(solutions[ti].as_ref().unwrap().len(), 1);
    }
}
