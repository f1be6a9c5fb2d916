use pocket_cube::codec::{decode_cube_state, encode_cube_state};
use pocket_cube::moves::{apply_move, inverse_move, invert_moves};
use pocket_cube::names::{decode_move, decode_pretty_print_moves, encode_move};
use pocket_cube::pack::{build_binary_table, encode_solution_as_bytes};
use pocket_cube::state::{solved_state, NUM_MOVES, NUM_STATES, SEVEN_FACTORIAL};

fn is_valid(s: &[u8; 14]) -> bool {
    let mut seen = [false; 7];
    for i in 0..7 {
        if s[i] >= 7 || seen[s[i] as usize] {
            return false;
        }
        seen[s[i] as usize] = true;
    }
    let mut sum: u32 = 0;
    for i in 7..14 {
        if s[i] >= 3 {
            return false;
        }
        sum += s[i] as u32;
    }
    sum % 3 == 0
}

#[test]
fn solved_state_is_identity() {
    let s = solved_state();
    assert_eq!(s, [0, 1, 2, 3, 4, 5, 6, 0, 0, 0, 0, 0, 0, 0]);
    assert!(is_valid(&s));
}

#[test]
fn solved_encodes_into_orientation_zero_block() {
    let s = solved_state();
    let idx = encode_cube_state(&s);
    // the all-zero orientation rank puts the solved configuration into
    // the first block of 7! indices; within it, the swap-to-end walk
    // gives the identity permutation the fixed rank 4921
    assert!(idx < SEVEN_FACTORIAL);
    assert_eq!(idx, 4921);
    assert_eq!(decode_cube_state(idx), s);
}

#[test]
fn round_trip_encode_decode_sampled_indices() {
    let mut i: u32 = 0;
    while i < NUM_STATES {
        let s = decode_cube_state(i);
        assert_eq!(encode_cube_state(&s), i);
        i += 997;
    }
    let s = decode_cube_state(NUM_STATES - 1);
    assert_eq!(encode_cube_state(&s), NUM_STATES - 1);
}

#[test]
fn round_trip_decode_encode_scrambled_states() {
    // walk a fixed pseudo-random move sequence; every prefix gives a
    // valid configuration that must survive the round trip
    let mut s = solved_state();
    let mut seed: u32 = 12345;
    for _ in 0..200 {
        seed = seed.wrapping_mul(1664525).wrapping_add(1013904223);
        let m = (seed >> 16) as u8 % NUM_MOVES;
        apply_move(&mut s, m);
        assert!(is_valid(&s));
        let idx = encode_cube_state(&s);
        assert!(idx < NUM_STATES);
        assert_eq!(decode_cube_state(idx), s);
    }
}

#[test]
fn decoded_orientation_sum_is_zero_mod_three() {
    let mut i: u32 = 0;
    while i < NUM_STATES {
        let s = decode_cube_state(i);
        let sum: u32 = s[7..14].iter().map(|&x| x as u32).sum();
        assert_eq!(sum % 3, 0);
        assert!(is_valid(&s));
        i += 12289;
    }
}

#[test]
fn move_closure_preserves_validity() {
    for m in 0..NUM_MOVES {
        let mut s = solved_state();
        assert!(is_valid(&s));
        apply_move(&mut s, m);
        assert!(is_valid(&s));
        // also from a scrambled configuration
        let mut t = decode_cube_state(1234567);
        apply_move(&mut t, m);
        assert!(is_valid(&t));
    }
}

#[test]
fn move_then_inverse_restores_configuration() {
    for m in 0..NUM_MOVES {
        let mut s = decode_cube_state(2718281);
        let before = s;
        apply_move(&mut s, m);
        apply_move(&mut s, inverse_move(m));
        assert_eq!(s, before);
    }
}

#[test]
fn u_then_u_prime_is_identity_on_solved() {
    let mut s = solved_state();
    apply_move(&mut s, 0); // U
    apply_move(&mut s, 1); // U'
    assert_eq!(s, solved_state());
}

#[test]
fn inverse_move_table() {
    let expected = [1u8, 0, 2, 4, 3, 5, 7, 6, 8];
    for m in 0..9u8 {
        assert_eq!(inverse_move(m), expected[m as usize]);
        assert_eq!(inverse_move(inverse_move(m)), m);
    }
}

#[test]
fn invert_moves_reverses_and_inverts() {
    // U F R2 inverted is R2 F' U'
    assert_eq!(invert_moves(vec![0, 3, 8]), vec![8, 4, 1]);
    assert_eq!(invert_moves(vec![]), vec![]);
    // one move F from solved is undone by F'
    assert_eq!(invert_moves(vec![3]), vec![4]);
}

#[test]
fn one_move_from_solved_inverts_to_single_inverse() {
    // a configuration reached by exactly one move F from solved is taken
    // back to solved by the inverted one-move sequence F'
    let mut s = solved_state();
    apply_move(&mut s, 3); // F
    let back = invert_moves(vec![3]);
    assert_eq!(back, vec![4]); // F'
    for m in back {
        apply_move(&mut s, m);
    }
    assert_eq!(s, solved_state());
}

#[test]
fn move_names_are_a_bijection() {
    let names = ["U", "U'", "U2", "F", "F'", "F2", "R", "R'", "R2"];
    for m in 0..9u8 {
        assert_eq!(decode_move(m), names[m as usize]);
        assert_eq!(encode_move(names[m as usize]), m);
    }
}

#[test]
fn pretty_print_renders_space_separated_names() {
    assert_eq!(decode_pretty_print_moves(vec![0, 1, 2]), "U U' U2");
    assert_eq!(decode_pretty_print_moves(vec![3]), "F");
    assert_eq!(decode_pretty_print_moves(vec![]), "");
    assert_eq!(decode_pretty_print_moves(vec![6, 7, 8, 5]), "R R' R2 F2");
}

fn unpack(bytes: &[u8]) -> Vec<u8> {
    let mut out = Vec::new();
    for j in 0..12 {
        let b = bytes[j / 2];
        let nib = if j % 2 == 0 { b & 0x0f } else { b >> 4 };
        if nib == 15 {
            break;
        }
        out.push(nib);
    }
    out
}

#[test]
fn packing_round_trip_for_all_lengths() {
    for len in 0..=12usize {
        let sol: Vec<u8> = (0..len).map(|i| (i % 9) as u8).collect();
        let bytes = encode_solution_as_bytes(sol.clone());
        assert_eq!(bytes.len(), 6);
        assert_eq!(unpack(&bytes), sol);
    }
}

#[test]
fn packing_pads_with_sentinel_nibbles() {
    let bytes = encode_solution_as_bytes(vec![3]);
    // low nibble of byte 0 is the move, every other nibble is 15
    assert_eq!(bytes[0], 3 + (15 << 4));
    for b in 1..6 {
        assert_eq!(bytes[b], 0xff);
    }
    let empty = encode_solution_as_bytes(vec![]);
    assert_eq!(empty, vec![0xff; 6]);
}

#[test]
fn binary_table_is_directly_indexable() {
    let table = vec![Some(vec![]), Some(vec![0u8, 3]), Some(vec![8u8])];
    let bytes = build_binary_table(&table).expect("all records fit");
    assert_eq!(bytes.len(), 18);
    assert_eq!(unpack(&bytes[0..6]), Vec::<u8>::new());
    assert_eq!(unpack(&bytes[6..12]), vec![0, 3]);
    assert_eq!(unpack(&bytes[12..18]), vec![8]);
}

#[test]
fn binary_table_rejects_inconsistent_input() {
    // a hole in the table is a fatal consistency error
    assert!(build_binary_table(&vec![Some(vec![]), None]).is_none());
    // a solution longer than the packing capacity is one too
    let long: Vec<u8> = vec![0; 13];
    assert!(build_binary_table(&vec![Some(long)]).is_none());
    // an out-of-range move identifier cannot be packed
    assert!(build_binary_table(&vec![Some(vec![15u8])]).is_none());
}
