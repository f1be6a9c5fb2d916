//! Configuration model: the flat 14-slot record and its validity invariant.
//!
//! Slots `0..7` hold the permutation of the seven movable pieces (each a
//! distinct identifier in `0..7`); slots `7..14` hold their orientations
//! (each `0`, `1` or `2`).  The orientations of a valid configuration always
//! sum to `0` modulo `3`; the last orientation is therefore determined by
//! the first six and is recomputed, never chosen, by the decoder.

use vstd::prelude::*;

verus! {

/// Number of generator moves: `U, U', U2, F, F', F2, R, R', R2`.
pub const NUM_MOVES: u8 = 9;

/// `7!`, the number of permutations of the seven movable pieces.
pub const SEVEN_FACTORIAL: u32 = 5040;

/// `3^6`, the number of orientation combinations of six free pieces.
pub const NUM_ORIENTATIONS: u32 = 729;

/// Size of the dense index space: `7! * 3^6`.
pub const NUM_STATES: u32 = SEVEN_FACTORIAL * NUM_ORIENTATIONS;

/// The solved configuration: identity permutation, all orientations zero.
pub open spec fn spec_solved() -> Seq<u8> {
    seq![0u8, 1u8, 2u8, 3u8, 4u8, 5u8, 6u8, 0u8, 0u8, 0u8, 0u8, 0u8, 0u8, 0u8]
}

/// Sum of all seven orientation values of a 14-slot record.
pub open spec fn orient_sum(s: Seq<u8>) -> int
    recommends
        s.len() == 14,
{
    s[7] + s[8] + s[9] + s[10] + s[11] + s[12] + s[13]
}

/// The first seven slots hold a permutation of `{0, .., 6}`.
pub open spec fn is_perm7(s: Seq<u8>) -> bool {
    &&& forall|i: int| 0 <= i < 7 ==> s[i] < 7
    &&& forall|i: int, j: int| 0 <= i < j < 7 ==> s[i] != s[j]
}

/// Validity invariant of a configuration record.
pub open spec fn valid_state(s: Seq<u8>) -> bool {
    &&& s.len() == 14
    &&& is_perm7(s)
    &&& forall|i: int| 7 <= i < 14 ==> s[i] < 3
    &&& orient_sum(s) % 3 == 0
}

/// Builds the solved configuration record.
pub fn solved_state() -> (s: [u8; 14])
    ensures
        s@ == spec_solved(),
        valid_state(s@),
{
    let mut s: [u8; 14] = [0u8; 14];
    s[1] = 1;
    s[2] = 2;
    s[3] = 3;
    s[4] = 4;
    s[5] = 5;
    s[6] = 6;
    proof {
        assert(s@ =~= spec_solved());
    }
    s
}

} // verus!
