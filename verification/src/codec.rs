//! Bijective indexer: configuration record to dense index and back.
//!
//! The dense index of a record is `perm_rank + orient_rank * 7!`, where
//! `perm_rank` is the factorial-number-system rank of the permutation and
//! `orient_rank` is the base-3 number formed by the six stored orientation
//! values, least significant digit first.  The decoder recomputes the
//! seventh orientation from the sum invariant, so every index in
//! `[0, NUM_STATES)` decodes to a valid record and the pair of maps is a
//! bijection.

use vstd::prelude::*;
use vstd::arithmetic::div_mod::{
    lemma_fundamental_div_mod,
    lemma_fundamental_div_mod_converse,
    lemma_div_denominator,
    lemma_basic_div,
};

use crate::perm::{
    all_below7,
    decode_perm,
    distinct,
    encode_perm,
    init_elems,
    lemma_perm_rank_unrank,
    lemma_perm_unrank_rank,
    lemma_unrank_is_perm,
    rank_perm,
    unrank_perm,
};
use crate::state::{valid_state, orient_sum, NUM_STATES, SEVEN_FACTORIAL};

verus! {

/// Powers of three used as orientation digit weights.
pub open spec fn pow3(j: int) -> int {
    if j <= 0 {
        1
    } else if j == 1 {
        3
    } else if j == 2 {
        9
    } else if j == 3 {
        27
    } else if j == 4 {
        81
    } else {
        243
    }
}

/// Base-3 rank of the six stored orientation values.
pub open spec fn orient_rank(s: Seq<u8>) -> int
    recommends
        s.len() == 14,
{
    s[7] + 3 * s[8] + 9 * s[9] + 27 * s[10] + 81 * s[11] + 243 * s[12]
}

/// Digit `j` of an orientation rank.
pub open spec fn orient_digit(o: int, j: int) -> u8 {
    ((o / pow3(j)) % 3) as u8
}

/// The orientation that the decoder derives for the seventh piece: the
/// value making all seven orientations sum to `0` modulo `3`.
pub open spec fn derived_orient(o: int) -> u8 {
    ((3 - ((orient_digit(o, 0) + orient_digit(o, 1) + orient_digit(o, 2) + orient_digit(o, 3)
        + orient_digit(o, 4) + orient_digit(o, 5)) % 3)) % 3) as u8
}

/// Dense index of a configuration record.
pub open spec fn spec_encode(s: Seq<u8>) -> int
    recommends
        valid_state(s),
{
    rank_perm(init_elems(), s.take(7)) + orient_rank(s) * 5040
}

/// Configuration record of a dense index.
pub open spec fn spec_decode(i: int) -> Seq<u8> {
    unrank_perm(init_elems(), (i % 5040) as nat) + Seq::new(6, |j: int| orient_digit(i / 5040, j))
        + seq![derived_orient(i / 5040)]
}

/// Recomposing the six base-3 digits of `o` gives back `o`.
proof fn lemma_orient_digits_recompose(o: int)
    requires
        0 <= o < 729,
    ensures
        orient_digit(o, 0) + 3 * orient_digit(o, 1) + 9 * orient_digit(o, 2) + 27 * orient_digit(
            o,
            3,
        ) + 81 * orient_digit(o, 4) + 243 * orient_digit(o, 5) == o,
{
    lemma_fundamental_div_mod(o, 3);
    lemma_div_denominator(o, 3, 3);
    lemma_fundamental_div_mod(o / 3, 3);
    lemma_div_denominator(o, 9, 3);
    lemma_fundamental_div_mod(o / 9, 3);
    lemma_div_denominator(o, 27, 3);
    lemma_fundamental_div_mod(o / 27, 3);
    lemma_div_denominator(o, 81, 3);
    lemma_fundamental_div_mod(o / 81, 3);
    lemma_basic_div(o, 729);
    lemma_div_denominator(o, 243, 3);
    lemma_fundamental_div_mod(o / 243, 3);
}

/// Extracting digit `j` from the base-3 number built out of six digits
/// gives back the digit that was put in.
proof fn lemma_orient_digits_extract(d0: u8, d1: u8, d2: u8, d3: u8, d4: u8, d5: u8)
    requires
        d0 < 3,
        d1 < 3,
        d2 < 3,
        d3 < 3,
        d4 < 3,
        d5 < 3,
    ensures
        ({
            let o = d0 + 3 * d1 + 9 * d2 + 27 * d3 + 81 * d4 + 243 * d5;
            &&& 0 <= o < 729
            &&& orient_digit(o, 0) == d0
            &&& orient_digit(o, 1) == d1
            &&& orient_digit(o, 2) == d2
            &&& orient_digit(o, 3) == d3
            &&& orient_digit(o, 4) == d4
            &&& orient_digit(o, 5) == d5
        }),
{
    let o: int = d0 + 3 * d1 + 9 * d2 + 27 * d3 + 81 * d4 + 243 * d5;
    let q1: int = d1 + 3 * d2 + 9 * d3 + 27 * d4 + 81 * d5;
    let q2: int = d2 + 3 * d3 + 9 * d4 + 27 * d5;
    let q3: int = d3 + 3 * d4 + 9 * d5;
    let q4: int = d4 + 3 * d5;
    let q5: int = d5 as int;
    lemma_fundamental_div_mod_converse(o, 3, q1, d0 as int);
    lemma_fundamental_div_mod_converse(q1, 3, q2, d1 as int);
    lemma_fundamental_div_mod_converse(q2, 3, q3, d2 as int);
    lemma_fundamental_div_mod_converse(q3, 3, q4, d3 as int);
    lemma_fundamental_div_mod_converse(q4, 3, q5, d4 as int);
    lemma_fundamental_div_mod_converse(q5, 3, 0, d5 as int);
    lemma_div_denominator(o, 3, 3);
    lemma_div_denominator(o, 9, 3);
    lemma_div_denominator(o, 27, 3);
    lemma_div_denominator(o, 81, 3);
}

/// Every dense index decodes to a valid configuration (in particular the
/// seven orientation values of a decoded record sum to `0` modulo `3`),
/// and re-encoding the record gives back the index.
pub proof fn lemma_encode_decode(i: int)
    requires
        0 <= i < NUM_STATES,
    ensures
        valid_state(spec_decode(i)),
        spec_encode(spec_decode(i)) == i,
{
    let p = i % 5040;
    let o = i / 5040;
    lemma_fundamental_div_mod(i, 5040);
    assert(0 <= p < 5040);
    assert(0 <= o < 729) by {
        if o >= 729 {
            vstd::arithmetic::mul::lemma_mul_inequality(729, o, 5040);
        }
        vstd::arithmetic::div_mod::lemma_div_pos_is_pos(i, 5040);
    }
    let s = spec_decode(i);
    lemma_unrank_is_perm(p as nat);
    let perm = unrank_perm(init_elems(), p as nat);
    assert(s.take(7) =~= perm);
    assert(s.len() == 14);
    assert(forall|j: int| 0 <= j < 6 ==> s[7 + j] == orient_digit(o, j));
    assert(s[13] == derived_orient(o));
    assert(forall|j: int| 7 <= j < 14 ==> s[j] < 3);
    assert(orient_sum(s) % 3 == 0);
    assert(valid_state(s));
    lemma_perm_rank_unrank(p as nat);
    assert(rank_perm(init_elems(), s.take(7)) == p);
    lemma_orient_digits_recompose(o);
    assert(orient_rank(s) == o);
    assert(spec_encode(s) == p + o * 5040);
}

/// Every valid configuration re-appears unchanged after an encode and
/// decode round trip, and its index lies in `[0, NUM_STATES)`.
pub proof fn lemma_decode_encode(s: Seq<u8>)
    requires
        valid_state(s),
    ensures
        0 <= spec_encode(s) < NUM_STATES,
        spec_decode(spec_encode(s)) == s,
{
    let sp = s.take(7);
    assert(sp.len() == 7);
    assert(all_below7(sp, 7));
    assert(distinct(sp));
    lemma_perm_unrank_rank(sp);
    let k = rank_perm(init_elems(), sp) as int;
    let o = orient_rank(s);
    lemma_orient_digits_extract(s[7], s[8], s[9], s[10], s[11], s[12]);
    assert(0 <= o < 729);
    let e = spec_encode(s);
    assert(e == k + o * 5040);
    lemma_fundamental_div_mod_converse(e, 5040, o, k);
    assert(e % 5040 == k && e / 5040 == o);
    assert(0 <= e < NUM_STATES) by {
        vstd::arithmetic::mul::lemma_mul_inequality(o, 728, 5040);
        vstd::arithmetic::mul::lemma_mul_nonnegative(o, 5040);
    }
    let d = spec_decode(e);
    assert(unrank_perm(init_elems(), (e % 5040) as nat) == sp);
    assert(orient_digit(o, 0) == s[7]);
    assert(s[13] == derived_orient(o)) by {
        let sum6 = s[7] + s[8] + s[9] + s[10] + s[11] + s[12];
        assert(orient_sum(s) % 3 == 0);
        assert(s[13] < 3);
    }
    assert(d =~= s);
}

/// Encodes a configuration record as its dense index.
pub fn encode_cube_state(cube_state: &[u8; 14]) -> (r: u32)
    requires
        valid_state(cube_state@),
    ensures
        r == spec_encode(cube_state@),
        r < NUM_STATES,
{
    let o0: u32 = cube_state[7] as u32;
    let o1: u32 = cube_state[8] as u32;
    let o2: u32 = cube_state[9] as u32;
    let o3: u32 = cube_state[10] as u32;
    let o4: u32 = cube_state[11] as u32;
    let o5: u32 = cube_state[12] as u32;
    let orientation_number: u32 = o0 + 3 * o1 + 9 * o2 + 27 * o3 + 81 * o4 + 243 * o5;
    let mut perm: [u8; 7] = [0u8; 7];
    perm[0] = cube_state[0];
    perm[1] = cube_state[1];
    perm[2] = cube_state[2];
    perm[3] = cube_state[3];
    perm[4] = cube_state[4];
    perm[5] = cube_state[5];
    perm[6] = cube_state[6];
    proof {
        assert(perm@ =~= cube_state@.take(7));
    }
    let permutation_number: u32 = encode_perm(perm.as_slice());
    permutation_number + orientation_number * SEVEN_FACTORIAL
}

/// Decodes a dense index into a valid configuration record; the seventh
/// orientation is derived from the sum invariant, never read from the
/// index.
pub fn decode_cube_state(cube_state: u32) -> (r: [u8; 14])
    requires
        cube_state < NUM_STATES,
    ensures
        r@ == spec_decode(cube_state as int),
        valid_state(r@),
        spec_encode(r@) == cube_state,
{
    proof {
        lemma_encode_decode(cube_state as int);
    }
    let permutation_number: u32 = cube_state % SEVEN_FACTORIAL;
    let o: u32 = cube_state / SEVEN_FACTORIAL;
    proof {
        lemma_fundamental_div_mod(cube_state as int, 5040);
        assert(o < 729) by {
            if o >= 729 {
                vstd::arithmetic::mul::lemma_mul_inequality(729, o as int, 5040);
            }
        }
    }
    let perm: [u8; 7] = decode_perm(permutation_number);
    let mut out: [u8; 14] = [0u8; 14];
    out[0] = perm[0];
    out[1] = perm[1];
    out[2] = perm[2];
    out[3] = perm[3];
    out[4] = perm[4];
    out[5] = perm[5];
    out[6] = perm[6];
    let d0: u8 = (o % 3) as u8;
    let r1: u32 = o / 3;
    let d1: u8 = (r1 % 3) as u8;
    let r2: u32 = r1 / 3;
    let d2: u8 = (r2 % 3) as u8;
    let r3: u32 = r2 / 3;
    let d3: u8 = (r3 % 3) as u8;
    let r4: u32 = r3 / 3;
    let d4: u8 = (r4 % 3) as u8;
    let r5: u32 = r4 / 3;
    let d5: u8 = (r5 % 3) as u8;
    proof {
        lemma_div_denominator(o as int, 3, 3);
        lemma_div_denominator(o as int, 9, 3);
        lemma_div_denominator(o as int, 27, 3);
        lemma_div_denominator(o as int, 81, 3);
        assert(r1 == o as int / 3);
        assert(r2 == o as int / 9);
        assert(r3 == o as int / 27);
        assert(r4 == o as int / 81);
        assert(r5 == o as int / 243);
    }
    out[7] = d0;
    out[8] = d1;
    out[9] = d2;
    out[10] = d3;
    out[11] = d4;
    out[12] = d5;
    let orientation_sum: u32 = (d0 + d1 + d2 + d3 + d4 + d5) as u32;
    out[13] = ((3 - (orientation_sum % 3)) % 3) as u8;
    proof {
        assert(out@ =~= spec_decode(cube_state as int));
    }
    out
}

} // verus!
