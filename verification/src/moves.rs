//! Transition function: the nine generator moves and their inverses.
//!
//! Each move 4-cycles the four pieces of one face.  `F` and `R` moves also
//! twist the orientations of the four pieces they touch (`+1` or `+2`
//! modulo `3`, depending on where a piece lands); `U` moves only permute,
//! because the turn axis of `U` cannot change the tracked orientation
//! marker.  Move identifiers are `0..9` in the order
//! `U, U', U2, F, F', F2, R, R', R2`.

use vstd::prelude::*;

use crate::state::{valid_state, orient_sum, is_perm7, NUM_MOVES};

verus! {

/// Orientation twist: `(a + d) mod 3`.
pub open spec fn add3(a: u8, d: int) -> u8 {
    (((a as int) + d) % 3) as u8
}

/// Effect of `U`: 4-cycle of pieces 0,1,2,3, no orientation change.
pub open spec fn spec_move_u(s: Seq<u8>) -> Seq<u8> {
    s.update(0, s[3]).update(1, s[0]).update(2, s[1]).update(3, s[2]).update(7, s[10]).update(
        8,
        s[7],
    ).update(9, s[8]).update(10, s[9])
}

/// Effect of `U'`.
pub open spec fn spec_move_up(s: Seq<u8>) -> Seq<u8> {
    s.update(0, s[1]).update(1, s[2]).update(2, s[3]).update(3, s[0]).update(7, s[8]).update(
        8,
        s[9],
    ).update(9, s[10]).update(10, s[7])
}

/// Effect of `U2`.
pub open spec fn spec_move_u2(s: Seq<u8>) -> Seq<u8> {
    s.update(0, s[2]).update(1, s[3]).update(2, s[0]).update(3, s[1]).update(7, s[9]).update(
        8,
        s[10],
    ).update(9, s[7]).update(10, s[8])
}

/// Effect of `F`: 4-cycle of pieces 3,2,5,4 with orientation twists.
pub open spec fn spec_move_f(s: Seq<u8>) -> Seq<u8> {
    s.update(3, s[4]).update(2, s[3]).update(5, s[2]).update(4, s[5]).update(
        10,
        add3(s[11], 1),
    ).update(9, add3(s[10], 2)).update(12, add3(s[9], 1)).update(11, add3(s[12], 2))
}

/// Effect of `F'`.
pub open spec fn spec_move_fp(s: Seq<u8>) -> Seq<u8> {
    s.update(3, s[2]).update(2, s[5]).update(5, s[4]).update(4, s[3]).update(
        10,
        add3(s[9], 1),
    ).update(9, add3(s[12], 2)).update(12, add3(s[11], 1)).update(11, add3(s[10], 2))
}

/// Effect of `F2`.
pub open spec fn spec_move_f2(s: Seq<u8>) -> Seq<u8> {
    s.update(3, s[5]).update(2, s[4]).update(5, s[3]).update(4, s[2]).update(10, s[12]).update(
        9,
        s[11],
    ).update(12, s[10]).update(11, s[9])
}

/// Effect of `R`: 4-cycle of pieces 2,1,6,5 with orientation twists.
pub open spec fn spec_move_r(s: Seq<u8>) -> Seq<u8> {
    s.update(2, s[5]).update(1, s[2]).update(6, s[1]).update(5, s[6]).update(
        9,
        add3(s[12], 1),
    ).update(8, add3(s[9], 2)).update(13, add3(s[8], 1)).update(12, add3(s[13], 2))
}

/// Effect of `R'`.
pub open spec fn spec_move_rp(s: Seq<u8>) -> Seq<u8> {
    s.update(2, s[1]).update(1, s[6]).update(6, s[5]).update(5, s[2]).update(
        9,
        add3(s[8], 1),
    ).update(8, add3(s[13], 2)).update(13, add3(s[12], 1)).update(12, add3(s[9], 2))
}

/// Effect of `R2`.
pub open spec fn spec_move_r2(s: Seq<u8>) -> Seq<u8> {
    s.update(2, s[6]).update(1, s[5]).update(6, s[2]).update(5, s[1]).update(9, s[13]).update(
        8,
        s[12],
    ).update(13, s[9]).update(12, s[8])
}

/// What one generator move does to a configuration record.
pub open spec fn spec_apply(s: Seq<u8>, m: u8) -> Seq<u8>
    recommends
        valid_state(s),
        m < 9,
{
    if m == 0 {
        spec_move_u(s)
    } else if m == 1 {
        spec_move_up(s)
    } else if m == 2 {
        spec_move_u2(s)
    } else if m == 3 {
        spec_move_f(s)
    } else if m == 4 {
        spec_move_fp(s)
    } else if m == 5 {
        spec_move_f2(s)
    } else if m == 6 {
        spec_move_r(s)
    } else if m == 7 {
        spec_move_rp(s)
    } else {
        spec_move_r2(s)
    }
}

proof fn lemma_valid_u(s: Seq<u8>)
    requires
        valid_state(s),
    ensures
        valid_state(spec_move_u(s)),
{
    assert(valid_state(spec_move_u(s)));
}

proof fn lemma_valid_up(s: Seq<u8>)
    requires
        valid_state(s),
    ensures
        valid_state(spec_move_up(s)),
{
    assert(valid_state(spec_move_up(s)));
}

proof fn lemma_valid_u2(s: Seq<u8>)
    requires
        valid_state(s),
    ensures
        valid_state(spec_move_u2(s)),
{
    assert(valid_state(spec_move_u2(s)));
}

#[verifier::rlimit(100)]
proof fn lemma_valid_f(s: Seq<u8>)
    requires
        valid_state(s),
    ensures
        valid_state(spec_move_f(s)),
{
    let t = spec_move_f(s);
    assert(t.len() == 14);
    assert(is_perm7(t));
    assert(forall|i: int| 7 <= i < 14 ==> t[i] < 3);
    assert(orient_sum(t) % 3 == 0);
}

#[verifier::rlimit(100)]
proof fn lemma_valid_fp(s: Seq<u8>)
    requires
        valid_state(s),
    ensures
        valid_state(spec_move_fp(s)),
{
    let t = spec_move_fp(s);
    assert(t.len() == 14);
    assert(is_perm7(t));
    assert(forall|i: int| 7 <= i < 14 ==> t[i] < 3);
    assert(orient_sum(t) % 3 == 0);
}

proof fn lemma_valid_f2(s: Seq<u8>)
    requires
        valid_state(s),
    ensures
        valid_state(spec_move_f2(s)),
{
    assert(valid_state(spec_move_f2(s)));
}

#[verifier::rlimit(100)]
proof fn lemma_valid_r(s: Seq<u8>)
    requires
        valid_state(s),
    ensures
        valid_state(spec_move_r(s)),
{
    let t = spec_move_r(s);
    assert(t.len() == 14);
    assert(is_perm7(t));
    assert(forall|i: int| 7 <= i < 14 ==> t[i] < 3);
    assert(orient_sum(t) % 3 == 0);
}

#[verifier::rlimit(100)]
proof fn lemma_valid_rp(s: Seq<u8>)
    requires
        valid_state(s),
    ensures
        valid_state(spec_move_rp(s)),
{
    let t = spec_move_rp(s);
    assert(t.len() == 14);
    assert(is_perm7(t));
    assert(forall|i: int| 7 <= i < 14 ==> t[i] < 3);
    assert(orient_sum(t) % 3 == 0);
}

proof fn lemma_valid_r2(s: Seq<u8>)
    requires
        valid_state(s),
    ensures
        valid_state(spec_move_r2(s)),
{
    assert(valid_state(spec_move_r2(s)));
}

/// A valid configuration stays valid under every generator move.
pub proof fn lemma_move_closure(s: Seq<u8>, m: u8)
    requires
        valid_state(s),
        m < 9,
    ensures
        valid_state(spec_apply(s, m)),
        spec_apply(s, m).len() == 14,
{
    if m == 0 {
        lemma_valid_u(s);
    } else if m == 1 {
        lemma_valid_up(s);
    } else if m == 2 {
        lemma_valid_u2(s);
    } else if m == 3 {
        lemma_valid_f(s);
    } else if m == 4 {
        lemma_valid_fp(s);
    } else if m == 5 {
        lemma_valid_f2(s);
    } else if m == 6 {
        lemma_valid_r(s);
    } else if m == 7 {
        lemma_valid_rp(s);
    } else {
        lemma_valid_r2(s);
    }
}

/// The statically known inverse of each generator move.
pub open spec fn spec_inverse(m: u8) -> u8 {
    if m == 0 {
        1
    } else if m == 1 {
        0
    } else if m == 2 {
        2
    } else if m == 3 {
        4
    } else if m == 4 {
        3
    } else if m == 5 {
        5
    } else if m == 6 {
        7
    } else if m == 7 {
        6
    } else {
        8
    }
}

proof fn lemma_inverse_u(s: Seq<u8>)
    requires
        valid_state(s),
    ensures
        spec_move_up(spec_move_u(s)) == s,
{
    assert(spec_move_up(spec_move_u(s)) =~= s);
}

proof fn lemma_inverse_up(s: Seq<u8>)
    requires
        valid_state(s),
    ensures
        spec_move_u(spec_move_up(s)) == s,
{
    assert(spec_move_u(spec_move_up(s)) =~= s);
}

proof fn lemma_inverse_u2(s: Seq<u8>)
    requires
        valid_state(s),
    ensures
        spec_move_u2(spec_move_u2(s)) == s,
{
    assert(spec_move_u2(spec_move_u2(s)) =~= s);
}

#[verifier::rlimit(100)]
proof fn lemma_inverse_f(s: Seq<u8>)
    requires
        valid_state(s),
    ensures
        spec_move_fp(spec_move_f(s)) == s,
{
    let t = spec_move_f(s);
    let u = spec_move_fp(t);
    assert(u[9] == s[9]);
    assert(u[10] == s[10]);
    assert(u[11] == s[11]);
    assert(u[12] == s[12]);
    assert(u =~= s);
}



#[verifier::rlimit(100)]
proof fn lemma_inverse_fp(s: Seq<u8>)
    requires
        valid_state(s),
    ensures
        spec_move_f(spec_move_fp(s)) == s,
{
    let t = spec_move_fp(s);
    let u = spec_move_f(t);
    assert(u[9] == s[9]);
    assert(u[10] == s[10]);
    assert(u[11] == s[11]);
    assert(u[12] == s[12]);
    assert(u =~= s);
}

proof fn lemma_inverse_f2(s: Seq<u8>)
    requires
        valid_state(s),
    ensures
        spec_move_f2(spec_move_f2(s)) == s,
{
    assert(spec_move_f2(spec_move_f2(s)) =~= s);
}

#[verifier::rlimit(100)]
proof fn lemma_inverse_r(s: Seq<u8>)
    requires
        valid_state(s),
    ensures
        spec_move_rp(spec_move_r(s)) == s,
{
    let t = spec_move_r(s);
    let u = spec_move_rp(t);
    assert(u[8] == s[8]);
    assert(u[9] == s[9]);
    assert(u[12] == s[12]);
    assert(u[13] == s[13]);
    assert(u =~= s);
}

#[verifier::rlimit(100)]
proof fn lemma_inverse_rp(s: Seq<u8>)
    requires
        valid_state(s),
    ensures
        spec_move_r(spec_move_rp(s)) == s,
{
    let t = spec_move_rp(s);
    let u = spec_move_r(t);
    assert(u[8] == s[8]);
    assert(u[9] == s[9]);
    assert(u[12] == s[12]);
    assert(u[13] == s[13]);
    assert(u =~= s);
}

proof fn lemma_inverse_r2(s: Seq<u8>)
    requires
        valid_state(s),
    ensures
        spec_move_r2(spec_move_r2(s)) == s,
{
    assert(spec_move_r2(spec_move_r2(s)) =~= s);
}

/// A move followed by its inverse restores the configuration.
pub proof fn lemma_apply_inverse(s: Seq<u8>, m: u8)
    requires
        valid_state(s),
        m < 9,
    ensures
        spec_apply(spec_apply(s, m), spec_inverse(m)) == s,
{
    if m == 0 {
        lemma_inverse_u(s);
    } else if m == 1 {
        lemma_inverse_up(s);
    } else if m == 2 {
        lemma_inverse_u2(s);
    } else if m == 3 {
        lemma_inverse_f(s);
    } else if m == 4 {
        lemma_inverse_fp(s);
    } else if m == 5 {
        lemma_inverse_f2(s);
    } else if m == 6 {
        lemma_inverse_r(s);
    } else if m == 7 {
        lemma_inverse_rp(s);
    } else {
        lemma_inverse_r2(s);
    }
}

/// Applies one generator move in place.
pub fn apply_move(s: &mut [u8; 14], move_: u8)
    requires
        valid_state(old(s)@),
        move_ < NUM_MOVES,
    ensures
        final(s)@ == spec_apply(old(s)@, move_),
        valid_state(final(s)@),
{
    if move_ == 0 {
        let a: u8 = s[0];
        let b: u8 = s[1];
        let c: u8 = s[2];
        s[0] = s[3];
        s[1] = a;
        s[2] = b;
        s[3] = c;
        let a: u8 = s[7];
        let b: u8 = s[8];
        let c: u8 = s[9];
        s[7] = s[10];
        s[8] = a;
        s[9] = b;
        s[10] = c;
    } else if move_ == 1 {
        let a: u8 = s[0];
        s[0] = s[1];
        s[1] = s[2];
        s[2] = s[3];
        s[3] = a;
        let a: u8 = s[7];
        s[7] = s[8];
        s[8] = s[9];
        s[9] = s[10];
        s[10] = a;
    } else if move_ == 2 {
        let a: u8 = s[0];
        let b: u8 = s[1];
        s[0] = s[2];
        s[1] = s[3];
        s[2] = a;
        s[3] = b;
        let a: u8 = s[7];
        let b: u8 = s[8];
        s[7] = s[9];
        s[8] = s[10];
        s[9] = a;
        s[10] = b;
    } else if move_ == 3 {
        let a: u8 = s[3];
        s[3] = s[4];
        s[4] = s[5];
        s[5] = s[2];
        s[2] = a;
        let o9: u8 = s[9];
        let o10: u8 = s[10];
        let o11: u8 = s[11];
        let o12: u8 = s[12];
        s[10] = (o11 + 1) % 3;
        s[9] = (o10 + 2) % 3;
        s[12] = (o9 + 1) % 3;
        s[11] = (o12 + 2) % 3;
    } else if move_ == 4 {
        let a: u8 = s[3];
        s[3] = s[2];
        s[2] = s[5];
        s[5] = s[4];
        s[4] = a;
        let o9: u8 = s[9];
        let o10: u8 = s[10];
        let o11: u8 = s[11];
        let o12: u8 = s[12];
        s[10] = (o9 + 1) % 3;
        s[9] = (o12 + 2) % 3;
        s[12] = (o11 + 1) % 3;
        s[11] = (o10 + 2) % 3;
    } else if move_ == 5 {
        let a: u8 = s[3];
        let b: u8 = s[2];
        s[3] = s[5];
        s[2] = s[4];
        s[5] = a;
        s[4] = b;
        let o9: u8 = s[9];
        let o10: u8 = s[10];
        s[10] = s[12];
        s[9] = s[11];
        s[12] = o10;
        s[11] = o9;
    } else if move_ == 6 {
        let a: u8 = s[2];
        s[2] = s[5];
        s[5] = s[6];
        s[6] = s[1];
        s[1] = a;
        let o8: u8 = s[8];
        let o9: u8 = s[9];
        let o12: u8 = s[12];
        let o13: u8 = s[13];
        s[9] = (o12 + 1) % 3;
        s[8] = (o9 + 2) % 3;
        s[13] = (o8 + 1) % 3;
        s[12] = (o13 + 2) % 3;
    } else if move_ == 7 {
        let a: u8 = s[2];
        s[2] = s[1];
        s[1] = s[6];
        s[6] = s[5];
        s[5] = a;
        let o8: u8 = s[8];
        let o9: u8 = s[9];
        let o12: u8 = s[12];
        let o13: u8 = s[13];
        s[9] = (o8 + 1) % 3;
        s[8] = (o13 + 2) % 3;
        s[13] = (o12 + 1) % 3;
        s[12] = (o9 + 2) % 3;
    } else {
        let a: u8 = s[2];
        let b: u8 = s[1];
        s[2] = s[6];
        s[1] = s[5];
        s[6] = a;
        s[5] = b;
        let o8: u8 = s[8];
        let o9: u8 = s[9];
        s[9] = s[13];
        s[8] = s[12];
        s[13] = o9;
        s[12] = o8;
    }
    proof {
        lemma_move_closure(old(s)@, move_);
        assert(s@ =~= spec_apply(old(s)@, move_));
    }
}

/// Result of applying a whole move sequence, first move first.
pub open spec fn spec_apply_moves(s: Seq<u8>, ms: Seq<u8>) -> Seq<u8>
    decreases ms.len(),
{
    if ms.len() == 0 {
        s
    } else {
        spec_apply_moves(spec_apply(s, ms[0]), ms.skip(1))
    }
}

/// Every entry of a move sequence is a valid move identifier.
pub open spec fn path_ok(ms: Seq<u8>) -> bool {
    forall|i: int| 0 <= i < ms.len() ==> ms[i] < 9
}

/// Validity is preserved along a whole move sequence.
pub proof fn lemma_apply_moves_valid(s: Seq<u8>, ms: Seq<u8>)
    requires
        valid_state(s),
        path_ok(ms),
    ensures
        valid_state(spec_apply_moves(s, ms)),
    decreases ms.len(),
{
    if ms.len() > 0 {
        lemma_move_closure(s, ms[0]);
        assert(path_ok(ms.skip(1)));
        lemma_apply_moves_valid(spec_apply(s, ms[0]), ms.skip(1));
    }
}

/// Appending one move applies it last.
pub proof fn lemma_apply_moves_snoc(s: Seq<u8>, ms: Seq<u8>, m: u8)
    ensures
        spec_apply_moves(s, ms.push(m)) == spec_apply(spec_apply_moves(s, ms), m),
    decreases ms.len(),
{
    reveal_with_fuel(spec_apply_moves, 3);
    if ms.len() == 0 {
        assert(ms.push(m).skip(1) =~= Seq::<u8>::empty());
        assert(ms.push(m)[0] == m);
    } else {
        assert(ms.push(m).skip(1) =~= ms.skip(1).push(m));
        assert(ms.push(m)[0] == ms[0]);
        lemma_apply_moves_snoc(spec_apply(s, ms[0]), ms.skip(1), m);
    }
}

/// The reversed, move-by-move inverted sequence.
pub open spec fn spec_invert(ms: Seq<u8>) -> Seq<u8> {
    Seq::new(ms.len(), |i: int| spec_inverse(ms[ms.len() - 1 - i]))
}

/// Running a sequence and then its inversion restores the configuration.
pub proof fn lemma_invert_moves(s: Seq<u8>, ms: Seq<u8>)
    requires
        valid_state(s),
        path_ok(ms),
    ensures
        spec_apply_moves(spec_apply_moves(s, ms), spec_invert(ms)) == s,
    decreases ms.len(),
{
    if ms.len() > 0 {
        let s1 = spec_apply(s, ms[0]);
        lemma_move_closure(s, ms[0]);
        assert(path_ok(ms.skip(1)));
        lemma_invert_moves(s1, ms.skip(1));
        let inv_tail = spec_invert(ms.skip(1));
        assert(spec_invert(ms) =~= inv_tail.push(spec_inverse(ms[0])));
        let mid = spec_apply_moves(s1, ms.skip(1));
        lemma_apply_moves_snoc(mid, inv_tail, spec_inverse(ms[0]));
        lemma_apply_inverse(s, ms[0]);
    }
}

/// Executable inverse-move table.
pub fn inverse_move(m: u8) -> (r: u8)
    requires
        m < NUM_MOVES,
    ensures
        r == spec_inverse(m),
        r < NUM_MOVES,
{
    if m == 0 {
        1
    } else if m == 1 {
        0
    } else if m == 3 {
        4
    } else if m == 4 {
        3
    } else if m == 6 {
        7
    } else if m == 7 {
        6
    } else {
        m
    }
}

/// Reverses a recorded move list and replaces each move by its inverse,
/// turning a "solved to target" sequence into a "target to solved" one.
pub fn invert_moves(solution: Vec<u8>) -> (r: Vec<u8>)
    requires
        path_ok(solution@),
    ensures
        r@ == spec_invert(solution@),
        r@.len() == solution@.len(),
{
    let n: usize = solution.len();
    let mut r: Vec<u8> = Vec::new();
    let mut i: usize = 0;
    while i < n
        invariant
            i <= n,
            n == solution@.len(),
            path_ok(solution@),
            r@.len() == i,
            forall|j: int| 0 <= j < i ==> r@[j] == spec_inverse(solution@[n - 1 - j]),
        decreases n - i,
    {
        let m: u8 = solution[n - 1 - i];
        let inv: u8 = inverse_move(m);
        r.push(inv);
        i = i + 1;
    }
    proof {
        assert(r@ =~= spec_invert(solution@));
    }
    r
}

} // verus!
