//! Exhaustive breadth-first exploration of the configuration graph.
//!
//! Starting from the solved configuration, `explore_all` decodes each
//! frontier index, applies all nine generator moves, re-encodes, and
//! records a move sequence for every index on its first visit.  The dense
//! solution array is indexed directly by configuration index.  The
//! contracts state that every recorded sequence really leads from the
//! solved configuration to its index, that the visited set is closed under
//! all moves with successor lengths growing by at most one, and — through
//! `lemma_search_reaches` — that every recorded sequence is at most as
//! long as any move sequence reaching that index, whatever order the
//! frontier was expanded in.

use vstd::prelude::*;

use crate::codec::{
    decode_cube_state,
    encode_cube_state,
    lemma_decode_encode,
    spec_decode,
    spec_encode,
};
use crate::moves::{
    apply_move,
    lemma_apply_moves_snoc,
    lemma_apply_moves_valid,
    path_ok,
    spec_apply,
    spec_apply_moves,
};
use crate::state::{solved_state, spec_solved, valid_state, NUM_MOVES, NUM_STATES};

verus! {

/// Index reached from index `i` by one generator move.
pub open spec fn succ_index(i: int, m: u8) -> int {
    spec_encode(spec_apply(spec_decode(i), m))
}

/// Length of a recorded solution entry; `-1` marks an unvisited index.
pub open spec fn slen(e: Option<Vec<u8>>) -> int {
    match e {
        Some(p) => p@.len() as int,
        None => -1,
    }
}

/// A recorded entry really leads from the solved configuration to its
/// own index.
pub open spec fn entry_inv(i: int, e: Option<Vec<u8>>) -> bool {
    match e {
        Some(p) => path_ok(p@) && spec_encode(spec_apply_moves(spec_solved(), p@)) == i,
        None => true,
    }
}

/// Every entry of the table is sound.
pub open spec fn table_sound(r: Seq<Option<Vec<u8>>>) -> bool {
    forall|i: int| 0 <= i < r.len() ==> entry_inv(i, #[trigger] r[i])
}

/// The visited set is closed under all nine moves, and a successor's
/// recorded length exceeds its parent's by at most one.
pub open spec fn table_closed(r: Seq<Option<Vec<u8>>>) -> bool {
    forall|i: int, m: u8|
        0 <= i < r.len() && m < 9 && r[i] is Some ==> {
            &&& 0 <= #[trigger] succ_index(i, m) < r.len()
            &&& r[succ_index(i, m)] is Some
            &&& slen(r[succ_index(i, m)]) <= slen(r[i]) + 1
        }
}

/// Number of visited entries.
pub open spec fn count_some(r: Seq<Option<Vec<u8>>>) -> nat
    decreases r.len(),
{
    if r.len() == 0 {
        0
    } else {
        count_some(r.drop_last()) + (if r.last() is Some {
            1nat
        } else {
            0nat
        })
    }
}

proof fn lemma_count_le(r: Seq<Option<Vec<u8>>>)
    ensures
        count_some(r) <= r.len(),
    decreases r.len(),
{
    if r.len() > 0 {
        lemma_count_le(r.drop_last());
    }
}

proof fn lemma_count_update(r: Seq<Option<Vec<u8>>>, i: int, v: Option<Vec<u8>>)
    requires
        0 <= i < r.len(),
        r[i] is None,
        v is Some,
    ensures
        count_some(r.update(i, v)) == count_some(r) + 1,
    decreases r.len(),
{
    let u = r.update(i, v);
    if i == r.len() - 1 {
        assert(u.drop_last() =~= r.drop_last());
        assert(u.last() == v);
        assert(r.last() == r[i]);
    } else {
        assert(u.drop_last() =~= r.drop_last().update(i, v));
        assert(u.last() == r.last());
        lemma_count_update(r.drop_last(), i, v);
    }
}

/// The solved configuration is valid.
pub proof fn lemma_solved_valid()
    ensures
        valid_state(spec_solved()),
{
    assert(valid_state(spec_solved()));
}

/// Completeness and shortest-length optimality of a sound, closed table:
/// any index reached by a move sequence `ms` from the solved
/// configuration is recorded, with a recorded length of at most
/// `ms.len()` — so recorded lengths do not depend on the order in which
/// moves were enumerated during the search.
pub proof fn lemma_search_reaches(r: Seq<Option<Vec<u8>>>, ms: Seq<u8>)
    requires
        r.len() == NUM_STATES,
        0 <= spec_encode(spec_solved()) < NUM_STATES,
        r[spec_encode(spec_solved())] is Some,
        slen(r[spec_encode(spec_solved())]) == 0,
        table_closed(r),
        path_ok(ms),
    ensures
        0 <= spec_encode(spec_apply_moves(spec_solved(), ms)) < NUM_STATES,
        r[spec_encode(spec_apply_moves(spec_solved(), ms))] is Some,
        slen(r[spec_encode(spec_apply_moves(spec_solved(), ms))]) <= ms.len(),
    decreases ms.len(),
{
    lemma_solved_valid();
    if ms.len() == 0 {
        assert(spec_apply_moves(spec_solved(), ms) == spec_solved());
    } else {
        let pre = ms.drop_last();
        let last = ms.last();
        assert(path_ok(pre));
        assert(last < 9);
        assert(ms =~= pre.push(last));
        lemma_apply_moves_snoc(spec_solved(), pre, last);
        lemma_search_reaches(r, pre);
        let s_pre = spec_apply_moves(spec_solved(), pre);
        lemma_apply_moves_valid(spec_solved(), pre);
        let i_pre = spec_encode(s_pre);
        lemma_decode_encode(s_pre);
        assert(spec_decode(i_pre) == s_pre);
        assert(succ_index(i_pre, last) == spec_encode(spec_apply_moves(spec_solved(), ms)));
        assert(r[succ_index(i_pre, last)] is Some && slen(r[succ_index(i_pre, last)]) <= slen(
            r[i_pre],
        ) + 1);
    }
}

/// Breadth-first exploration from the solved configuration.  Returns the
/// dense table of recorded move sequences, each leading from the solved
/// configuration to its index; the table is closed under all moves and
/// holds a shortest sequence for every visited index.
pub fn explore_all() -> (r: Vec<Option<Vec<u8>>>)
    ensures
        r@.len() == NUM_STATES,
        table_sound(r@),
        table_closed(r@),
        0 <= spec_encode(spec_solved()) < NUM_STATES,
        r@[spec_encode(spec_solved())] is Some,
        slen(r@[spec_encode(spec_solved())]) == 0,
{
    proof {
        lemma_solved_valid();
        lemma_decode_encode(spec_solved());
    }
    let solved: [u8; 14] = solved_state();
    let solved_idx: u32 = encode_cube_state(&solved);
    let mut solutions: Vec<Option<Vec<u8>>> = Vec::new();
    let mut fill: u32 = 0;
    while fill < NUM_STATES
        invariant
            fill <= NUM_STATES,
            solutions@.len() == fill,
            forall|j: int| 0 <= j < fill ==> solutions@[j] is None,
            count_some(solutions@) == 0,
        decreases NUM_STATES - fill,
    {
        let ghost prev: Seq<Option<Vec<u8>>> = solutions@;
        solutions.push(None);
        proof {
            assert(solutions@.drop_last() =~= prev);
        }
        fill = fill + 1;
    }
    let empty_path: Vec<u8> = Vec::new();
    proof {
        lemma_count_update(solutions@, solved_idx as int, Some(empty_path));
        assert(entry_inv(solved_idx as int, Some(empty_path))) by {
            assert(spec_apply_moves(spec_solved(), empty_path@) == spec_solved());
        }
    }
    let ghost filled: Seq<Option<Vec<u8>>> = solutions@;
    solutions[solved_idx as usize] = Some(empty_path);
    let mut queue: Vec<u32> = Vec::new();
    queue.push(solved_idx);
    let mut head: usize = 0;
    let mut count: u32 = 1;
    proof {
        assert forall|i: int|
            0 <= i < NUM_STATES && #[trigger] solutions@[i] is Some implies exists|kq: int|
            0 <= kq < queue@.len() && queue@[kq] == i by {
            if i != solved_idx as int {
                assert(solutions@[i] == filled[i]);
                assert(false);
            } else {
                assert(queue@[0] == i);
            }
        }
    }
    while head < queue.len()
        invariant
            solutions@.len() == NUM_STATES,
            head <= queue@.len(),
            queue@.len() <= count,
            count == count_some(solutions@),
            count <= NUM_STATES,
            table_sound(solutions@),
            solutions@[solved_idx as int] is Some,
            slen(solutions@[solved_idx as int]) == 0,
            solved_idx == spec_encode(spec_solved()),
            solved_idx < NUM_STATES,
            forall|kq: int|
                0 <= kq < queue@.len() ==> #[trigger] queue@[kq] < NUM_STATES && solutions@[queue@[kq] as int] is Some,
            forall|i: int|
                0 <= i < NUM_STATES && #[trigger] solutions@[i] is Some ==> exists|kq: int|
                    0 <= kq < queue@.len() && queue@[kq] == i,
            forall|k1: int, k2: int|
                0 <= k1 <= k2 < queue@.len() ==> slen(solutions@[#[trigger] queue@[k1] as int])
                    <= slen(solutions@[#[trigger] queue@[k2] as int]),
            head < queue@.len() ==> slen(solutions@[queue@[queue@.len() - 1] as int]) <= slen(
                solutions@[queue@[head as int] as int],
            ) + 1,
            forall|kq: int, m: u8|
                0 <= kq < head && m < 9 ==> {
                    &&& 0 <= #[trigger] succ_index(queue@[kq] as int, m) < NUM_STATES
                    &&& solutions@[succ_index(queue@[kq] as int, m)] is Some
                    &&& slen(solutions@[succ_index(queue@[kq] as int, m)]) <= slen(
                        solutions@[queue@[kq] as int],
                    ) + 1
                },
        decreases NUM_STATES - head,
    {
        proof {
            lemma_count_le(solutions@);
        }
        let cur: u32 = queue[head];
        let parent_moves: Vec<u8> = match (&solutions[cur as usize]) {
            Some(p) => p.clone(),
            None => Vec::new(),
        };
        let ghost plen: int = parent_moves@.len() as int;
        proof {
            assert(solutions@[cur as int] is Some);
            assert(entry_inv(cur as int, solutions@[cur as int]));
            assert(parent_moves@ =~= match (solutions@[cur as int]) {
                Some(p) => p@,
                None => Seq::<u8>::empty(),
            });
            assert(path_ok(parent_moves@));
            assert(spec_encode(spec_apply_moves(spec_solved(), parent_moves@)) == cur);
            assert(slen(solutions@[cur as int]) == plen);
        }
        let state: [u8; 14] = decode_cube_state(cur);
        proof {
            lemma_apply_moves_valid(spec_solved(), parent_moves@);
            lemma_decode_encode(spec_apply_moves(spec_solved(), parent_moves@));
            assert(state@ == spec_apply_moves(spec_solved(), parent_moves@));
        }
        let mut mv: u8 = 0;
        while mv < NUM_MOVES
            invariant
                mv <= NUM_MOVES,
                head < queue@.len(),
                cur == queue@[head as int],
                solutions@.len() == NUM_STATES,
                head <= queue@.len(),
                queue@.len() <= count,
                count == count_some(solutions@),
                count <= NUM_STATES,
                table_sound(solutions@),
                solutions@[solved_idx as int] is Some,
                slen(solutions@[solved_idx as int]) == 0,
                solved_idx == spec_encode(spec_solved()),
                solved_idx < NUM_STATES,
                cur < NUM_STATES,
                solutions@[cur as int] is Some,
                slen(solutions@[cur as int]) == plen,
                path_ok(parent_moves@),
                parent_moves@.len() == plen,
                spec_encode(spec_apply_moves(spec_solved(), parent_moves@)) == cur,
                state@ == spec_apply_moves(spec_solved(), parent_moves@),
                valid_state(state@),
                spec_decode(cur as int) == state@,
                forall|kq: int|
                    0 <= kq < queue@.len() ==> #[trigger] queue@[kq] < NUM_STATES
                        && solutions@[queue@[kq] as int] is Some,
                forall|i: int|
                    0 <= i < NUM_STATES && #[trigger] solutions@[i] is Some ==> exists|kq: int|
                        0 <= kq < queue@.len() && queue@[kq] == i,
                forall|k1: int, k2: int|
                    0 <= k1 <= k2 < queue@.len() ==> slen(
                        solutions@[#[trigger] queue@[k1] as int],
                    ) <= slen(solutions@[#[trigger] queue@[k2] as int]),
                slen(solutions@[queue@[queue@.len() - 1] as int]) <= plen + 1,
                slen(solutions@[queue@[queue@.len() - 1] as int]) <= slen(
                    solutions@[queue@[head as int] as int],
                ) + 1,
                forall|kq: int, m: u8|
                    0 <= kq < head && m < 9 ==> {
                        &&& 0 <= #[trigger] succ_index(queue@[kq] as int, m) < NUM_STATES
                        &&& solutions@[succ_index(queue@[kq] as int, m)] is Some
                        &&& slen(solutions@[succ_index(queue@[kq] as int, m)]) <= slen(
                            solutions@[queue@[kq] as int],
                        ) + 1
                    },
                forall|m: u8|
                    m < mv ==> {
                        &&& 0 <= #[trigger] succ_index(cur as int, m) < NUM_STATES
                        &&& solutions@[succ_index(cur as int, m)] is Some
                        &&& slen(solutions@[succ_index(cur as int, m)]) <= plen + 1
                    },
            decreases NUM_MOVES - mv,
        {
            let mut next_state: [u8; 14] = state;
            apply_move(&mut next_state, mv);
            let nidx: u32 = encode_cube_state(&next_state);
            proof {
                assert(next_state@ == spec_apply(state@, mv));
                assert(nidx == succ_index(cur as int, mv));
            }
            let is_new: bool = match (&solutions[nidx as usize]) {
                Some(_) => false,
                None => true,
            };
            if is_new {
                let mut new_path: Vec<u8> = parent_moves.clone();
                proof {
                    assert(new_path@ =~= parent_moves@);
                }
                new_path.push(mv);
                proof {
                    lemma_apply_moves_snoc(spec_solved(), parent_moves@, mv);
                    assert(spec_apply_moves(spec_solved(), new_path@) == next_state@);
                    assert(path_ok(new_path@));
                    assert(entry_inv(nidx as int, Some(new_path)));
                    lemma_count_update(solutions@, nidx as int, Some(new_path));
                    lemma_count_le(solutions@);
                    assert(nidx != cur);
                    assert(forall|kq: int|
                        0 <= kq < queue@.len() ==> #[trigger] queue@[kq] != nidx);
                }
                solutions[nidx as usize] = Some(new_path);
                let ghost prev_q: Seq<u32> = queue@;
                queue.push(nidx);
                count = count + 1;
                proof {
                    lemma_count_le(solutions@);
                    assert(queue@[queue@.len() - 1] == nidx);
                    assert(slen(solutions@[nidx as int]) == plen + 1);
                    assert forall|i: int|
                        0 <= i < NUM_STATES && #[trigger] solutions@[i] is Some implies exists|
                            kq: int,
                        |
                            0 <= kq < queue@.len() && queue@[kq] == i by {
                        if i == nidx as int {
                            assert(queue@[queue@.len() - 1] == i);
                        } else {
                            let kq = choose|kq: int|
                                0 <= kq < prev_q.len() && prev_q[kq] == i;
                            assert(queue@[kq] == i);
                        }
                    }
                }
            } else {
                proof {
                    let kq = choose|kq: int|
                        0 <= kq < queue@.len() && queue@[kq] == nidx as int;
                    assert(slen(solutions@[nidx as int]) <= slen(
                        solutions@[queue@[queue@.len() - 1] as int],
                    ));
                    assert(slen(solutions@[nidx as int]) <= plen + 1);
                }
            }
            mv = mv + 1;
        }
        head = head + 1;
    }
    proof {
        assert forall|i: int, m: u8|
            0 <= i < solutions@.len() && m < 9 && solutions@[i] is Some implies {
            &&& 0 <= #[trigger] succ_index(i, m) < solutions@.len()
            &&& solutions@[succ_index(i, m)] is Some
            &&& slen(solutions@[succ_index(i, m)]) <= slen(solutions@[i]) + 1
        } by {
            let kq = choose|kq: int| 0 <= kq < queue@.len() && queue@[kq] == i;
        }
    }
    solutions
}

/// The recorded sequence of a visited index is a shortest one: no move
/// sequence from the solved configuration reaches the same index in
/// fewer moves, so recorded lengths are independent of tie-break order.
pub proof fn lemma_recorded_is_shortest(r: Seq<Option<Vec<u8>>>, i: int, ms: Seq<u8>)
    requires
        r.len() == NUM_STATES,
        0 <= spec_encode(spec_solved()) < NUM_STATES,
        r[spec_encode(spec_solved())] is Some,
        slen(r[spec_encode(spec_solved())]) == 0,
        table_closed(r),
        path_ok(ms),
        0 <= i < NUM_STATES,
        r[i] is Some,
        spec_encode(spec_apply_moves(spec_solved(), ms)) == i,
    ensures
        (r[i]->Some_0)@.len() <= ms.len(),
{
    lemma_search_reaches(r, ms);
}

/// True exactly when every index of the table was visited — the full
/// coverage consistency check the search is expected to satisfy.
pub fn check_full_coverage(solutions: &Vec<Option<Vec<u8>>>) -> (b: bool)
    ensures
        b == (forall|i: int| 0 <= i < solutions@.len() ==> #[trigger] solutions@[i] is Some),
{
    let n: usize = solutions.len();
    let mut i: usize = 0;
    while i < n
        invariant
            i <= n,
            n == solutions@.len(),
            forall|j: int| 0 <= j < i ==> #[trigger] solutions@[j] is Some,
        decreases n - i,
    {
        let missing: bool = match (&solutions[i]) {
            Some(_) => false,
            None => true,
        };
        if missing {
            return false;
        }
        i = i + 1;
    }
    true
}

} // verus!
