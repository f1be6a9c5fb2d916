//! Fixed-width binary packing of solutions.
//!
//! Each solution of at most 12 moves is packed two moves per byte as
//! 4-bit nibbles — first move in the low nibble — into exactly 6 bytes.
//! Unused slots hold the sentinel nibble 15, which is not a valid move
//! identifier, so a record's length is self-describing.  The whole table
//! is the concatenation of one 6-byte record per dense index.

use vstd::prelude::*;

use crate::moves::path_ok;

verus! {

/// Nibble `j` of a 6-byte record: low nibble first.
pub open spec fn nibble(bytes: Seq<u8>, j: int) -> u8
    recommends
        bytes.len() == 6,
        0 <= j < 12,
{
    if j % 2 == 0 {
        (bytes[j / 2] as int % 16) as u8
    } else {
        (bytes[j / 2] as int / 16) as u8
    }
}

/// What nibble `j` of a packed solution holds: the move, or the sentinel.
pub open spec fn packed_nibble(sol: Seq<u8>, j: int) -> u8 {
    if j < sol.len() {
        sol[j]
    } else {
        15
    }
}

/// Nibbles of a record read back as moves, stopping at the first sentinel.
pub open spec fn unpack_from(bytes: Seq<u8>, j: int) -> Seq<u8>
    decreases 12 - j,
{
    if j < 0 || j >= 12 {
        Seq::empty()
    } else if nibble(bytes, j) == 15 {
        Seq::empty()
    } else {
        seq![nibble(bytes, j)] + unpack_from(bytes, j + 1)
    }
}

/// The whole unpacked solution of a 6-byte record.
pub open spec fn unpack_solution(bytes: Seq<u8>) -> Seq<u8> {
    unpack_from(bytes, 0)
}

proof fn lemma_unpack_from(sol: Seq<u8>, bytes: Seq<u8>, j: int)
    requires
        sol.len() <= 12,
        path_ok(sol),
        bytes.len() == 6,
        (forall|l: int| 0 <= l < 12 ==> #[trigger] nibble(bytes, l) == packed_nibble(sol, l)),
        0 <= j <= sol.len(),
    ensures
        unpack_from(bytes, j) == sol.skip(j),
    decreases 12 - j,
{
    if j == sol.len() {
        assert(j < 12 ==> nibble(bytes, j) == 15);
        assert(unpack_from(bytes, j) =~= sol.skip(j));
    } else {
        assert(nibble(bytes, j) == sol[j]);
        assert(sol[j] < 9);
        lemma_unpack_from(sol, bytes, j + 1);
        assert(seq![sol[j]] + sol.skip(j + 1) =~= sol.skip(j));
    }
}

/// Packing round trip: unpacking a packed solution, stopping at the
/// first sentinel nibble, reproduces the original moves exactly.
pub proof fn lemma_pack_round_trip(sol: Seq<u8>, bytes: Seq<u8>)
    requires
        sol.len() <= 12,
        path_ok(sol),
        bytes.len() == 6,
        (forall|l: int| 0 <= l < 12 ==> #[trigger] nibble(bytes, l) == packed_nibble(sol, l)),
    ensures
        unpack_solution(bytes) == sol,
{
    lemma_unpack_from(sol, bytes, 0);
    assert(sol.skip(0) =~= sol);
}

/// Packs one solution of at most 12 moves into its 6-byte record.
pub fn encode_solution_as_bytes(sol: Vec<u8>) -> (r: Vec<u8>)
    requires
        sol@.len() <= 12,
        path_ok(sol@),
    ensures
        r@.len() == 6,
        (forall|j: int| 0 <= j < 12 ==> #[trigger] nibble(r@, j) == packed_nibble(sol@, j)),
        unpack_solution(r@) == sol@,
{
    let ghost orig: Seq<u8> = sol@;
    let mut sol_padded: Vec<u8> = sol;
    while sol_padded.len() < 12
        invariant
            orig.len() <= sol_padded@.len() <= 12,
            sol_padded@.take(orig.len() as int) =~= orig,
            (forall|j: int| orig.len() <= j < sol_padded@.len() ==> sol_padded@[j] == 15),
        decreases 12 - sol_padded.len(),
    {
        sol_padded.push(15);
    }
    proof {
        assert(forall|j: int| 0 <= j < 12 ==> sol_padded@[j] == packed_nibble(orig, j));
    }
    let mut result: Vec<u8> = Vec::new();
    let mut i: usize = 0;
    while i < 6
        invariant
            i <= 6,
            sol_padded@.len() == 12,
            (forall|j: int| 0 <= j < 12 ==> #[trigger] sol_padded@[j] == packed_nibble(orig, j)),
            orig.len() <= 12,
            path_ok(orig),
            result@.len() == i,
            (forall|j: int|
                0 <= j < 2 * i ==> #[trigger] nibble(result@, j) == packed_nibble(orig, j)),
        decreases 6 - i,
    {
        let first: u8 = sol_padded[2 * i];
        let second: u8 = sol_padded[2 * i + 1];
        proof {
            assert(packed_nibble(orig, 2 * i as int) < 16);
            assert(packed_nibble(orig, 2 * i as int + 1) < 16);
        }
        let combined: u8 = first + second * 16;
        let ghost prev_res: Seq<u8> = result@;
        result.push(combined);
        i = i + 1;
        proof {
            vstd::arithmetic::div_mod::lemma_fundamental_div_mod_converse(
                combined as int,
                16,
                second as int,
                first as int,
            );
            assert forall|j: int| 0 <= j < 2 * i implies #[trigger] nibble(result@, j)
                == packed_nibble(orig, j) by {
                if j < 2 * (i - 1) {
                    assert(nibble(prev_res, j) == packed_nibble(orig, j));
                    assert(result@[j / 2] == prev_res[j / 2]);
                } else {
                    assert(j / 2 == i - 1);
                    assert(result@[i - 1] == combined);
                }
            }
        }
    }
    proof {
        lemma_pack_round_trip(orig, result@);
    }
    result
}

/// A table entry that can be packed: present, at most 12 moves, each a
/// valid identifier.
pub open spec fn record_ok(e: Option<Vec<u8>>) -> bool {
    match e {
        Some(p) => p@.len() <= 12 && path_ok(p@),
        None => false,
    }
}

/// Builds the directly-indexable binary table: record `i`, at byte
/// offset `6 * i`, is the packed solution for dense index `i`.  Returns
/// nothing exactly when some entry is missing, longer than 12 moves, or
/// holds an invalid move identifier — the fatal consistency cases.
pub fn build_binary_table(solutions: &Vec<Option<Vec<u8>>>) -> (r: Option<Vec<u8>>)
    ensures
        (r is Some) == (forall|i: int|
            0 <= i < solutions@.len() ==> record_ok(#[trigger] solutions@[i])),
        r is Some ==> {
            let bytes = r->Some_0;
            &&& bytes@.len() == 6 * solutions@.len()
            &&& (forall|i: int, j: int|
                0 <= i < solutions@.len() && 0 <= j < 12 ==> #[trigger] nibble(
                    bytes@.subrange(6 * i, 6 * i + 6),
                    j,
                ) == packed_nibble(solutions@[i]->Some_0@, j))
        },
{
    let n: usize = solutions.len();
    let mut out: Vec<u8> = Vec::new();
    let mut i: usize = 0;
    while i < n
        invariant
            i <= n,
            n == solutions@.len(),
            out@.len() == 6 * i,
            (forall|l: int| 0 <= l < i ==> record_ok(#[trigger] solutions@[l])),
            (forall|l: int, j: int|
                0 <= l < i && 0 <= j < 12 ==> #[trigger] nibble(
                    out@.subrange(6 * l, 6 * l + 6),
                    j,
                ) == packed_nibble(solutions@[l]->Some_0@, j)),
        decreases n - i,
    {
        let sol: Vec<u8> = match (&solutions[i]) {
            Some(p) => p.clone(),
            None => {
                return None;
            },
        };
        proof {
            assert(sol@ =~= solutions@[i as int]->Some_0@);
        }
        if sol.len() > 12 {
            return None;
        }
        let mut c: usize = 0;
        while c < sol.len()
            invariant
                c <= sol@.len(),
                n == solutions@.len(),
                i < n,
                solutions@[i as int] is Some,
                sol@ == solutions@[i as int]->Some_0@,
                (forall|j: int| 0 <= j < c ==> #[trigger] sol@[j] < 9),
            decreases sol@.len() - c,
        {
            if sol[c] >= 9 {
                return None;
            }
            c = c + 1;
        }
        let ghost prev_out: Seq<u8> = out@;
        let rec: Vec<u8> = encode_solution_as_bytes(sol);
        let mut b: usize = 0;
        while b < 6
            invariant
                b <= 6,
                rec@.len() == 6,
                out@ =~= prev_out + rec@.take(b as int),
            decreases 6 - b,
        {
            out.push(rec[b]);
            b = b + 1;
        }
        i = i + 1;
        proof {
            assert(out@ =~= prev_out + rec@);
            assert(out@.subrange(6 * (i - 1), 6 * (i - 1) + 6) =~= rec@);
            assert forall|l: int, j: int| 0 <= l < i && 0 <= j < 12 implies #[trigger] nibble(
                out@.subrange(6 * l, 6 * l + 6),
                j,
            ) == packed_nibble(solutions@[l]->Some_0@, j) by {
                if l < i - 1 {
                    assert(out@.subrange(6 * l, 6 * l + 6) =~= prev_out.subrange(
                        6 * l,
                        6 * l + 6,
                    ));
                }
            }
        }
    }
    Some(out)
}

} // verus!
