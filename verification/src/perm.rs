//! Factorial-number-system ranking of permutations of seven symbols.
//!
//! `rank_perm` and `unrank_perm` are the mathematical model: both walk a
//! working set of still-unused symbols and remove one symbol per step by
//! overwriting its slot with the last active symbol (swap-to-end), so the
//! active region shrinks by one each step.  The executable `encode_perm`
//! and `decode_perm` implement the same walk on fixed arrays, `encode_perm`
//! keeping an inverse table `pos` so each lookup is constant time.  The
//! two round-trip lemmas make the pair a bijection between permutations of
//! `{0, .., 6}` and the range `[0, 7!)`.

use vstd::prelude::*;
use vstd::arithmetic::div_mod::{
    lemma_fundamental_div_mod,
    lemma_fundamental_div_mod_converse,
    lemma_mod_division_less_than_divisor,
};
use vstd::arithmetic::mul::lemma_mul_inequality;

use crate::state::SEVEN_FACTORIAL;

verus! {

/// `n!`.
pub open spec fn factorial(n: nat) -> nat
    decreases n,
{
    if n == 0 {
        1
    } else {
        n * factorial((n - 1) as nat)
    }
}

/// No symbol occurs twice.
pub open spec fn distinct(s: Seq<u8>) -> bool {
    forall|i: int, j: int| 0 <= i < j < s.len() ==> s[i] != s[j]
}

/// The working set after removing the symbol at `ind`: the last active
/// symbol is moved into the hole and the active region shrinks by one.
pub open spec fn remove_swap(elems: Seq<u8>, ind: int) -> Seq<u8>
    recommends
        0 <= ind < elems.len(),
{
    elems.update(ind, elems[elems.len() - 1]).take(elems.len() - 1)
}

/// Unranking: digit `k % n` picks the next symbol out of the working set.
pub open spec fn unrank_perm(elems: Seq<u8>, k: nat) -> Seq<u8>
    decreases elems.len(),
{
    if elems.len() == 0 {
        Seq::empty()
    } else {
        let n = elems.len();
        let ind = (k % n) as int;
        seq![elems[ind]] + unrank_perm(remove_swap(elems, ind), k / n)
    }
}

/// Index of the first occurrence of `x` in `s`.
pub open spec fn pos_of(s: Seq<u8>, x: u8) -> int
    decreases s.len(),
{
    if s.len() == 0 {
        0
    } else if s[0] == x {
        0
    } else {
        1 + pos_of(s.skip(1), x)
    }
}

/// Ranking: accumulate the position of each symbol among the symbols that
/// are still unused, weighted by the falling factorial.
pub open spec fn rank_perm(elems: Seq<u8>, perm: Seq<u8>) -> nat
    decreases perm.len(),
{
    if perm.len() == 0 || elems.len() == 0 {
        0
    } else {
        let n = elems.len();
        let ind = pos_of(elems, perm[0]);
        (ind + n * rank_perm(remove_swap(elems, ind), perm.skip(1))) as nat
    }
}

/// The initial working set: the identity arrangement of the seven symbols.
pub open spec fn init_elems() -> Seq<u8> {
    seq![0u8, 1u8, 2u8, 3u8, 4u8, 5u8, 6u8]
}

proof fn lemma_pos_of_found(s: Seq<u8>, x: u8)
    requires
        s.contains(x),
    ensures
        0 <= pos_of(s, x) < s.len(),
        s[pos_of(s, x)] == x,
    decreases s.len(),
{
    if s[0] != x {
        let i = choose|i: int| 0 <= i < s.len() && s[i] == x;
        assert(s.skip(1)[i - 1] == x);
        assert(s.skip(1).contains(x));
        lemma_pos_of_found(s.skip(1), x);
    }
}

proof fn lemma_pos_of_index(s: Seq<u8>, i: int)
    requires
        distinct(s),
        0 <= i < s.len(),
    ensures
        pos_of(s, s[i]) == i,
    decreases s.len(),
{
    if i != 0 {
        assert(s[0] != s[i]);
        assert(distinct(s.skip(1)));
        assert(s.skip(1)[i - 1] == s[i]);
        lemma_pos_of_index(s.skip(1), i - 1);
    }
}

proof fn lemma_remove_swap_props(elems: Seq<u8>, ind: int)
    requires
        distinct(elems),
        0 <= ind < elems.len(),
    ensures
        remove_swap(elems, ind).len() == elems.len() - 1,
        distinct(remove_swap(elems, ind)),
        forall|x: u8|
            #[trigger] remove_swap(elems, ind).contains(x) <==> (elems.contains(x) && x
                != elems[ind]),
{
    let r = remove_swap(elems, ind);
    let n = elems.len() as int;
    assert forall|x: u8| #[trigger] r.contains(x) implies (elems.contains(x) && x
        != elems[ind]) by {
        let j = choose|j: int| 0 <= j < r.len() && r[j] == x;
        if j == ind {
            assert(elems[n - 1] == x);
        } else {
            assert(elems[j] == x);
        }
    }
    assert forall|x: u8| elems.contains(x) && x != elems[ind] implies #[trigger] r.contains(
        x,
    ) by {
        let j = choose|j: int| 0 <= j < n && elems[j] == x;
        if j == n - 1 {
            assert(ind != n - 1 ==> r[ind] == x);
            assert(ind == n - 1 ==> x == elems[ind]);
        } else if j != ind {
            assert(r[j] == x);
        }
    }
}

proof fn lemma_unrank_len(elems: Seq<u8>, k: nat)
    ensures
        unrank_perm(elems, k).len() == elems.len(),
    decreases elems.len(),
{
    if elems.len() > 0 {
        let n = elems.len();
        let ind = (k % n) as int;
        lemma_unrank_len(remove_swap(elems, ind), k / n);
    }
}

/// Unranking yields a distinct arrangement of symbols from the working set.
proof fn lemma_unrank_membership(elems: Seq<u8>, k: nat)
    requires
        distinct(elems),
    ensures
        unrank_perm(elems, k).len() == elems.len(),
        distinct(unrank_perm(elems, k)),
        forall|x: u8| #[trigger] unrank_perm(elems, k).contains(x) ==> elems.contains(x),
    decreases elems.len(),
{
    lemma_unrank_len(elems, k);
    if elems.len() > 0 {
        let n = elems.len();
        let ind = (k % n) as int;
        lemma_mod_division_less_than_divisor(k as int, n as int);
        let rest = remove_swap(elems, ind);
        lemma_remove_swap_props(elems, ind);
        lemma_unrank_membership(rest, k / n);
        let p = unrank_perm(elems, k);
        let tail = unrank_perm(rest, k / n);
        assert(p[0] == elems[ind]);
        assert(forall|j: int| 1 <= j < p.len() ==> p[j] == tail[j - 1]);
        assert forall|i: int, j: int| 0 <= i < j < p.len() implies p[i] != p[j] by {
            if i == 0 {
                assert(tail[j - 1] == p[j]);
                assert(tail.contains(p[j]));
                assert(p[j] != elems[ind]);
            }
        }
        assert forall|x: u8| #[trigger] p.contains(x) implies elems.contains(x) by {
            let j = choose|j: int| 0 <= j < p.len() && p[j] == x;
            if j == 0 {
                assert(elems[ind] == x);
            } else {
                assert(tail[j - 1] == x);
                assert(tail.contains(x));
            }
        }
    }
}

/// Ranking inverts unranking on `[0, n!)`.
proof fn lemma_rank_unrank(elems: Seq<u8>, k: nat)
    requires
        distinct(elems),
        k < factorial(elems.len()),
    ensures
        rank_perm(elems, unrank_perm(elems, k)) == k,
    decreases elems.len(),
{
    if elems.len() == 0 {
        assert(factorial(0) == 1);
    } else {
        let n = elems.len();
        let ind = (k % n) as int;
        lemma_mod_division_less_than_divisor(k as int, n as int);
        let rest = remove_swap(elems, ind);
        lemma_remove_swap_props(elems, ind);
        let p = unrank_perm(elems, k);
        let tail = unrank_perm(rest, k / n);
        lemma_unrank_len(elems, k);
        assert(p[0] == elems[ind]);
        lemma_pos_of_index(elems, ind);
        assert(pos_of(elems, p[0]) == ind);
        assert(p.skip(1) =~= tail);
        assert(factorial(n) == n * factorial((n - 1) as nat));
        assert(k / n < factorial((n - 1) as nat)) by {
            lemma_fundamental_div_mod(k as int, n as int);
            lemma_mod_division_less_than_divisor(k as int, n as int);
            if k / n >= factorial((n - 1) as nat) {
                lemma_mul_inequality(
                    factorial((n - 1) as nat) as int,
                    (k / n) as int,
                    n as int,
                );
                assert(n * (k / n) >= n * factorial((n - 1) as nat)) by (nonlinear_arith)
                    requires
                        factorial((n - 1) as nat) * (n as int) <= (k / n) * (n as int),
                ;
            }
        }
        lemma_rank_unrank(rest, k / n);
        assert(rank_perm(elems, p) == (ind + n * rank_perm(rest, tail)) as nat);
        assert(ind + n * (k / n) == k) by {
            lemma_fundamental_div_mod(k as int, n as int);
        }
    }
}

/// Unranking inverts ranking on arrangements of the working set.
proof fn lemma_unrank_rank(elems: Seq<u8>, perm: Seq<u8>)
    requires
        distinct(elems),
        distinct(perm),
        perm.len() == elems.len(),
        forall|x: u8| #[trigger] perm.contains(x) ==> elems.contains(x),
    ensures
        unrank_perm(elems, rank_perm(elems, perm)) == perm,
    decreases perm.len(),
{
    if perm.len() == 0 {
        assert(unrank_perm(elems, rank_perm(elems, perm)) =~= perm);
    } else {
        let n = elems.len();
        let ind = pos_of(elems, perm[0]);
        assert(perm.contains(perm[0]));
        lemma_pos_of_found(elems, perm[0]);
        let rest = remove_swap(elems, ind);
        lemma_remove_swap_props(elems, ind);
        let r = rank_perm(rest, perm.skip(1));
        let k = rank_perm(elems, perm);
        assert(k == ind + n * r);
        assert(k % n == ind && k / n == r as int) by {
            vstd::arithmetic::mul::lemma_mul_is_commutative(n as int, r as int);
            assert(k as int == (r as int) * (n as int) + ind);
            lemma_fundamental_div_mod_converse(k as int, n as int, r as int, ind);
        }
        assert(distinct(perm.skip(1)));
        assert forall|x: u8| #[trigger] perm.skip(1).contains(x) implies rest.contains(x) by {
            let j = choose|j: int| 0 <= j < perm.skip(1).len() && perm.skip(1)[j] == x;
            assert(perm[j + 1] == x);
            assert(perm.contains(x));
            assert(perm[j + 1] != perm[0]);
        }
        lemma_unrank_rank(rest, perm.skip(1));
        assert(unrank_perm(elems, k) == seq![elems[ind]] + unrank_perm(rest, k / n as nat));
        assert(unrank_perm(elems, k) =~= perm);
    }
}

/// Ranks are below `n!`.
proof fn lemma_rank_bound(elems: Seq<u8>, perm: Seq<u8>)
    requires
        distinct(elems),
        distinct(perm),
        perm.len() == elems.len(),
        forall|x: u8| #[trigger] perm.contains(x) ==> elems.contains(x),
    ensures
        rank_perm(elems, perm) < factorial(perm.len()),
    decreases perm.len(),
{
    if perm.len() == 0 {
        assert(factorial(0) == 1);
    } else {
        let n = elems.len();
        let ind = pos_of(elems, perm[0]);
        assert(perm.contains(perm[0]));
        lemma_pos_of_found(elems, perm[0]);
        let rest = remove_swap(elems, ind);
        lemma_remove_swap_props(elems, ind);
        assert(distinct(perm.skip(1)));
        assert forall|x: u8| #[trigger] perm.skip(1).contains(x) implies rest.contains(x) by {
            let j = choose|j: int| 0 <= j < perm.skip(1).len() && perm.skip(1)[j] == x;
            assert(perm[j + 1] == x);
            assert(perm.contains(x));
            assert(perm[j + 1] != perm[0]);
        }
        lemma_rank_bound(rest, perm.skip(1));
        let r = rank_perm(rest, perm.skip(1));
        assert(r + 1 <= factorial((n - 1) as nat));
        assert(n * (r + 1) <= n * factorial((n - 1) as nat)) by {
            lemma_mul_inequality((r + 1) as int, factorial((n - 1) as nat) as int, n as int);
            vstd::arithmetic::mul::lemma_mul_is_commutative(n as int, (r + 1) as int);
            vstd::arithmetic::mul::lemma_mul_is_commutative(
                n as int,
                factorial((n - 1) as nat) as int,
            );
        }
        assert(ind + n * r < n * (r + 1)) by {
            vstd::arithmetic::mul::lemma_mul_is_distributive_add(n as int, r as int, 1);
        }
    }
}

proof fn lemma_factorial_pos(n: nat)
    ensures
        factorial(n) >= 1,
    decreases n,
{
    if n > 0 {
        lemma_factorial_pos((n - 1) as nat);
        lemma_mul_inequality(1, n as int, factorial((n - 1) as nat) as int);
        vstd::arithmetic::mul::lemma_mul_is_commutative(n as int, factorial((n - 1) as nat) as int);
    }
}

proof fn lemma_factorial_7()
    ensures
        factorial(7) == 5040,
{
    assert(factorial(0) == 1);
    assert(factorial(1) == 1);
    assert(factorial(2) == 2);
    assert(factorial(3) == 6);
    assert(factorial(4) == 24);
    assert(factorial(5) == 120);
    assert(factorial(6) == 720);
    assert(factorial(7) == 5040);
}

proof fn lemma_init_contains(x: u8)
    requires
        x < 7,
    ensures
        init_elems().contains(x),
        distinct(init_elems()),
{
    assert(init_elems()[x as int] == x);
}

/// Unranking a rank below `7!` produces a permutation record:
/// seven distinct entries, each below `7`.
pub proof fn lemma_unrank_is_perm(k: nat)
    requires
        k < 5040,
    ensures
        unrank_perm(init_elems(), k).len() == 7,
        distinct(unrank_perm(init_elems(), k)),
        forall|i: int|
            0 <= i < 7 ==> #[trigger] unrank_perm(init_elems(), k)[i] < 7,
{
    lemma_unrank_membership(init_elems(), k);
    let p = unrank_perm(init_elems(), k);
    assert forall|i: int| 0 <= i < 7 implies #[trigger] p[i] < 7 by {
        assert(p.contains(p[i]));
        let j = choose|j: int| 0 <= j < 7 && init_elems()[j] == p[i];
    }
}

/// Round trip: ranking inverts unranking on every index in `[0, 7!)`.
pub proof fn lemma_perm_rank_unrank(k: nat)
    requires
        k < 5040,
    ensures
        rank_perm(init_elems(), unrank_perm(init_elems(), k)) == k,
{
    lemma_factorial_7();
    lemma_rank_unrank(init_elems(), k);
}

/// Round trip: unranking inverts ranking on every permutation record.
pub proof fn lemma_perm_unrank_rank(perm: Seq<u8>)
    requires
        perm.len() == 7,
        distinct(perm),
        forall|i: int| 0 <= i < 7 ==> perm[i] < 7,
    ensures
        unrank_perm(init_elems(), rank_perm(init_elems(), perm)) == perm,
        rank_perm(init_elems(), perm) < 5040,
{
    assert forall|x: u8| #[trigger] perm.contains(x) implies init_elems().contains(x) by {
        let i = choose|i: int| 0 <= i < 7 && perm[i] == x;
        lemma_init_contains(x);
    }
    lemma_unrank_rank(init_elems(), perm);
    lemma_rank_bound(init_elems(), perm);
    lemma_factorial_7();
}

/// Unranks `k` into a fresh permutation array, picking symbol `k % r` out
/// of the `r` remaining ones at each step.
pub fn decode_perm(k: u32) -> (r: [u8; 7])
    requires
        k < SEVEN_FACTORIAL,
    ensures
        r@ == unrank_perm(init_elems(), k as nat),
{
    let mut permuted: [u8; 7] = [255u8; 7];
    let mut elems: [u8; 7] = [0u8; 7];
    elems[1] = 1;
    elems[2] = 2;
    elems[3] = 3;
    elems[4] = 4;
    elems[5] = 5;
    elems[6] = 6;
    proof {
        assert(elems@.take(7) =~= init_elems());
    }
    let mut m: u32 = k;
    let mut i: usize = 0;
    while i < 7
        invariant
            i <= 7,
            permuted@.len() == 7,
            elems@.len() == 7,
            unrank_perm(init_elems(), k as nat) == permuted@.take(i as int) + unrank_perm(
                elems@.take(7 - i as int),
                m as nat,
            ),
        decreases 7 - i,
    {
        let ghost old_perm = permuted@;
        let ghost old_elems = elems@;
        let ghost old_m: nat = m as nat;
        let ghost active = old_elems.take(7 - i as int);
        let nrem: u32 = (7 - i) as u32;
        let ind: usize = (m % nrem) as usize;
        proof {
            lemma_mod_division_less_than_divisor(m as int, nrem as int);
        }
        let picked: u8 = elems[ind];
        permuted[i] = picked;
        elems[ind] = elems[6 - i];
        m = m / nrem;
        i = i + 1;
        proof {
            assert(active.len() == nrem);
            assert(active[ind as int] == picked);
            assert(unrank_perm(active, old_m) == seq![picked] + unrank_perm(
                remove_swap(active, ind as int),
                old_m / nrem as nat,
            ));
            assert(remove_swap(active, ind as int) =~= elems@.take(7 - i as int));
            assert(permuted@.take(i as int) =~= old_perm.take(i - 1).push(picked));
            assert(old_perm.take(i - 1).push(picked) + unrank_perm(
                elems@.take(7 - i as int),
                m as nat,
            ) =~= old_perm.take(i - 1) + (seq![picked] + unrank_perm(
                elems@.take(7 - i as int),
                m as nat,
            )));
        }
    }
    proof {
        assert(elems@.take(0) =~= Seq::<u8>::empty());
        assert(unrank_perm(Seq::<u8>::empty(), m as nat) =~= Seq::<u8>::empty());
        assert(permuted@.take(7) + Seq::<u8>::empty() =~= permuted@);
    }
    permuted
}

/// Every entry is a symbol below `7`.
pub open spec fn all_below7(s: Seq<u8>, n: int) -> bool {
    forall|j: int| 0 <= j < n ==> s[j] < 7
}

/// `pos` maps each active symbol back to its slot in the working array.
spec fn pos_inverts(pos: Seq<u8>, elems: Seq<u8>, n: int) -> bool {
    forall|j: int| 0 <= j < n ==> pos[#[trigger] elems[j] as int] == j
}

/// Every symbol the walk has not consumed yet is still in the active set.
spec fn unused_active(active: Seq<u8>, perm: Seq<u8>, i: int) -> bool {
    forall|l: int| i <= l < perm.len() ==> active.contains(#[trigger] perm[l])
}

/// Ranks a permutation of the seven symbols, tracking for each symbol
/// its position among the still-unused symbols via the inverse table `pos`.
proof fn lemma_perm_contained(perm: Seq<u8>)
    requires
        perm.len() == 7,
        all_below7(perm, 7),
    ensures
        forall|x: u8| #[trigger] perm.contains(x) ==> init_elems().contains(x),
{
    assert forall|x: u8| #[trigger] perm.contains(x) implies init_elems().contains(x) by {
        let i = choose|i: int| 0 <= i < 7 && perm[i] == x;
        lemma_init_contains(x);
    }
}

proof fn lemma_step_arith(total: nat, k: nat, m: nat, ind: nat, n: nat, rest: nat, rk: nat)
    requires
        total == k + m * rk,
        rk == ind + n * rest,
    ensures
        total == (k + m * ind) + (m * n) * rest,
        k + m * ind <= total,
{
    vstd::arithmetic::mul::lemma_mul_is_distributive_add(m as int, ind as int, (n * rest) as int);
    vstd::arithmetic::mul::lemma_mul_is_associative(m as int, n as int, rest as int);
    vstd::arithmetic::mul::lemma_mul_nonnegative((m * n) as int, rest as int);
}

proof fn lemma_step_factorial(m: nat, i: int)
    requires
        0 <= i < 6,
        m * factorial((7 - i) as nat) == factorial(7),
    ensures
        (m * (7 - i) as nat) * factorial((6 - i) as nat) == factorial(7),
        m * (7 - i) as nat <= 5040,
{
    let n: nat = (7 - i) as nat;
    let f: nat = factorial((6 - i) as nat);
    assert(factorial(n) == n * f);
    vstd::arithmetic::mul::lemma_mul_is_associative(m as int, n as int, f as int);
    lemma_factorial_pos((6 - i) as nat);
    lemma_factorial_7();
    if m * n > 5040 {
        lemma_mul_inequality(1, f as int, (m * n) as int);
        vstd::arithmetic::mul::lemma_mul_is_commutative((m * n) as int, f as int);
    }
}

/// One step of the ranking walk: what the lookup returns, how the rank
/// decomposes, and that the swap-to-end update keeps every invariant.
proof fn lemma_encode_step(perm: Seq<u8>, elems: Seq<u8>, pos: Seq<u8>, i: int, ind: int)
    requires
        0 <= i < 6,
        perm.len() == 7,
        elems.len() == 7,
        pos.len() == 7,
        all_below7(perm, 7),
        distinct(perm),
        all_below7(elems, 7 - i),
        distinct(elems.take(7 - i)),
        pos_inverts(pos, elems, 7 - i),
        unused_active(elems.take(7 - i), perm, i),
        ind == pos[perm[i] as int],
    ensures
        0 <= ind < 7 - i,
        elems[ind] == perm[i],
        ({
            let elems2 = elems.update(ind, elems[6 - i]);
            let pos2 = pos.update(elems[6 - i] as int, pos[perm[i] as int]);
            let rest = rank_perm(elems2.take(6 - i), perm.skip(i + 1));
            &&& rank_perm(elems.take(7 - i), perm.skip(i)) == ind + (7 - i) * rest
            &&& rest < factorial((6 - i) as nat)
            &&& all_below7(elems2, 6 - i)
            &&& distinct(elems2.take(6 - i))
            &&& pos_inverts(pos2, elems2, 6 - i)
            &&& unused_active(elems2.take(6 - i), perm, i + 1)
        }),
{
    let active = elems.take(7 - i);
    let p = perm[i];
    assert(active.contains(p));
    let pj = choose|j: int| 0 <= j < 7 - i && active[j] == p;
    assert(elems[pj] == p);
    assert(pos[p as int] == pj);
    assert(ind == pj);
    lemma_pos_of_index(active, ind);
    let elems2 = elems.update(ind, elems[6 - i]);
    let pos2 = pos.update(elems[6 - i] as int, pos[p as int]);
    let rest_set = remove_swap(active, ind);
    assert(elems2.take(6 - i) =~= rest_set);
    assert(perm.skip(i)[0] == p);
    assert(perm.skip(i).skip(1) =~= perm.skip(i + 1));
    lemma_remove_swap_props(active, ind);
    assert(distinct(perm.skip(i + 1)));
    assert forall|x: u8| #[trigger] perm.skip(i + 1).contains(x) implies rest_set.contains(x) by {
        let j = choose|j: int|
            0 <= j < perm.skip(i + 1).len() && #[trigger] perm.skip(i + 1)[j] == x;
        assert(perm[j + i + 1] == x);
        assert(active.contains(x));
        assert(perm[j + i + 1] != perm[i]);
        assert(x != active[ind]);
    }
    lemma_rank_bound(rest_set, perm.skip(i + 1));
    let last = elems[6 - i];
    assert forall|j: int| 0 <= j < 6 - i implies pos2[#[trigger] elems2[j] as int] == j by {
        if j == ind {
            assert(elems2[j] == last);
        } else {
            assert(elems2[j] == elems[j]);
            assert(elems[j] != last);
        }
    }
    assert forall|l: int| i + 1 <= l < 7 implies elems2.take(6 - i).contains(
        #[trigger] perm[l],
    ) by {
        assert(active.contains(perm[l]));
        assert(perm[l] != perm[i]);
        assert(perm[i] == active[ind]);
    }
}

/// Ranks a permutation of the seven symbols, tracking for each symbol
/// its position among the still-unused symbols via the inverse table `pos`.
pub fn encode_perm(perm: &[u8]) -> (r: u32)
    requires
        perm@.len() == 7,
        all_below7(perm@, 7),
        distinct(perm@),
    ensures
        (r as nat) == rank_perm(init_elems(), perm@),
        r < SEVEN_FACTORIAL,
{
    proof {
        lemma_perm_contained(perm@);
        lemma_rank_bound(init_elems(), perm@);
        lemma_factorial_7();
    }
    let ghost total: nat = rank_perm(init_elems(), perm@);
    let mut pos: [u8; 7] = [0u8; 7];
    pos[1] = 1;
    pos[2] = 2;
    pos[3] = 3;
    pos[4] = 4;
    pos[5] = 5;
    pos[6] = 6;
    let mut elems: [u8; 7] = [0u8; 7];
    elems[1] = 1;
    elems[2] = 2;
    elems[3] = 3;
    elems[4] = 4;
    elems[5] = 5;
    elems[6] = 6;
    proof {
        assert(elems@.take(7) =~= init_elems());
        assert(perm@.skip(0) =~= perm@);
    }
    let mut k: u32 = 0;
    let mut m: u32 = 1;
    let mut i: usize = 0;
    while i < 6
        invariant
            i <= 6,
            elems@.len() == 7,
            pos@.len() == 7,
            perm@.len() == 7,
            all_below7(perm@, 7),
            distinct(perm@),
            all_below7(elems@, 7 - i as int),
            distinct(elems@.take(7 - i as int)),
            pos_inverts(pos@, elems@, 7 - i as int),
            unused_active(elems@.take(7 - i as int), perm@, i as int),
            total == k + m * rank_perm(elems@.take(7 - i as int), perm@.skip(i as int)),
            (m as nat) * factorial((7 - i) as nat) == factorial(7),
            m <= 5040,
            total < 5040,
            k <= total,
        decreases 6 - i,
    {
        let ghost old_elems = elems@;
        let ghost old_k: nat = k as nat;
        let ghost old_m: nat = m as nat;
        let p: u8 = perm[i];
        let ind8: u8 = pos[p as usize];
        proof {
            lemma_encode_step(perm@, elems@, pos@, i as int, ind8 as int);
        }
        let ghost rest: nat = rank_perm(
            old_elems.update(ind8 as int, old_elems[6 - i as int]).take(6 - i as int),
            perm@.skip(i + 1),
        );
        proof {
            lemma_step_arith(
                total,
                old_k,
                old_m,
                ind8 as nat,
                (7 - i) as nat,
                rest,
                rank_perm(elems@.take(7 - i as int), perm@.skip(i as int)),
            );
            lemma_step_factorial(old_m, i as int);
        }
        let ind: usize = ind8 as usize;
        k = k + m * (ind8 as u32);
        m = m * ((7 - i) as u32);
        let last: u8 = elems[6 - i];
        pos[last as usize] = ind8;
        elems[ind] = last;
        i = i + 1;
    }
    proof {
        let active = elems@.take(1);
        let tailp = perm@.skip(6);
        assert(active.contains(perm@[6]));
        assert(active[0] == perm@[6]);
        assert(pos_of(active, tailp[0]) == 0);
        assert(tailp.skip(1).len() == 0);
        assert(rank_perm(remove_swap(active, 0), tailp.skip(1)) == 0);
        assert(rank_perm(active, tailp) == 0);
        assert(total == k + m * rank_perm(active, tailp));
        assert(m * rank_perm(active, tailp) == 0) by {
            vstd::arithmetic::mul::lemma_mul_by_zero_is_zero(m as int);
        }
        assert((k as nat) == total);
    }
    k
}

} // verus!
