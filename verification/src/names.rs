//! Move names: the bijection between move identifiers and the nine
//! canonical names `U, U', U2, F, F', F2, R, R', R2`, and the
//! space-separated rendering of a move sequence.

use vstd::prelude::*;
use vstd::string::StringExecFns;

use crate::moves::path_ok;
use crate::state::NUM_MOVES;

verus! {

/// Canonical name of a generator move.
pub open spec fn move_name(m: u8) -> Seq<char> {
    if m == 0 {
        seq!['U']
    } else if m == 1 {
        seq!['U', '\'']
    } else if m == 2 {
        seq!['U', '2']
    } else if m == 3 {
        seq!['F']
    } else if m == 4 {
        seq!['F', '\'']
    } else if m == 5 {
        seq!['F', '2']
    } else if m == 6 {
        seq!['R']
    } else if m == 7 {
        seq!['R', '\'']
    } else {
        seq!['R', '2']
    }
}

/// `s` is the name of some generator move.
pub open spec fn is_move_name(s: Seq<char>) -> bool {
    exists|m: u8| m < 9 && move_name(m) == s
}

/// Space-separated rendering of the names of a move sequence.
pub open spec fn pretty_moves(ms: Seq<u8>) -> Seq<char>
    decreases ms.len(),
{
    if ms.len() == 0 {
        Seq::empty()
    } else if ms.len() == 1 {
        move_name(ms[0])
    } else {
        pretty_moves(ms.drop_last()) + seq![' '] + move_name(ms.last())
    }
}

/// Name of one move identifier.
pub fn decode_move(move_: u8) -> (r: &'static str)
    requires
        move_ < NUM_MOVES,
    ensures
        r@ == move_name(move_),
{
    proof {
        reveal_strlit("U");
        reveal_strlit("U'");
        reveal_strlit("U2");
        reveal_strlit("F");
        reveal_strlit("F'");
        reveal_strlit("F2");
        reveal_strlit("R");
        reveal_strlit("R'");
        reveal_strlit("R2");
    }
    if move_ == 0 {
        "U"
    } else if move_ == 1 {
        "U'"
    } else if move_ == 2 {
        "U2"
    } else if move_ == 3 {
        "F"
    } else if move_ == 4 {
        "F'"
    } else if move_ == 5 {
        "F2"
    } else if move_ == 6 {
        "R"
    } else if move_ == 7 {
        "R'"
    } else {
        "R2"
    }
}

/// Identifier of one move name; defined for the nine canonical names
/// only, so an unrecognized name is rejected before the call.
pub fn encode_move(move_: &str) -> (r: u8)
    requires
        is_move_name(move_@),
    ensures
        r < NUM_MOVES,
        move_name(r) == move_@,
{
    proof {
        reveal_strlit("U");
        reveal_strlit("U'");
        reveal_strlit("U2");
        reveal_strlit("F");
        reveal_strlit("F'");
        reveal_strlit("F2");
        reveal_strlit("R");
        reveal_strlit("R'");
        reveal_strlit("R2");
    }
    let m: String = move_.to_owned();
    if m == "U".to_owned() {
        0
    } else if m == "U'".to_owned() {
        1
    } else if m == "U2".to_owned() {
        2
    } else if m == "F".to_owned() {
        3
    } else if m == "F'".to_owned() {
        4
    } else if m == "F2".to_owned() {
        5
    } else if m == "R".to_owned() {
        6
    } else if m == "R'".to_owned() {
        7
    } else if m == "R2".to_owned() {
        8
    } else {
        proof {
            let w = choose|w: u8| w < 9 && move_name(w) == move_@;
            assert(move_name(w) == m@);
            if w == 0 {
                assert(m@ == "U"@);
            } else if w == 1 {
                assert(m@ == "U'"@);
            } else if w == 2 {
                assert(m@ == "U2"@);
            } else if w == 3 {
                assert(m@ == "F"@);
            } else if w == 4 {
                assert(m@ == "F'"@);
            } else if w == 5 {
                assert(m@ == "F2"@);
            } else if w == 6 {
                assert(m@ == "R"@);
            } else if w == 7 {
                assert(m@ == "R'"@);
            } else {
                assert(m@ == "R2"@);
            }
            assert(false);
        }
        0
    }
}

/// Identifiers of a sequence of move names.
pub fn encode_moves(moves: Vec<&str>) -> (r: Vec<u8>)
    requires
        (forall|i: int| 0 <= i < moves@.len() ==> is_move_name(#[trigger] moves@[i]@)),
    ensures
        r@.len() == moves@.len(),
        (forall|i: int| 0 <= i < r@.len() ==> #[trigger] r@[i] < 9 && move_name(r@[i])
            == moves@[i]@),
{
    let mut r: Vec<u8> = Vec::new();
    let mut i: usize = 0;
    let n: usize = moves.len();
    while i < n
        invariant
            i <= n,
            n == moves@.len(),
            (forall|j: int| 0 <= j < n ==> is_move_name(#[trigger] moves@[j]@)),
            r@.len() == i,
            (forall|j: int| 0 <= j < i ==> #[trigger] r@[j] < 9 && move_name(r@[j])
                == moves@[j]@),
        decreases n - i,
    {
        let name: &str = moves[i];
        r.push(encode_move(name));
        i = i + 1;
    }
    r
}

/// Names of a sequence of move identifiers.
pub fn decode_moves(moves: Vec<u8>) -> (r: Vec<&'static str>)
    requires
        path_ok(moves@),
    ensures
        r@.len() == moves@.len(),
        (forall|i: int| 0 <= i < r@.len() ==> #[trigger] r@[i]@ == move_name(moves@[i])),
{
    let mut r: Vec<&'static str> = Vec::new();
    let mut i: usize = 0;
    let n: usize = moves.len();
    while i < n
        invariant
            i <= n,
            n == moves@.len(),
            path_ok(moves@),
            r@.len() == i,
            (forall|j: int| 0 <= j < i ==> #[trigger] r@[j]@ == move_name(moves@[j])),
        decreases n - i,
    {
        let mid: u8 = moves[i];
        r.push(decode_move(mid));
        i = i + 1;
    }
    r
}

/// Joins a sequence of rendered names with single spaces.
pub open spec fn join_spaces(ss: Seq<Seq<char>>) -> Seq<char>
    decreases ss.len(),
{
    if ss.len() == 0 {
        Seq::empty()
    } else if ss.len() == 1 {
        ss[0]
    } else {
        join_spaces(ss.drop_last()) + seq![' '] + ss.last()
    }
}

/// The views of a list of string slices.
pub open spec fn views_of(ss: Seq<&str>) -> Seq<Seq<char>> {
    ss.map_values(|t: &str| t@)
}

/// Joins move names with single spaces.
pub fn pretty_print_moves(moves: Vec<&str>) -> (r: String)
    ensures
        r@ == join_spaces(views_of(moves@)),
{
    proof {
        reveal_strlit(" ");
    }
    let mut r: String = String::new();
    let mut i: usize = 0;
    let n: usize = moves.len();
    while i < n
        invariant
            i <= n,
            n == moves@.len(),
            r@ == join_spaces(views_of(moves@.take(i as int))),
        decreases n - i,
    {
        if i > 0 {
            r.append(" ");
        }
        r.append(moves[i]);
        i = i + 1;
        proof {
            assert(views_of(moves@.take(i as int)).drop_last() =~= views_of(
                moves@.take(i - 1),
            ));
            assert(views_of(moves@.take(i as int)).last() == moves@[i - 1]@);
            assert(" "@ =~= seq![' ']) by {
                reveal_strlit(" ");
            }
        }
    }
    proof {
        assert(moves@.take(n as int) =~= moves@);
    }
    r
}

/// Names in a rendered sequence agree with the identifiers they came
/// from, so the join equals the canonical rendering of the identifiers.
proof fn lemma_join_is_pretty(ms: Seq<u8>, names: Seq<Seq<char>>)
    requires
        names.len() == ms.len(),
        (forall|i: int| 0 <= i < ms.len() ==> #[trigger] names[i] == move_name(ms[i])),
    ensures
        join_spaces(names) == pretty_moves(ms),
    decreases ms.len(),
{
    if ms.len() > 1 {
        assert(names.drop_last().len() == ms.drop_last().len());
        lemma_join_is_pretty(ms.drop_last(), names.drop_last());
        assert(names.last() == move_name(ms.last()));
    }
}

/// Renders a sequence of move identifiers as space-separated names.
pub fn decode_pretty_print_moves(moves: Vec<u8>) -> (r: String)
    requires
        path_ok(moves@),
    ensures
        r@ == pretty_moves(moves@),
{
    let ghost gmoves: Seq<u8> = moves@;
    let names: Vec<&'static str> = decode_moves(moves);
    let r: String = pretty_print_moves(names);
    proof {
        lemma_join_is_pretty(gmoves, views_of(names@));
    }
    r
}

} // verus!
