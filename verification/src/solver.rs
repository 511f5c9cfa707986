//! Exact endgame solver: the game-theoretic value of a position (win,
//! draw, loss for the mover) and a solver that computes it, with a
//! persistent cache of solved positions.

use vstd::prelude::*;
use crate::bits::{
    bit64,
    pcount,
    popcount,
    first_set_bit,
    lemma_bit_or,
    lemma_bit_zero,
    lemma_and_zero_disjoint,
    lemma_pcount_or_disjoint,
    lemma_pcount_to_bounds,
    lemma_pcount_two_missing,
    lemma_and_comm,
    lemma_nonzero_has_bit,
    lemma_pcount_missing_bit,
};
use crate::board::Board;
use crate::movegen::{
    legal_at,
    flip_word,
    lemma_flip_word_bits,
    has_move,
    child_my,
    child_op,
    pass_rank,
};
use crate::movegen;
use crate::timing::TimeManager;

verus! {

broadcast use vstd::std_specs::hash::group_hash_axioms;

/// Final verdict by stone count, from the mover's view.
pub open spec fn count_verdict(m: u64, o: u64) -> int {
    if pcount(m) > pcount(o) {
        1int
    } else if pcount(m) < pcount(o) {
        -1int
    } else {
        0int
    }
}

/// Two disjoint maps hold at most 64 stones.
pub proof fn lemma_stones_bound(m: u64, o: u64)
    requires
        m & o == 0,
    ensures
        0 <= pcount(m),
        0 <= pcount(o),
        pcount(m) + pcount(o) <= 64,
{
    assert forall|i: u64| i < 64 implies !(bit64(m, i) && bit64(o, i)) by {
        lemma_and_zero_disjoint(m, o, i);
    }
    lemma_pcount_or_disjoint(m, o, 64);
    lemma_pcount_to_bounds(m | o, 64);
    lemma_pcount_to_bounds(m, 64);
    lemma_pcount_to_bounds(o, 64);
}

/// A legal move leads to a well-formed child with one more stone.
pub proof fn lemma_child_props(m: u64, o: u64, s: int)
    requires
        m & o == 0,
        legal_at(m, o, s),
    ensures
        child_my(m, o, s) & child_op(m, o, s) == 0,
        pcount(child_my(m, o, s)) + pcount(child_op(m, o, s)) == pcount(m) + pcount(o) + 1,
{
    lemma_flip_word_bits(m, o, s);
    movegen::lemma_flip_effects(m, o, s, flip_word(m, o, s));
    lemma_and_comm(child_op(m, o, s), child_my(m, o, s));
}

/// Game-theoretic value of the position, from the mover's view: 1 a win,
/// 0 a draw, -1 a loss, under optimal play to the end of the game.
pub open spec fn gv(m: u64, o: u64) -> int
    decreases 64int - pcount(m) - pcount(o), pass_rank(m, o), 65int,
    when m & o == 0
    via gv_decreases
{
    if !has_move(m, o) {
        if !has_move(o, m) {
            count_verdict(m, o)
        } else {
            -gv(o, m)
        }
    } else {
        gv_moves(m, o, 0)
    }
}

/// Best value over the moves with square index at least `s`; -1 when no
/// such move exists.
pub open spec fn gv_moves(m: u64, o: u64, s: int) -> int
    decreases 64int - pcount(m) - pcount(o), 1int, 64int - s,
    when m & o == 0 && 0 <= s
    via gv_moves_decreases
{
    if s >= 64 {
        -1int
    } else {
        let rest = gv_moves(m, o, s + 1);
        if legal_at(m, o, s) {
            let c = -gv(child_my(m, o, s), child_op(m, o, s));
            if c > rest {
                c
            } else {
                rest
            }
        } else {
            rest
        }
    }
}

#[via_fn]
proof fn gv_decreases(m: u64, o: u64) {
    lemma_stones_bound(m, o);
    lemma_and_comm(m, o);
}

#[via_fn]
proof fn gv_moves_decreases(m: u64, o: u64, s: int) {
    lemma_stones_bound(m, o);
    if m & o == 0 && 0 <= s < 64 && legal_at(m, o, s) {
        lemma_child_props(m, o, s);
        lemma_stones_bound(child_my(m, o, s), child_op(m, o, s));
    }
}

/// Value of the child position reached by move `t`.
pub open spec fn child_val(m: u64, o: u64, t: int) -> int {
    gv(child_my(m, o, t), child_op(m, o, t))
}

/// The game value is one of -1, 0, 1.
pub proof fn lemma_gv_range(m: u64, o: u64)
    requires
        m & o == 0,
    ensures
        -1 <= gv(m, o) <= 1,
    decreases 64int - pcount(m) - pcount(o), pass_rank(m, o), 65int,
{
    lemma_stones_bound(m, o);
    if !has_move(m, o) {
        if has_move(o, m) {
            lemma_and_comm(m, o);
            lemma_gv_range(o, m);
        }
    } else {
        lemma_gv_moves_char(m, o, 0);
    }
}

/// Characterizes the best-over-moves value: it is 1 exactly when some
/// remaining move reaches a lost child, and -1 exactly when every
/// remaining move reaches a won child.
pub proof fn lemma_gv_moves_char(m: u64, o: u64, s: int)
    requires
        m & o == 0,
        0 <= s <= 64,
    ensures
        -1 <= gv_moves(m, o, s) <= 1,
        (gv_moves(m, o, s) == 1) == (exists|t: int|
            s <= t < 64 && legal_at(m, o, t) && #[trigger] child_val(m, o, t) == -1),
        (gv_moves(m, o, s) == -1) == (forall|t: int|
            s <= t < 64 && legal_at(m, o, t) ==> #[trigger] child_val(m, o, t) == 1),
    decreases 64int - pcount(m) - pcount(o), 1int, 64int - s,
{
    lemma_stones_bound(m, o);
    if s >= 64 {
    } else {
        lemma_gv_moves_char(m, o, s + 1);
        let rest = gv_moves(m, o, s + 1);
        if legal_at(m, o, s) {
            lemma_child_props(m, o, s);
            lemma_stones_bound(child_my(m, o, s), child_op(m, o, s));
            lemma_gv_range(child_my(m, o, s), child_op(m, o, s));
            let c = -child_val(m, o, s);
            // value 1: the child at `s` or a later one is lost
            if gv_moves(m, o, s) == 1 {
                if c == 1 {
                    assert(legal_at(m, o, s) && child_val(m, o, s) == -1);
                } else {
                    let t = choose|t: int|
                        s + 1 <= t < 64 && legal_at(m, o, t) && #[trigger] child_val(m, o, t)
                            == -1;
                    assert(s <= t < 64 && legal_at(m, o, t) && child_val(m, o, t) == -1);
                }
            }
            if exists|t: int|
                s <= t < 64 && legal_at(m, o, t) && #[trigger] child_val(m, o, t) == -1 {
                let t = choose|t: int|
                    s <= t < 64 && legal_at(m, o, t) && #[trigger] child_val(m, o, t) == -1;
                if t == s {
                    assert(c == 1);
                } else {
                    assert(s + 1 <= t < 64 && legal_at(m, o, t) && child_val(m, o, t) == -1);
                    assert(rest == 1);
                }
                assert(gv_moves(m, o, s) == 1);
            }
            // value -1: the child at `s` and all later ones are won
            if gv_moves(m, o, s) == -1 {
                assert(c == -1 && rest == -1);
                assert forall|t: int|
                    s <= t < 64 && legal_at(m, o, t) implies #[trigger] child_val(m, o, t)
                    == 1 by {
                    if t == s {
                    } else {
                        assert(s + 1 <= t < 64 && legal_at(m, o, t));
                    }
                }
            }
            if forall|t: int|
                s <= t < 64 && legal_at(m, o, t) ==> #[trigger] child_val(m, o, t) == 1 {
                assert(child_val(m, o, s) == 1);
                assert forall|t: int|
                    s + 1 <= t < 64 && legal_at(m, o, t) implies #[trigger] child_val(m, o, t)
                    == 1 by {
                    assert(s <= t < 64 && legal_at(m, o, t));
                }
                assert(rest == -1);
                assert(gv_moves(m, o, s) == -1);
            }
        } else {
            assert forall|t: int|
                s <= t < 64 && legal_at(m, o, t) implies s + 1 <= t < 64 && legal_at(m, o, t) by {
                if t == s {
                }
            }
            if exists|t: int|
                s <= t < 64 && legal_at(m, o, t) && #[trigger] child_val(m, o, t) == -1 {
                let t = choose|t: int|
                    s <= t < 64 && legal_at(m, o, t) && #[trigger] child_val(m, o, t) == -1;
                assert(s + 1 <= t < 64 && legal_at(m, o, t) && child_val(m, o, t) == -1);
            }
        }
    }
}

/// How the game value relates to the children when the mover has a move:
/// a win exactly when some child is lost for its own mover, a loss
/// exactly when every child is won for its own mover.
pub proof fn lemma_gv_cases(m: u64, o: u64)
    requires
        m & o == 0,
        has_move(m, o),
    ensures
        -1 <= gv(m, o) <= 1,
        (gv(m, o) == 1) == (exists|t: int|
            0 <= t < 64 && legal_at(m, o, t) && #[trigger] child_val(m, o, t) == -1),
        (gv(m, o) == -1) == (forall|t: int|
            0 <= t < 64 && legal_at(m, o, t) ==> #[trigger] child_val(m, o, t) == 1),
{
    lemma_gv_moves_char(m, o, 0);
}

/// With no move for the mover and none for the opponent the game is over
/// and counting decides.
pub proof fn lemma_gv_terminal(m: u64, o: u64)
    requires
        m & o == 0,
        !has_move(m, o),
        !has_move(o, m),
    ensures
        gv(m, o) == count_verdict(m, o),
{
}

/// With no move for the mover alone, the turn passes and the value is
/// negated.
pub proof fn lemma_gv_pass(m: u64, o: u64)
    requires
        m & o == 0,
        !has_move(m, o),
        has_move(o, m),
    ensures
        gv(m, o) == -gv(o, m),
{
    lemma_and_comm(m, o);
    assert(gv(m, o) == -gv(o, m));
}

/// Side symmetry of the solved value around a pass: when either side has
/// no move, swapping the sides negates the game value. (For positions
/// where both sides still have moves the two values are not related in
/// general.)
pub proof fn lemma_gv_swap_when_pass(m: u64, o: u64)
    requires
        m & o == 0,
        !has_move(m, o) || !has_move(o, m),
    ensures
        gv(o, m) == -gv(m, o),
{
    lemma_and_comm(m, o);
    if !has_move(m, o) {
        if !has_move(o, m) {
            assert(gv(m, o) == count_verdict(m, o));
            assert(gv(o, m) == count_verdict(o, m));
        } else {
            lemma_gv_pass(m, o);
        }
    } else {
        lemma_gv_pass(o, m);
    }
}


/// What a finished solver answer states: the value is the game value of
/// the position, and a returned square is a legal move whose child value
/// confirms it.
pub open spec fn solve_claim(m: u64, o: u64, res: i8, mv: u8) -> bool {
    &&& res as int == gv(m, o)
    &&& (mv == 64 || ((mv as int) < 64 && legal_at(m, o, mv as int) && child_val(m, o, mv as int)
        == -(res as int)))
}

/// A zero bitmap means no legal move, and the other way round.
pub proof fn lemma_moves_bitmap(m: u64, o: u64, moves: u64)
    requires
        forall|q: u64| q < 64 ==> (bit64(moves, q) == legal_at(m, o, q as int)),
    ensures
        (moves == 0) == !has_move(m, o),
{
    if moves != 0 {
        lemma_nonzero_has_bit(moves);
        let q = choose|q: u64| q < 64 && bit64(moves, q);
        assert(legal_at(m, o, q as int));
    } else {
        if has_move(m, o) {
            let s = choose|s: int| legal_at(m, o, s);
            assert((s as u64) as int == s);
            assert(bit64(moves, s as u64) == legal_at(m, o, (s as u64) as int));
            lemma_bit_zero(s as u64);
        }
    }
}

/// A position with a legal move has an empty square, hence at most 63
/// stones.
pub proof fn lemma_legal_stones(m: u64, o: u64, s: int)
    requires
        m & o == 0,
        legal_at(m, o, s),
    ensures
        pcount(m) + pcount(o) <= 63,
{
    assert forall|i: u64| i < 64 implies !(bit64(m, i) && bit64(o, i)) by {
        lemma_and_zero_disjoint(m, o, i);
    }
    lemma_pcount_or_disjoint(m, o, 64);
    assert((s as u64) as int == s);
    lemma_bit_or(m, o, s as u64);
    crate::bits::lemma_pcount_missing_bit(m | o, s as u64, 64);
}

/// A full board has no legal move for either side.
pub proof fn lemma_full_no_moves(m: u64, o: u64)
    requires
        m & o == 0,
        pcount(m) + pcount(o) >= 64,
    ensures
        !has_move(m, o),
        !has_move(o, m),
        gv(m, o) == count_verdict(m, o),
{
    if has_move(m, o) {
        let s = choose|s: int| legal_at(m, o, s);
        lemma_legal_stones(m, o, s);
    }
    if has_move(o, m) {
        let s = choose|s: int| legal_at(o, m, s);
        lemma_and_comm(m, o);
        lemma_legal_stones(o, m, s);
    }
    lemma_gv_terminal(m, o);
}

/// With 63 stones placed there is one empty square, so at most one legal
/// move.
proof fn lemma_unique_move(m: u64, o: u64, s1: int, s2: int)
    requires
        m & o == 0,
        pcount(m) + pcount(o) >= 63,
        legal_at(m, o, s1),
        legal_at(m, o, s2),
    ensures
        s1 == s2,
{
    if s1 != s2 {
        assert forall|i: u64| i < 64 implies !(bit64(m, i) && bit64(o, i)) by {
            lemma_and_zero_disjoint(m, o, i);
        }
        lemma_pcount_or_disjoint(m, o, 64);
        assert((s1 as u64) as int == s1 && (s2 as u64) as int == s2);
        lemma_bit_or(m, o, s1 as u64);
        lemma_bit_or(m, o, s2 as u64);
        if s1 < s2 {
            lemma_pcount_two_missing(m | o, s1 as u64, s2 as u64, 64);
        } else {
            lemma_pcount_two_missing(m | o, s2 as u64, s1 as u64, 64);
        }
    }
}

/// With a single legal move the game value is the negated child value.
proof fn lemma_gv_single_move(m: u64, o: u64, s: int)
    requires
        m & o == 0,
        legal_at(m, o, s),
        forall|t: int| legal_at(m, o, t) ==> t == s,
    ensures
        gv(m, o) == -child_val(m, o, s),
        -1 <= child_val(m, o, s) <= 1,
{
    assert(has_move(m, o));
    lemma_gv_cases(m, o);
    lemma_child_props(m, o, s);
    lemma_gv_range(child_my(m, o, s), child_op(m, o, s));
    let v = child_val(m, o, s);
    if v == -1 {
        assert(0 <= s < 64 && legal_at(m, o, s) && child_val(m, o, s) == -1);
        assert(gv(m, o) == 1);
    } else if v == 1 {
        assert forall|t: int| 0 <= t < 64 && legal_at(m, o, t) implies #[trigger] child_val(
            m,
            o,
            t,
        ) == 1 by {
            assert(t == s);
        }
        assert(gv(m, o) == -1);
    } else {
        if gv(m, o) == 1 {
            let t = choose|t: int|
                0 <= t < 64 && legal_at(m, o, t) && #[trigger] child_val(m, o, t) == -1;
            assert(t == s);
        }
        if gv(m, o) == -1 {
            assert(child_val(m, o, s) == 1);
        }
    }
}

/// Final verdict of a position by its stone counts.
fn judge(b: &Board) -> (r: i8)
    ensures
        r as int == count_verdict(b.my_board, b.opponent_board),
        -1 <= r <= 1,
{
    let (cm, co) = b.piece_counts();
    if cm > co {
        1
    } else if cm < co {
        -1
    } else {
        0
    }
}

/// The 128-bit cache key of a position: the mover's map in the high
/// half, the opponent's in the low half.
pub open spec fn solver_key(m: u64, o: u64) -> u128 {
    ((m as u128) << 64) | (o as u128)
}

/// Distinct positions have distinct keys.
proof fn lemma_solver_key_injective(m1: u64, o1: u64, m2: u64, o2: u64)
    by (bit_vector)
    requires
        ((m1 as u128) << 64) | (o1 as u128) == ((m2 as u128) << 64) | (o2 as u128),
    ensures
        m1 == m2,
        o1 == o2,
{
}

/// Unbounded cache of solved positions, keyed on the packed occupancy
/// maps. Entries persist for the cache's lifetime — nothing is ever
/// evicted — and every stored verdict is sound for its position.
pub struct SolverCache {
    map: std::collections::HashMap<u128, (i8, u8)>,
}

impl SolverCache {
    /// The solved positions the cache holds.
    pub closed spec fn contents(self) -> Map<u128, (i8, u8)> {
        self.map@
    }

    /// Every stored verdict is a sound answer for its position.
    pub open spec fn wf(self) -> bool {
        forall|m: u64, o: u64|
            self.contents().contains_key(#[trigger] solver_key(m, o)) ==> solve_claim(
                m,
                o,
                self.contents()[solver_key(m, o)].0,
                self.contents()[solver_key(m, o)].1,
            )
    }

    pub fn new() -> (r: SolverCache)
        ensures
            r.wf(),
            forall|m: u64, o: u64| !r.contents().contains_key(#[trigger] solver_key(m, o)),
    {
        SolverCache { map: std::collections::HashMap::new() }
    }

    fn probe(&self, m: u64, o: u64) -> (r: Option<(i8, u8)>)
        requires
            self.wf(),
        ensures
            r matches Some(v) ==> solve_claim(m, o, v.0, v.1) && self.contents().contains_key(
                solver_key(m, o),
            ) && self.contents()[solver_key(m, o)] == v,
            r is None ==> !self.contents().contains_key(solver_key(m, o)),
    {
        let key: u128 = ((m as u128) << 64) | (o as u128);
        proof {
            assert(vstd::std_specs::hash::obeys_key_model::<u128>());
            assert(vstd::std_specs::hash::builds_valid_hashers::<
                std::collections::hash_map::RandomState,
            >());
        }
        match self.map.get(&key) {
            Some(v) => {
                proof {
                    assert(self.contents().contains_key(key) && self.contents()[key] == *v);
                    assert(key == solver_key(m, o));
                    assert(solve_claim(
                        m,
                        o,
                        self.contents()[solver_key(m, o)].0,
                        self.contents()[solver_key(m, o)].1,
                    ));
                }
                Some(*v)
            },
            None => None,
        }
    }

    fn store(&mut self, m: u64, o: u64, res: i8, mv: u8)
        requires
            old(self).wf(),
            solve_claim(m, o, res, mv),
        ensures
            final(self).wf(),
            final(self).contents() == old(self).contents().insert(solver_key(m, o), (res, mv)),
    {
        let key: u128 = ((m as u128) << 64) | (o as u128);
        self.map.insert(key, (res, mv));
        proof {
            assert forall|m2: u64, o2: u64|
                self.contents().contains_key(#[trigger] solver_key(m2, o2)) implies solve_claim(
                m2,
                o2,
                self.contents()[solver_key(m2, o2)].0,
                self.contents()[solver_key(m2, o2)].1,
            ) by {
                if solver_key(m2, o2) == solver_key(m, o) {
                    lemma_solver_key_injective(m2, o2, m, o);
                }
            }
        }
    }
}

/// An entry of the child list: opponent mobility, the move, the position
/// after the move with sides swapped, and its legal-move bitmap.
spec fn elem_ok(m: u64, o: u64, e: (u8, u8, Board, u64)) -> bool {
    &&& (e.1 as int) < 64
    &&& legal_at(m, o, e.1 as int)
    &&& e.2.my_board == child_my(m, o, e.1 as int)
    &&& e.2.opponent_board == child_op(m, o, e.1 as int)
    &&& e.2.wf()
    &&& forall|q: u64|
        q < 64 ==> (bit64(e.3, q) == legal_at(e.2.my_board, e.2.opponent_board, q as int))
}

/// Expands every legal move of `board` into the position it leads to.
fn list_children(board: &Board, moves: u64) -> (r: Vec<(u8, u8, Board, u64)>)
    requires
        board.wf(),
        forall|q: u64|
            q < 64 ==> (bit64(moves, q) == legal_at(
                board.my_board,
                board.opponent_board,
                q as int,
            )),
    ensures
        forall|j: int|
            0 <= j < r@.len() ==> elem_ok(board.my_board, board.opponent_board, #[trigger] r@[j]),
        forall|t: u64|
            t < 64 && legal_at(board.my_board, board.opponent_board, t as int) ==> exists|j: int|
                0 <= j < r@.len() && (#[trigger] r@[j]).1 == t as u8,
{
    let ghost m = board.my_board;
    let ghost o = board.opponent_board;
    let mut children: Vec<(u8, u8, Board, u64)> = Vec::new();
    let mut s: usize = 0;
    while s < 64
        invariant
            s <= 64,
            board.wf(),
            forall|q: u64| q < 64 ==> (bit64(moves, q) == legal_at(m, o, q as int)),
            m == board.my_board,
            o == board.opponent_board,
            forall|j: int| 0 <= j < children@.len() ==> elem_ok(m, o, #[trigger] children@[j]),
            forall|t: u64|
                t < s && legal_at(m, o, t as int) ==> exists|j: int|
                    0 <= j < children@.len() && (#[trigger] children@[j]).1 == t as u8,
        decreases 64 - s,
    {
        if (moves >> (s as u64)) & 1 == 1 {
            proof {
                assert(bit64(moves, s as u64) == legal_at(m, o, (s as u64) as int));
                assert((s as u64) as int == s as int);
            }
            let mut t = *board;
            t.do_move(s as u8);
            t.change_turn();
            proof {
                lemma_and_comm(t.my_board, t.opponent_board);
            }
            let next_moves = t.get_valid_moves();
            let mob = popcount(next_moves);
            let ghost children0 = children@;
            children.push((mob as u8, s as u8, t, next_moves));
            proof {
                assert(t.my_board == child_my(m, o, s as int));
                assert(t.opponent_board == child_op(m, o, s as int));
                lemma_child_props(m, o, s as int);
                assert(elem_ok(m, o, children@[children0.len() as int]));
                assert forall|tt: u64|
                    tt < s + 1 && legal_at(m, o, tt as int) implies exists|j: int|
                        0 <= j < children@.len() && (#[trigger] children@[j]).1 == tt as u8 by {
                    if tt < s {
                        let j = choose|j: int|
                            0 <= j < children0.len() && (#[trigger] children0[j]).1 == tt as u8;
                        assert(children@[j].1 == tt as u8);
                    } else {
                        assert(children@[children0.len() as int].1 == tt as u8);
                    }
                }
            }
        } else {
            proof {
                assert(bit64(moves, s as u64) == legal_at(m, o, s as int));
            }
        }
        s = s + 1;
    }
    children
}

/// Stable insertion sort of the child list by its first component, the
/// opponent's mobility, ascending.
fn sort_children(v: &mut Vec<(u8, u8, Board, u64)>)
    ensures
        final(v)@.len() == old(v)@.len(),
        final(v)@.to_multiset() == old(v)@.to_multiset(),
        forall|j1: int, j2: int|
            0 <= j1 <= j2 < final(v)@.len() ==> ((#[trigger] final(v)@[j1]).0
                <= (#[trigger] final(v)@[j2]).0),
{
    broadcast use vstd::seq_lib::group_to_multiset_ensures;

    let ghost orig = v@;
    let mut out: Vec<(u8, u8, Board, u64)> = Vec::new();
    let mut i: usize = 0;
    while i < v.len()
        invariant
            i <= v@.len(),
            v@ == orig,
            out@.len() == i,
            out@.to_multiset() == orig.subrange(0, i as int).to_multiset(),
            forall|j1: int, j2: int|
                0 <= j1 <= j2 < out@.len() ==> (#[trigger] out@[j1]).0 <= (#[trigger] out@[j2]).0,
        decreases v@.len() - i,
    {
        let e = v[i];
        let mut k: usize = 0;
        while k < out.len() && out[k].0 <= e.0
            invariant
                k <= out@.len(),
                forall|j: int| 0 <= j < k ==> (#[trigger] out@[j]).0 <= e.0,
            decreases out@.len() - k,
        {
            k = k + 1;
        }
        let ghost out0 = out@;
        out.insert(k, e);
        proof {
            out0.insert_ensures(k as int, e);
            assert(orig.subrange(0, i + 1) =~= orig.subrange(0, i as int).push(orig[i as int]));
            assert(out@ == out0.insert(k as int, e));
            vstd::seq_lib::to_multiset_insert(out0, k as int, e);
            vstd::seq_lib::to_multiset_build(orig.subrange(0, i as int), orig[i as int]);
            assert(out@.to_multiset() == orig.subrange(0, i + 1).to_multiset());
            assert forall|j1: int, j2: int|
                0 <= j1 <= j2 < out@.len() implies (#[trigger] out@[j1]).0 <= (#[trigger] out@[j2]).0
                 by {
                if j2 < k {
                } else if j1 == k && j2 > k {
                    assert(out@[j2] == out0[j2 - 1]);
                    assert(out0[k as int].0 > e.0);
                    assert(out0[j2 - 1].0 >= out0[k as int].0);
                } else if j1 < k && j2 == k {
                    assert(out@[j1] == out0[j1]);
                } else if j1 < k && j2 > k {
                    assert(out@[j1] == out0[j1] && out@[j2] == out0[j2 - 1]);
                } else if j1 == k && j2 == k {
                } else if j1 > k {
                    assert(out@[j1] == out0[j1 - 1] && out@[j2] == out0[j2 - 1]);
                }
            }
        }
        i = i + 1;
    }
    proof {
        assert(orig.subrange(0, orig.len() as int) =~= orig);
    }
    *v = out;
}


/// The bitmap `moves` marks exactly the legal moves of `(m, o)`.
pub open spec fn moves_ok(m: u64, o: u64, moves: u64) -> bool {
    forall|q: u64| q < 64 ==> (bit64(moves, q) == legal_at(m, o, q as int))
}

/// Solves a position with at most one empty square: the forced line is
/// played out and the verdict read off the final counts.
fn _solve_leaf_one(board: &Board, moves: u64) -> (r: (i8, u8))
    requires
        board.wf(),
        moves_ok(board.my_board, board.opponent_board, moves),
        board.spec_stones() >= 63,
    ensures
        solve_claim(board.my_board, board.opponent_board, r.0, r.1),
        -1 <= r.0 <= 1,
        moves != 0 ==> (r.1 as int) < 64,
        moves == 0 ==> r.1 == 64,
{
    let ghost m = board.my_board;
    let ghost o = board.opponent_board;
    proof {
        lemma_moves_bitmap(m, o, moves);
    }
    if moves != 0 {
        let mv = first_set_bit(moves);
        proof {
            assert(legal_at(m, o, mv as int));
            lemma_legal_stones(m, o, mv as int);
            assert forall|t: int| legal_at(m, o, t) implies t == mv as int by {
                lemma_unique_move(m, o, t, mv as int);
            }
            lemma_gv_single_move(m, o, mv as int);
            lemma_child_props(m, o, mv as int);
            lemma_full_no_moves(child_my(m, o, mv as int), child_op(m, o, mv as int));
        }
        let mut b = *board;
        b.do_move(mv as u8);
        let res = judge(&b);
        proof {
            assert(b.opponent_board == child_my(m, o, mv as int));
            assert(b.my_board == child_op(m, o, mv as int));
            assert(child_val(m, o, mv as int) == count_verdict(
                child_my(m, o, mv as int),
                child_op(m, o, mv as int),
            ));
            assert(res as int == -child_val(m, o, mv as int));
            assert(res as int == gv(m, o));
        }
        return (res, mv as u8);
    }
    let mut b = *board;
    b.change_turn();
    proof {
        lemma_and_comm(b.my_board, b.opponent_board);
    }
    let new_move = b.get_valid_moves();
    proof {
        lemma_moves_bitmap(o, m, new_move);
    }
    if new_move == 0 {
        proof {
            lemma_gv_terminal(m, o);
        }
        let res = judge(board);
        return (res, 64);
    }
    let mv = first_set_bit(new_move);
    proof {
        lemma_gv_pass(m, o);
        assert(legal_at(o, m, mv as int));
        lemma_legal_stones(o, m, mv as int);
        assert forall|t: int| legal_at(o, m, t) implies t == mv as int by {
            lemma_unique_move(o, m, t, mv as int);
        }
        lemma_gv_single_move(o, m, mv as int);
        lemma_child_props(o, m, mv as int);
        lemma_full_no_moves(child_my(o, m, mv as int), child_op(o, m, mv as int));
    }
    b.do_move(mv as u8);
    let res0 = judge(&b);
    proof {
        assert(b.opponent_board == child_my(o, m, mv as int));
        assert(b.my_board == child_op(o, m, mv as int));
        assert(child_val(o, m, mv as int) == count_verdict(
            child_my(o, m, mv as int),
            child_op(o, m, mv as int),
        ));
        assert(gv(o, m) == -child_val(o, m, mv as int));
        assert(gv(m, o) == -gv(o, m));
    }
    let res: i8 = -res0;
    (res, 64)
}

/// Solves near-terminal positions without touching the cache for its own
/// results.
fn _solve_leaf(board: &Board, moves: u64, cache: &mut SolverCache, tm: &TimeManager) -> (r: (
    i8,
    u8,
))
    requires
        board.wf(),
        old(cache).wf(),
        moves_ok(board.my_board, board.opponent_board, moves),
    ensures
        final(cache).wf(),
        r.0 == -2 || solve_claim(board.my_board, board.opponent_board, r.0, r.1),
        r.0 == -2 ==> r.1 == 64,
    decreases 64int - board.spec_stones(), pass_rank(board.my_board, board.opponent_board),
{
    let ghost m = board.my_board;
    let ghost o = board.opponent_board;
    proof {
        lemma_stones_bound(m, o);
        lemma_moves_bitmap(m, o, moves);
    }
    if tm.should_stop() {
        return (-2, 64);
    }
    if moves == 0 {
        let mut t = *board;
        t.change_turn();
        proof {
            lemma_and_comm(t.my_board, t.opponent_board);
        }
        let new_moves = t.get_valid_moves();
        proof {
            lemma_moves_bitmap(o, m, new_moves);
        }
        if new_moves == 0 {
            proof {
                lemma_gv_terminal(m, o);
            }
            let res = judge(board);
            return (res, 64);
        }
        let p = _solve(&t, new_moves, cache, tm);
        if p.0 == -2 {
            return (-2, 64);
        }
        proof {
            lemma_gv_pass(m, o);
            lemma_and_comm(m, o);
            lemma_gv_range(o, m);
        }
        let res: i8 = -p.0;
        return (res, 64);
    }
    let stones = board.get_turn();
    let children = list_children(board, moves);
    let ghost chs = children@;
    let mut best_move: u8 = 64;
    let mut i: usize = 0;
    while i < children.len()
        invariant
            board.wf(),
            cache.wf(),
            m == board.my_board,
            o == board.opponent_board,
            stones == board.spec_stones(),
            stones <= 128,
            children@ == chs,
            moves_ok(m, o, moves),
            i <= children@.len(),
            forall|j: int| 0 <= j < children@.len() ==> elem_ok(m, o, #[trigger] children@[j]),
            forall|t: u64|
                t < 64 && legal_at(m, o, t as int) ==> exists|j: int|
                    0 <= j < children@.len() && (#[trigger] children@[j]).1 == t as u8,
            forall|j: int|
                0 <= j < i ==> (child_val(m, o, (#[trigger] children@[j]).1 as int) == 1
                    || child_val(m, o, children@[j].1 as int) == 0),
            best_move == 64 ==> forall|j: int|
                0 <= j < i ==> child_val(m, o, (#[trigger] children@[j]).1 as int) == 1,
            best_move != 64 ==> ((best_move as int) < 64 && legal_at(m, o, best_move as int)
                && child_val(m, o, best_move as int) == 0),
        decreases children@.len() - i,
    {
        let (_mob, mv, child, child_moves) = children[i];
        proof {
            assert(elem_ok(m, o, children@[i as int]));
            lemma_child_props(m, o, mv as int);
            lemma_stones_bound(child.my_board, child.opponent_board);
            lemma_legal_stones(m, o, mv as int);
        }
        let res_pair = if stones <= 61 {
            _solve_leaf(&child, child_moves, cache, tm)
        } else {
            _solve_leaf_one(&child, child_moves)
        };
        let res = res_pair.0;
        proof {
            if res != -2 {
                lemma_and_comm(child.my_board, child.opponent_board);
                lemma_gv_range(child.my_board, child.opponent_board);
            }
        }
        if res == -1 {
            proof {
                lemma_gv_cases(m, o);
                assert(0 <= (mv as int) && (mv as int) < 64 && legal_at(m, o, mv as int)
                    && child_val(m, o, mv as int) == -1);
                assert(gv(m, o) == 1);
            }
            return (1, mv);
        } else if res == 0 {
            best_move = mv;
        } else if res == -2 {
            return (-2, 64);
        }
        i = i + 1;
    }
    proof {
        lemma_gv_cases(m, o);
        if exists|t: int| 0 <= t < 64 && legal_at(m, o, t) && #[trigger] child_val(m, o, t) == -1 {
            let t = choose|t: int|
                0 <= t < 64 && legal_at(m, o, t) && #[trigger] child_val(m, o, t) == -1;
            let j = choose|j: int|
                0 <= j < children@.len() && (#[trigger] children@[j]).1 == t as u8;
            assert(children@[j].1 as int == t);
            assert(false);
        }
        assert(gv(m, o) != 1);
        if best_move == 64 {
            assert forall|t: int|
                0 <= t < 64 && legal_at(m, o, t) implies #[trigger] child_val(m, o, t) == 1 by {
                let j = choose|j: int|
                    0 <= j < children@.len() && (#[trigger] children@[j]).1 == t as u8;
                assert(children@[j].1 as int == t);
                assert(child_val(m, o, children@[j].1 as int) == 1 || child_val(
                    m,
                    o,
                    children@[j].1 as int,
                ) == 0);
            }
            assert(gv(m, o) == -1);
        } else {
            assert(child_val(m, o, best_move as int) == 0);
            assert(gv(m, o) != -1);
        }
    }
    if best_move == 64 {
        (-1, 64)
    } else {
        (0, best_move)
    }
}

/// Solves a position exactly: consults and fills the cache, orders the
/// moves by the opponent's mobility, and stops early on a proven win.
fn _solve(board: &Board, moves: u64, cache: &mut SolverCache, tm: &TimeManager) -> (r: (i8, u8))
    requires
        board.wf(),
        old(cache).wf(),
        moves_ok(board.my_board, board.opponent_board, moves),
    ensures
        final(cache).wf(),
        r.0 == -2 || solve_claim(board.my_board, board.opponent_board, r.0, r.1),
        r.0 == -2 ==> r.1 == 64,
        r.0 != -2 ==> final(cache).contents().contains_key(
            solver_key(board.my_board, board.opponent_board),
        ) && final(cache).contents()[solver_key(board.my_board, board.opponent_board)] == (
        r.0,
        r.1,
        ),
    decreases 64int - board.spec_stones(), pass_rank(board.my_board, board.opponent_board),
{
    let ghost m = board.my_board;
    let ghost o = board.opponent_board;
    let probed = cache.probe(board.my_board, board.opponent_board);
    if let Some(pr) = probed {
        proof {
            if pr.0 == -2 {
                lemma_gv_range(board.my_board, board.opponent_board);
            }
        }
        return pr;
    }
    if tm.should_stop() {
        return (-2, 64);
    }
    proof {
        lemma_stones_bound(m, o);
        lemma_moves_bitmap(m, o, moves);
    }
    if moves == 0 {
        let mut t = *board;
        t.change_turn();
        proof {
            lemma_and_comm(t.my_board, t.opponent_board);
        }
        let new_moves = t.get_valid_moves();
        proof {
            lemma_moves_bitmap(o, m, new_moves);
        }
        if new_moves == 0 {
            proof {
                lemma_gv_terminal(m, o);
            }
            let res = judge(board);
            cache.store(board.my_board, board.opponent_board, res, 64);
            return (res, 64);
        }
        let p = _solve(&t, new_moves, cache, tm);
        if p.0 == -2 {
            return (-2, 64);
        }
        proof {
            lemma_gv_pass(m, o);
            lemma_and_comm(m, o);
            lemma_gv_range(o, m);
        }
        let res: i8 = -p.0;
        cache.store(board.my_board, board.opponent_board, res, 64);
        return (res, 64);
    }
    let stones = board.get_turn();
    let mut children = list_children(board, moves);
    let ghost pre = children@;
    sort_children(&mut children);
    proof {
        assert forall|j: int|
            0 <= j < children@.len() implies elem_ok(m, o, #[trigger] children@[j]) by {
            vstd::seq_lib::to_multiset_contains(children@, children@[j]);
            vstd::seq_lib::to_multiset_contains(pre, children@[j]);
            assert(children@.contains(children@[j]));
            assert(pre.contains(children@[j]));
            let jj = choose|jj: int| 0 <= jj < pre.len() && pre[jj] == children@[j];
            assert(elem_ok(m, o, pre[jj]));
        }
        assert forall|t: u64|
            t < 64 && legal_at(m, o, t as int) implies exists|j: int|
                0 <= j < children@.len() && (#[trigger] children@[j]).1 == t as u8 by {
            let j0 = choose|j: int| 0 <= j < pre.len() && (#[trigger] pre[j]).1 == t as u8;
            vstd::seq_lib::to_multiset_contains(pre, pre[j0]);
            vstd::seq_lib::to_multiset_contains(children@, pre[j0]);
            assert(pre.contains(pre[j0]));
            assert(children@.contains(pre[j0]));
            let j1 = choose|j1: int| 0 <= j1 < children@.len() && children@[j1] == pre[j0];
            assert((children@[j1]).1 == t as u8);
        }
    }
    let ghost chs = children@;
    let mut best_move: u8 = 64;
    let mut i: usize = 0;
    while i < children.len()
        invariant
            board.wf(),
            cache.wf(),
            m == board.my_board,
            o == board.opponent_board,
            stones == board.spec_stones(),
            stones <= 128,
            children@ == chs,
            moves_ok(m, o, moves),
            i <= children@.len(),
            forall|j: int| 0 <= j < children@.len() ==> elem_ok(m, o, #[trigger] children@[j]),
            forall|t: u64|
                t < 64 && legal_at(m, o, t as int) ==> exists|j: int|
                    0 <= j < children@.len() && (#[trigger] children@[j]).1 == t as u8,
            forall|j: int|
                0 <= j < i ==> (child_val(m, o, (#[trigger] children@[j]).1 as int) == 1
                    || child_val(m, o, children@[j].1 as int) == 0),
            best_move == 64 ==> forall|j: int|
                0 <= j < i ==> child_val(m, o, (#[trigger] children@[j]).1 as int) == 1,
            best_move != 64 ==> ((best_move as int) < 64 && legal_at(m, o, best_move as int)
                && child_val(m, o, best_move as int) == 0),
        decreases children@.len() - i,
    {
        let (_mob, mv, child, child_moves) = children[i];
        proof {
            assert(elem_ok(m, o, children@[i as int]));
            lemma_child_props(m, o, mv as int);
            lemma_stones_bound(child.my_board, child.opponent_board);
            lemma_legal_stones(m, o, mv as int);
        }
        let res_pair = if stones <= 59 {
            _solve(&child, child_moves, cache, tm)
        } else {
            _solve_leaf(&child, child_moves, cache, tm)
        };
        let res = res_pair.0;
        proof {
            if res != -2 {
                lemma_and_comm(child.my_board, child.opponent_board);
                lemma_gv_range(child.my_board, child.opponent_board);
            }
        }
        if res == -1 {
            proof {
                lemma_gv_cases(m, o);
                assert(0 <= (mv as int) && (mv as int) < 64 && legal_at(m, o, mv as int)
                    && child_val(m, o, mv as int) == -1);
                assert(gv(m, o) == 1);
            }
            cache.store(board.my_board, board.opponent_board, 1, mv);
            return (1, mv);
        } else if res == 0 {
            best_move = mv;
        } else if res == -2 {
            return (-2, 64);
        }
        i = i + 1;
    }
    proof {
        lemma_gv_cases(m, o);
        if exists|t: int| 0 <= t < 64 && legal_at(m, o, t) && #[trigger] child_val(m, o, t) == -1 {
            let t = choose|t: int|
                0 <= t < 64 && legal_at(m, o, t) && #[trigger] child_val(m, o, t) == -1;
            let j = choose|j: int|
                0 <= j < children@.len() && (#[trigger] children@[j]).1 == t as u8;
            assert(children@[j].1 as int == t);
            assert(false);
        }
        assert(gv(m, o) != 1);
        if best_move == 64 {
            assert forall|t: int|
                0 <= t < 64 && legal_at(m, o, t) implies #[trigger] child_val(m, o, t) == 1 by {
                let j = choose|j: int|
                    0 <= j < children@.len() && (#[trigger] children@[j]).1 == t as u8;
                assert(children@[j].1 as int == t);
                assert(child_val(m, o, children@[j].1 as int) == 1 || child_val(
                    m,
                    o,
                    children@[j].1 as int,
                ) == 0);
            }
            assert(gv(m, o) == -1);
        } else {
            assert(child_val(m, o, best_move as int) == 0);
            assert(gv(m, o) != -1);
        }
    }
    if best_move == 64 {
        cache.store(board.my_board, board.opponent_board, -1, 64);
        (-1, 64)
    } else {
        cache.store(board.my_board, board.opponent_board, 0, best_move);
        (0, best_move)
    }
}

/// Solves the position exactly. A result of -2 means the deadline struck
/// and the answer must be discarded; any other result is the true value
/// of the game, with a move that achieves it where one exists.
pub fn solve(board: &Board, cache: &mut SolverCache, tm: &TimeManager) -> (r: (i8, u8))
    requires
        board.wf(),
        old(cache).wf(),
    ensures
        final(cache).wf(),
        r.0 == -2 || solve_claim(board.my_board, board.opponent_board, r.0, r.1),
        -2 <= r.0 <= 1,
        r.1 <= 64,
        r.0 == -2 ==> r.1 == 64,
        r.0 != -2 ==> final(cache).contents().contains_key(
            solver_key(board.my_board, board.opponent_board),
        ) && final(cache).contents()[solver_key(board.my_board, board.opponent_board)] == (
        r.0,
        r.1,
        ),
{
    let moves = board.get_valid_moves();
    let r = _solve(board, moves, cache, tm);
    proof {
        if r.0 != -2 {
            lemma_gv_range(board.my_board, board.opponent_board);
        }
    }
    r
}

} // verus!
