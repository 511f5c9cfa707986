//! The leaf-evaluation boundary of the search. The engine owns the exact
//! scoring of finished games; everything else is delegated to a pluggable
//! `Evaluator`. A baseline evaluator scoring the stone differential is
//! provided.

use vstd::prelude::*;
use crate::bits::{pcount, lemma_pcount_to_bounds};
use crate::board::Board;
use crate::movegen::{has_move, child_my, child_op, legal_at};
use crate::solver::{lemma_stones_bound, lemma_child_props};
use crate::stats::SearchStats;

verus! {

/// Scores at or above this magnitude assert a decided game.
pub const WIN_SCORE: i32 = 1000;

pub const LOSE_SCORE: i32 = -1000;

/// Every evaluator keeps its scores strictly inside this bound; the
/// engine's own scores stay inside it as well.
pub const EVAL_LIMIT: i32 = 30000;

/// Exact score of a finished game, from the mover's view: the winning
/// side's sentinel plus the stone differential, zero for a draw.
pub open spec fn terminal_score(m: u64, o: u64) -> int {
    let d = pcount(m) - pcount(o);
    if d > 0 {
        WIN_SCORE + d
    } else if d < 0 {
        LOSE_SCORE + d
    } else {
        0int
    }
}

/// A leaf scorer for the search: positive favours the mover. The score
/// must be a function of the position alone and stay inside `EVAL_LIMIT`.
pub trait Evaluator {
    spec fn spec_score(&self, m: u64, o: u64) -> int;

    /// The score of any well-formed position stays inside the bound.
    proof fn score_in_range(&self, m: u64, o: u64)
        requires
            m & o == 0,
        ensures
            -EVAL_LIMIT < self.spec_score(m, o) < EVAL_LIMIT,
    ;

    fn score(&self, b: &Board) -> (r: i32)
        requires
            b.wf(),
        ensures
            r as int == self.spec_score(b.my_board, b.opponent_board),
            -EVAL_LIMIT < r < EVAL_LIMIT,
    ;
}

/// Baseline evaluator: the plain stone differential.
pub struct DiscDiffEvaluator;

impl Evaluator for DiscDiffEvaluator {
    open spec fn spec_score(&self, m: u64, o: u64) -> int {
        pcount(m) - pcount(o)
    }

    proof fn score_in_range(&self, m: u64, o: u64) {
        lemma_pcount_to_bounds(m, 64);
        lemma_pcount_to_bounds(o, 64);
    }

    fn score(&self, b: &Board) -> (r: i32) {
        proof {
            lemma_pcount_to_bounds(b.my_board, 64);
            lemma_pcount_to_bounds(b.opponent_board, 64);
        }
        let (cm, co) = b.piece_counts();
        cm as i32 - co as i32
    }
}

impl Board {
    /// Leaf score of the position: the exact terminal score when the game
    /// is over, the evaluator's score otherwise. Counts one evaluation.
    pub fn eval<E: Evaluator>(&self, ev: &E, stats: &mut SearchStats) -> (r: i32)
        requires
            self.wf(),
        ensures
            -EVAL_LIMIT <= r <= EVAL_LIMIT,
            self.spec_stones() == 64 ==> r as int == terminal_score(
                self.my_board,
                self.opponent_board,
            ),
            (!has_move(self.my_board, self.opponent_board) && !has_move(
                self.opponent_board,
                self.my_board,
            )) ==> r as int == terminal_score(self.my_board, self.opponent_board),
            (has_move(self.my_board, self.opponent_board) || has_move(
                self.opponent_board,
                self.my_board,
            )) && self.spec_stones() < 64 ==> r as int == ev.spec_score(
                self.my_board,
                self.opponent_board,
            ),
    {
        stats.increment_eval_count();
        proof {
            lemma_stones_bound(self.my_board, self.opponent_board);
        }
        let (cm, co) = self.piece_counts();
        let turn = cm + co;
        if turn == 64 {
            proof {
                crate::solver::lemma_full_no_moves(self.my_board, self.opponent_board);
            }
            return terminal(cm as i32, co as i32);
        }
        let my_placeable = self.get_valid_moves();
        let mut t = *self;
        t.change_turn();
        proof {
            crate::bits::lemma_and_comm(t.my_board, t.opponent_board);
        }
        let op_placeable = t.get_valid_moves();
        proof {
            crate::solver::lemma_moves_bitmap(self.my_board, self.opponent_board, my_placeable);
            crate::solver::lemma_moves_bitmap(self.opponent_board, self.my_board, op_placeable);
        }
        if my_placeable == 0 && op_placeable == 0 {
            return terminal(cm as i32, co as i32);
        }
        ev.score(self)
    }
}

/// Depth-limited negamax value of the position, scored by `ev` at the
/// horizon: what the cache-free search computes. A finished game scores
/// the terminal formula at any depth.
pub open spec fn nm_score<E: Evaluator>(ev: E, m: u64, o: u64, depth: int) -> int
    decreases depth, 1int, 65int,
{
    if !has_move(m, o) && !has_move(o, m) {
        terminal_score(m, o)
    } else if depth <= 0 {
        ev.spec_score(m, o)
    } else if !has_move(m, o) {
        -nm_score(ev, o, m, depth - 1)
    } else {
        nm_moves(ev, m, o, depth, 0)
    }
}

/// The negamax value of the child reached by move `t`, seen from the
/// parent.
pub open spec fn nm_child<E: Evaluator>(ev: E, m: u64, o: u64, depth: int, t: int) -> int {
    -nm_score(ev, child_my(m, o, t), child_op(m, o, t), depth - 1)
}

/// Best negamax value over the moves with square index at least `s`.
pub open spec fn nm_moves<E: Evaluator>(ev: E, m: u64, o: u64, depth: int, s: int) -> int
    decreases depth, 0int, 64int - s,
    when 1 <= depth
{
    if s >= 64 {
        // below every reachable score: the maximum over no moves
        -0x100000int
    } else {
        let rest = nm_moves(ev, m, o, depth, s + 1);
        if legal_at(m, o, s) {
            let c = -nm_score(ev, child_my(m, o, s), child_op(m, o, s), depth - 1);
            if c > rest {
                c
            } else {
                rest
            }
        } else {
            rest
        }
    }
}

/// The negamax value of a well-formed position stays inside the
/// evaluator's bound.
pub proof fn lemma_nm_range<E: Evaluator>(ev: E, m: u64, o: u64, depth: int)
    requires
        m & o == 0,
    ensures
        -EVAL_LIMIT <= nm_score(ev, m, o, depth) <= EVAL_LIMIT,
    decreases depth, 1int, 65int,
{
    lemma_stones_bound(m, o);
    if !has_move(m, o) && !has_move(o, m) {
    } else if depth <= 0 {
        ev.score_in_range(m, o);
    } else if !has_move(m, o) {
        crate::bits::lemma_and_comm(m, o);
        lemma_nm_range(ev, o, m, depth - 1);
    } else {
        lemma_nm_moves_char(ev, m, o, depth, 0);
        let t = choose|t: int|
            0 <= t < 64 && legal_at(m, o, t) && nm_moves(ev, m, o, depth, 0) == #[trigger] nm_child(
                ev,
                m,
                o,
                depth,
                t,
            );
    }
}

/// Characterizes the best-over-moves value: it dominates every remaining
/// child, and with a remaining move it is attained by one of them.
pub proof fn lemma_nm_moves_char<E: Evaluator>(ev: E, m: u64, o: u64, depth: int, s: int)
    requires
        m & o == 0,
        0 <= s <= 64,
        1 <= depth,
    ensures
        forall|t: int|
            s <= t < 64 && legal_at(m, o, t) ==> nm_moves(ev, m, o, depth, s) >= #[trigger] nm_child(
                ev,
                m,
                o,
                depth,
                t,
            ),
        (exists|t: int| s <= t < 64 && legal_at(m, o, t)) ==> exists|t: int|
            s <= t < 64 && legal_at(m, o, t) && nm_moves(ev, m, o, depth, s) == #[trigger] nm_child(
                ev,
                m,
                o,
                depth,
                t,
            ),
        (forall|t: int| s <= t < 64 ==> !legal_at(m, o, t)) ==> nm_moves(ev, m, o, depth, s)
            == -0x100000int,
        -0x100000 <= nm_moves(ev, m, o, depth, s),
        (exists|t: int| s <= t < 64 && legal_at(m, o, t)) ==> -EVAL_LIMIT <= nm_moves(
            ev,
            m,
            o,
            depth,
            s,
        ) <= EVAL_LIMIT,
    decreases depth, 0int, 65int - s,
{
    if s >= 64 {
    } else {
        lemma_nm_moves_char(ev, m, o, depth, s + 1);
        let rest = nm_moves(ev, m, o, depth, s + 1);
        if legal_at(m, o, s) {
            lemma_child_props(m, o, s);
            lemma_nm_range(ev, child_my(m, o, s), child_op(m, o, s), depth - 1);
            let c = nm_child(ev, m, o, depth, s);
            if c > rest {
                assert(nm_moves(ev, m, o, depth, s) == c);
            } else {
                assert(nm_moves(ev, m, o, depth, s) == rest);
                if rest == -0x100000 {
                    assert(c <= rest && -EVAL_LIMIT <= c);
                    assert(false);
                } else {
                    let t0 = choose|t: int|
                        s + 1 <= t < 64 && legal_at(m, o, t) && rest == #[trigger] nm_child(
                            ev,
                            m,
                            o,
                            depth,
                            t,
                        );
                    assert(s <= t0 < 64 && legal_at(m, o, t0) && nm_moves(ev, m, o, depth, s)
                        == nm_child(ev, m, o, depth, t0));
                }
            }
        } else {
            if exists|t: int| s + 1 <= t < 64 && legal_at(m, o, t) {
                let t0 = choose|t: int| s + 1 <= t < 64 && legal_at(m, o, t);
                assert(s <= t0 < 64 && legal_at(m, o, t0));
            }
            if exists|t: int| s <= t < 64 && legal_at(m, o, t) {
                let t1 = choose|t: int| s <= t < 64 && legal_at(m, o, t);
                assert(s + 1 <= t1 < 64 && legal_at(m, o, t1));
            }
        }
    }
}

/// The terminal formula on already-computed counts.
fn terminal(cm: i32, co: i32) -> (r: i32)
    requires
        0 <= cm <= 64,
        0 <= co <= 64,
    ensures
        r == (if cm > co {
            WIN_SCORE + (cm - co)
        } else if cm < co {
            LOSE_SCORE + (cm - co)
        } else {
            0int
        }),
{
    let diff = cm - co;
    if cm > co {
        WIN_SCORE + diff
    } else if cm < co {
        LOSE_SCORE + diff
    } else {
        0
    }
}

} // verus!
