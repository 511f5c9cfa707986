//! Iterative-deepening NegaScout search with a transposition table, and
//! the top-level move decision: book first, exact solver near the end,
//! heuristic search otherwise. A separate, interruptible variant serves
//! background pondering.

use vstd::prelude::*;
use crate::bits::{bit64, first_set_bit, lemma_and_comm};
use crate::board::Board;
use crate::book::{BookMap, book_entries, lookup_book, spec_lookup};
use crate::cache::{Cache, DEPTH_INF, NIL_MOVE};
use crate::eval::{Evaluator, EVAL_LIMIT, WIN_SCORE, LOSE_SCORE};
use crate::movegen::{legal_at, has_move, child_my, child_op};
use crate::solver::{SolverCache, solve, lemma_moves_bitmap, lemma_child_props, lemma_stones_bound, lemma_legal_stones};
use crate::stats::SearchStats;
use crate::timing::TimeManager;

verus! {

/// Stands in for an infinite window bound.
pub const SCORE_INF: i32 = 100000;

/// The pass sentinel.
pub const PASS: u8 = 64;

/// An entry of the search's child list: an ordering key, the move, and
/// the position after playing it and swapping sides.
spec fn search_elem_ok(m: u64, o: u64, e: (i32, u8, Board)) -> bool {
    &&& (e.1 as int) < 64
    &&& legal_at(m, o, e.1 as int)
    &&& e.2.my_board == child_my(m, o, e.1 as int)
    &&& e.2.opponent_board == child_op(m, o, e.1 as int)
    &&& e.2.wf()
}

/// Expands the legal moves into child positions, each keyed by the
/// transposition table's cached value for ordering (zero when absent).
fn build_children(board: &Board, moves: u64, cache: &Cache) -> (r: Vec<(i32, u8, Board)>)
    requires
        board.wf(),
        cache.wf(),
        forall|q: u64|
            q < 64 ==> (bit64(moves, q) == legal_at(
                board.my_board,
                board.opponent_board,
                q as int,
            )),
    ensures
        forall|j: int|
            0 <= j < r@.len() ==> search_elem_ok(
                board.my_board,
                board.opponent_board,
                #[trigger] r@[j],
            ),
        forall|t: u64|
            t < 64 && legal_at(board.my_board, board.opponent_board, t as int) ==> exists|j: int|
                0 <= j < r@.len() && (#[trigger] r@[j]).1 == t as u8,
{
    let ghost m = board.my_board;
    let ghost o = board.opponent_board;
    let mut children: Vec<(i32, u8, Board)> = Vec::new();
    let mut s: usize = 0;
    while s < 64
        invariant
            s <= 64,
            board.wf(),
            cache.wf(),
            forall|q: u64| q < 64 ==> (bit64(moves, q) == legal_at(m, o, q as int)),
            m == board.my_board,
            o == board.opponent_board,
            forall|j: int|
                0 <= j < children@.len() ==> search_elem_ok(m, o, #[trigger] children@[j]),
            forall|t: u64|
                t < s && legal_at(m, o, t as int) ==> exists|j: int|
                    0 <= j < children@.len() && (#[trigger] children@[j]).1 == t as u8,
        decreases 64 - s,
    {
        if (moves >> (s as u64)) & 1 == 1 {
            proof {
                assert(bit64(moves, s as u64) == legal_at(m, o, (s as u64) as int));
                assert((s as u64) as int == s as int);
            }
            let mut t = *board;
            t.do_move(s as u8);
            t.change_turn();
            proof {
                lemma_and_comm(t.my_board, t.opponent_board);
            }
            let key: i32 = match cache.get(&t) {
                Some(node) => node.value,
                None => 0,
            };
            let ghost children0 = children@;
            children.push((key, s as u8, t));
            proof {
                assert(search_elem_ok(m, o, children@[children0.len() as int]));
                assert forall|tt: u64|
                    tt < s + 1 && legal_at(m, o, tt as int) implies exists|j: int|
                        0 <= j < children@.len() && (#[trigger] children@[j]).1 == tt as u8 by {
                    if tt < s {
                        let j = choose|j: int|
                            0 <= j < children0.len() && (#[trigger] children0[j]).1 == tt as u8;
                        assert(children@[j].1 == tt as u8);
                    } else {
                        assert(children@[children0.len() as int].1 == tt as u8);
                    }
                }
            }
        } else {
            proof {
                assert(bit64(moves, s as u64) == legal_at(m, o, s as int));
            }
        }
        s = s + 1;
    }
    children
}

/// Stable insertion sort of the child list by its key, descending, so
/// the best-looking move is searched first.
fn sort_children_desc(v: &mut Vec<(i32, u8, Board)>)
    ensures
        final(v)@.len() == old(v)@.len(),
        final(v)@.to_multiset() == old(v)@.to_multiset(),
        forall|j1: int, j2: int|
            0 <= j1 <= j2 < final(v)@.len() ==> ((#[trigger] final(v)@[j1]).0
                >= (#[trigger] final(v)@[j2]).0),
{
    broadcast use vstd::seq_lib::group_to_multiset_ensures;

    let ghost orig = v@;
    let mut out: Vec<(i32, u8, Board)> = Vec::new();
    let mut i: usize = 0;
    while i < v.len()
        invariant
            i <= v@.len(),
            v@ == orig,
            out@.len() == i,
            out@.to_multiset() == orig.subrange(0, i as int).to_multiset(),
            forall|j1: int, j2: int|
                0 <= j1 <= j2 < out@.len() ==> (#[trigger] out@[j1]).0 >= (#[trigger] out@[j2]).0,
        decreases v@.len() - i,
    {
        let e = v[i];
        let mut k: usize = 0;
        while k < out.len() && out[k].0 >= e.0
            invariant
                k <= out@.len(),
                forall|j: int| 0 <= j < k ==> (#[trigger] out@[j]).0 >= e.0,
            decreases out@.len() - k,
        {
            k = k + 1;
        }
        let ghost out0 = out@;
        out.insert(k, e);
        proof {
            out0.insert_ensures(k as int, e);
            assert(orig.subrange(0, i + 1) =~= orig.subrange(0, i as int).push(orig[i as int]));
            assert(out@ == out0.insert(k as int, e));
            vstd::seq_lib::to_multiset_insert(out0, k as int, e);
            vstd::seq_lib::to_multiset_build(orig.subrange(0, i as int), orig[i as int]);
            assert(out@.to_multiset() == orig.subrange(0, i + 1).to_multiset());
            assert forall|j1: int, j2: int|
                0 <= j1 <= j2 < out@.len() implies (#[trigger] out@[j1]).0 >= (#[trigger] out@[j2]).0
                 by {
                if j2 < k {
                } else if j1 == k && j2 > k {
                    assert(out@[j2] == out0[j2 - 1]);
                    assert(out0[k as int].0 < e.0);
                } else if j1 < k && j2 == k {
                    assert(out@[j1] == out0[j1]);
                } else if j1 < k && j2 > k {
                    assert(out@[j1] == out0[j1] && out@[j2] == out0[j2 - 1]);
                } else if j1 > k {
                    assert(out@[j1] == out0[j1 - 1] && out@[j2] == out0[j2 - 1]);
                }
            }
        }
        i = i + 1;
    }
    proof {
        assert(orig.subrange(0, orig.len() as int) =~= orig);
    }
    *v = out;
}

/// Principal-variation search with null-window re-searches and the
/// transposition table. Returns (score, complete, best move, aborted):
/// an aborted result must be discarded; otherwise the score is bounded,
/// the move is a legal square, a pass, or the no-move sentinel, and a
/// full board scored on a fresh table entry yields the exact terminal
/// score, marked complete.
pub fn nega_scout<E: Evaluator>(
    board: &Board,
    original_alpha: i32,
    beta: i32,
    depth: u8,
    time_manager: &TimeManager,
    cache: &mut Cache,
    stats: &mut SearchStats,
    ev: &E,
) -> (r: (i32, bool, u8, bool))
    requires
        board.wf(),
        old(cache).wf(),
        -SCORE_INF <= original_alpha,
        original_alpha < beta,
        beta <= SCORE_INF,
    ensures
        final(cache).wf(),
        -SCORE_INF <= r.0 <= SCORE_INF,
        !r.3 ==> -EVAL_LIMIT <= r.0 <= EVAL_LIMIT,
        r.2 == NIL_MOVE || r.2 == PASS || ((r.2 as int) < 64 && legal_at(
            board.my_board,
            board.opponent_board,
            r.2 as int,
        )),
        (!r.3 && board.spec_stones() == 64 && old(cache).lookup(
            board.my_board,
            board.opponent_board,
        ) is None) ==> (r.1 == true && r.0 as int == crate::eval::terminal_score(
            board.my_board,
            board.opponent_board,
        )),
        (!r.3 && !has_move(board.my_board, board.opponent_board) && !has_move(
            board.opponent_board,
            board.my_board,
        ) && old(cache).lookup(board.my_board, board.opponent_board) is None) ==> (r.0 as int
            == crate::eval::terminal_score(board.my_board, board.opponent_board) && (depth >= 1
            ==> r.1 == true)),
        (!r.3 && depth == 0 && board.spec_stones() < 64 && (has_move(
            board.my_board,
            board.opponent_board,
        ) || has_move(board.opponent_board, board.my_board)) && old(cache).lookup(
            board.my_board,
            board.opponent_board,
        ) is None) ==> r.0 as int == ev.spec_score(board.my_board, board.opponent_board),
        (!r.3 && depth == 0 && board.spec_stones() < 64 && old(cache).lookup(
            board.my_board,
            board.opponent_board,
        ) is None) ==> r.1 == (r.0 >= WIN_SCORE || r.0 <= LOSE_SCORE),
    decreases depth,
{
    let ghost m = board.my_board;
    let ghost o = board.opponent_board;
    stats.increment_node_count();
    if time_manager.should_stop() {
        return (-SCORE_INF, false, PASS, true);
    }
    let mut alpha = original_alpha;
    match cache.get(board) {
        Some(node_ref) => {
            let node = *node_ref;
            if node.complete && node.value >= beta {
                return (node.value, node.complete, node.next_move, false);
            }
            if node.depth >= depth {
                if node.exact {
                    return (node.value, node.complete, node.next_move, false);
                }
                if node.lower_bound && node.value >= beta {
                    return (node.value, node.complete, node.next_move, false);
                }
                if node.upper_bound && node.value <= original_alpha {
                    return (node.value, node.complete, node.next_move, false);
                }
                if node.lower_bound {
                    if node.value > alpha {
                        alpha = node.value;
                    }
                }
            }
        },
        None => {},
    }
    let turn = board.get_turn();
    if turn == 64 {
        let e = board.eval(ev, stats);
        cache.set(board, DEPTH_INF, NIL_MOVE, e, true, true, false, false);
        return (e, true, NIL_MOVE, false);
    }
    if depth == 0 {
        let e = board.eval(ev, stats);
        let finished = e >= WIN_SCORE || e <= LOSE_SCORE;
        cache.set(board, 0, NIL_MOVE, e, false, finished, false, false);
        return (e, finished, NIL_MOVE, false);
    }
    let moves = board.get_valid_moves();
    proof {
        lemma_moves_bitmap(m, o, moves);
    }
    if moves == 0 {
        let mut t = *board;
        t.change_turn();
        proof {
            lemma_and_comm(t.my_board, t.opponent_board);
        }
        let t_moves = t.get_valid_moves();
        proof {
            lemma_moves_bitmap(o, m, t_moves);
        }
        if t_moves == 0 {
            let e = board.eval(ev, stats);
            cache.set(board, DEPTH_INF, NIL_MOVE, e, true, true, false, false);
            return (e, true, NIL_MOVE, false);
        }
        let p = nega_scout(&t, -beta, -alpha, depth - 1, time_manager, cache, stats, ev);
        let v = -p.0;
        let finished = p.1;
        if p.3 {
            return (v, finished, PASS, true);
        }
        let exact = v > original_alpha && v < beta;
        let lower_bound = v >= beta;
        let upper_bound = v <= original_alpha;
        cache.set(board, depth, PASS, v, exact, finished, lower_bound, upper_bound);
        return (v, finished, PASS, false);
    }
    let mut ordered = build_children(board, moves, cache);
    let ghost pre = ordered@;
    sort_children_desc(&mut ordered);
    proof {
        assert forall|j: int|
            0 <= j < ordered@.len() implies search_elem_ok(m, o, #[trigger] ordered@[j]) by {
            vstd::seq_lib::to_multiset_contains(ordered@, ordered@[j]);
            vstd::seq_lib::to_multiset_contains(pre, ordered@[j]);
            assert(ordered@.contains(ordered@[j]));
            assert(pre.contains(ordered@[j]));
            let jj = choose|jj: int| 0 <= jj < pre.len() && pre[jj] == ordered@[j];
            assert(search_elem_ok(m, o, pre[jj]));
        }
        // the move set is not empty, so neither is the child list
        let q = choose|q: int| legal_at(m, o, q);
        assert(0 <= q < 64);
        assert((q as u64) < 64 && legal_at(m, o, (q as u64) as int));
        let j0 = choose|j: int| 0 <= j < pre.len() && (#[trigger] pre[j]).1 == (q as u64) as u8;
        assert(pre.len() >= 1);
    }
    let first = ordered[0];
    proof {
        assert(search_elem_ok(m, o, ordered@[0]));
        lemma_child_props(m, o, first.1 as int);
        lemma_stones_bound(first.2.my_board, first.2.opponent_board);
    }
    let p = nega_scout(&first.2, -beta, -alpha, depth - 1, time_manager, cache, stats, ev);
    let mut best_score = -p.0;
    let mut best_move = first.1;
    let mut is_finished = p.1;
    if p.3 {
        return (best_score, is_finished, best_move, true);
    }
    if best_score > alpha {
        alpha = best_score;
    }
    if beta <= alpha {
        cache.set(board, depth, best_move, best_score, false, is_finished, true, false);
        return (best_score, is_finished, best_move, false);
    }
    let mut i: usize = 1;
    while i < ordered.len()
        invariant
            board.wf(),
            cache.wf(),
            m == board.my_board,
            o == board.opponent_board,
            depth >= 1,
            i <= ordered@.len(),
            forall|j: int|
                0 <= j < ordered@.len() ==> search_elem_ok(m, o, #[trigger] ordered@[j]),
            -SCORE_INF <= original_alpha,
            -SCORE_INF <= alpha,
            alpha < beta,
            beta <= SCORE_INF,
            -EVAL_LIMIT <= best_score <= EVAL_LIMIT,
            (best_move as int) < 64 && legal_at(m, o, best_move as int),
        decreases ordered@.len() - i,
    {
        let entry = ordered[i];
        proof {
            assert(search_elem_ok(m, o, ordered@[i as int]));
            lemma_child_props(m, o, entry.1 as int);
            lemma_stones_bound(entry.2.my_board, entry.2.opponent_board);
        }
        let p1 = nega_scout(&entry.2, -alpha - 1, -alpha, depth - 1, time_manager, cache, stats, ev);
        let mut v = -p1.0;
        let mut finished = p1.1;
        if p1.3 {
            return (best_score, is_finished, best_move, true);
        }
        if alpha < v && v < beta {
            let p2 = nega_scout(&entry.2, -beta, -v, depth - 1, time_manager, cache, stats, ev);
            v = -p2.0;
            finished = p2.1;
            if p2.3 {
                return (best_score, is_finished, best_move, true);
            }
        }
        if v > best_score {
            best_score = v;
            best_move = entry.1;
            is_finished = finished;
            alpha = v;
        }
        if beta <= alpha {
            cache.set(board, depth, best_move, best_score, false, is_finished, true, false);
            return (best_score, is_finished, best_move, false);
        }
        i = i + 1;
    }
    let exact = best_score > original_alpha && best_score < beta;
    let lower_bound = best_score >= beta;
    let upper_bound = best_score <= original_alpha;
    cache.set(board, depth, best_move, best_score, exact, is_finished, lower_bound, upper_bound);
    (best_score, is_finished, best_move, false)
}

/// Relies on std::sync::atomic::AtomicBool::load for the shared stop
/// flag; its value depends on the other thread, so nothing is stated.
#[verifier::external_body]
fn stop_requested(flag: &std::sync::atomic::AtomicBool) -> bool {
    flag.load(std::sync::atomic::Ordering::Relaxed)
}

/// Settles one child of the background search: a null-window probe and,
/// when the answer lands inside the window, a full re-search. The
/// returned value bounds or pins the child's negamax contribution.
/// Returns (value, finished flag, whether a re-search ran, aborted).
#[verifier::rlimit(100)]
#[verifier::spinoff_prover]
fn bg_settle_child<E: Evaluator>(
    board: &Board,
    mv: u8,
    alpha: i32,
    beta: i32,
    depth: u8,
    stop_flag: &std::sync::atomic::AtomicBool,
    stats: &mut SearchStats,
    ev: &E,
) -> (r: (i32, bool, bool, bool))
    requires
        board.wf(),
        (mv as int) < 64,
        legal_at(board.my_board, board.opponent_board, mv as int),
        depth >= 1,
        -SCORE_INF <= alpha,
        alpha < beta,
        beta <= SCORE_INF,
    ensures
        !r.3 ==> -EVAL_LIMIT <= r.0 <= EVAL_LIMIT,
        (!r.3 && r.0 <= alpha) ==> crate::eval::nm_child(
            *ev,
            board.my_board,
            board.opponent_board,
            depth as int,
            mv as int,
        ) <= r.0 as int,
        (!r.3 && alpha < r.0 < beta) ==> crate::eval::nm_child(
            *ev,
            board.my_board,
            board.opponent_board,
            depth as int,
            mv as int,
        ) == r.0 as int,
        (!r.3 && r.0 >= beta) ==> crate::eval::nm_child(
            *ev,
            board.my_board,
            board.opponent_board,
            depth as int,
            mv as int,
        ) >= r.0 as int,
    decreases depth, 0int,
{
    let ghost m = board.my_board;
    let ghost o = board.opponent_board;
    proof {
        lemma_legal_stones(m, o, mv as int);
    }
    let mut t2 = *board;
    t2.do_move(mv);
    t2.change_turn();
    proof {
        lemma_and_comm(t2.my_board, t2.opponent_board);
        lemma_child_props(m, o, mv as int);
        lemma_stones_bound(t2.my_board, t2.opponent_board);
        assert(crate::eval::nm_child(*ev, m, o, depth as int, mv as int)
            == -crate::eval::nm_score(*ev, t2.my_board, t2.opponent_board, depth as int - 1));
    }
    let p1 = nega_scout_background(&t2, -alpha - 1, -alpha, depth - 1, stop_flag, stats, ev);
    if p1.3 {
        return (0, false, false, true);
    }
    let score1 = -p1.0;
    proof {
        // the null window has no interior, so the answer is a bound
        if score1 <= alpha {
            assert(crate::eval::nm_child(*ev, m, o, depth as int, mv as int) <= score1 as int);
        } else {
            assert(crate::eval::nm_child(*ev, m, o, depth as int, mv as int) >= score1 as int);
        }
    }
    if alpha < score1 && score1 < beta {
        let p2 = nega_scout_background(&t2, -beta, -score1, depth - 1, stop_flag, stats, ev);
        if p2.3 {
            return (0, false, true, true);
        }
        let score2 = -p2.0;
        proof {
            // the fail-high floor makes the re-search exact below beta
            if score2 >= beta {
                assert(crate::eval::nm_child(*ev, m, o, depth as int, mv as int)
                    >= score2 as int);
            } else {
                assert(crate::eval::nm_child(*ev, m, o, depth as int, mv as int)
                    == score2 as int);
            }
        }
        return (score2, p2.1, true, false);
    }
    (score1, p1.1, false, false)
}

/// NegaScout without the transposition table, interrupted through a
/// shared stop flag: the background ponder. Beyond the foreground
/// search's guarantees, a finished answer is a fail-soft bound on the
/// depth-limited negamax value of the position — exact inside the
/// window, so at a full window the answer is the negamax value itself,
/// whatever order the moves were tried in.
#[verifier::rlimit(100)]
#[verifier::spinoff_prover]
pub fn nega_scout_background<E: Evaluator>(
    board: &Board,
    original_alpha: i32,
    beta: i32,
    depth: u8,
    stop_flag: &std::sync::atomic::AtomicBool,
    stats: &mut SearchStats,
    ev: &E,
) -> (r: (i32, bool, u8, bool))
    requires
        board.wf(),
        -SCORE_INF <= original_alpha,
        original_alpha < beta,
        beta <= SCORE_INF,
    ensures
        -SCORE_INF <= r.0 <= SCORE_INF,
        !r.3 ==> -EVAL_LIMIT <= r.0 <= EVAL_LIMIT,
        r.2 == NIL_MOVE || r.2 == PASS || ((r.2 as int) < 64 && legal_at(
            board.my_board,
            board.opponent_board,
            r.2 as int,
        )),
        (!r.3 && board.spec_stones() == 64) ==> (r.1 == true && r.0 as int
            == crate::eval::terminal_score(board.my_board, board.opponent_board)),
        (!r.3 && !has_move(board.my_board, board.opponent_board) && !has_move(
            board.opponent_board,
            board.my_board,
        )) ==> (r.0 as int == crate::eval::terminal_score(board.my_board, board.opponent_board) && (
        depth >= 1 ==> r.1 == true)),
        (!r.3 && depth == 0 && board.spec_stones() < 64 && (has_move(
            board.my_board,
            board.opponent_board,
        ) || has_move(board.opponent_board, board.my_board))) ==> r.0 as int == ev.spec_score(
            board.my_board,
            board.opponent_board,
        ),
        (!r.3 && depth == 0 && board.spec_stones() < 64) ==> r.1 == (r.0 >= WIN_SCORE || r.0
            <= LOSE_SCORE),
        (!r.3 && original_alpha < r.0 < beta) ==> r.0 as int == crate::eval::nm_score(
            *ev,
            board.my_board,
            board.opponent_board,
            depth as int,
        ),
        (!r.3 && r.0 <= original_alpha) ==> crate::eval::nm_score(
            *ev,
            board.my_board,
            board.opponent_board,
            depth as int,
        ) <= r.0 as int,
        (!r.3 && r.0 >= beta) ==> crate::eval::nm_score(
            *ev,
            board.my_board,
            board.opponent_board,
            depth as int,
        ) >= r.0 as int,
    decreases depth, 1int,
{
    let ghost m = board.my_board;
    let ghost o = board.opponent_board;
    stats.increment_background_node_count();
    if stop_requested(stop_flag) {
        return (-SCORE_INF, false, PASS, true);
    }
    let mut alpha = original_alpha;
    let turn = board.get_turn();
    if turn == 64 {
        proof {
            crate::solver::lemma_full_no_moves(m, o);
        }
        let e = board.eval(ev, stats);
        return (e, true, NIL_MOVE, false);
    }
    if depth == 0 {
        proof {
            crate::solver::lemma_stones_bound(m, o);
        }
        let e = board.eval(ev, stats);
        let finished = e >= WIN_SCORE || e <= LOSE_SCORE;
        return (e, finished, NIL_MOVE, false);
    }
    let moves = board.get_valid_moves();
    proof {
        lemma_moves_bitmap(m, o, moves);
    }
    if moves == 0 {
        let mut t = *board;
        t.change_turn();
        proof {
            lemma_and_comm(t.my_board, t.opponent_board);
        }
        let t_moves = t.get_valid_moves();
        proof {
            lemma_moves_bitmap(o, m, t_moves);
        }
        if t_moves == 0 {
            let e = board.eval(ev, stats);
            return (e, true, NIL_MOVE, false);
        }
        let p = nega_scout_background(&t, -beta, -alpha, depth - 1, stop_flag, stats, ev);
        proof {
            // the turn passes: the value is the swapped side's, negated
            assert(crate::eval::nm_score(*ev, m, o, depth as int) == -crate::eval::nm_score(
                *ev,
                o,
                m,
                depth as int - 1,
            ));
        }
        return (-p.0, p.1, PASS, p.3);
    }
    let first_move = first_set_bit(moves);
    proof {
        assert(legal_at(m, o, first_move as int));
        lemma_legal_stones(m, o, first_move as int);
        lemma_stones_bound(m, o);
    }
    let mut t = *board;
    t.do_move(first_move as u8);
    t.change_turn();
    proof {
        lemma_and_comm(t.my_board, t.opponent_board);
        lemma_child_props(m, o, first_move as int);
        lemma_stones_bound(t.my_board, t.opponent_board);
    }
    let p = nega_scout_background(&t, -beta, -alpha, depth - 1, stop_flag, stats, ev);
    if p.3 {
        return (-SCORE_INF, false, PASS, true);
    }
    let score = -p.0;
    let mut best_score = score;
    let mut best_move = first_move as u8;
    let ghost mut best_witness: int = first_move as int;
    let mut is_finished = p.1;
    proof {
        // settle the first child against its negamax contribution
        assert(crate::eval::nm_child(*ev, m, o, depth as int, first_move as int)
            == -crate::eval::nm_score(*ev, t.my_board, t.opponent_board, depth as int - 1));
        if score <= original_alpha {
            assert(crate::eval::nm_child(*ev, m, o, depth as int, first_move as int)
                <= score as int);
        } else {
            assert(crate::eval::nm_child(*ev, m, o, depth as int, first_move as int)
                >= score as int);
        }
    }
    if score > alpha {
        alpha = score;
    }
    if beta <= alpha {
        proof {
            crate::eval::lemma_nm_moves_char(*ev, m, o, depth as int, 0);
            assert(crate::eval::nm_score(*ev, m, o, depth as int) == crate::eval::nm_moves(
                *ev,
                m,
                o,
                depth as int,
                0,
            ));
        }
        return (best_score, is_finished, best_move, false);
    }
    let mut i: u64 = 0;
    while i < 64
        invariant
            board.wf(),
            m == board.my_board,
            o == board.opponent_board,
            depth >= 1,
            i <= 64,
            forall|q: u64| q < 64 ==> (bit64(moves, q) == legal_at(m, o, q as int)),
            has_move(m, o),
            board.spec_stones() < 64,
            first_move < 64,
            legal_at(m, o, first_move as int),
            -SCORE_INF <= original_alpha,
            original_alpha < beta,
            alpha == (if best_score > original_alpha {
                best_score
            } else {
                original_alpha
            }),
            alpha < beta,
            beta <= SCORE_INF,
            -EVAL_LIMIT <= best_score <= EVAL_LIMIT,
            (best_move as int) < 64 && legal_at(m, o, best_move as int),
            forall|q: u64|
                q < 64 && legal_at(m, o, q as int) && (q == first_move || (q as int) < i)
                    ==> #[trigger] crate::eval::nm_child(*ev, m, o, depth as int, q as int)
                    <= best_score,
            best_score > original_alpha ==> (0 <= best_witness < 64 && legal_at(m, o, best_witness)
                && (best_witness == first_move as int || best_witness < i) && crate::eval::nm_child(
                *ev,
                m,
                o,
                depth as int,
                best_witness,
            ) >= best_score),
        decreases 64 - i,
    {
        if i != first_move && (moves >> i) & 1 == 1 {
            proof {
                assert(bit64(moves, i) == legal_at(m, o, i as int));
            }
            if stop_requested(stop_flag) {
                return (best_score, is_finished, best_move, true);
            }
            let settled = bg_settle_child(board, i as u8, alpha, beta, depth, stop_flag, stats, ev);
            if settled.3 {
                return (best_score, is_finished, best_move, true);
            }
            let v = settled.0;
            proof {
                if v <= alpha && v > best_score {
                    // a fail-low can only replace a best that sits at or
                    // below the caller's window edge
                    assert(v <= original_alpha);
                }
                if v > alpha {
                    assert(crate::eval::nm_child(*ev, m, o, depth as int, i as int) >= v as int);
                }
            }
            if settled.2 {
                if v > best_score {
                    best_score = v;
                    best_move = i as u8;
                    proof {
                        best_witness = i as int;
                    }
                }
                if !settled.1 {
                    is_finished = false;
                }
            } else if v > best_score {
                best_score = v;
                best_move = i as u8;
                proof {
                    best_witness = i as int;
                }
                if !settled.1 {
                    is_finished = false;
                }
            }
            if best_score > alpha {
                alpha = best_score;
            }
            if beta <= alpha {
                proof {
                    crate::eval::lemma_nm_moves_char(*ev, m, o, depth as int, 0);
                    assert(crate::eval::nm_score(*ev, m, o, depth as int)
                        == crate::eval::nm_moves(*ev, m, o, depth as int, 0));
                    assert(crate::eval::nm_moves(*ev, m, o, depth as int, 0)
                        >= crate::eval::nm_child(*ev, m, o, depth as int, best_witness));
                }
                return (best_score, is_finished, best_move, false);
            }
            proof {
                assert(best_score < beta);
                assert forall|q: u64|
                    q < 64 && legal_at(m, o, q as int) && (q == first_move || (q as int) < i + 1)
                        implies #[trigger] crate::eval::nm_child(*ev, m, o, depth as int, q as int)
                        <= best_score by {
                    if !(q == first_move || (q as int) < i as int) {
                        assert(q == i);
                    }
                }
            }
        } else {
            proof {
                if i != first_move {
                    assert(bit64(moves, i) == legal_at(m, o, i as int));
                }
            }
        }
        i = i + 1;
    }
    proof {
        crate::eval::lemma_nm_moves_char(*ev, m, o, depth as int, 0);
        assert(crate::eval::nm_score(*ev, m, o, depth as int) == crate::eval::nm_moves(
            *ev,
            m,
            o,
            depth as int,
            0,
        ));
        let t0 = choose|t0: int|
            0 <= t0 < 64 && legal_at(m, o, t0) && crate::eval::nm_moves(*ev, m, o, depth as int, 0)
                == #[trigger] crate::eval::nm_child(*ev, m, o, depth as int, t0);
        assert(crate::eval::nm_child(*ev, m, o, depth as int, t0) <= best_score as int);
        if best_score > original_alpha {
            assert(crate::eval::nm_moves(*ev, m, o, depth as int, 0) >= crate::eval::nm_child(
                *ev,
                m,
                o,
                depth as int,
                best_witness,
            ));
        }
    }
    (best_score, is_finished, best_move, false)
}

impl Board {
    /// Public leaf score of the position: the exact terminal score when
    /// the game is over, the evaluator's score otherwise.
    pub fn get_eval<E: Evaluator>(&self, ev: &E, stats: &mut SearchStats) -> (r: i32)
        requires
            self.wf(),
        ensures
            -EVAL_LIMIT <= r <= EVAL_LIMIT,
            self.spec_stones() == 64 ==> r as int == crate::eval::terminal_score(
                self.my_board,
                self.opponent_board,
            ),
            (!has_move(self.my_board, self.opponent_board) && !has_move(
                self.opponent_board,
                self.my_board,
            )) ==> r as int == crate::eval::terminal_score(self.my_board, self.opponent_board),
            (has_move(self.my_board, self.opponent_board) || has_move(
                self.opponent_board,
                self.my_board,
            )) && self.spec_stones() < 64 ==> r as int == ev.spec_score(
                self.my_board,
                self.opponent_board,
            ),
    {
        self.eval(ev, stats)
    }

    /// Chooses the move to play within the given time budget: the book
    /// first, the exact solver when few squares are empty, iterative
    /// deepening otherwise. Returns a square or the pass sentinel; with
    /// no legal move it always passes, and any square returned is legal.
    pub fn decide_move<E: Evaluator>(
        &self,
        assigned_time_ms: u64,
        book: &BookMap,
        cache: &mut Cache,
        solver_cache: &mut SolverCache,
        stats: &mut SearchStats,
        ev: &E,
    ) -> (r: usize)
        requires
            self.wf(),
            old(cache).wf(),
            old(solver_cache).wf(),
            assigned_time_ms <= u64::MAX / 2,
        ensures
            final(cache).wf(),
            final(solver_cache).wf(),
            r <= 64,
            !has_move(self.my_board, self.opponent_board) ==> r == 64,
            r < 64 ==> legal_at(self.my_board, self.opponent_board, r as int),
            (has_move(self.my_board, self.opponent_board) && spec_lookup(
                book_entries(*book),
                *self,
            ) is Some && legal_at(
                self.my_board,
                self.opponent_board,
                spec_lookup(book_entries(*book), *self)->Some_0 as int,
            )) ==> r == spec_lookup(book_entries(*book), *self)->Some_0 as usize,
    {
        let ghost m = self.my_board;
        let ghost o = self.opponent_board;
        stats.reset_counters();
        let turn = self.get_turn();
        let moves = self.get_valid_moves();
        proof {
            lemma_moves_bitmap(m, o, moves);
        }
        if moves == 0 {
            return PASS as usize;
        }
        match lookup_book(book, self) {
            Some(mv) => {
                if (moves >> (mv as u64)) & 1 == 1 {
                    proof {
                        assert(bit64(moves, mv as u64) == legal_at(m, o, (mv as u64) as int));
                    }
                    return mv as usize;
                }
                proof {
                    assert(bit64(moves, mv as u64) == legal_at(m, o, (mv as u64) as int));
                }
            },
            None => {},
        }
        proof {
            assert(!(spec_lookup(book_entries(*book), *self) is Some && legal_at(
                m,
                o,
                spec_lookup(book_entries(*book), *self)->Some_0 as int,
            )));
        }
        let mut time_manager: TimeManager;
        if turn >= 46 {
            time_manager = TimeManager::new(assigned_time_ms * 2 / 3);
            let (res, mv) = solve(self, solver_cache, &time_manager);
            if res >= 0 {
                return mv as usize;
            }
            time_manager = TimeManager::new(assigned_time_ms / 12);
        } else {
            let denom: u64 = (50 - turn) as u64;
            time_manager = TimeManager::new(assigned_time_ms * 2 / denom);
        }
        let mut best_move: usize = PASS as usize;
        let mut depth: u8 = 1;
        loop
            invariant
                self.wf(),
                cache.wf(),
                solver_cache.wf(),
                m == self.my_board,
                o == self.opponent_board,
                1 <= depth <= 60,
                best_move <= 64,
                best_move < 64 ==> legal_at(m, o, best_move as int),
                !(spec_lookup(book_entries(*book), *self) is Some && legal_at(
                    m,
                    o,
                    spec_lookup(book_entries(*book), *self)->Some_0 as int,
                )),
            decreases 61 - depth,
        {
            let p = nega_scout(self, -SCORE_INF, SCORE_INF, depth, &time_manager, cache, stats, ev);
            let finished = p.1;
            let next_move = p.2;
            let terminated = p.3;
            if !terminated && next_move != NIL_MOVE {
                best_move = next_move as usize;
            }
            if finished || time_manager.should_stop() || depth == 60 {
                return best_move;
            }
            if depth < 60 {
                depth = depth + 1;
            }
        }
    }

    /// The background ponder's move decision: the same search limited to
    /// depth ten and interrupted through the stop flag.
    pub fn decide_move_background<E: Evaluator>(
        &self,
        stop_flag: &std::sync::atomic::AtomicBool,
        book: &BookMap,
        stats: &mut SearchStats,
        ev: &E,
    ) -> (r: usize)
        requires
            self.wf(),
        ensures
            r <= 64,
            !has_move(self.my_board, self.opponent_board) ==> r == 64,
            r < 64 ==> legal_at(self.my_board, self.opponent_board, r as int),
            (has_move(self.my_board, self.opponent_board) && spec_lookup(
                book_entries(*book),
                *self,
            ) is Some && legal_at(
                self.my_board,
                self.opponent_board,
                spec_lookup(book_entries(*book), *self)->Some_0 as int,
            )) ==> r == spec_lookup(book_entries(*book), *self)->Some_0 as usize,
    {
        let ghost m = self.my_board;
        let ghost o = self.opponent_board;
        stats.reset_background_counter();
        let moves = self.get_valid_moves();
        proof {
            lemma_moves_bitmap(m, o, moves);
        }
        if moves == 0 {
            return PASS as usize;
        }
        match lookup_book(book, self) {
            Some(mv) => {
                if (moves >> (mv as u64)) & 1 == 1 {
                    proof {
                        assert(bit64(moves, mv as u64) == legal_at(m, o, (mv as u64) as int));
                    }
                    return mv as usize;
                }
                proof {
                    assert(bit64(moves, mv as u64) == legal_at(m, o, (mv as u64) as int));
                }
            },
            None => {},
        }
        proof {
            assert(!(spec_lookup(book_entries(*book), *self) is Some && legal_at(
                m,
                o,
                spec_lookup(book_entries(*book), *self)->Some_0 as int,
            )));
        }
        let mut best_move: usize = PASS as usize;
        let mut depth: u8 = 1;
        loop
            invariant
                self.wf(),
                m == self.my_board,
                o == self.opponent_board,
                1 <= depth <= 10,
                best_move <= 64,
                best_move < 64 ==> legal_at(m, o, best_move as int),
                !(spec_lookup(book_entries(*book), *self) is Some && legal_at(
                    m,
                    o,
                    spec_lookup(book_entries(*book), *self)->Some_0 as int,
                )),
            decreases 11 - depth,
        {
            if stop_requested(stop_flag) {
                return best_move;
            }
            let p = nega_scout_background(self, -SCORE_INF, SCORE_INF, depth, stop_flag, stats, ev);
            let next_move = p.2;
            let terminated = p.3;
            if !terminated && next_move != NIL_MOVE {
                best_move = next_move as usize;
            }
            if terminated || depth == 10 {
                return best_move;
            }
            if depth < 10 {
                depth = depth + 1;
            }
        }
    }
}

} // verus!
