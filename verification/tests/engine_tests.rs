use std::sync::atomic::AtomicBool;

use othello_core::board::Board;
use othello_core::book::BookMap;
use othello_core::cache::{Cache, NIL_MOVE};
use othello_core::eval::DiscDiffEvaluator;
use othello_core::interface::{get_ai_move, is_valid_move};
use othello_core::search::{nega_scout, SCORE_INF};
use othello_core::solver::{solve, SolverCache};
use othello_core::stats::SearchStats;
use othello_core::timing::TimeManager;

#[test]
fn test_ai_move() {
    // Standard opening position
    let board_str = "...........................WB......BW...........................";

    // Test black's move (turn = false)
    let ai_move = get_ai_move(board_str, false, 1000);
    assert!(ai_move < 64, "AI move should be a valid board position");

    // Verify it's a legal move
    assert!(is_valid_move(board_str, ai_move, false), "AI move should be legal");
}

#[test]
fn test_forced_pass() {
    // the mover has no legal move, the opponent has one: the engine passes
    let b = Board { my_board: 0x2, opponent_board: 0x1 };
    assert_eq!(b.get_valid_moves(), 0);
    let mut swapped = b;
    swapped.change_turn();
    assert!(swapped.get_valid_moves() != 0);
    let book = BookMap::new();
    let mut cache = Cache::new();
    let mut solver_cache = SolverCache::new();
    let mut stats = SearchStats::new();
    let mv = b.decide_move(1000, &book, &mut cache, &mut solver_cache, &mut stats, &DiscDiffEvaluator);
    assert_eq!(mv, 64);
}

#[test]
fn test_full_board_terminal() {
    // any full board returns from the search complete, with the exact
    // terminal score: 40 mover stones against 24 gives 1000 + 16
    let m: u64 = (1u64 << 40) - 1;
    let o: u64 = !m;
    let b = Board { my_board: m, opponent_board: o };
    let tm = TimeManager::new(100000);
    let mut cache = Cache::new();
    let mut stats = SearchStats::new();
    let (score, complete, next_move, aborted) =
        nega_scout(&b, -SCORE_INF, SCORE_INF, 3, &tm, &mut cache, &mut stats, &DiscDiffEvaluator);
    assert!(!aborted);
    assert!(complete);
    assert_eq!(score, 1016);
    assert_eq!(next_move, NIL_MOVE);
}

#[test]
fn test_solver_two_empty_loss() {
    // two empties, one legal move for each side; the mover loses
    let b = Board {
        my_board: 0xc6cb4ef10100c95f,
        opponent_board: 0x3914310efeff36a0,
    };
    let tm = TimeManager::new(100000);
    let mut sc = SolverCache::new();
    let (res, mv) = solve(&b, &mut sc, &tm);
    assert_eq!(res, -1);
    assert_eq!(mv, 64);
}

#[test]
fn test_solver_two_empty_win() {
    // two empties, one legal move for each side; the mover wins with 23
    let b = Board {
        my_board: 0xa55abe6c7d3cf5ac,
        opponent_board: 0x5aa5411382430a53,
    };
    let tm = TimeManager::new(100000);
    let mut sc = SolverCache::new();
    let (res, mv) = solve(&b, &mut sc, &tm);
    assert_eq!(res, 1);
    assert_eq!(mv, 23);
}

#[test]
fn test_solver_swap_around_pass() {
    // the mover must pass, so swapping the sides negates the solved value
    let b = Board {
        my_board: 0xae509602ea97ef1c,
        opponent_board: 0x51af69fd146810e1,
    };
    assert_eq!(b.get_valid_moves(), 0);
    let tm = TimeManager::new(100000);
    let mut sc = SolverCache::new();
    let (res, _) = solve(&b, &mut sc, &tm);
    let swapped = Board {
        my_board: b.opponent_board,
        opponent_board: b.my_board,
    };
    let mut sc2 = SolverCache::new();
    let (res2, _) = solve(&swapped, &mut sc2, &tm);
    assert_eq!(res, -1);
    assert_eq!(res2, 1);
    assert_eq!(res, -res2);
}

#[test]
fn test_transposition_set_then_get() {
    // a store with depth not below the stored one is returned verbatim
    let b = Board::new(false);
    let mut cache = Cache::new();
    assert!(cache.get(&b).is_none());
    cache.set(&b, 5, 19, 42, true, false, false, false);
    let e = cache.get(&b).expect("entry stored");
    assert_eq!(e.depth, 5);
    assert_eq!(e.next_move, 19);
    assert_eq!(e.value, 42);
    assert!(e.exact);
    // a shallower store keeps the deeper entry
    cache.set(&b, 3, 26, 7, false, false, true, false);
    let e2 = cache.get(&b).expect("entry kept");
    assert_eq!(e2.depth, 5);
    assert_eq!(e2.value, 42);
    // an equal-depth store overwrites
    cache.set(&b, 5, 26, 7, false, false, true, false);
    let e3 = cache.get(&b).expect("entry replaced");
    assert_eq!(e3.next_move, 26);
    assert_eq!(e3.value, 7);
    assert!(e3.lower_bound);
}

#[test]
fn test_search_counters() {
    let mut stats = SearchStats::new();
    assert_eq!(stats.get_eval_count(), 0);
    stats.increment_eval_count();
    stats.increment_node_count();
    stats.increment_node_count();
    assert_eq!(stats.get_eval_count(), 1);
    assert_eq!(stats.get_node_count(), 2);
    assert_eq!(stats.increment_background_node_count(), 1);
    assert_eq!(stats.get_background_node_count(), 1);
    stats.reset_counters();
    assert_eq!(stats.get_eval_count(), 0);
    assert_eq!(stats.get_node_count(), 0);
    assert_eq!(stats.get_background_node_count(), 1);
    stats.reset_background_counter();
    assert_eq!(stats.get_background_node_count(), 0);
}

#[test]
fn test_decide_move_background_endgame() {
    // near-terminal position: the ponder finds the winning square 23
    let b = Board {
        my_board: 0xa55abe6c7d3cf5ac,
        opponent_board: 0x5aa5411382430a53,
    };
    let stop = AtomicBool::new(false);
    let book = BookMap::new();
    let mut stats = SearchStats::new();
    let mv = b.decide_move_background(&stop, &book, &mut stats, &DiscDiffEvaluator);
    assert_eq!(mv, 23);
    // with the stop flag raised from the start, the ponder still answers
    // with a move in range
    let stop_now = AtomicBool::new(true);
    let mv2 = b.decide_move_background(&stop_now, &book, &mut stats, &DiscDiffEvaluator);
    assert!(mv2 <= 64);
}

#[test]
fn test_decide_move_solves_endgame() {
    // with few empty squares the driver consults the exact solver and
    // plays the winning move
    let b = Board {
        my_board: 0xa55abe6c7d3cf5ac,
        opponent_board: 0x5aa5411382430a53,
    };
    let book = BookMap::new();
    let mut cache = Cache::new();
    let mut solver_cache = SolverCache::new();
    let mut stats = SearchStats::new();
    let mv = b.decide_move(2000, &book, &mut cache, &mut solver_cache, &mut stats, &DiscDiffEvaluator);
    assert_eq!(mv, 23);
}

#[test]
fn test_eval_terminal_band() {
    // the evaluator interface: a full board scores the exact differential
    // past the win sentinel, an ongoing position scores the heuristic
    let full = Board { my_board: (1u64 << 40) - 1, opponent_board: !((1u64 << 40) - 1) };
    let mut stats = SearchStats::new();
    assert_eq!(full.get_eval(&DiscDiffEvaluator, &mut stats), 1016);
    let opening = Board::new(false);
    assert_eq!(opening.get_eval(&DiscDiffEvaluator, &mut stats), 0);
    assert_eq!(stats.get_eval_count(), 2);
}

#[test]
fn test_decide_move_plays_book_move() {
    // the opening book takes precedence over the search: the stored move
    // for the (side-swapped) opening is played at once
    let b = Board::new(false);
    let mut book = BookMap::new();
    let swapped = Board { my_board: b.opponent_board, opponent_board: b.my_board };
    book.insert(swapped, 19);
    let mut cache = Cache::new();
    let mut solver_cache = SolverCache::new();
    let mut stats = SearchStats::new();
    let mv = b.decide_move(1000, &book, &mut cache, &mut solver_cache, &mut stats, &DiscDiffEvaluator);
    assert_eq!(mv, 19);
    let stop = AtomicBool::new(false);
    let mv2 = b.decide_move_background(&stop, &book, &mut stats, &DiscDiffEvaluator);
    assert_eq!(mv2, 19);
    // a stored move that is not legal is ignored, not played
    let mut bad_book = BookMap::new();
    bad_book.insert(swapped, 0);
    let mv3 = b.decide_move(500, &bad_book, &mut cache, &mut solver_cache, &mut stats, &DiscDiffEvaluator);
    assert!(mv3 != 0 && mv3 < 64);
}
