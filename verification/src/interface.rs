//! String-facing API: positions written as 64-character strings ('B',
//! 'W', empty otherwise), move bitmaps as '0'/'1' strings, and the
//! outcome names. These are the values the surrounding program exchanges
//! with the engine.

use vstd::prelude::*;
use crate::bits::{
    bit64,
    pcount,
    popcount,
    lemma_bit_or,
    lemma_bit_single,
    lemma_bit_zero,
    lemma_disjoint_and_zero,
    lemma_and_comm,
};
use crate::board::Board;
use crate::book::BookMap;
use crate::cache::Cache;
use crate::eval::DiscDiffEvaluator;
use crate::movegen::{legal_at, has_move};
use crate::solver::{SolverCache, lemma_moves_bitmap};
use crate::stats::SearchStats;

verus! {

/// Relies on String::push: appends one character.
#[verifier::external_body]
fn string_push(s: &mut String, c: char)
    ensures
        final(s)@ == old(s)@.push(c),
{
    s.push(c);
}

/// Occupancy map read off a board string: bit `i` is set when character
/// `i` is `c`, up to bit `n`.
pub open spec fn board_word_rec(sv: Seq<char>, c: char, n: int) -> u64
    decreases n,
{
    if n <= 0 {
        0u64
    } else if n - 1 < sv.len() && sv[n - 1] == c {
        board_word_rec(sv, c, n - 1) | (1u64 << ((n - 1) as u64))
    } else {
        board_word_rec(sv, c, n - 1)
    }
}

/// Occupancy map of the squares whose character is `c`.
pub open spec fn board_word(sv: Seq<char>, c: char) -> u64 {
    board_word_rec(sv, c, 64)
}

proof fn lemma_board_word_bit(sv: Seq<char>, c: char, n: int, i: u64)
    requires
        0 <= n <= 64,
        i < 64,
    ensures
        bit64(board_word_rec(sv, c, n), i) == (i < n && i < sv.len() && sv[i as int] == c),
    decreases n,
{
    if n > 0 {
        lemma_board_word_bit(sv, c, n - 1, i);
        let k: u64 = (n - 1) as u64;
        assert(k as int == n - 1);
        if n - 1 < sv.len() && sv[n - 1] == c {
            lemma_bit_or(board_word_rec(sv, c, n - 1), 1u64 << k, i);
            lemma_bit_single(k, i);
        }
    } else {
        lemma_bit_zero(i);
    }
}

/// All bits of the occupancy map of character `c`.
pub proof fn lemma_board_word_bits(sv: Seq<char>, c: char)
    ensures
        forall|i: u64|
            i < 64 ==> (#[trigger] bit64(board_word(sv, c), i) == (i < sv.len() && sv[i as int]
                == c)),
{
    assert forall|i: u64|
        i < 64 implies (#[trigger] bit64(board_word(sv, c), i) == (i < sv.len() && sv[i as int]
        == c)) by {
        lemma_board_word_bit(sv, c, 64, i);
    }
}

/// Reads a board string: the black and white occupancy maps, in that
/// order. Characters beyond the first 64 are ignored; anything that is
/// not 'B' or 'W' counts as empty.
pub fn string_to_boards(board_str: &str) -> (r: (u64, u64))
    ensures
        r.0 == board_word(board_str@, 'B'),
        r.1 == board_word(board_str@, 'W'),
        r.0 & r.1 == 0,
{
    let ghost sv = board_str@;
    let len = board_str.unicode_len();
    let mut black: u64 = 0;
    let mut white: u64 = 0;
    proof {
        assert forall|p: u64| p < 64 implies !bit64(0u64, p) by {
            lemma_bit_zero(p);
        }
    }
    let mut i: usize = 0;
    while i < 64
        invariant
            i <= 64,
            len == sv.len(),
            sv == board_str@,
            forall|p: u64| p < 64 ==> (bit64(black, p) == (p < i && p < sv.len() && sv[p as int] == 'B')),
            forall|p: u64| p < 64 ==> (bit64(white, p) == (p < i && p < sv.len() && sv[p as int] == 'W')),
        decreases 64 - i,
    {
        if i < len {
            let c = board_str.get_char(i);
            let ghost black0 = black;
            let ghost white0 = white;
            if c == 'B' {
                black = black | (1u64 << (i as u64));
            } else if c == 'W' {
                white = white | (1u64 << (i as u64));
            }
            proof {
                assert forall|p: u64|
                    p < 64 implies (bit64(black, p) == (bit64(black0, p) || (p == i as u64 && c
                    == 'B'))) by {
                    lemma_bit_or(black0, 1u64 << (i as u64), p);
                    lemma_bit_single(i as u64, p);
                }
                assert forall|p: u64|
                    p < 64 implies (bit64(white, p) == (bit64(white0, p) || (p == i as u64 && c
                    == 'W'))) by {
                    lemma_bit_or(white0, 1u64 << (i as u64), p);
                    lemma_bit_single(i as u64, p);
                }
            }
        }
        i = i + 1;
    }
    proof {
        lemma_board_word_bits(sv, 'B');
        lemma_board_word_bits(sv, 'W');
        assert forall|p: u64| p < 64 implies bit64(black, p) == bit64(board_word(sv, 'B'), p) by {}
        assert forall|p: u64| p < 64 implies bit64(white, p) == bit64(board_word(sv, 'W'), p) by {}
        crate::bits::lemma_bit_ext(black, board_word(sv, 'B'));
        crate::bits::lemma_bit_ext(white, board_word(sv, 'W'));
        assert forall|p: u64| p < 64 implies !(bit64(black, p) && bit64(white, p)) by {}
        lemma_disjoint_and_zero(black, white);
    }
    (black, white)
}

/// Writes the position back as a 64-character string, 'B' for black,
/// 'W' for white, '.' for empty.
pub fn boards_to_string(black_board: u64, white_board: u64) -> (r: String)
    ensures
        r@.len() == 64,
        forall|i: int|
            0 <= i < 64 ==> r@[i] == (if bit64(black_board, i as u64) {
                'B'
            } else if bit64(white_board, i as u64) {
                'W'
            } else {
                '.'
            }),
{
    let mut result = String::new();
    let mut i: usize = 0;
    while i < 64
        invariant
            i <= 64,
            result@.len() == i,
            forall|j: int|
                0 <= j < i ==> result@[j] == (if bit64(black_board, j as u64) {
                    'B'
                } else if bit64(white_board, j as u64) {
                    'W'
                } else {
                    '.'
                }),
        decreases 64 - i,
    {
        let c: char = if (black_board >> (i as u64)) & 1 == 1 {
            'B'
        } else if (white_board >> (i as u64)) & 1 == 1 {
            'W'
        } else {
            '.'
        };
        string_push(&mut result, c);
        i = i + 1;
    }
    result
}

/// Puts the two maps into a position: with `turn` false black is the
/// mover, with `turn` true white is.
pub fn make_board(black_board: u64, white_board: u64, turn: bool) -> (r: Board)
    requires
        black_board & white_board == 0,
    ensures
        r.wf(),
        !turn ==> r.my_board == black_board && r.opponent_board == white_board,
        turn ==> r.my_board == white_board && r.opponent_board == black_board,
{
    proof {
        lemma_and_comm(white_board, black_board);
    }
    if turn {
        Board { my_board: white_board, opponent_board: black_board }
    } else {
        Board { my_board: black_board, opponent_board: white_board }
    }
}

/// Reads a position in the solver's text form, 'X' for the mover and 'O'
/// for the opponent; any other character is empty. A string shorter than
/// 64 characters yields nothing.
pub fn str_to_board(s: &String) -> (r: Option<Board>)
    ensures
        (r is Some) == (s@.len() >= 64),
        r matches Some(b) ==> b.my_board == board_word(s@, 'X') && b.opponent_board == board_word(
            s@,
            'O',
        ) && b.wf(),
{
    let len = s.as_str().unicode_len();
    if len < 64 {
        return None;
    }
    let ghost sv = s@;
    let mut my_board: u64 = 0;
    let mut opponent_board: u64 = 0;
    proof {
        assert forall|p: u64| p < 64 implies !bit64(0u64, p) by {
            lemma_bit_zero(p);
        }
    }
    let mut i: usize = 0;
    while i < 64
        invariant
            i <= 64,
            64 <= sv.len(),
            sv == s@,
            forall|p: u64|
                p < 64 ==> (bit64(my_board, p) == (p < i && p < sv.len() && sv[p as int] == 'X')),
            forall|p: u64|
                p < 64 ==> (bit64(opponent_board, p) == (p < i && p < sv.len() && sv[p as int]
                    == 'O')),
        decreases 64 - i,
    {
        let c = s.as_str().get_char(i);
        let ghost m0 = my_board;
        let ghost o0 = opponent_board;
        if c == 'X' {
            my_board = my_board | (1u64 << (i as u64));
        } else if c == 'O' {
            opponent_board = opponent_board | (1u64 << (i as u64));
        }
        proof {
            assert forall|p: u64|
                p < 64 implies (bit64(my_board, p) == (bit64(m0, p) || (p == i as u64 && c
                == 'X'))) by {
                lemma_bit_or(m0, 1u64 << (i as u64), p);
                lemma_bit_single(i as u64, p);
            }
            assert forall|p: u64|
                p < 64 implies (bit64(opponent_board, p) == (bit64(o0, p) || (p == i as u64 && c
                == 'O'))) by {
                lemma_bit_or(o0, 1u64 << (i as u64), p);
                lemma_bit_single(i as u64, p);
            }
        }
        i = i + 1;
    }
    proof {
        lemma_board_word_bits(sv, 'X');
        lemma_board_word_bits(sv, 'O');
        assert forall|p: u64|
            p < 64 implies bit64(my_board, p) == bit64(board_word(sv, 'X'), p) by {}
        assert forall|p: u64|
            p < 64 implies bit64(opponent_board, p) == bit64(board_word(sv, 'O'), p) by {}
        crate::bits::lemma_bit_ext(my_board, board_word(sv, 'X'));
        crate::bits::lemma_bit_ext(opponent_board, board_word(sv, 'O'));
        assert forall|p: u64| p < 64 implies !(bit64(my_board, p) && bit64(opponent_board, p)) by {}
        lemma_disjoint_and_zero(my_board, opponent_board);
    }
    Some(Board { my_board, opponent_board })
}

/// Legal moves of the named side, as a 64-character '0'/'1' string.
pub fn get_valid_moves(board_str: &str, turn: bool) -> (r: String)
    ensures
        r@.len() == 64,
        forall|i: int|
            0 <= i < 64 ==> r@[i] == (if (!turn && legal_at(
                board_word(board_str@, 'B'),
                board_word(board_str@, 'W'),
                i,
            )) || (turn && legal_at(board_word(board_str@, 'W'), board_word(board_str@, 'B'), i)) {
                '1'
            } else {
                '0'
            }),
{
    let (black_board, white_board) = string_to_boards(board_str);
    let board = make_board(black_board, white_board, turn);
    let valid_moves = board.get_valid_moves();
    let mut result = String::new();
    let mut i: usize = 0;
    while i < 64
        invariant
            i <= 64,
            result@.len() == i,
            forall|q: u64|
                q < 64 ==> (bit64(valid_moves, q) == legal_at(
                    board.my_board,
                    board.opponent_board,
                    q as int,
                )),
            !turn ==> board.my_board == board_word(board_str@, 'B') && board.opponent_board
                == board_word(board_str@, 'W'),
            turn ==> board.my_board == board_word(board_str@, 'W') && board.opponent_board
                == board_word(board_str@, 'B'),
            forall|j: int|
                0 <= j < i ==> result@[j] == (if (!turn && legal_at(
                    board_word(board_str@, 'B'),
                    board_word(board_str@, 'W'),
                    j,
                )) || (turn && legal_at(
                    board_word(board_str@, 'W'),
                    board_word(board_str@, 'B'),
                    j,
                )) {
                    '1'
                } else {
                    '0'
                }),
        decreases 64 - i,
    {
        proof {
            assert(bit64(valid_moves, i as u64) == legal_at(
                board.my_board,
                board.opponent_board,
                (i as u64) as int,
            ));
        }
        let c: char = if (valid_moves >> (i as u64)) & 1 == 1 {
            '1'
        } else {
            '0'
        };
        string_push(&mut result, c);
        i = i + 1;
    }
    result
}

/// Whether playing on square `mv` is legal for the named side.
pub fn is_valid_move(board_str: &str, mv: usize, turn: bool) -> (r: bool)
    requires
        mv < 64,
    ensures
        !turn ==> r == legal_at(board_word(board_str@, 'B'), board_word(board_str@, 'W'), mv as int),
        turn ==> r == legal_at(board_word(board_str@, 'W'), board_word(board_str@, 'B'), mv as int),
{
    let (black_board, white_board) = string_to_boards(board_str);
    let board = make_board(black_board, white_board, turn);
    let valid_moves = board.get_valid_moves();
    proof {
        assert(bit64(valid_moves, mv as u64) == legal_at(
            board.my_board,
            board.opponent_board,
            (mv as u64) as int,
        ));
    }
    (valid_moves >> (mv as u64)) & 1 == 1
}

/// Whether the named side has no legal move and must pass.
pub fn is_pass(board_str: &str, turn: bool) -> (r: bool)
    ensures
        !turn ==> r == !has_move(board_word(board_str@, 'B'), board_word(board_str@, 'W')),
        turn ==> r == !has_move(board_word(board_str@, 'W'), board_word(board_str@, 'B')),
{
    let (black_board, white_board) = string_to_boards(board_str);
    let board = make_board(black_board, white_board, turn);
    let moves = board.get_valid_moves();
    proof {
        lemma_moves_bitmap(board.my_board, board.opponent_board, moves);
    }
    moves == 0
}

/// Outcome of the game as the protocol spells it: with neither side able
/// to move the counts decide, otherwise the game is ongoing.
pub fn get_result(board_str: &str) -> (r: String)
    ensures
        (has_move(board_word(board_str@, 'B'), board_word(board_str@, 'W')) || has_move(
            board_word(board_str@, 'W'),
            board_word(board_str@, 'B'),
        )) ==> r@ == "Ongoing"@,
        (!has_move(board_word(board_str@, 'B'), board_word(board_str@, 'W')) && !has_move(
            board_word(board_str@, 'W'),
            board_word(board_str@, 'B'),
        )) ==> r@ == (if pcount(board_word(board_str@, 'B')) > pcount(board_word(board_str@, 'W')) {
            "BlackWin"@
        } else if pcount(board_word(board_str@, 'W')) > pcount(board_word(board_str@, 'B')) {
            "WhiteWin"@
        } else {
            "Draw"@
        }),
{
    let (black_board, white_board) = string_to_boards(board_str);
    let board_0 = make_board(black_board, white_board, false);
    let board_1 = make_board(black_board, white_board, true);
    let moves_0 = board_0.get_valid_moves();
    let moves_1 = board_1.get_valid_moves();
    proof {
        lemma_moves_bitmap(board_0.my_board, board_0.opponent_board, moves_0);
        lemma_moves_bitmap(board_1.my_board, board_1.opponent_board, moves_1);
    }
    if moves_0 == 0 && moves_1 == 0 {
        let count_black = popcount(black_board);
        let count_white = popcount(white_board);
        if count_black > count_white {
            String::from_str("BlackWin")
        } else if count_white > count_black {
            String::from_str("WhiteWin")
        } else {
            String::from_str("Draw")
        }
    } else {
        String::from_str("Ongoing")
    }
}

/// Stone counts of a board string, black first.
pub struct StoneCounts {
    pub black: u32,
    pub white: u32,
}

/// Outcome record in the protocol's terms.
pub struct GameResult {
    pub state: String,
}

pub fn get_stone_counts(board_str: &str) -> (r: StoneCounts)
    ensures
        r.black == pcount(board_word(board_str@, 'B')),
        r.white == pcount(board_word(board_str@, 'W')),
{
    let (black_board, white_board) = string_to_boards(board_str);
    StoneCounts { black: popcount(black_board) as u32, white: popcount(white_board) as u32 }
}

/// The black and white maps after the named side plays `mv` on the
/// position a board string holds; an illegal square or a pass changes
/// nothing.
pub open spec fn spec_update(sv: Seq<char>, mv: int, turn: bool) -> (u64, u64) {
    let black = board_word(sv, 'B');
    let white = board_word(sv, 'W');
    let my = if turn {
        white
    } else {
        black
    };
    let op = if turn {
        black
    } else {
        white
    };
    if 0 <= mv < 64 && legal_at(my, op, mv) {
        let my2 = (my | (1u64 << (mv as u64))) ^ crate::movegen::flip_word(my, op, mv);
        let op2 = op ^ crate::movegen::flip_word(my, op, mv);
        if turn {
            (op2, my2)
        } else {
            (my2, op2)
        }
    } else {
        (black, white)
    }
}

/// Applies move `mv` for the named side of a board string and returns
/// the new board string; an illegal move or a pass leaves the position
/// unchanged.
pub fn update_board(board_str: &str, mv: usize, turn: bool) -> (r: String)
    requires
        mv <= 64,
    ensures
        r@.len() == 64,
        forall|i: int|
            0 <= i < 64 ==> r@[i] == (if bit64(spec_update(board_str@, mv as int, turn).0, i as u64) {
                'B'
            } else if bit64(spec_update(board_str@, mv as int, turn).1, i as u64) {
                'W'
            } else {
                '.'
            }),
{
    let (black_board, white_board) = string_to_boards(board_str);
    let mut board = make_board(black_board, white_board, turn);
    if mv < 64 {
        let moves = board.get_valid_moves();
        proof {
            assert(bit64(moves, mv as u64) == legal_at(
                board.my_board,
                board.opponent_board,
                (mv as u64) as int,
            ));
        }
        if (moves >> (mv as u64)) & 1 == 1 {
            proof {
                assert(((mv as u8) as u64) == ((mv as int) as u64));
            }
            board.do_move(mv as u8);
        }
    }
    proof {
        let uw = spec_update(board_str@, mv as int, turn);
        if turn {
            assert(board.opponent_board == uw.0 && board.my_board == uw.1);
        } else {
            assert(board.my_board == uw.0 && board.opponent_board == uw.1);
        }
    }
    if turn {
        boards_to_string(board.opponent_board, board.my_board)
    } else {
        boards_to_string(board.my_board, board.opponent_board)
    }
}

/// The engine's move for a board string: a square, or 64 for a pass.
/// Builds a fresh transposition table, solver cache, and an empty book,
/// and scores leaves with the stone differential.
pub fn get_ai_move(board_str: &str, turn: bool, assigned_time_ms: i32) -> (r: usize)
    ensures
        r <= 64,
        r < 64 && !turn ==> legal_at(
            board_word(board_str@, 'B'),
            board_word(board_str@, 'W'),
            r as int,
        ),
        r < 64 && turn ==> legal_at(
            board_word(board_str@, 'W'),
            board_word(board_str@, 'B'),
            r as int,
        ),
{
    let (black_board, white_board) = string_to_boards(board_str);
    let board = make_board(black_board, white_board, turn);
    let budget: u64 = if assigned_time_ms > 0 {
        assigned_time_ms as u64
    } else {
        0
    };
    let book = BookMap::new();
    let mut cache = Cache::new();
    let mut solver_cache = SolverCache::new();
    let mut stats = SearchStats::new();
    let ev = DiscDiffEvaluator;
    board.decide_move(budget, &book, &mut cache, &mut solver_cache, &mut stats, &ev)
}

impl Board {
    /// The position drawn as text, with files A..H across the top, 'O'
    /// for the mover and 'X' for the opponent.
    pub fn board_string(&self) -> (r: String)
        ensures
            r@.len() > 0,
    {
        let mut out = String::new();
        string_push(&mut out, ' ');
        string_push(&mut out, '|');
        let header = ['A', 'B', 'C', 'D', 'E', 'F', 'G', 'H'];
        let mut i: usize = 0;
        while i < 8
            invariant
                out@.len() >= 2,
            decreases 8 - i,
        {
            string_push(&mut out, header[i]);
            string_push(&mut out, ' ');
            i = i + 1;
        }
        string_push(&mut out, '\n');
        let mut j: usize = 0;
        while j < 8
            invariant
                out@.len() >= 2,
            decreases 8 - j,
        {
            let digits = ['1', '2', '3', '4', '5', '6', '7', '8'];
            string_push(&mut out, digits[j]);
            string_push(&mut out, '|');
            let mut i2: usize = 0;
            while i2 < 8
                invariant
                    j < 8,
                    out@.len() >= 2,
                decreases 8 - i2,
            {
                let mark: char = if self.check_opponent(i2, j) {
                    'X'
                } else if self.check_mine(i2, j) {
                    'O'
                } else {
                    ' '
                };
                string_push(&mut out, mark);
                string_push(&mut out, ' ');
                i2 = i2 + 1;
            }
            string_push(&mut out, '\n');
            j = j + 1;
        }
        out
    }

    /// A diagnostic line: the two occupancy maps and the legal moves, as
    /// text for a log.
    pub fn debug_board_state(&self, context: &str) -> (r: String)
        requires
            self.wf(),
        ensures
            r@.len() > 0,
    {
        let mut out = String::from_str(context);
        string_push(&mut out, '\n');
        let mut body = self.board_string();
        proof {
            assert(out@.len() >= 1);
        }
        out.append(body.as_str());
        out
    }
}

} // verus!
