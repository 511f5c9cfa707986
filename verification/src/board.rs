//! The position model: two disjoint 64-bit occupancy maps, mover first.

use vstd::prelude::*;
use crate::bits::{bit64, pcount, popcount};
use crate::movegen;

verus! {

/// Square index of file `x`, rank `y`.
pub open spec fn sq(x: int, y: int) -> int {
    y * 8 + x
}

pub open spec fn on_board(x: int, y: int) -> bool {
    0 <= x < 8 && 0 <= y < 8
}

/// Whether the square in file `x`, rank `y` is occupied in `w`.
/// Off-board squares count as unoccupied.
pub open spec fn cell(w: u64, x: int, y: int) -> bool {
    on_board(x, y) && bit64(w, sq(x, y) as u64)
}

#[derive(Clone, Copy, PartialEq, Eq, Hash, Structural)]
pub struct Board {
    pub my_board: u64,
    pub opponent_board: u64,
}

impl Board {
    /// No square is occupied by both sides.
    pub open spec fn wf(self) -> bool {
        self.my_board & self.opponent_board == 0
    }

    /// Total number of stones on the board.
    pub open spec fn spec_stones(self) -> int {
        pcount(self.my_board) + pcount(self.opponent_board)
    }

    /// The standard opening. With `turn` false the mover is black (the side
    /// that moves first), with `turn` true the mover is white.
    pub fn new(turn: bool) -> (r: Board)
        ensures
            r.wf(),
            turn ==> r.my_board == 0x0000001008000000u64 && r.opponent_board
                == 0x0000000810000000u64,
            !turn ==> r.my_board == 0x0000000810000000u64 && r.opponent_board
                == 0x0000001008000000u64,
    {
        proof {
            assert(0x0000001008000000u64 & 0x0000000810000000u64 == 0) by (bit_vector);
            assert(0x0000000810000000u64 & 0x0000001008000000u64 == 0) by (bit_vector);
        }
        if turn {
            Board { my_board: 0x0000001008000000, opponent_board: 0x0000000810000000 }
        } else {
            Board { my_board: 0x0000000810000000, opponent_board: 0x0000001008000000 }
        }
    }

    pub fn check_mine(&self, x: usize, y: usize) -> (r: bool)
        requires
            x < 8,
            y < 8,
        ensures
            r == cell(self.my_board, x as int, y as int),
    {
        let i: u64 = (y * 8 + x) as u64;
        (self.my_board >> i) & 1 == 1
    }

    pub fn check_opponent(&self, x: usize, y: usize) -> (r: bool)
        requires
            x < 8,
            y < 8,
        ensures
            r == cell(self.opponent_board, x as int, y as int),
    {
        let i: u64 = (y * 8 + x) as u64;
        (self.opponent_board >> i) & 1 == 1
    }

    /// Swaps the two sides: the opponent becomes the mover.
    pub fn change_turn(&mut self)
        ensures
            final(self).my_board == old(self).opponent_board,
            final(self).opponent_board == old(self).my_board,
    {
        let t = self.my_board;
        self.my_board = self.opponent_board;
        self.opponent_board = t;
    }

    /// Number of stones placed, both sides together.
    pub fn get_turn(&self) -> (r: usize)
        ensures
            r == self.spec_stones(),
            r <= 128,
    {
        let a = popcount(self.my_board);
        let b = popcount(self.opponent_board);
        (a + b) as usize
    }

    /// Stone counts, mover first.
    pub fn piece_counts(&self) -> (r: (u64, u64))
        ensures
            r.0 == pcount(self.my_board),
            r.1 == pcount(self.opponent_board),
    {
        (popcount(self.my_board), popcount(self.opponent_board))
    }

    /// Bitmap of the mover's legal moves.
    pub fn get_valid_moves(&self) -> (r: u64)
        requires
            self.wf(),
        ensures
            forall|s: u64| s < 64 ==> (bit64(r, s) == movegen::legal_at(
                self.my_board,
                self.opponent_board,
                s as int,
            )),
    {
        movegen::get_placeable(self)
    }

    /// Plays the mover's stone on square `m` and flips the captured stones.
    /// The side to move is not changed. The move must be legal.
    pub fn do_move(&mut self, m: u8)
        requires
            old(self).wf(),
            movegen::legal_at(old(self).my_board, old(self).opponent_board, m as int),
        ensures
            final(self).wf(),
            forall|p: u64| p < 64 ==> (bit64(final(self).my_board, p) == (bit64(
                old(self).my_board,
                p,
            ) || p == m || movegen::flipped_at(
                old(self).my_board,
                old(self).opponent_board,
                m as int,
                p as int,
            ))),
            forall|p: u64| p < 64 ==> (bit64(final(self).opponent_board, p) == (bit64(
                old(self).opponent_board,
                p,
            ) && !movegen::flipped_at(
                old(self).my_board,
                old(self).opponent_board,
                m as int,
                p as int,
            ))),
            final(self).spec_stones() == old(self).spec_stones() + 1,
            final(self).my_board == (old(self).my_board | (1u64 << (m as u64)))
                ^ movegen::flip_word(old(self).my_board, old(self).opponent_board, m as int),
            final(self).opponent_board == old(self).opponent_board ^ movegen::flip_word(
                old(self).my_board,
                old(self).opponent_board,
                m as int,
            ),
    {
        let ghost m0 = self.my_board;
        let ghost o0 = self.opponent_board;
        let flipper = movegen::get_flipper(self, m as usize);
        proof {
            assert forall|p: u64|
                p < 64 implies (bit64(flipper, p) == movegen::flipped_at(
                m0,
                o0,
                m as int,
                p as int,
            )) by {}
            movegen::lemma_flip_word_bits(m0, o0, m as int);
            crate::bits::lemma_bit_ext(flipper, movegen::flip_word(m0, o0, m as int));
            movegen::lemma_flip_effects(m0, o0, m as int, flipper);
        }
        self.my_board = self.my_board | (1u64 << (m as u64));
        self.my_board = self.my_board ^ flipper;
        self.opponent_board = self.opponent_board ^ flipper;
    }

    /// Applies a protocol move for either side: the caller names the side
    /// that plays and must have checked the move's legality for it.
    pub fn do_move_interface(&mut self, m: crate::proto::Move, is_my_turn: bool)
        requires
            old(self).wf(),
            match m {
                crate::proto::Move::Mv { x_ah, y_18 } => 1 <= x_ah <= 8 && 1 <= y_18 <= 8 && (
                if is_my_turn {
                    movegen::legal_at(
                        old(self).my_board,
                        old(self).opponent_board,
                        crate::proto::move_square(x_ah, y_18),
                    )
                } else {
                    movegen::legal_at(
                        old(self).opponent_board,
                        old(self).my_board,
                        crate::proto::move_square(x_ah, y_18),
                    )
                }),
                crate::proto::Move::Pass => true,
                crate::proto::Move::GiveUp => true,
            },
        ensures
            final(self).wf(),
            match m {
                crate::proto::Move::Mv { x_ah, y_18 } => if is_my_turn {
                    final(self).my_board == (old(self).my_board | (1u64 << (crate::proto::move_square(
                        x_ah,
                        y_18,
                    ) as u64))) ^ movegen::flip_word(
                        old(self).my_board,
                        old(self).opponent_board,
                        crate::proto::move_square(x_ah, y_18),
                    ) && final(self).opponent_board == old(self).opponent_board
                        ^ movegen::flip_word(
                        old(self).my_board,
                        old(self).opponent_board,
                        crate::proto::move_square(x_ah, y_18),
                    )
                } else {
                    final(self).opponent_board == (old(self).opponent_board | (1u64 << (
                    crate::proto::move_square(x_ah, y_18) as u64))) ^ movegen::flip_word(
                        old(self).opponent_board,
                        old(self).my_board,
                        crate::proto::move_square(x_ah, y_18),
                    ) && final(self).my_board == old(self).my_board ^ movegen::flip_word(
                        old(self).opponent_board,
                        old(self).my_board,
                        crate::proto::move_square(x_ah, y_18),
                    )
                },
                crate::proto::Move::Pass => *final(self) == *old(self),
                crate::proto::Move::GiveUp => *final(self) == *old(self),
            },
    {
        match m {
            crate::proto::Move::Mv { x_ah, y_18 } => {
                let pos: u8 = ((x_ah - 1) + (y_18 - 1) * 8) as u8;
                proof {
                    assert(pos as int == crate::proto::move_square(x_ah, y_18));
                }
                if is_my_turn {
                    self.do_move(pos);
                } else {
                    self.change_turn();
                    proof {
                        crate::bits::lemma_and_comm(self.my_board, self.opponent_board);
                    }
                    self.do_move(pos);
                    self.change_turn();
                    proof {
                        crate::bits::lemma_and_comm(self.my_board, self.opponent_board);
                    }
                }
            },
            crate::proto::Move::Pass => {},
            crate::proto::Move::GiveUp => {},
        }
    }
}

impl Default for Board {
    /// The standard opening with black to move.
    fn default() -> (r: Board)
        ensures
            r.wf(),
            r.my_board == 0x0000000810000000u64,
            r.opponent_board == 0x0000001008000000u64,
    {
        Board::new(false)
    }
}

} // verus!
