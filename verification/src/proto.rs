//! The match protocol's view of a move: a square named by file (1..8,
//! shown as A..H) and rank (1..8), a pass, or a resignation.

use vstd::prelude::*;

verus! {

/// What the server's start message carries: the opponent's name and the
/// time allowance in milliseconds.
pub struct InitGame {
    pub opponent_name: String,
    pub assigned_time_ms: i32,
}

#[derive(Clone, Copy, PartialEq, Eq, Structural, Debug)]
pub enum Move {
    Mv { x_ah: u32, y_18: u32 },
    Pass,
    GiveUp,
}

/// Square index of a protocol move's coordinates.
pub open spec fn move_square(x_ah: u32, y_18: u32) -> int {
    (y_18 - 1) * 8 + (x_ah - 1)
}

/// Protocol form of a square index, with 64 standing for a pass.
pub fn format_move(mv: usize) -> (r: Move)
    requires
        mv <= 64,
    ensures
        mv == 64 ==> r == Move::Pass,
        mv < 64 ==> (r == Move::Mv { x_ah: (mv % 8 + 1) as u32, y_18: (mv / 8 + 1) as u32 }
            && move_square((mv % 8 + 1) as u32, (mv / 8 + 1) as u32) == mv),
{
    if mv == 64 {
        Move::Pass
    } else {
        Move::Mv { x_ah: (mv % 8 + 1) as u32, y_18: (mv / 8 + 1) as u32 }
    }
}

} // verus!
