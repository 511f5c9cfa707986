//! Transposition table for the heuristic search: a fixed-size,
//! direct-mapped cache keyed on the two occupancy maps, with depth-aware
//! replacement and bound flags.

use vstd::prelude::*;
use crate::board::Board;
use crate::eval::EVAL_LIMIT;
use crate::movegen::legal_at;

verus! {

/// Number of entries in the table.
pub const CACHE_SIZE: usize = 4194304;

/// Depth recorded for entries whose value needs no deeper search.
pub const DEPTH_INF: u8 = 64;

/// Sentinel for "no move recorded".
pub const NIL_MOVE: u8 = 255;

#[derive(Clone, Copy)]
pub struct CacheElement {
    pub my_board: u64,
    pub opponent_board: u64,
    pub depth: u8,
    pub next_move: u8,
    pub value: i32,
    pub exact: bool,
    pub complete: bool,
    pub lower_bound: bool,
    pub upper_bound: bool,
}

impl CacheElement {
    /// A stored element is in range, carries at most one bound flag, and
    /// its move, when it names a square, is legal for its position.
    pub open spec fn sound(self) -> bool {
        &&& -EVAL_LIMIT <= self.value <= EVAL_LIMIT
        &&& !(self.exact && self.lower_bound)
        &&& !(self.exact && self.upper_bound)
        &&& !(self.lower_bound && self.upper_bound)
        &&& (self.next_move == NIL_MOVE || self.next_move == 64 || ((self.next_move as int) < 64
            && legal_at(self.my_board, self.opponent_board, self.next_move as int)))
    }

    pub fn new() -> (r: CacheElement)
        ensures
            r.sound(),
            r.my_board == 0 && r.opponent_board == 0 && r.depth == 0 && r.next_move == NIL_MOVE,
    {
        CacheElement {
            my_board: 0,
            opponent_board: 0,
            depth: 0,
            next_move: NIL_MOVE,
            value: 0,
            exact: false,
            complete: false,
            lower_bound: false,
            upper_bound: false,
        }
    }
}

/// The transposition table itself.
pub struct Cache {
    elements: Vec<CacheElement>,
}

impl Cache {
    pub closed spec fn wf(self) -> bool {
        &&& self.elements@.len() == CACHE_SIZE
        &&& forall|i: int| 0 <= i < self.elements@.len() ==> (#[trigger] self.elements@[i]).sound()
    }

    /// The entry stored in slot `i` of the table.
    pub closed spec fn spec_entry(self, i: int) -> CacheElement {
        self.elements@[i]
    }

    /// The entry the table holds for position `(m, o)`, if any.
    pub open spec fn lookup(self, m: u64, o: u64) -> Option<CacheElement> {
        let e = self.spec_entry(Self::spec_slot(m, o));
        if e.my_board == m && e.opponent_board == o {
            Some(e)
        } else {
            None
        }
    }

    /// Slot of position `(m, o)`: an avalanche mix of each map, xored and
    /// reduced to the table size.
    pub closed spec fn spec_slot(m: u64, o: u64) -> int {
        (spec_mix(m) ^ spec_mix(o)) as int % (CACHE_SIZE as int)
    }

    pub fn new() -> (r: Cache)
        ensures
            r.wf(),
            forall|m: u64, o: u64| m != 0 || o != 0 ==> #[trigger] r.lookup(m, o) is None,
    {
        let e = CacheElement::new();
        let elements = vec![e; CACHE_SIZE];
        Cache { elements }
    }

    /// Index of the slot that may hold `board`.
    pub fn hash(&self, board: &Board) -> (r: usize)
        ensures
            r as int == Self::spec_slot(board.my_board, board.opponent_board),
            r < CACHE_SIZE,
    {
        let k1 = mix(board.my_board);
        let k2 = mix(board.opponent_board);
        ((k1 ^ k2) % (CACHE_SIZE as u64)) as usize
    }

    /// The stored element for this position, when the slot holds exactly
    /// this position.
    pub fn get(&self, board: &Board) -> (r: Option<&CacheElement>)
        requires
            self.wf(),
        ensures
            match r {
                Some(e) => self.lookup(board.my_board, board.opponent_board) == Some(*e)
                    && e.sound() && e.my_board == board.my_board && e.opponent_board
                    == board.opponent_board,
                None => self.lookup(board.my_board, board.opponent_board) is None,
            },
    {
        let index = self.hash(board);
        let element = &self.elements[index];
        if element.my_board == board.my_board && element.opponent_board == board.opponent_board {
            Some(element)
        } else {
            None
        }
    }

    /// Records a result for `board` in its slot; no other slot changes.
    /// An entry for the same position with strictly greater depth is
    /// kept; anything else is overwritten. After a store with depth at
    /// least that of any stored entry, a `get` of the same position
    /// returns exactly what was stored.
    pub fn set(
        &mut self,
        board: &Board,
        depth: u8,
        next_move: u8,
        value: i32,
        exact: bool,
        complete: bool,
        lower_bound: bool,
        upper_bound: bool,
    )
        requires
            old(self).wf(),
            -EVAL_LIMIT <= value <= EVAL_LIMIT,
            !(exact && lower_bound),
            !(exact && upper_bound),
            !(lower_bound && upper_bound),
            next_move == NIL_MOVE || next_move == 64 || ((next_move as int) < 64 && legal_at(
                board.my_board,
                board.opponent_board,
                next_move as int,
            )),
        ensures
            final(self).wf(),
            forall|i: int|
                0 <= i < CACHE_SIZE && i != Self::spec_slot(board.my_board, board.opponent_board)
                    ==> final(self).spec_entry(i) == old(self).spec_entry(i),
            final(self).spec_entry(Self::spec_slot(board.my_board, board.opponent_board)) == (
            if old(self).spec_entry(Self::spec_slot(board.my_board, board.opponent_board)).my_board
                == board.my_board && old(self).spec_entry(
                Self::spec_slot(board.my_board, board.opponent_board),
            ).opponent_board == board.opponent_board && depth < old(self).spec_entry(
                Self::spec_slot(board.my_board, board.opponent_board),
            ).depth {
                old(self).spec_entry(Self::spec_slot(board.my_board, board.opponent_board))
            } else {
                CacheElement {
                    my_board: board.my_board,
                    opponent_board: board.opponent_board,
                    depth,
                    next_move,
                    value,
                    exact,
                    complete,
                    lower_bound,
                    upper_bound,
                }
            }),
            match old(self).lookup(board.my_board, board.opponent_board) {
                Some(e) => if depth < e.depth {
                    *final(self) == *old(self)
                } else {
                    final(self).lookup(board.my_board, board.opponent_board) == Some(
                        CacheElement {
                            my_board: board.my_board,
                            opponent_board: board.opponent_board,
                            depth,
                            next_move,
                            value,
                            exact,
                            complete,
                            lower_bound,
                            upper_bound,
                        },
                    )
                },
                None => final(self).lookup(board.my_board, board.opponent_board) == Some(
                    CacheElement {
                        my_board: board.my_board,
                        opponent_board: board.opponent_board,
                        depth,
                        next_move,
                        value,
                        exact,
                        complete,
                        lower_bound,
                        upper_bound,
                    },
                ),
            },
    {
        let index = self.hash(board);
        let element = &self.elements[index];
        if element.my_board == board.my_board && element.opponent_board == board.opponent_board
            && depth < element.depth {
            return ;
        }
        let e = CacheElement {
            my_board: board.my_board,
            opponent_board: board.opponent_board,
            depth,
            next_move,
            value,
            exact,
            complete,
            lower_bound,
            upper_bound,
        };
        self.elements[index] = e;
    }
}

/// Two xor-shift-multiply avalanche rounds and a final xor-shift, as a
/// 64-to-64-bit mixer.
fn mix(k0: u64) -> (r: u64)
    ensures
        r == spec_mix(k0),
{
    let mut k = (k0 ^ (k0 >> 30)).wrapping_mul(0xbf58476d1ce4e5b9);
    k = (k ^ (k >> 27)).wrapping_mul(0x94d049bb133111eb);
    k = k ^ (k >> 31);
    k
}

pub closed spec fn spec_mix(k0: u64) -> u64 {
    let k1 = vstd::wrapping::u64_specs::wrapping_mul(k0 ^ (k0 >> 30), 0xbf58476d1ce4e5b9);
    let k2 = vstd::wrapping::u64_specs::wrapping_mul(k1 ^ (k1 >> 27), 0x94d049bb133111eb);
    k2 ^ (k2 >> 31)
}

} // verus!
