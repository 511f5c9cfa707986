//! Legal-move and flip computation: for each of the eight directions a
//! capture is a run of one or more opponent stones next to the placed stone,
//! bracketed by a mover stone; the flipped squares are the runs of every
//! capturing direction.

use vstd::prelude::*;
use crate::bits::{
    bit64,
    pcount,
    lemma_bit_or,
    lemma_bit_xor,
    lemma_bit_single,
    lemma_bit_zero,
    lemma_nonzero_has_bit,
    lemma_no_bits_zero,
    lemma_and_zero_disjoint,
    lemma_disjoint_and_zero,
    lemma_xor_disjoint_is_or,
    lemma_pcount_or_disjoint,
    lemma_pcount_xor_subset,
    lemma_pcount_single,
};
use crate::board::{sq, on_board, cell, Board};

verus! {

/// File step of direction `d` (east, west, south, north, then the four
/// diagonal directions; "south" is the direction of growing rank).
pub open spec fn dir_dx(d: int) -> int {
    if d == 0 {
        1
    } else if d == 1 {
        -1
    } else if d == 2 {
        0
    } else if d == 3 {
        0
    } else if d == 4 {
        1
    } else if d == 5 {
        -1
    } else if d == 6 {
        1
    } else {
        -1
    }
}

/// Rank step of direction `d`.
pub open spec fn dir_dy(d: int) -> int {
    if d == 0 {
        0
    } else if d == 1 {
        0
    } else if d == 2 {
        1
    } else if d == 3 {
        -1
    } else if d == 4 {
        -1
    } else if d == 5 {
        1
    } else if d == 6 {
        1
    } else {
        -1
    }
}

/// The square reached from `(x, y)` in `t` steps of `(dx, dy)`.
pub open spec fn step_sq(x: int, y: int, dx: int, dy: int, t: int) -> int {
    sq(x + t * dx, y + t * dy)
}

/// Occupancy of the square reached from `(x, y)` in `t` steps of `(dx, dy)`.
pub open spec fn step_cell(w: u64, x: int, y: int, dx: int, dy: int, t: int) -> bool {
    cell(w, x + t * dx, y + t * dy)
}

/// Length of the run of opponent stones along `(dx, dy)` from `(x, y)`,
/// starting with step `t`.
pub open spec fn run_from(o: u64, x: int, y: int, dx: int, dy: int, t: int) -> int
    decreases 9 - t,
{
    if t < 0 || t > 8 {
        0
    } else if step_cell(o, x, y, dx, dy, t) {
        1 + run_from(o, x, y, dx, dy, t + 1)
    } else {
        0
    }
}

/// Length of the opponent run next to `(x, y)` along `(dx, dy)`.
pub open spec fn run_len(o: u64, x: int, y: int, dx: int, dy: int) -> int {
    run_from(o, x, y, dx, dy, 1)
}

/// Placing at `(x, y)` captures along `(dx, dy)`: a nonempty opponent run
/// with a mover stone just past it.
pub open spec fn captures(m: u64, o: u64, x: int, y: int, dx: int, dy: int) -> bool {
    let l = run_len(o, x, y, dx, dy);
    l >= 1 && cell(m, x + (l + 1) * dx, y + (l + 1) * dy)
}

/// Square `p` is flipped by placing at `(x, y)`, considering the one
/// direction `(dx, dy)`.
pub open spec fn flips_dir_at(m: u64, o: u64, x: int, y: int, dx: int, dy: int, p: int) -> bool {
    captures(m, o, x, y, dx, dy) && exists|t: int|
        1 <= t <= run_len(o, x, y, dx, dy) && p == #[trigger] step_sq(x, y, dx, dy, t)
}

/// Square `p` is flipped by placing at square `s`, in some direction.
pub open spec fn flipped_at(m: u64, o: u64, s: int, p: int) -> bool {
    exists|d: int|
        0 <= d < 8 && flips_dir_at(m, o, s % 8, s / 8, #[trigger] dir_dx(d), dir_dy(d), p)
}

/// Square `s` is a legal move for the mover: empty, and capturing in at
/// least one direction.
pub open spec fn legal_at(m: u64, o: u64, s: int) -> bool {
    &&& 0 <= s < 64
    &&& !bit64(m, s as u64)
    &&& !bit64(o, s as u64)
    &&& exists|d: int| 0 <= d < 8 && captures(m, o, s % 8, s / 8, #[trigger] dir_dx(d), dir_dy(d))
}

/// Pins the run length down: stones at steps `[t, t + l)` are the opponent's
/// and the square at step `t + l` is not.
proof fn lemma_run_from_val(o: u64, x: int, y: int, dx: int, dy: int, t: int, l: int)
    requires
        0 <= t,
        0 <= l,
        t + l <= 8,
        forall|j: int| t <= j < t + l ==> #[trigger] step_cell(o, x, y, dx, dy, j),
        !step_cell(o, x, y, dx, dy, t + l),
    ensures
        run_from(o, x, y, dx, dy, t) == l,
    decreases l,
{
    if l > 0 {
        lemma_run_from_val(o, x, y, dx, dy, t + 1, l - 1);
    }
}

/// Every stone in the run is an opponent stone on the board.
proof fn lemma_run_cells(o: u64, x: int, y: int, dx: int, dy: int, t: int)
    requires
        0 <= t,
    ensures
        forall|j: int|
            t <= j < t + run_from(o, x, y, dx, dy, t) ==> #[trigger] step_cell(o, x, y, dx, dy, j),
    decreases 9 - t,
{
    if t <= 8 && step_cell(o, x, y, dx, dy, t) {
        lemma_run_cells(o, x, y, dx, dy, t + 1);
    }
}

/// A flipped square holds an opponent stone.
pub proof fn lemma_flips_dir_opp(m: u64, o: u64, x: int, y: int, dx: int, dy: int, p: int)
    requires
        flips_dir_at(m, o, x, y, dx, dy, p),
    ensures
        0 <= p < 64,
        bit64(o, p as u64),
    {
    lemma_run_cells(o, x, y, dx, dy, 1);
    let t = choose|t: int|
        1 <= t <= run_len(o, x, y, dx, dy) && p == #[trigger] step_sq(x, y, dx, dy, t);
    assert(step_cell(o, x, y, dx, dy, t));
}

/// A flipped square holds an opponent stone (any direction).
pub proof fn lemma_flipped_opp(m: u64, o: u64, s: int, p: int)
    requires
        flipped_at(m, o, s, p),
    ensures
        0 <= p < 64,
        bit64(o, p as u64),
{
    let d = choose|d: int|
        0 <= d < 8 && flips_dir_at(m, o, s % 8, s / 8, #[trigger] dir_dx(d), dir_dy(d), p);
    lemma_flips_dir_opp(m, o, s % 8, s / 8, dir_dx(d), dir_dy(d), p);
}

/// Flip mask of one direction: the bits of the opponent run along
/// `(dx, dy)` if that direction captures, zero otherwise.
fn flips_in_dir(m: u64, o: u64, x: usize, y: usize, dx: i64, dy: i64) -> (r: u64)
    requires
        x < 8,
        y < 8,
        -1 <= dx <= 1,
        -1 <= dy <= 1,
        !(dx == 0 && dy == 0),
    ensures
        forall|p: u64|
            p < 64 ==> (bit64(r, p) == flips_dir_at(
                m,
                o,
                x as int,
                y as int,
                dx as int,
                dy as int,
                p as int,
            )),
{
    let mut t: u64 = 1;
    let mut cx: i64 = x as i64 + dx;
    let mut cy: i64 = y as i64 + dy;
    let mut acc: u64 = 0;
    let mut inb: bool = 0 <= cx && cx < 8 && 0 <= cy && cy < 8;
    let mut isopp: bool = false;
    if inb {
        isopp = (o >> ((cy * 8 + cx) as u64)) & 1 == 1;
    }
    proof {
        assert forall|p: u64| p < 64 implies !bit64(0u64, p) by {
            lemma_bit_zero(p);
        }
        assert(1 * dx == dx && 1 * dy == dy) by (nonlinear_arith);
    }
    while isopp
        invariant
            x < 8,
            y < 8,
            -1 <= dx <= 1,
            -1 <= dy <= 1,
            !(dx == 0 && dy == 0),
            1 <= t <= 8,
            cx == x + t * dx,
            cy == y + t * dy,
            inb == on_board(cx as int, cy as int),
            isopp == cell(o, cx as int, cy as int),
            forall|j: int| 1 <= j < t ==> #[trigger] step_cell(o, x as int, y as int, dx as int, dy as int, j),
            forall|p: u64|
                p < 64 ==> (bit64(acc, p) == exists|j: int|
                    1 <= j < t && p as int == #[trigger] step_sq(
                        x as int,
                        y as int,
                        dx as int,
                        dy as int,
                        j,
                    )),
        decreases 8 - t,
    {
        // the run has stayed on the board, so it is at most seven long
        proof {
            assert(0 <= x + t * dx < 8 && 0 <= y + t * dy < 8);
            assert(t <= 7) by (nonlinear_arith)
                requires
                    1 <= t,
                    -1 <= dx,
                    dx <= 1,
                    -1 <= dy,
                    dy <= 1,
                    !(dx == 0 && dy == 0),
                    0 <= x + t * dx,
                    x + t * dx < 8,
                    x < 8,
                    0 <= y + t * dy,
                    y + t * dy < 8,
                    y < 8,
            ;
        }
        let idx: u64 = (cy * 8 + cx) as u64;
        let ghost acc0 = acc;
        acc = acc | (1u64 << idx);
        proof {
            assert(step_cell(o, x as int, y as int, dx as int, dy as int, t as int));
            assert forall|p: u64| p < 64 implies (bit64(acc, p) == exists|j: int|
                1 <= j < t + 1 && p as int == #[trigger] step_sq(
                    x as int,
                    y as int,
                    dx as int,
                    dy as int,
                    j,
                )) by {
                lemma_bit_or(acc0, 1u64 << idx, p);
                lemma_bit_single(idx, p);
                if p == idx {
                    assert(p as int == step_sq(x as int, y as int, dx as int, dy as int, t as int));
                }
                if bit64(acc0, p) {
                    let j = choose|j: int|
                        1 <= j < t && p as int == #[trigger] step_sq(
                            x as int,
                            y as int,
                            dx as int,
                            dy as int,
                            j,
                        );
                    assert(1 <= j < t + 1 && p as int == step_sq(
                        x as int,
                        y as int,
                        dx as int,
                        dy as int,
                        j,
                    ));
                }
            }
            assert((t + 1) * dx == t * dx + dx) by (nonlinear_arith);
            assert((t + 1) * dy == t * dy + dy) by (nonlinear_arith);
        }
        t = t + 1;
        cx = cx + dx;
        cy = cy + dy;
        inb = 0 <= cx && cx < 8 && 0 <= cy && cy < 8;
        if inb {
            let idx2: u64 = (cy * 8 + cx) as u64;
            isopp = (o >> idx2) & 1 == 1;
        } else {
            isopp = false;
        }
    }
    // steps 1..t are the opponent run; step t ends it
    let capt: bool = t >= 2 && inb && (m >> ((cy * 8 + cx) as u64)) & 1 == 1;
    proof {
        lemma_run_from_val(o, x as int, y as int, dx as int, dy as int, 1, t as int - 1);
        assert(run_len(o, x as int, y as int, dx as int, dy as int) == t - 1);
        assert(cell(m, cx as int, cy as int) == (inb && bit64(m, (cy * 8 + cx) as u64)));
        assert(captures(m, o, x as int, y as int, dx as int, dy as int) == (t >= 2 && cell(
            m,
            x + t as int * dx,
            y + t as int * dy,
        )));
    }
    if capt {
        proof {
            assert forall|p: u64|
                p < 64 implies (bit64(acc, p) == flips_dir_at(
                m,
                o,
                x as int,
                y as int,
                dx as int,
                dy as int,
                p as int,
            )) by {
                assert(captures(m, o, x as int, y as int, dx as int, dy as int));
            }
        }
        acc
    } else {
        proof {
            assert(!captures(m, o, x as int, y as int, dx as int, dy as int));
            assert forall|p: u64|
                p < 64 implies (bit64(0u64, p) == flips_dir_at(
                m,
                o,
                x as int,
                y as int,
                dx as int,
                dy as int,
                p as int,
            )) by {
                lemma_bit_zero(p);
            }
        }
        0
    }
}

/// A capturing direction flips at least one square.
pub proof fn lemma_captures_has_flip(m: u64, o: u64, x: int, y: int, dx: int, dy: int)
    requires
        captures(m, o, x, y, dx, dy),
    ensures
        exists|p: int| 0 <= p < 64 && flips_dir_at(m, o, x, y, dx, dy, p),
{
    lemma_run_cells(o, x, y, dx, dy, 1);
    assert(step_cell(o, x, y, dx, dy, 1));
    let p = step_sq(x, y, dx, dy, 1);
    assert(flips_dir_at(m, o, x, y, dx, dy, p));
}

/// Whether placing at `(x, y)` captures along the one direction `(dx, dy)`.
fn dir_captures(m: u64, o: u64, x: usize, y: usize, dx: i64, dy: i64) -> (r: bool)
    requires
        x < 8,
        y < 8,
        -1 <= dx <= 1,
        -1 <= dy <= 1,
        !(dx == 0 && dy == 0),
    ensures
        r == captures(m, o, x as int, y as int, dx as int, dy as int),
{
    let f = flips_in_dir(m, o, x, y, dx, dy);
    proof {
        let ghost xi = x as int;
        let ghost yi = y as int;
        let ghost dxi = dx as int;
        let ghost dyi = dy as int;
        if captures(m, o, xi, yi, dxi, dyi) {
            lemma_captures_has_flip(m, o, xi, yi, dxi, dyi);
            let p = choose|p: int| 0 <= p < 64 && #[trigger] flips_dir_at(m, o, xi, yi, dxi, dyi, p);
            assert(bit64(f, p as u64));
            if f == 0 {
                lemma_bit_zero(p as u64);
            }
        } else {
            lemma_no_bits_zero(f);
        }
    }
    f != 0
}

/// Flips along the row of `(x, y)`; `x` is the rank, `y` the file.
pub fn get_row_flip(board: &Board, x: usize, y: usize) -> (r: u64)
    requires
        x < 8,
        y < 8,
    ensures
        forall|p: u64|
            p < 64 ==> (bit64(r, p) == (flips_dir_at(
                board.my_board,
                board.opponent_board,
                y as int,
                x as int,
                1,
                0,
                p as int,
            ) || flips_dir_at(
                board.my_board,
                board.opponent_board,
                y as int,
                x as int,
                -1,
                0,
                p as int,
            ))),
{
    let a = flips_in_dir(board.my_board, board.opponent_board, y, x, 1, 0);
    let b = flips_in_dir(board.my_board, board.opponent_board, y, x, -1, 0);
    proof {
        assert forall|p: u64|
            p < 64 implies (bit64(a | b, p) == (flips_dir_at(
            board.my_board,
            board.opponent_board,
            y as int,
            x as int,
            1,
            0,
            p as int,
        ) || flips_dir_at(
            board.my_board,
            board.opponent_board,
            y as int,
            x as int,
            -1,
            0,
            p as int,
        ))) by {
            lemma_bit_or(a, b, p);
        }
    }
    a | b
}

/// Flips along the file of `(x, y)`; `x` is the rank, `y` the file.
pub fn get_col_flip(board: &Board, x: usize, y: usize) -> (r: u64)
    requires
        x < 8,
        y < 8,
    ensures
        forall|p: u64|
            p < 64 ==> (bit64(r, p) == (flips_dir_at(
                board.my_board,
                board.opponent_board,
                y as int,
                x as int,
                0,
                1,
                p as int,
            ) || flips_dir_at(
                board.my_board,
                board.opponent_board,
                y as int,
                x as int,
                0,
                -1,
                p as int,
            ))),
{
    let a = flips_in_dir(board.my_board, board.opponent_board, y, x, 0, 1);
    let b = flips_in_dir(board.my_board, board.opponent_board, y, x, 0, -1);
    proof {
        assert forall|p: u64|
            p < 64 implies (bit64(a | b, p) == (flips_dir_at(
            board.my_board,
            board.opponent_board,
            y as int,
            x as int,
            0,
            1,
            p as int,
        ) || flips_dir_at(
            board.my_board,
            board.opponent_board,
            y as int,
            x as int,
            0,
            -1,
            p as int,
        ))) by {
            lemma_bit_or(a, b, p);
        }
    }
    a | b
}

/// Flips along the anti-diagonal (constant file + rank) of `(x, y)`;
/// `x` is the rank, `y` the file.
pub fn get_diag_flip_1(board: &Board, x: usize, y: usize) -> (r: u64)
    requires
        x < 8,
        y < 8,
    ensures
        forall|p: u64|
            p < 64 ==> (bit64(r, p) == (flips_dir_at(
                board.my_board,
                board.opponent_board,
                y as int,
                x as int,
                1,
                -1,
                p as int,
            ) || flips_dir_at(
                board.my_board,
                board.opponent_board,
                y as int,
                x as int,
                -1,
                1,
                p as int,
            ))),
{
    let a = flips_in_dir(board.my_board, board.opponent_board, y, x, 1, -1);
    let b = flips_in_dir(board.my_board, board.opponent_board, y, x, -1, 1);
    proof {
        assert forall|p: u64|
            p < 64 implies (bit64(a | b, p) == (flips_dir_at(
            board.my_board,
            board.opponent_board,
            y as int,
            x as int,
            1,
            -1,
            p as int,
        ) || flips_dir_at(
            board.my_board,
            board.opponent_board,
            y as int,
            x as int,
            -1,
            1,
            p as int,
        ))) by {
            lemma_bit_or(a, b, p);
        }
    }
    a | b
}

/// Flips along the main diagonal (constant file - rank) of `(x, y)`;
/// `x` is the rank, `y` the file.
pub fn get_diag_flip_2(board: &Board, x: usize, y: usize) -> (r: u64)
    requires
        x < 8,
        y < 8,
    ensures
        forall|p: u64|
            p < 64 ==> (bit64(r, p) == (flips_dir_at(
                board.my_board,
                board.opponent_board,
                y as int,
                x as int,
                1,
                1,
                p as int,
            ) || flips_dir_at(
                board.my_board,
                board.opponent_board,
                y as int,
                x as int,
                -1,
                -1,
                p as int,
            ))),
{
    let a = flips_in_dir(board.my_board, board.opponent_board, y, x, 1, 1);
    let b = flips_in_dir(board.my_board, board.opponent_board, y, x, -1, -1);
    proof {
        assert forall|p: u64|
            p < 64 implies (bit64(a | b, p) == (flips_dir_at(
            board.my_board,
            board.opponent_board,
            y as int,
            x as int,
            1,
            1,
            p as int,
        ) || flips_dir_at(
            board.my_board,
            board.opponent_board,
            y as int,
            x as int,
            -1,
            -1,
            p as int,
        ))) by {
            lemma_bit_or(a, b, p);
        }
    }
    a | b
}

/// Flip mask for placing the mover's stone on square `i`: zero exactly when
/// the move is illegal.
pub fn get_flipper(board: &Board, i: usize) -> (r: u64)
    requires
        i < 64,
    ensures
        forall|p: u64|
            p < 64 ==> (bit64(r, p) == (!bit64(board.my_board, i as u64) && !bit64(
                board.opponent_board,
                i as u64,
            ) && flipped_at(board.my_board, board.opponent_board, i as int, p as int))),
        (r != 0) == legal_at(board.my_board, board.opponent_board, i as int),
{
    let m = board.my_board;
    let o = board.opponent_board;
    let x = i >> 3;
    let y = i & 7;
    proof {
        assert(i < 64 ==> ((i & 7) == i % 8 && (i >> 3) == i / 8 && i % 8 < 8 && i / 8 < 8)) by (bit_vector);
    }
    if (m >> (i as u64)) & 1 == 1 || (o >> (i as u64)) & 1 == 1 {
        proof {
            assert forall|p: u64| p < 64 implies !bit64(0u64, p) by {
                lemma_bit_zero(p);
            }
        }
        return 0;
    }
    let r1 = get_row_flip(board, x, y);
    let r2 = get_col_flip(board, x, y);
    let r3 = get_diag_flip_1(board, x, y);
    let r4 = get_diag_flip_2(board, x, y);
    let r = r1 | r2 | r3 | r4;
    proof {
        assert forall|p: u64|
            p < 64 implies (bit64(r, p) == (bit64(r1, p) || bit64(r2, p) || bit64(r3, p) || bit64(
            r4,
            p,
        ))) by {
            lemma_bit_or(r1, r2, p);
            lemma_bit_or(r1 | r2, r3, p);
            lemma_bit_or(r1 | r2 | r3, r4, p);
        }
        assert forall|p: u64|
            p < 64 implies (bit64(r, p) == flipped_at(m, o, i as int, p as int)) by {
            if bit64(r, p) {
                if bit64(r1, p) {
                    if flips_dir_at(m, o, i as int % 8, i as int / 8, 1, 0, p as int) {
                        assert(dir_dx(0) == 1 && dir_dy(0) == 0);
                        assert(flipped_at(m, o, i as int, p as int));
                    } else {
                        assert(dir_dx(1) == -1 && dir_dy(1) == 0);
                        assert(flipped_at(m, o, i as int, p as int));
                    }
                } else if bit64(r2, p) {
                    if flips_dir_at(m, o, i as int % 8, i as int / 8, 0, 1, p as int) {
                        assert(dir_dx(2) == 0 && dir_dy(2) == 1);
                        assert(flipped_at(m, o, i as int, p as int));
                    } else {
                        assert(dir_dx(3) == 0 && dir_dy(3) == -1);
                        assert(flipped_at(m, o, i as int, p as int));
                    }
                } else if bit64(r3, p) {
                    if flips_dir_at(m, o, i as int % 8, i as int / 8, 1, -1, p as int) {
                        assert(dir_dx(4) == 1 && dir_dy(4) == -1);
                        assert(flipped_at(m, o, i as int, p as int));
                    } else {
                        assert(dir_dx(5) == -1 && dir_dy(5) == 1);
                        assert(flipped_at(m, o, i as int, p as int));
                    }
                } else {
                    if flips_dir_at(m, o, i as int % 8, i as int / 8, 1, 1, p as int) {
                        assert(dir_dx(6) == 1 && dir_dy(6) == 1);
                        assert(flipped_at(m, o, i as int, p as int));
                    } else {
                        assert(dir_dx(7) == -1 && dir_dy(7) == -1);
                        assert(flipped_at(m, o, i as int, p as int));
                    }
                }
            }
            if flipped_at(m, o, i as int, p as int) {
                let d = choose|d: int|
                    0 <= d < 8 && flips_dir_at(
                        m,
                        o,
                        i as int % 8,
                        i as int / 8,
                        dir_dx(d),
                        dir_dy(d),
                        p as int,
                    );
                assert(d == 0 || d == 1 || d == 2 || d == 3 || d == 4 || d == 5 || d == 6 || d
                    == 7);
                assert(bit64(r1, p) || bit64(r2, p) || bit64(r3, p) || bit64(r4, p));
            }
        }
        // nonzero exactly when legal
        let ghost xi = i as int % 8;
        let ghost yi = i as int / 8;
        if legal_at(m, o, i as int) {
            let d = choose|d: int| 0 <= d < 8 && captures(m, o, xi, yi, #[trigger] dir_dx(d), dir_dy(d));
            lemma_captures_has_flip(m, o, xi, yi, dir_dx(d), dir_dy(d));
            let p = choose|p: int|
                0 <= p < 64 && #[trigger] flips_dir_at(m, o, xi, yi, dir_dx(d), dir_dy(d), p);
            assert(flipped_at(m, o, i as int, p));
            assert(bit64(r, p as u64));
            if r == 0 {
                lemma_bit_zero(p as u64);
            }
        }
        if r != 0 {
            lemma_nonzero_has_bit(r);
            let p = choose|p: u64| p < 64 && bit64(r, p);
            let d = choose|d: int|
                0 <= d < 8 && flips_dir_at(m, o, xi, yi, #[trigger] dir_dx(d), dir_dy(d), p as int);
            assert(captures(m, o, xi, yi, dir_dx(d), dir_dy(d)));
            assert(legal_at(m, o, i as int));
        }
    }
    r
}

/// Effect of playing a legal move `s` with flip mask `f` on the two
/// occupancy maps: the mover gains the square and the flipped stones, the
/// opponent loses the flipped stones, and the boards stay disjoint with one
/// more stone in play.
pub proof fn lemma_flip_effects(m: u64, o: u64, s: int, f: u64)
    requires
        m & o == 0,
        legal_at(m, o, s),
        forall|p: u64| p < 64 ==> (bit64(f, p) == flipped_at(m, o, s, p as int)),
    ensures
        ((m | (1u64 << (s as u64))) ^ f) & (o ^ f) == 0,
        forall|p: u64|
            p < 64 ==> (bit64((m | (1u64 << (s as u64))) ^ f, p) == (bit64(m, p) || p == s
                || flipped_at(m, o, s, p as int))),
        forall|p: u64|
            p < 64 ==> (bit64(o ^ f, p) == (bit64(o, p) && !flipped_at(m, o, s, p as int))),
        pcount((m | (1u64 << (s as u64))) ^ f) + pcount(o ^ f) == pcount(m) + pcount(o) + 1,
{
    let sb = 1u64 << (s as u64);
    let mm = m | sb;
    assert forall|p: u64| p < 64 implies (bit64(mm, p) == (bit64(m, p) || p == s)) by {
        lemma_bit_or(m, sb, p);
        lemma_bit_single(s as u64, p);
    }
    assert forall|p: u64| p < 64 && bit64(f, p) implies bit64(o, p) by {
        lemma_flipped_opp(m, o, s, p as int);
    }
    assert forall|p: u64| p < 64 implies !(bit64(m, p) && bit64(o, p)) by {
        lemma_and_zero_disjoint(m, o, p);
    }
    // the played square is empty, so it is not flipped either
    assert((s as u64) as int == s);
    assert(bit64(f, s as u64) == flipped_at(m, o, s, (s as u64) as int));
    if bit64(f, s as u64) {
        lemma_flipped_opp(m, o, s, s);
    }
    assert(!bit64(f, s as u64));
    assert forall|p: u64| p < 64 implies !(bit64(mm, p) && bit64(f, p)) by {}
    assert forall|p: u64|
        p < 64 implies (bit64(mm ^ f, p) == (bit64(m, p) || p == s || flipped_at(
        m,
        o,
        s,
        p as int,
    ))) by {
        lemma_bit_xor(mm, f, p);
        lemma_bit_or(m, sb, p);
        lemma_bit_single(s as u64, p);
        lemma_and_zero_disjoint(m, o, p);
        assert(bit64(f, p) == flipped_at(m, o, s, p as int));
        if bit64(f, p) {
            lemma_flipped_opp(m, o, s, p as int);
        }
        if p as int == s {
            assert(p == (s as u64));
        }
    }
    assert forall|p: u64|
        p < 64 implies (bit64(o ^ f, p) == (bit64(o, p) && !flipped_at(m, o, s, p as int))) by {
        lemma_bit_xor(o, f, p);
        assert(bit64(f, p) == flipped_at(m, o, s, p as int));
        if bit64(f, p) {
            lemma_flipped_opp(m, o, s, p as int);
        }
    }
    assert forall|p: u64| p < 64 implies !(bit64(mm ^ f, p) && bit64(o ^ f, p)) by {
        lemma_bit_xor(mm, f, p);
        lemma_bit_xor(o, f, p);
        lemma_bit_or(m, sb, p);
        lemma_bit_single(s as u64, p);
        lemma_and_zero_disjoint(m, o, p);
        assert(bit64(f, p) == flipped_at(m, o, s, p as int));
        if bit64(f, p) {
            lemma_flipped_opp(m, o, s, p as int);
        }
        if p as int == s {
            assert(p == (s as u64));
        }
    }
    lemma_disjoint_and_zero(mm ^ f, o ^ f);
    // counts
    assert forall|p: u64| p < 64 implies (bit64(sb, p) == (p == s)) by {
        lemma_bit_single(s as u64, p);
    }
    lemma_pcount_single(sb, s as u64, 64);
    lemma_pcount_or_disjoint(m, sb, 64);
    lemma_disjoint_and_zero(mm, f);
    lemma_xor_disjoint_is_or(mm, f);
    lemma_pcount_or_disjoint(mm, f, 64);
    lemma_pcount_xor_subset(o, f, 64);
}

/// The mover has at least one legal move.
pub open spec fn has_move(m: u64, o: u64) -> bool {
    exists|s: int| legal_at(m, o, s)
}

/// Flip mask of square `s` as a word, collected bit by bit up to `n`.
pub open spec fn flip_word_rec(m: u64, o: u64, s: int, n: int) -> u64
    decreases n,
{
    if n <= 0 {
        0u64
    } else if flipped_at(m, o, s, n - 1) {
        flip_word_rec(m, o, s, n - 1) | (1u64 << ((n - 1) as u64))
    } else {
        flip_word_rec(m, o, s, n - 1)
    }
}

/// Flip mask of square `s` as a word.
pub open spec fn flip_word(m: u64, o: u64, s: int) -> u64 {
    flip_word_rec(m, o, s, 64)
}

/// Mover map of the position after playing `s` and swapping sides: the
/// old opponent map less the flipped stones.
pub open spec fn child_my(m: u64, o: u64, s: int) -> u64 {
    o ^ flip_word(m, o, s)
}

/// Opponent map of the position after playing `s` and swapping sides.
pub open spec fn child_op(m: u64, o: u64, s: int) -> u64 {
    (m | (1u64 << (s as u64))) ^ flip_word(m, o, s)
}

/// Rank used for termination: a position whose mover must pass sits above
/// the swapped position, which has moves.
pub open spec fn pass_rank(m: u64, o: u64) -> int {
    if has_move(m, o) {
        2int
    } else {
        3int
    }
}

proof fn lemma_flip_word_rec_bit_at(m: u64, o: u64, s: int, n: int, i: u64)
    requires
        0 <= n <= 64,
        i < 64,
    ensures
        bit64(flip_word_rec(m, o, s, n), i) == (i < n && flipped_at(m, o, s, i as int)),
    decreases n,
{
    if n > 0 {
        lemma_flip_word_rec_bit_at(m, o, s, n - 1, i);
        let k: u64 = (n - 1) as u64;
        assert(k as int == n - 1);
        if flipped_at(m, o, s, n - 1) {
            lemma_bit_or(flip_word_rec(m, o, s, n - 1), 1u64 << k, i);
            lemma_bit_single(k, i);
        }
    } else {
        lemma_bit_zero(i);
    }
}

/// The flip word holds exactly the flipped squares.
pub proof fn lemma_flip_word_bits(m: u64, o: u64, s: int)
    ensures
        forall|p: u64|
            p < 64 ==> (bit64(flip_word(m, o, s), p) == flipped_at(m, o, s, p as int)),
{
    assert forall|p: u64|
        p < 64 implies (bit64(flip_word(m, o, s), p) == flipped_at(m, o, s, p as int)) by {
        lemma_flip_word_rec_bit_at(m, o, s, 64, p);
    }
}

/// Placing at `s` is possible considering only directions `d1` and `d2`.
pub open spec fn placeable_dirs(m: u64, o: u64, s: int, d1: int, d2: int) -> bool {
    &&& 0 <= s < 64
    &&& !bit64(m, s as u64)
    &&& !bit64(o, s as u64)
    &&& (captures(m, o, s % 8, s / 8, dir_dx(d1), dir_dy(d1)) || captures(
        m,
        o,
        s % 8,
        s / 8,
        dir_dx(d2),
        dir_dy(d2),
    ))
}

/// Tests square `rank * 8 + file` for emptiness and a capture along
/// directions `d1` and `d2`, given as literal steps.
fn placeable_square(
    m: u64,
    o: u64,
    file: usize,
    rank: usize,
    dx1: i64,
    dy1: i64,
    dx2: i64,
    dy2: i64,
) -> (r: bool)
    requires
        file < 8,
        rank < 8,
        -1 <= dx1 <= 1,
        -1 <= dy1 <= 1,
        !(dx1 == 0 && dy1 == 0),
        -1 <= dx2 <= 1,
        -1 <= dy2 <= 1,
        !(dx2 == 0 && dy2 == 0),
    ensures
        r == (!bit64(m, (rank * 8 + file) as u64) && !bit64(o, (rank * 8 + file) as u64) && (
        captures(m, o, file as int, rank as int, dx1 as int, dy1 as int) || captures(
            m,
            o,
            file as int,
            rank as int,
            dx2 as int,
            dy2 as int,
        ))),
{
    let s: u64 = (rank * 8 + file) as u64;
    if (m >> s) & 1 == 1 || (o >> s) & 1 == 1 {
        return false;
    }
    if dir_captures(m, o, file, rank, dx1, dy1) {
        return true;
    }
    dir_captures(m, o, file, rank, dx2, dy2)
}

/// Legal placements in row `row_idx`, from its two directions alone.
pub fn get_row_placeable(board: &Board, row_idx: usize) -> (r: u64)
    requires
        row_idx < 8,
    ensures
        forall|s: u64|
            s < 64 ==> (bit64(r, s) == (s as int / 8 == row_idx && placeable_dirs(
                board.my_board,
                board.opponent_board,
                s as int,
                0,
                1,
            ))),
{
    let m = board.my_board;
    let o = board.opponent_board;
    let mut acc: u64 = 0;
    let mut f: usize = 0;
    proof {
        assert forall|s: u64| s < 64 implies !bit64(0u64, s) by {
            lemma_bit_zero(s);
        }
    }
    while f < 8
        invariant
            row_idx < 8,
            f <= 8,
            m == board.my_board,
            o == board.opponent_board,
            forall|s: u64|
                s < 64 ==> (bit64(acc, s) == (s as int / 8 == row_idx && s as int % 8 < f
                    && placeable_dirs(m, o, s as int, 0, 1))),
        decreases 8 - f,
    {
        let pl = placeable_square(m, o, f, row_idx, 1, 0, -1, 0);
        if pl {
            let s: u64 = (row_idx * 8 + f) as u64;
            let ghost acc0 = acc;
            acc = acc | (1u64 << s);
            proof {
                assert(dir_dx(0) == 1 && dir_dy(0) == 0 && dir_dx(1) == -1 && dir_dy(1) == 0);
                assert(s as int / 8 == row_idx && s as int % 8 == f);
                assert(placeable_dirs(m, o, s as int, 0, 1));
                assert forall|q: u64| q < 64 implies (bit64(acc, q) == (bit64(acc0, q) || q
                    == s)) by {
                    lemma_bit_or(acc0, 1u64 << s, q);
                    lemma_bit_single(s, q);
                }
            }
        } else {
            proof {
                assert(dir_dx(0) == 1 && dir_dy(0) == 0 && dir_dx(1) == -1 && dir_dy(1) == 0);
                assert(!placeable_dirs(m, o, (row_idx * 8 + f) as int, 0, 1));
            }
        }
        f = f + 1;
    }
    acc
}

/// Legal placements in file `col_idx`, from its two directions alone.
pub fn get_col_placeable(board: &Board, col_idx: usize) -> (r: u64)
    requires
        col_idx < 8,
    ensures
        forall|s: u64|
            s < 64 ==> (bit64(r, s) == (s as int % 8 == col_idx && placeable_dirs(
                board.my_board,
                board.opponent_board,
                s as int,
                2,
                3,
            ))),
{
    let m = board.my_board;
    let o = board.opponent_board;
    let mut acc: u64 = 0;
    let mut rk: usize = 0;
    proof {
        assert forall|s: u64| s < 64 implies !bit64(0u64, s) by {
            lemma_bit_zero(s);
        }
    }
    while rk < 8
        invariant
            col_idx < 8,
            rk <= 8,
            m == board.my_board,
            o == board.opponent_board,
            forall|s: u64|
                s < 64 ==> (bit64(acc, s) == (s as int % 8 == col_idx && s as int / 8 < rk
                    && placeable_dirs(m, o, s as int, 2, 3))),
        decreases 8 - rk,
    {
        let pl = placeable_square(m, o, col_idx, rk, 0, 1, 0, -1);
        if pl {
            let s: u64 = (rk * 8 + col_idx) as u64;
            let ghost acc0 = acc;
            acc = acc | (1u64 << s);
            proof {
                assert(dir_dx(2) == 0 && dir_dy(2) == 1 && dir_dx(3) == 0 && dir_dy(3) == -1);
                assert(s as int / 8 == rk && s as int % 8 == col_idx);
                assert(placeable_dirs(m, o, s as int, 2, 3));
                assert forall|q: u64| q < 64 implies (bit64(acc, q) == (bit64(acc0, q) || q
                    == s)) by {
                    lemma_bit_or(acc0, 1u64 << s, q);
                    lemma_bit_single(s, q);
                }
            }
        } else {
            proof {
                assert(dir_dx(2) == 0 && dir_dy(2) == 1 && dir_dx(3) == 0 && dir_dy(3) == -1);
                assert(!placeable_dirs(m, o, (rk * 8 + col_idx) as int, 2, 3));
            }
        }
        rk = rk + 1;
    }
    acc
}

/// Legal placements on the anti-diagonal whose file + rank equals
/// `diag1_idx`, from its two directions alone.
pub fn get_diag1_placeable(board: &Board, diag1_idx: usize) -> (r: u64)
    requires
        diag1_idx < 15,
    ensures
        forall|s: u64|
            s < 64 ==> (bit64(r, s) == (s as int % 8 + s as int / 8 == diag1_idx
                && placeable_dirs(board.my_board, board.opponent_board, s as int, 4, 5))),
{
    let m = board.my_board;
    let o = board.opponent_board;
    let mut acc: u64 = 0;
    let mut f: usize = 0;
    proof {
        assert forall|s: u64| s < 64 implies !bit64(0u64, s) by {
            lemma_bit_zero(s);
        }
    }
    while f < 8
        invariant
            diag1_idx < 15,
            f <= 8,
            m == board.my_board,
            o == board.opponent_board,
            forall|s: u64|
                s < 64 ==> (bit64(acc, s) == (s as int % 8 + s as int / 8 == diag1_idx && s as int
                    % 8 < f && placeable_dirs(m, o, s as int, 4, 5))),
        decreases 8 - f,
    {
        let rk: i64 = diag1_idx as i64 - f as i64;
        if 0 <= rk && rk < 8 {
            let pl = placeable_square(m, o, f, rk as usize, 1, -1, -1, 1);
            if pl {
                let s: u64 = ((rk as usize) * 8 + f) as u64;
                let ghost acc0 = acc;
                acc = acc | (1u64 << s);
                proof {
                    assert(dir_dx(4) == 1 && dir_dy(4) == -1 && dir_dx(5) == -1 && dir_dy(5) == 1);
                    assert(s as int / 8 == rk && s as int % 8 == f);
                    assert(placeable_dirs(m, o, s as int, 4, 5));
                    assert forall|q: u64| q < 64 implies (bit64(acc, q) == (bit64(acc0, q) || q
                        == s)) by {
                        lemma_bit_or(acc0, 1u64 << s, q);
                        lemma_bit_single(s, q);
                    }
                }
            } else {
                proof {
                    assert(dir_dx(4) == 1 && dir_dy(4) == -1 && dir_dx(5) == -1 && dir_dy(5) == 1);
                    assert(!placeable_dirs(m, o, (rk * 8 + f) as int, 4, 5));
                }
            }
        }
        f = f + 1;
    }
    acc
}

/// Legal placements on the main diagonal whose 7 + rank - file equals
/// `diag2_idx`, from its two directions alone.
pub fn get_diag2_placeable(board: &Board, diag2_idx: usize) -> (r: u64)
    requires
        diag2_idx < 15,
    ensures
        forall|s: u64|
            s < 64 ==> (bit64(r, s) == (7 + s as int / 8 - s as int % 8 == diag2_idx
                && placeable_dirs(board.my_board, board.opponent_board, s as int, 6, 7))),
{
    let m = board.my_board;
    let o = board.opponent_board;
    let mut acc: u64 = 0;
    let mut f: usize = 0;
    proof {
        assert forall|s: u64| s < 64 implies !bit64(0u64, s) by {
            lemma_bit_zero(s);
        }
    }
    while f < 8
        invariant
            diag2_idx < 15,
            f <= 8,
            m == board.my_board,
            o == board.opponent_board,
            forall|s: u64|
                s < 64 ==> (bit64(acc, s) == (7 + s as int / 8 - s as int % 8 == diag2_idx
                    && s as int % 8 < f && placeable_dirs(m, o, s as int, 6, 7))),
        decreases 8 - f,
    {
        let rk: i64 = diag2_idx as i64 - 7 + f as i64;
        if 0 <= rk && rk < 8 {
            let pl = placeable_square(m, o, f, rk as usize, 1, 1, -1, -1);
            if pl {
                let s: u64 = ((rk as usize) * 8 + f) as u64;
                let ghost acc0 = acc;
                acc = acc | (1u64 << s);
                proof {
                    assert(dir_dx(6) == 1 && dir_dy(6) == 1 && dir_dx(7) == -1 && dir_dy(7) == -1);
                    assert(s as int / 8 == rk && s as int % 8 == f);
                    assert(placeable_dirs(m, o, s as int, 6, 7));
                    assert forall|q: u64| q < 64 implies (bit64(acc, q) == (bit64(acc0, q) || q
                        == s)) by {
                        lemma_bit_or(acc0, 1u64 << s, q);
                        lemma_bit_single(s, q);
                    }
                }
            } else {
                proof {
                    assert(dir_dx(6) == 1 && dir_dy(6) == 1 && dir_dx(7) == -1 && dir_dy(7) == -1);
                    assert(!placeable_dirs(m, o, (rk * 8 + f) as int, 6, 7));
                }
            }
        }
        f = f + 1;
    }
    acc
}

/// Bitmap of every legal move: the union of the row, file, and diagonal
/// contributions.
pub fn get_placeable(board: &Board) -> (r: u64)
    ensures
        forall|s: u64|
            s < 64 ==> (bit64(r, s) == legal_at(board.my_board, board.opponent_board, s as int)),
{
    let m = board.my_board;
    let o = board.opponent_board;
    let mut acc: u64 = 0;
    proof {
        assert forall|s: u64| s < 64 implies !bit64(0u64, s) by {
            lemma_bit_zero(s);
        }
    }
    let mut i: usize = 0;
    while i < 8
        invariant
            i <= 8,
            m == board.my_board,
            o == board.opponent_board,
            forall|s: u64|
                s < 64 ==> (bit64(acc, s) == (s as int / 8 < i && placeable_dirs(
                    m,
                    o,
                    s as int,
                    0,
                    1,
                ))),
        decreases 8 - i,
    {
        let line = get_row_placeable(board, i);
        let ghost acc0 = acc;
        acc = acc | line;
        proof {
            assert forall|s: u64| s < 64 implies (bit64(acc, s) == (bit64(acc0, s) || bit64(
                line,
                s,
            ))) by {
                lemma_bit_or(acc0, line, s);
            }
        }
        i = i + 1;
    }
    let mut j: usize = 0;
    while j < 8
        invariant
            j <= 8,
            m == board.my_board,
            o == board.opponent_board,
            forall|s: u64|
                s < 64 ==> (bit64(acc, s) == (placeable_dirs(m, o, s as int, 0, 1) || (s as int % 8
                    < j && placeable_dirs(m, o, s as int, 2, 3)))),
        decreases 8 - j,
    {
        let line = get_col_placeable(board, j);
        let ghost acc0 = acc;
        acc = acc | line;
        proof {
            assert forall|s: u64| s < 64 implies (bit64(acc, s) == (bit64(acc0, s) || bit64(
                line,
                s,
            ))) by {
                lemma_bit_or(acc0, line, s);
            }
        }
        j = j + 1;
    }
    let mut k: usize = 0;
    while k < 15
        invariant
            k <= 15,
            m == board.my_board,
            o == board.opponent_board,
            forall|s: u64|
                s < 64 ==> (bit64(acc, s) == (placeable_dirs(m, o, s as int, 0, 1)
                    || placeable_dirs(m, o, s as int, 2, 3) || (s as int % 8 + s as int / 8 < k
                    && placeable_dirs(m, o, s as int, 4, 5)))),
        decreases 15 - k,
    {
        let line = get_diag1_placeable(board, k);
        let ghost acc0 = acc;
        acc = acc | line;
        proof {
            assert forall|s: u64| s < 64 implies (bit64(acc, s) == (bit64(acc0, s) || bit64(
                line,
                s,
            ))) by {
                lemma_bit_or(acc0, line, s);
            }
        }
        k = k + 1;
    }
    let mut l: usize = 0;
    while l < 15
        invariant
            l <= 15,
            m == board.my_board,
            o == board.opponent_board,
            forall|s: u64|
                s < 64 ==> (bit64(acc, s) == (placeable_dirs(m, o, s as int, 0, 1)
                    || placeable_dirs(m, o, s as int, 2, 3) || placeable_dirs(m, o, s as int, 4, 5)
                    || (7 + s as int / 8 - s as int % 8 < l && placeable_dirs(
                    m,
                    o,
                    s as int,
                    6,
                    7,
                )))),
        decreases 15 - l,
    {
        let line = get_diag2_placeable(board, l);
        let ghost acc0 = acc;
        acc = acc | line;
        proof {
            assert forall|s: u64| s < 64 implies (bit64(acc, s) == (bit64(acc0, s) || bit64(
                line,
                s,
            ))) by {
                lemma_bit_or(acc0, line, s);
            }
        }
        l = l + 1;
    }
    proof {
        assert forall|s: u64|
            s < 64 implies (bit64(acc, s) == legal_at(m, o, s as int)) by {
            if bit64(acc, s) {
                assert(legal_at(m, o, s as int));
            }
            if legal_at(m, o, s as int) {
                let d = choose|d: int|
                    0 <= d < 8 && captures(
                        m,
                        o,
                        s as int % 8,
                        s as int / 8,
                        #[trigger] dir_dx(d),
                        dir_dy(d),
                    );
                assert(d == 0 || d == 1 || d == 2 || d == 3 || d == 4 || d == 5 || d == 6 || d
                    == 7);
                assert(placeable_dirs(m, o, s as int, 0, 1) || placeable_dirs(m, o, s as int, 2, 3)
                    || placeable_dirs(m, o, s as int, 4, 5) || placeable_dirs(
                    m,
                    o,
                    s as int,
                    6,
                    7,
                ));
            }
        }
    }
    acc
}

} // verus!


