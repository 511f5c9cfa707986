//! The eight board symmetries as maps on square indices: a quarter
//! turn, the mirror, their compositions, and the laws that make the
//! book's symmetry lookup sound.

use vstd::prelude::*;

verus! {

/// Square reached by one quarter turn of the board.
pub open spec fn turn_sq(s: int) -> int {
    (7 - s % 8) * 8 + s / 8
}

/// Square reached by mirroring the files.
pub open spec fn flip_sq(s: int) -> int {
    (s / 8) * 8 + (7 - s % 8)
}

/// Action of the eight symmetries on a square: identity, three turns,
/// the mirror, and the mirror followed by one, two, three turns.
pub open spec fn sym_sq(k: int, s: int) -> int {
    if k == 0 {
        s
    } else if k == 1 {
        turn_sq(s)
    } else if k == 2 {
        turn_sq(turn_sq(s))
    } else if k == 3 {
        turn_sq(turn_sq(turn_sq(s)))
    } else if k == 4 {
        flip_sq(s)
    } else if k == 5 {
        turn_sq(flip_sq(s))
    } else if k == 6 {
        turn_sq(turn_sq(flip_sq(s)))
    } else {
        turn_sq(turn_sq(turn_sq(flip_sq(s))))
    }
}

/// Inverse action of symmetry `k`, written out on the file and rank of
/// the stored square.
pub open spec fn sym_inv_sq(k: int, s: int) -> int {
    let x = s % 8;
    let y = s / 8;
    if k == 0 {
        y * 8 + x
    } else if k == 1 {
        x * 8 + (7 - y)
    } else if k == 2 {
        (7 - y) * 8 + (7 - x)
    } else if k == 3 {
        (7 - x) * 8 + y
    } else if k == 4 {
        y * 8 + (7 - x)
    } else if k == 5 {
        x * 8 + y
    } else if k == 6 {
        (7 - y) * 8 + x
    } else {
        (7 - x) * 8 + (7 - y)
    }
}

proof fn lemma_turn_parts(s: int)
    requires
        0 <= s < 64,
    ensures
        0 <= turn_sq(s) < 64,
        turn_sq(s) % 8 == s / 8,
        turn_sq(s) / 8 == 7 - s % 8,
{
}

proof fn lemma_flip_parts(s: int)
    requires
        0 <= s < 64,
    ensures
        0 <= flip_sq(s) < 64,
        flip_sq(s) % 8 == 7 - s % 8,
        flip_sq(s) / 8 == s / 8,
{
}

/// The stored-move conversion of the lookup really inverts the board
/// symmetry: carrying a square through symmetry `k` and back is the
/// identity, in either order.
#[verifier::rlimit(100)]
#[verifier::spinoff_prover]
pub proof fn lemma_sym_inverse(k: int, s: int)
    requires
        0 <= s < 64,
    ensures
        0 <= sym_sq(k, s) < 64,
        0 <= sym_inv_sq(k, s) < 64,
        sym_inv_sq(k, sym_sq(k, s)) == s,
        sym_sq(k, sym_inv_sq(k, s)) == s,
{
    lemma_turn_parts(s);
    lemma_turn_parts(turn_sq(s));
    lemma_turn_parts(turn_sq(turn_sq(s)));
    lemma_flip_parts(s);
    lemma_turn_parts(flip_sq(s));
    lemma_turn_parts(turn_sq(flip_sq(s)));
    let x = s % 8;
    let y = s / 8;
    let inv = sym_inv_sq(k, s);
    assert(0 <= inv < 64);
    lemma_turn_parts(inv);
    lemma_turn_parts(turn_sq(inv));
    lemma_turn_parts(turn_sq(turn_sq(inv)));
    lemma_flip_parts(inv);
    lemma_turn_parts(flip_sq(inv));
    lemma_turn_parts(turn_sq(flip_sq(inv)));
}

/// Index of the composite of symmetry `k` after symmetry `g`.
pub open spec fn sym_comp(k: int, g: int) -> int {
    if g < 4 && k < 4 {
        (k + g) % 4
    } else if g < 4 {
        4 + (k + 3 * g) % 4
    } else if k < 4 {
        4 + (k + g) % 4
    } else {
        (k + 3 * g) % 4
    }
}

/// Where symmetry `k` sends the square in file `x`, rank `y`.
pub open spec fn sym_fwd(k: int, x: int, y: int) -> int {
    if k == 0 {
        y * 8 + x
    } else if k == 1 {
        (7 - x) * 8 + y
    } else if k == 2 {
        (7 - y) * 8 + (7 - x)
    } else if k == 3 {
        x * 8 + (7 - y)
    } else if k == 4 {
        y * 8 + (7 - x)
    } else if k == 5 {
        x * 8 + y
    } else if k == 6 {
        (7 - y) * 8 + x
    } else {
        (7 - x) * 8 + (7 - y)
    }
}

/// Each symmetry in closed form on the file and rank.
pub proof fn lemma_sym_coords(k: int, s: int)
    requires
        0 <= s < 64,
    ensures
        sym_sq(k, s) == sym_fwd(k, s % 8, s / 8),
        0 <= sym_sq(k, s) < 64,
{
    lemma_turn_parts(s);
    lemma_turn_parts(turn_sq(s));
    lemma_turn_parts(turn_sq(turn_sq(s)));
    lemma_flip_parts(s);
    lemma_turn_parts(flip_sq(s));
    lemma_turn_parts(turn_sq(flip_sq(s)));
    lemma_turn_parts(turn_sq(turn_sq(flip_sq(s))));
}

#[verifier::rlimit(100)]
#[verifier::spinoff_prover]
proof fn lemma_sym_comp_g0(k: int, s: int)
    requires
        0 <= k < 8,
        0 <= s < 64,
    ensures
        sym_sq(k, sym_sq(0, s)) == sym_sq(sym_comp(k, 0), s),
{
    let x = s % 8;
    let y = s / 8;
    assert(0 <= x < 8 && 0 <= y < 8);
    lemma_sym_coords(0, s);
    let t = sym_sq(0, s);
    assert(t == sym_fwd(0, x, y));
    assert(0 <= t < 64);
    if k == 0 {
        lemma_sym_coords(0, t);
        lemma_sym_coords(sym_comp(0, 0), s);
        assert(sym_fwd(0, t % 8, t / 8) == sym_fwd(sym_comp(0, 0), x, y));
    }
    else if k == 1 {
        lemma_sym_coords(1, t);
        lemma_sym_coords(sym_comp(1, 0), s);
        assert(sym_fwd(1, t % 8, t / 8) == sym_fwd(sym_comp(1, 0), x, y));
    }
    else if k == 2 {
        lemma_sym_coords(2, t);
        lemma_sym_coords(sym_comp(2, 0), s);
        assert(sym_fwd(2, t % 8, t / 8) == sym_fwd(sym_comp(2, 0), x, y));
    }
    else if k == 3 {
        lemma_sym_coords(3, t);
        lemma_sym_coords(sym_comp(3, 0), s);
        assert(sym_fwd(3, t % 8, t / 8) == sym_fwd(sym_comp(3, 0), x, y));
    }
    else if k == 4 {
        lemma_sym_coords(4, t);
        lemma_sym_coords(sym_comp(4, 0), s);
        assert(sym_fwd(4, t % 8, t / 8) == sym_fwd(sym_comp(4, 0), x, y));
    }
    else if k == 5 {
        lemma_sym_coords(5, t);
        lemma_sym_coords(sym_comp(5, 0), s);
        assert(sym_fwd(5, t % 8, t / 8) == sym_fwd(sym_comp(5, 0), x, y));
    }
    else if k == 6 {
        lemma_sym_coords(6, t);
        lemma_sym_coords(sym_comp(6, 0), s);
        assert(sym_fwd(6, t % 8, t / 8) == sym_fwd(sym_comp(6, 0), x, y));
    }
    else if k == 7 {
        lemma_sym_coords(7, t);
        lemma_sym_coords(sym_comp(7, 0), s);
        assert(sym_fwd(7, t % 8, t / 8) == sym_fwd(sym_comp(7, 0), x, y));
    }
}

#[verifier::rlimit(100)]
#[verifier::spinoff_prover]
proof fn lemma_sym_comp_g1(k: int, s: int)
    requires
        0 <= k < 8,
        0 <= s < 64,
    ensures
        sym_sq(k, sym_sq(1, s)) == sym_sq(sym_comp(k, 1), s),
{
    let x = s % 8;
    let y = s / 8;
    assert(0 <= x < 8 && 0 <= y < 8);
    lemma_sym_coords(1, s);
    let t = sym_sq(1, s);
    assert(t == sym_fwd(1, x, y));
    assert(0 <= t < 64);
    if k == 0 {
        lemma_sym_coords(0, t);
        lemma_sym_coords(sym_comp(0, 1), s);
        assert(sym_fwd(0, t % 8, t / 8) == sym_fwd(sym_comp(0, 1), x, y));
    }
    else if k == 1 {
        lemma_sym_coords(1, t);
        lemma_sym_coords(sym_comp(1, 1), s);
        assert(sym_fwd(1, t % 8, t / 8) == sym_fwd(sym_comp(1, 1), x, y));
    }
    else if k == 2 {
        lemma_sym_coords(2, t);
        lemma_sym_coords(sym_comp(2, 1), s);
        assert(sym_fwd(2, t % 8, t / 8) == sym_fwd(sym_comp(2, 1), x, y));
    }
    else if k == 3 {
        lemma_sym_coords(3, t);
        lemma_sym_coords(sym_comp(3, 1), s);
        assert(sym_fwd(3, t % 8, t / 8) == sym_fwd(sym_comp(3, 1), x, y));
    }
    else if k == 4 {
        lemma_sym_coords(4, t);
        lemma_sym_coords(sym_comp(4, 1), s);
        assert(sym_fwd(4, t % 8, t / 8) == sym_fwd(sym_comp(4, 1), x, y));
    }
    else if k == 5 {
        lemma_sym_coords(5, t);
        lemma_sym_coords(sym_comp(5, 1), s);
        assert(sym_fwd(5, t % 8, t / 8) == sym_fwd(sym_comp(5, 1), x, y));
    }
    else if k == 6 {
        lemma_sym_coords(6, t);
        lemma_sym_coords(sym_comp(6, 1), s);
        assert(sym_fwd(6, t % 8, t / 8) == sym_fwd(sym_comp(6, 1), x, y));
    }
    else if k == 7 {
        lemma_sym_coords(7, t);
        lemma_sym_coords(sym_comp(7, 1), s);
        assert(sym_fwd(7, t % 8, t / 8) == sym_fwd(sym_comp(7, 1), x, y));
    }
}

#[verifier::rlimit(100)]
#[verifier::spinoff_prover]
proof fn lemma_sym_comp_g2(k: int, s: int)
    requires
        0 <= k < 8,
        0 <= s < 64,
    ensures
        sym_sq(k, sym_sq(2, s)) == sym_sq(sym_comp(k, 2), s),
{
    let x = s % 8;
    let y = s / 8;
    assert(0 <= x < 8 && 0 <= y < 8);
    lemma_sym_coords(2, s);
    let t = sym_sq(2, s);
    assert(t == sym_fwd(2, x, y));
    assert(0 <= t < 64);
    if k == 0 {
        lemma_sym_coords(0, t);
        lemma_sym_coords(sym_comp(0, 2), s);
        assert(sym_fwd(0, t % 8, t / 8) == sym_fwd(sym_comp(0, 2), x, y));
    }
    else if k == 1 {
        lemma_sym_coords(1, t);
        lemma_sym_coords(sym_comp(1, 2), s);
        assert(sym_fwd(1, t % 8, t / 8) == sym_fwd(sym_comp(1, 2), x, y));
    }
    else if k == 2 {
        lemma_sym_coords(2, t);
        lemma_sym_coords(sym_comp(2, 2), s);
        assert(sym_fwd(2, t % 8, t / 8) == sym_fwd(sym_comp(2, 2), x, y));
    }
    else if k == 3 {
        lemma_sym_coords(3, t);
        lemma_sym_coords(sym_comp(3, 2), s);
        assert(sym_fwd(3, t % 8, t / 8) == sym_fwd(sym_comp(3, 2), x, y));
    }
    else if k == 4 {
        lemma_sym_coords(4, t);
        lemma_sym_coords(sym_comp(4, 2), s);
        assert(sym_fwd(4, t % 8, t / 8) == sym_fwd(sym_comp(4, 2), x, y));
    }
    else if k == 5 {
        lemma_sym_coords(5, t);
        lemma_sym_coords(sym_comp(5, 2), s);
        assert(sym_fwd(5, t % 8, t / 8) == sym_fwd(sym_comp(5, 2), x, y));
    }
    else if k == 6 {
        lemma_sym_coords(6, t);
        lemma_sym_coords(sym_comp(6, 2), s);
        assert(sym_fwd(6, t % 8, t / 8) == sym_fwd(sym_comp(6, 2), x, y));
    }
    else if k == 7 {
        lemma_sym_coords(7, t);
        lemma_sym_coords(sym_comp(7, 2), s);
        assert(sym_fwd(7, t % 8, t / 8) == sym_fwd(sym_comp(7, 2), x, y));
    }
}

#[verifier::rlimit(100)]
#[verifier::spinoff_prover]
proof fn lemma_sym_comp_g3(k: int, s: int)
    requires
        0 <= k < 8,
        0 <= s < 64,
    ensures
        sym_sq(k, sym_sq(3, s)) == sym_sq(sym_comp(k, 3), s),
{
    let x = s % 8;
    let y = s / 8;
    assert(0 <= x < 8 && 0 <= y < 8);
    lemma_sym_coords(3, s);
    let t = sym_sq(3, s);
    assert(t == sym_fwd(3, x, y));
    assert(0 <= t < 64);
    if k == 0 {
        lemma_sym_coords(0, t);
        lemma_sym_coords(sym_comp(0, 3), s);
        assert(sym_fwd(0, t % 8, t / 8) == sym_fwd(sym_comp(0, 3), x, y));
    }
    else if k == 1 {
        lemma_sym_coords(1, t);
        lemma_sym_coords(sym_comp(1, 3), s);
        assert(sym_fwd(1, t % 8, t / 8) == sym_fwd(sym_comp(1, 3), x, y));
    }
    else if k == 2 {
        lemma_sym_coords(2, t);
        lemma_sym_coords(sym_comp(2, 3), s);
        assert(sym_fwd(2, t % 8, t / 8) == sym_fwd(sym_comp(2, 3), x, y));
    }
    else if k == 3 {
        lemma_sym_coords(3, t);
        lemma_sym_coords(sym_comp(3, 3), s);
        assert(sym_fwd(3, t % 8, t / 8) == sym_fwd(sym_comp(3, 3), x, y));
    }
    else if k == 4 {
        lemma_sym_coords(4, t);
        lemma_sym_coords(sym_comp(4, 3), s);
        assert(sym_fwd(4, t % 8, t / 8) == sym_fwd(sym_comp(4, 3), x, y));
    }
    else if k == 5 {
        lemma_sym_coords(5, t);
        lemma_sym_coords(sym_comp(5, 3), s);
        assert(sym_fwd(5, t % 8, t / 8) == sym_fwd(sym_comp(5, 3), x, y));
    }
    else if k == 6 {
        lemma_sym_coords(6, t);
        lemma_sym_coords(sym_comp(6, 3), s);
        assert(sym_fwd(6, t % 8, t / 8) == sym_fwd(sym_comp(6, 3), x, y));
    }
    else if k == 7 {
        lemma_sym_coords(7, t);
        lemma_sym_coords(sym_comp(7, 3), s);
        assert(sym_fwd(7, t % 8, t / 8) == sym_fwd(sym_comp(7, 3), x, y));
    }
}

#[verifier::rlimit(100)]
#[verifier::spinoff_prover]
proof fn lemma_sym_comp_g4(k: int, s: int)
    requires
        0 <= k < 8,
        0 <= s < 64,
    ensures
        sym_sq(k, sym_sq(4, s)) == sym_sq(sym_comp(k, 4), s),
{
    let x = s % 8;
    let y = s / 8;
    assert(0 <= x < 8 && 0 <= y < 8);
    lemma_sym_coords(4, s);
    let t = sym_sq(4, s);
    assert(t == sym_fwd(4, x, y));
    assert(0 <= t < 64);
    if k == 0 {
        lemma_sym_coords(0, t);
        lemma_sym_coords(sym_comp(0, 4), s);
        assert(sym_fwd(0, t % 8, t / 8) == sym_fwd(sym_comp(0, 4), x, y));
    }
    else if k == 1 {
        lemma_sym_coords(1, t);
        lemma_sym_coords(sym_comp(1, 4), s);
        assert(sym_fwd(1, t % 8, t / 8) == sym_fwd(sym_comp(1, 4), x, y));
    }
    else if k == 2 {
        lemma_sym_coords(2, t);
        lemma_sym_coords(sym_comp(2, 4), s);
        assert(sym_fwd(2, t % 8, t / 8) == sym_fwd(sym_comp(2, 4), x, y));
    }
    else if k == 3 {
        lemma_sym_coords(3, t);
        lemma_sym_coords(sym_comp(3, 4), s);
        assert(sym_fwd(3, t % 8, t / 8) == sym_fwd(sym_comp(3, 4), x, y));
    }
    else if k == 4 {
        lemma_sym_coords(4, t);
        lemma_sym_coords(sym_comp(4, 4), s);
        assert(sym_fwd(4, t % 8, t / 8) == sym_fwd(sym_comp(4, 4), x, y));
    }
    else if k == 5 {
        lemma_sym_coords(5, t);
        lemma_sym_coords(sym_comp(5, 4), s);
        assert(sym_fwd(5, t % 8, t / 8) == sym_fwd(sym_comp(5, 4), x, y));
    }
    else if k == 6 {
        lemma_sym_coords(6, t);
        lemma_sym_coords(sym_comp(6, 4), s);
        assert(sym_fwd(6, t % 8, t / 8) == sym_fwd(sym_comp(6, 4), x, y));
    }
    else if k == 7 {
        lemma_sym_coords(7, t);
        lemma_sym_coords(sym_comp(7, 4), s);
        assert(sym_fwd(7, t % 8, t / 8) == sym_fwd(sym_comp(7, 4), x, y));
    }
}

#[verifier::rlimit(100)]
#[verifier::spinoff_prover]
proof fn lemma_sym_comp_g5(k: int, s: int)
    requires
        0 <= k < 8,
        0 <= s < 64,
    ensures
        sym_sq(k, sym_sq(5, s)) == sym_sq(sym_comp(k, 5), s),
{
    let x = s % 8;
    let y = s / 8;
    assert(0 <= x < 8 && 0 <= y < 8);
    lemma_sym_coords(5, s);
    let t = sym_sq(5, s);
    assert(t == sym_fwd(5, x, y));
    assert(0 <= t < 64);
    if k == 0 {
        lemma_sym_coords(0, t);
        lemma_sym_coords(sym_comp(0, 5), s);
        assert(sym_fwd(0, t % 8, t / 8) == sym_fwd(sym_comp(0, 5), x, y));
    }
    else if k == 1 {
        lemma_sym_coords(1, t);
        lemma_sym_coords(sym_comp(1, 5), s);
        assert(sym_fwd(1, t % 8, t / 8) == sym_fwd(sym_comp(1, 5), x, y));
    }
    else if k == 2 {
        lemma_sym_coords(2, t);
        lemma_sym_coords(sym_comp(2, 5), s);
        assert(sym_fwd(2, t % 8, t / 8) == sym_fwd(sym_comp(2, 5), x, y));
    }
    else if k == 3 {
        lemma_sym_coords(3, t);
        lemma_sym_coords(sym_comp(3, 5), s);
        assert(sym_fwd(3, t % 8, t / 8) == sym_fwd(sym_comp(3, 5), x, y));
    }
    else if k == 4 {
        lemma_sym_coords(4, t);
        lemma_sym_coords(sym_comp(4, 5), s);
        assert(sym_fwd(4, t % 8, t / 8) == sym_fwd(sym_comp(4, 5), x, y));
    }
    else if k == 5 {
        lemma_sym_coords(5, t);
        lemma_sym_coords(sym_comp(5, 5), s);
        assert(sym_fwd(5, t % 8, t / 8) == sym_fwd(sym_comp(5, 5), x, y));
    }
    else if k == 6 {
        lemma_sym_coords(6, t);
        lemma_sym_coords(sym_comp(6, 5), s);
        assert(sym_fwd(6, t % 8, t / 8) == sym_fwd(sym_comp(6, 5), x, y));
    }
    else if k == 7 {
        lemma_sym_coords(7, t);
        lemma_sym_coords(sym_comp(7, 5), s);
        assert(sym_fwd(7, t % 8, t / 8) == sym_fwd(sym_comp(7, 5), x, y));
    }
}

#[verifier::rlimit(100)]
#[verifier::spinoff_prover]
proof fn lemma_sym_comp_g6(k: int, s: int)
    requires
        0 <= k < 8,
        0 <= s < 64,
    ensures
        sym_sq(k, sym_sq(6, s)) == sym_sq(sym_comp(k, 6), s),
{
    let x = s % 8;
    let y = s / 8;
    assert(0 <= x < 8 && 0 <= y < 8);
    lemma_sym_coords(6, s);
    let t = sym_sq(6, s);
    assert(t == sym_fwd(6, x, y));
    assert(0 <= t < 64);
    if k == 0 {
        lemma_sym_coords(0, t);
        lemma_sym_coords(sym_comp(0, 6), s);
        assert(sym_fwd(0, t % 8, t / 8) == sym_fwd(sym_comp(0, 6), x, y));
    }
    else if k == 1 {
        lemma_sym_coords(1, t);
        lemma_sym_coords(sym_comp(1, 6), s);
        assert(sym_fwd(1, t % 8, t / 8) == sym_fwd(sym_comp(1, 6), x, y));
    }
    else if k == 2 {
        lemma_sym_coords(2, t);
        lemma_sym_coords(sym_comp(2, 6), s);
        assert(sym_fwd(2, t % 8, t / 8) == sym_fwd(sym_comp(2, 6), x, y));
    }
    else if k == 3 {
        lemma_sym_coords(3, t);
        lemma_sym_coords(sym_comp(3, 6), s);
        assert(sym_fwd(3, t % 8, t / 8) == sym_fwd(sym_comp(3, 6), x, y));
    }
    else if k == 4 {
        lemma_sym_coords(4, t);
        lemma_sym_coords(sym_comp(4, 6), s);
        assert(sym_fwd(4, t % 8, t / 8) == sym_fwd(sym_comp(4, 6), x, y));
    }
    else if k == 5 {
        lemma_sym_coords(5, t);
        lemma_sym_coords(sym_comp(5, 6), s);
        assert(sym_fwd(5, t % 8, t / 8) == sym_fwd(sym_comp(5, 6), x, y));
    }
    else if k == 6 {
        lemma_sym_coords(6, t);
        lemma_sym_coords(sym_comp(6, 6), s);
        assert(sym_fwd(6, t % 8, t / 8) == sym_fwd(sym_comp(6, 6), x, y));
    }
    else if k == 7 {
        lemma_sym_coords(7, t);
        lemma_sym_coords(sym_comp(7, 6), s);
        assert(sym_fwd(7, t % 8, t / 8) == sym_fwd(sym_comp(7, 6), x, y));
    }
}

#[verifier::rlimit(100)]
#[verifier::spinoff_prover]
proof fn lemma_sym_comp_g7(k: int, s: int)
    requires
        0 <= k < 8,
        0 <= s < 64,
    ensures
        sym_sq(k, sym_sq(7, s)) == sym_sq(sym_comp(k, 7), s),
{
    let x = s % 8;
    let y = s / 8;
    assert(0 <= x < 8 && 0 <= y < 8);
    lemma_sym_coords(7, s);
    let t = sym_sq(7, s);
    assert(t == sym_fwd(7, x, y));
    assert(0 <= t < 64);
    if k == 0 {
        lemma_sym_coords(0, t);
        lemma_sym_coords(sym_comp(0, 7), s);
        assert(sym_fwd(0, t % 8, t / 8) == sym_fwd(sym_comp(0, 7), x, y));
    }
    else if k == 1 {
        lemma_sym_coords(1, t);
        lemma_sym_coords(sym_comp(1, 7), s);
        assert(sym_fwd(1, t % 8, t / 8) == sym_fwd(sym_comp(1, 7), x, y));
    }
    else if k == 2 {
        lemma_sym_coords(2, t);
        lemma_sym_coords(sym_comp(2, 7), s);
        assert(sym_fwd(2, t % 8, t / 8) == sym_fwd(sym_comp(2, 7), x, y));
    }
    else if k == 3 {
        lemma_sym_coords(3, t);
        lemma_sym_coords(sym_comp(3, 7), s);
        assert(sym_fwd(3, t % 8, t / 8) == sym_fwd(sym_comp(3, 7), x, y));
    }
    else if k == 4 {
        lemma_sym_coords(4, t);
        lemma_sym_coords(sym_comp(4, 7), s);
        assert(sym_fwd(4, t % 8, t / 8) == sym_fwd(sym_comp(4, 7), x, y));
    }
    else if k == 5 {
        lemma_sym_coords(5, t);
        lemma_sym_coords(sym_comp(5, 7), s);
        assert(sym_fwd(5, t % 8, t / 8) == sym_fwd(sym_comp(5, 7), x, y));
    }
    else if k == 6 {
        lemma_sym_coords(6, t);
        lemma_sym_coords(sym_comp(6, 7), s);
        assert(sym_fwd(6, t % 8, t / 8) == sym_fwd(sym_comp(6, 7), x, y));
    }
    else if k == 7 {
        lemma_sym_coords(7, t);
        lemma_sym_coords(sym_comp(7, 7), s);
        assert(sym_fwd(7, t % 8, t / 8) == sym_fwd(sym_comp(7, 7), x, y));
    }
}

/// Applying symmetry `g` and then symmetry `k` is the single symmetry
/// `sym_comp(k, g)`.
pub proof fn lemma_sym_comp(k: int, g: int, s: int)
    requires
        0 <= k < 8,
        0 <= g < 8,
        0 <= s < 64,
    ensures
        0 <= sym_comp(k, g) < 8,
        sym_sq(k, sym_sq(g, s)) == sym_sq(sym_comp(k, g), s),
{
    if g == 0 {
        lemma_sym_comp_g0(k, s);
    } else if g == 1 {
        lemma_sym_comp_g1(k, s);
    } else if g == 2 {
        lemma_sym_comp_g2(k, s);
    } else if g == 3 {
        lemma_sym_comp_g3(k, s);
    } else if g == 4 {
        lemma_sym_comp_g4(k, s);
    } else if g == 5 {
        lemma_sym_comp_g5(k, s);
    } else if g == 6 {
        lemma_sym_comp_g6(k, s);
    } else {
        lemma_sym_comp_g7(k, s);
    }
}

/// Index of the inverse of symmetry `g`.
pub open spec fn sym_inv_idx(g: int) -> int {
    if g == 0 {
        0
    } else if g < 4 {
        4 - g
    } else {
        g
    }
}

/// Composing with a symmetry and then with its inverse cancels, on the
/// symmetry indices.
#[verifier::rlimit(100)]
#[verifier::spinoff_prover]
pub proof fn lemma_comp_cancel(k: int, g: int)
    requires
        0 <= k < 8,
        0 <= g < 8,
    ensures
        0 <= sym_inv_idx(g) < 8,
        sym_comp(sym_comp(k, g), sym_inv_idx(g)) == k,
        sym_comp(sym_comp(k, sym_inv_idx(g)), g) == k,
{
    if g == 0 {
        assert(sym_comp(sym_comp(k, 0), 0) == k);
        assert(sym_comp(sym_comp(k, 0), 0) == k);
    }
    else if g == 1 {
        assert(sym_comp(sym_comp(k, 1), 3) == k);
        assert(sym_comp(sym_comp(k, 3), 1) == k);
    }
    else if g == 2 {
        assert(sym_comp(sym_comp(k, 2), 2) == k);
        assert(sym_comp(sym_comp(k, 2), 2) == k);
    }
    else if g == 3 {
        assert(sym_comp(sym_comp(k, 3), 1) == k);
        assert(sym_comp(sym_comp(k, 1), 3) == k);
    }
    else if g == 4 {
        assert(sym_comp(sym_comp(k, 4), 4) == k);
        assert(sym_comp(sym_comp(k, 4), 4) == k);
    }
    else if g == 5 {
        assert(sym_comp(sym_comp(k, 5), 5) == k);
        assert(sym_comp(sym_comp(k, 5), 5) == k);
    }
    else if g == 6 {
        assert(sym_comp(sym_comp(k, 6), 6) == k);
        assert(sym_comp(sym_comp(k, 6), 6) == k);
    }
    else if g == 7 {
        assert(sym_comp(sym_comp(k, 7), 7) == k);
        assert(sym_comp(sym_comp(k, 7), 7) == k);
    }
}

} // verus!
