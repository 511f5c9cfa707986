//! Laws of move generation and application, stated over the bit-level
//! model: what a legal-move mask may contain, what a flip mask looks like,
//! and that applying a move can be undone.

use vstd::prelude::*;
use crate::bits::{
    bit64,
    pcount,
    lemma_bit_or,
    lemma_bit_single,
    lemma_bit_zero,
    lemma_and_zero_disjoint,
    lemma_disjoint_and_zero,
    lemma_bit_ext,
};
use crate::movegen::{
    legal_at,
    flipped_at,
    dir_dx,
    dir_dy,
    captures,
    lemma_flipped_opp,
    lemma_flip_effects,
    lemma_captures_has_flip,
};

verus! {

/// A legal-move mask marks empty squares only: it shares no bit with
/// either occupancy map.
pub proof fn lemma_legal_moves_empty(m: u64, o: u64, r: u64)
    requires
        forall|s: u64| s < 64 ==> (bit64(r, s) == legal_at(m, o, s as int)),
    ensures
        r & (m | o) == 0,
{
    assert forall|i: u64| i < 64 implies !(bit64(r, i) && bit64(m | o, i)) by {
        lemma_bit_or(m, o, i);
        if bit64(r, i) {
            assert(legal_at(m, o, i as int));
            assert((i as int) as u64 == i);
        }
    }
    lemma_disjoint_and_zero(r, m | o);
}

/// A legal move's flip mask is not empty, takes nothing from the mover,
/// flips opponent stones only, and applying the move leaves the two maps
/// disjoint with exactly one more stone in play.
pub proof fn lemma_flip_mask_properties(m: u64, o: u64, s: int, f: u64)
    requires
        m & o == 0,
        legal_at(m, o, s),
        forall|p: u64| p < 64 ==> (bit64(f, p) == flipped_at(m, o, s, p as int)),
    ensures
        f != 0,
        f & m == 0,
        f & o == f,
        ((m | (1u64 << (s as u64))) ^ f) & (o ^ f) == 0,
        pcount((m | (1u64 << (s as u64))) ^ f) + pcount(o ^ f) == pcount(m) + pcount(o) + 1,
{
    // some direction captures, so some square is flipped
    let d = choose|d: int|
        0 <= d < 8 && captures(m, o, s % 8, s / 8, #[trigger] dir_dx(d), dir_dy(d));
    lemma_captures_has_flip(m, o, s % 8, s / 8, dir_dx(d), dir_dy(d));
    let p = choose|p: int|
        0 <= p < 64 && #[trigger] crate::movegen::flips_dir_at(
            m,
            o,
            s % 8,
            s / 8,
            dir_dx(d),
            dir_dy(d),
            p,
        );
    assert(flipped_at(m, o, s, p));
    assert(bit64(f, p as u64));
    if f == 0 {
        lemma_bit_zero(p as u64);
    }
    // flipped squares sit in the opponent's map, away from the mover's
    assert forall|i: u64| i < 64 implies !(bit64(f, i) && bit64(m, i)) by {
        if bit64(f, i) {
            lemma_flipped_opp(m, o, s, i as int);
            lemma_and_zero_disjoint(m, o, i);
        }
    }
    lemma_disjoint_and_zero(f, m);
    assert forall|i: u64| i < 64 implies bit64(f & o, i) == bit64(f, i) by {
        crate::bits::lemma_bit_and(f, o, i);
        if bit64(f, i) {
            lemma_flipped_opp(m, o, s, i as int);
        }
    }
    lemma_bit_ext(f & o, f);
    lemma_flip_effects(m, o, s, f);
}

/// Applying a move and then undoing it — flipping the flip mask back and
/// clearing the placed stone — restores the position.
pub proof fn lemma_apply_move_roundtrip(m: u64, o: u64, s: int, f: u64)
    requires
        m & o == 0,
        legal_at(m, o, s),
    ensures
        (((m | (1u64 << (s as u64))) ^ f) ^ f) & !(1u64 << (s as u64)) == m,
        ((o ^ f) ^ f) == o,
{
    let sb = 1u64 << (s as u64);
    assert forall|i: u64| i < 64 implies !(bit64(m, i) && bit64(sb, i)) by {
        lemma_bit_single(s as u64, i);
        if i as int == s {
            assert(i == (s as u64));
        }
    }
    lemma_disjoint_and_zero(m, sb);
    assert(m & sb == 0 ==> (((m | sb) ^ f) ^ f) & !sb == m) by (bit_vector);
    assert(((o ^ f) ^ f) == o) by (bit_vector);
}

/// The child position that search expands is "apply the move, then swap
/// sides"; its mover count is the old opponent count less the flipped
/// stones, its opponent count is the old mover count plus the flipped
/// stones and the placed one, and one more stone is in play.
pub proof fn lemma_child_counts(m: u64, o: u64, s: int, f: u64)
    requires
        m & o == 0,
        legal_at(m, o, s),
        forall|p: u64| p < 64 ==> (bit64(f, p) == flipped_at(m, o, s, p as int)),
    ensures
        pcount(o ^ f) == pcount(o) - pcount(f),
        pcount((m | (1u64 << (s as u64))) ^ f) == pcount(m) + pcount(f) + 1,
        pcount(o ^ f) + pcount((m | (1u64 << (s as u64))) ^ f) == pcount(m) + pcount(o) + 1,
{
    let sb = 1u64 << (s as u64);
    let mm = m | sb;
    assert forall|p: u64| p < 64 && bit64(f, p) implies bit64(o, p) by {
        lemma_flipped_opp(m, o, s, p as int);
    }
    crate::bits::lemma_pcount_xor_subset(o, f, 64);
    assert forall|p: u64| p < 64 implies (bit64(sb, p) == (p == s)) by {
        lemma_bit_single(s as u64, p);
    }
    assert forall|p: u64| p < 64 implies !(bit64(m, p) && bit64(sb, p)) by {
        if p as int == s {
            assert(p == (s as u64));
        }
    }
    crate::bits::lemma_pcount_single(sb, s as u64, 64);
    crate::bits::lemma_pcount_or_disjoint(m, sb, 64);
    assert forall|p: u64| p < 64 implies !(bit64(mm, p) && bit64(f, p)) by {
        lemma_bit_or(m, sb, p);
        lemma_bit_single(s as u64, p);
        if bit64(f, p) {
            lemma_flipped_opp(m, o, s, p as int);
            lemma_and_zero_disjoint(m, o, p);
            if p as int == s {
                assert(p == (s as u64));
            }
        }
    }
    lemma_disjoint_and_zero(mm, f);
    crate::bits::lemma_xor_disjoint_is_or(mm, f);
    crate::bits::lemma_pcount_or_disjoint(mm, f, 64);
}

} // verus!
