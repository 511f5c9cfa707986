//! Bit-level model of 64-bit occupancy maps: a `bit64` predicate, a bit
//! count, and the lemmas relating them to the bitwise operators.

use vstd::prelude::*;

verus! {

/// Bit `i` of `w`, for `i < 64`.
pub open spec fn bit64(w: u64, i: u64) -> bool {
    (w >> i) & 1 == 1
}

/// Number of set bits among positions `[0, n)`.
pub open spec fn pcount_to(w: u64, n: int) -> int
    decreases n,
{
    if n <= 0 {
        0
    } else {
        pcount_to(w, n - 1) + if bit64(w, (n - 1) as u64) {
            1int
        } else {
            0int
        }
    }
}

/// Number of set bits of `w`.
pub open spec fn pcount(w: u64) -> int {
    pcount_to(w, 64)
}

pub proof fn lemma_bit_or(a: u64, b: u64, i: u64)
    by (bit_vector)
    requires
        i < 64,
    ensures
        bit64(a | b, i) == (bit64(a, i) || bit64(b, i)),
{
}

pub proof fn lemma_bit_and(a: u64, b: u64, i: u64)
    by (bit_vector)
    requires
        i < 64,
    ensures
        bit64(a & b, i) == (bit64(a, i) && bit64(b, i)),
{
}

pub proof fn lemma_bit_xor(a: u64, b: u64, i: u64)
    by (bit_vector)
    requires
        i < 64,
    ensures
        bit64(a ^ b, i) == (bit64(a, i) != bit64(b, i)),
{
}

pub proof fn lemma_bit_single(k: u64, i: u64)
    by (bit_vector)
    requires
        i < 64,
        k < 64,
    ensures
        bit64(1u64 << k, i) == (i == k),
{
}

pub proof fn lemma_bit_zero(i: u64)
    by (bit_vector)
    requires
        i < 64,
    ensures
        !bit64(0u64, i),
{
}

/// The mask with bits `[0, n)` set.
pub open spec fn lowmask(n: u64) -> u64 {
    if n >= 64 {
        u64::MAX
    } else {
        ((1u64 << n) - 1) as u64
    }
}

proof fn lemma_ext_rec(a: u64, b: u64, n: u64)
    requires
        n <= 64,
        forall|i: u64| i < n ==> bit64(a, i) == bit64(b, i),
    ensures
        a & lowmask(n) == b & lowmask(n),
    decreases n,
{
    if n == 0 {
        assert(a & lowmask(0) == b & lowmask(0)) by (bit_vector);
    } else {
        let m: u64 = (n - 1) as u64;
        lemma_ext_rec(a, b, m);
        assert(bit64(a, m) == bit64(b, m));
        assert((m < 64 && n == m + 1 && (a & lowmask(m) == b & lowmask(m)) && (((a >> m) & 1
            == 1) == ((b >> m) & 1 == 1))) ==> a & lowmask(n) == b & lowmask(n)) by (bit_vector);
    }
}

/// Two words with the same bits are the same word.
pub proof fn lemma_bit_ext(a: u64, b: u64)
    requires
        forall|i: u64| i < 64 ==> bit64(a, i) == bit64(b, i),
    ensures
        a == b,
{
    lemma_ext_rec(a, b, 64);
    assert(a & lowmask(64) == a && b & lowmask(64) == b) by (bit_vector);
}

/// A word with no set bit is zero.
pub proof fn lemma_no_bits_zero(a: u64)
    requires
        forall|i: u64| i < 64 ==> !bit64(a, i),
    ensures
        a == 0,
{
    assert forall|i: u64| i < 64 implies bit64(a, i) == bit64(0u64, i) by {
        lemma_bit_zero(i);
    }
    lemma_bit_ext(a, 0);
}

/// A nonzero word has a set bit.
pub proof fn lemma_nonzero_has_bit(a: u64)
    requires
        a != 0,
    ensures
        exists|i: u64| i < 64 && bit64(a, i),
{
    if forall|i: u64| i < 64 ==> !bit64(a, i) {
        lemma_no_bits_zero(a);
    }
}

/// Words that share no bit have conjunction zero.
pub proof fn lemma_disjoint_and_zero(a: u64, b: u64)
    requires
        forall|i: u64| i < 64 ==> !(bit64(a, i) && bit64(b, i)),
    ensures
        a & b == 0,
{
    assert forall|i: u64| i < 64 implies bit64(a & b, i) == bit64(0u64, i) by {
        lemma_bit_and(a, b, i);
        lemma_bit_zero(i);
    }
    lemma_bit_ext(a & b, 0);
}

/// Conjunction zero means no shared bit.
pub proof fn lemma_and_zero_disjoint(a: u64, b: u64, i: u64)
    requires
        a & b == 0,
        i < 64,
    ensures
        !(bit64(a, i) && bit64(b, i)),
{
    lemma_bit_and(a, b, i);
    lemma_bit_zero(i);
}

pub proof fn lemma_pcount_to_bounds(w: u64, n: int)
    requires
        0 <= n,
    ensures
        0 <= pcount_to(w, n) <= n,
    decreases n,
{
    if n > 0 {
        lemma_pcount_to_bounds(w, n - 1);
    }
}

/// Counting a disjoint union adds the counts.
pub proof fn lemma_pcount_or_disjoint(a: u64, b: u64, n: int)
    requires
        forall|i: u64| i < 64 ==> !(bit64(a, i) && bit64(b, i)),
        n <= 64,
    ensures
        pcount_to(a | b, n) == pcount_to(a, n) + pcount_to(b, n),
    decreases n,
{
    if n > 0 {
        lemma_pcount_or_disjoint(a, b, n - 1);
        lemma_bit_or(a, b, (n - 1) as u64);
    }
}

/// Removing a subset of the bits subtracts its count.
pub proof fn lemma_pcount_xor_subset(a: u64, f: u64, n: int)
    requires
        forall|i: u64| i < 64 ==> (bit64(f, i) ==> bit64(a, i)),
        n <= 64,
    ensures
        pcount_to(a ^ f, n) == pcount_to(a, n) - pcount_to(f, n),
    decreases n,
{
    if n > 0 {
        lemma_pcount_xor_subset(a, f, n - 1);
        lemma_bit_xor(a, f, (n - 1) as u64);
    }
}

/// A word whose one bit is `k` counts as one.
pub proof fn lemma_pcount_single(w: u64, k: u64, n: int)
    requires
        k < 64,
        forall|i: u64| i < 64 ==> bit64(w, i) == (i == k),
        n <= 64,
    ensures
        pcount_to(w, n) == if k < n {
            1int
        } else {
            0int
        },
    decreases n,
{
    if n > 0 {
        lemma_pcount_single(w, k, n - 1);
    }
}

/// Conjunction commutes.
pub proof fn lemma_and_comm(a: u64, b: u64)
    by (bit_vector)
    ensures
        a & b == b & a,
{
}

/// Xor with a word disjoint from it is the same as or.
pub proof fn lemma_xor_disjoint_is_or(a: u64, b: u64)
    by (bit_vector)
    requires
        a & b == 0,
    ensures
        a ^ b == a | b,
{
}

/// A word missing bit `i` counts at most `n - 1` among `[0, n)`.
pub proof fn lemma_pcount_missing_bit(w: u64, i: u64, n: int)
    requires
        i < n <= 64,
        !bit64(w, i),
    ensures
        pcount_to(w, n) <= n - 1,
    decreases n,
{
    if n - 1 > i {
        lemma_pcount_missing_bit(w, i, n - 1);
    } else {
        lemma_pcount_to_bounds(w, n - 1);
    }
}

/// A word missing two distinct bits counts at most `n - 2` among `[0, n)`.
pub proof fn lemma_pcount_two_missing(w: u64, i: u64, j: u64, n: int)
    requires
        i < j,
        j < n <= 64,
        !bit64(w, i),
        !bit64(w, j),
    ensures
        pcount_to(w, n) <= n - 2,
    decreases n,
{
    if n - 1 > j {
        lemma_pcount_two_missing(w, i, j, n - 1);
    } else {
        lemma_pcount_missing_bit(w, i, n - 1);
    }
}

/// Index of the lowest set bit.
pub fn first_set_bit(w: u64) -> (r: u64)
    requires
        w != 0,
    ensures
        r < 64,
        bit64(w, r),
        forall|j: u64| j < r ==> !bit64(w, j),
{
    let mut i: u64 = 0;
    while i < 64
        invariant
            i <= 64,
            forall|j: u64| j < i ==> !bit64(w, j),
        decreases 64 - i,
    {
        if (w >> i) & 1 == 1 {
            return i;
        }
        i = i + 1;
    }
    proof {
        lemma_no_bits_zero(w);
    }
    0
}

/// Counts the set bits of `w`.
pub fn popcount(w: u64) -> (r: u64)
    ensures
        r == pcount(w),
        r <= 64,
{
    let mut i: u64 = 0;
    let mut acc: u64 = 0;
    while i < 64
        invariant
            i <= 64,
            acc == pcount_to(w, i as int),
            acc <= i,
        decreases 64 - i,
    {
        proof {
            lemma_pcount_to_bounds(w, i as int);
        }
        if (w >> i) & 1 == 1 {
            acc = acc + 1;
        }
        i = i + 1;
    }
    acc
}

} // verus!
