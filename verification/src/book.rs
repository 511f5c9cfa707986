//! Opening book: a mapping from positions to a recommended square,
//! looked up under the eight board symmetries after swapping sides.

use vstd::prelude::*;
use crate::bits::bit64;
use crate::board::Board;
use crate::sym::{
    turn_sq,
    flip_sq,
    sym_sq,
    sym_inv_sq,
    sym_comp,
    sym_inv_idx,
    lemma_sym_inverse,
    lemma_sym_comp,
    lemma_sym_coords,
    lemma_comp_cancel,
};

verus! {

/// Characterization used below: `r` is `b` transformed by the map `f` on
/// squares when every square of `b` lands on its image.
pub open spec fn is_transform(b: Board, r: Board, k: int) -> bool {
    forall|s: int|
        0 <= s < 64 ==> (bit64(r.my_board, #[trigger] sym_sq(k, s) as u64) == bit64(
            b.my_board,
            s as u64,
        ) && bit64(r.opponent_board, sym_sq(k, s) as u64) == bit64(b.opponent_board, s as u64))
}

/// The word whose bit `p` is bit `sym_inv_sq(k, p)` of `w`, collected
/// bit by bit up to `n`: the occupancy map pushed through symmetry `k`.
pub open spec fn sym_word_rec(k: int, w: u64, n: int) -> u64
    decreases n,
{
    if n <= 0 {
        0u64
    } else if 0 <= sym_inv_sq(k, n - 1) < 64 && bit64(w, sym_inv_sq(k, n - 1) as u64) {
        sym_word_rec(k, w, n - 1) | (1u64 << ((n - 1) as u64))
    } else {
        sym_word_rec(k, w, n - 1)
    }
}

/// An occupancy map pushed through symmetry `k`.
pub open spec fn sym_word(k: int, w: u64) -> u64 {
    sym_word_rec(k, w, 64)
}

/// A position pushed through symmetry `k`.
pub open spec fn sym_board(k: int, b: Board) -> Board {
    Board { my_board: sym_word(k, b.my_board), opponent_board: sym_word(k, b.opponent_board) }
}

proof fn lemma_sym_word_bit(k: int, w: u64, n: int, i: u64)
    requires
        0 <= n <= 64,
        i < 64,
    ensures
        bit64(sym_word_rec(k, w, n), i) == (i < n && 0 <= sym_inv_sq(k, i as int) < 64 && bit64(
            w,
            sym_inv_sq(k, i as int) as u64,
        )),
    decreases n,
{
    if n > 0 {
        lemma_sym_word_bit(k, w, n - 1, i);
        let b: u64 = (n - 1) as u64;
        assert(b as int == n - 1);
        if 0 <= sym_inv_sq(k, n - 1) < 64 && bit64(w, sym_inv_sq(k, n - 1) as u64) {
            crate::bits::lemma_bit_or(sym_word_rec(k, w, n - 1), 1u64 << b, i);
            crate::bits::lemma_bit_single(b, i);
        }
    } else {
        crate::bits::lemma_bit_zero(i);
    }
}

/// The pushed board is the symmetry image in the transform sense.
pub proof fn lemma_sym_board_is_transform(k: int, b: Board)
    requires
        0 <= k < 8,
    ensures
        is_transform(b, sym_board(k, b), k),
{
    assert forall|s: int|
        0 <= s < 64 implies (bit64(sym_board(k, b).my_board, #[trigger] sym_sq(k, s) as u64)
        == bit64(b.my_board, s as u64) && bit64(sym_board(k, b).opponent_board, sym_sq(k, s) as u64)
        == bit64(b.opponent_board, s as u64)) by {
        lemma_sym_inverse(k, s);
        let p = sym_sq(k, s);
        assert(sym_inv_sq(k, p) == s);
        lemma_sym_word_bit(k, b.my_board, 64, p as u64);
        lemma_sym_word_bit(k, b.opponent_board, 64, p as u64);
    }
}

/// The eight symmetry images of a position, as the lookup scans them.
pub open spec fn spec_images(b: Board) -> Seq<Board> {
    Seq::new(8, |k: int| sym_board(k, b))
}

/// What a book lookup answers for a query position: the scan of the
/// eight images of the side-swapped query, from the first.
pub open spec fn spec_lookup(bm: Map<Board, u8>, input: Board) -> Option<u8> {
    lookup_from(
        bm,
        spec_images(Board { my_board: input.opponent_board, opponent_board: input.my_board }),
        0,
    )
}

/// Opening book storage, behind hashbrown's hash map.
#[verifier::external_body]
pub struct BookMap {
    map: hashbrown::HashMap<Board, u8>,
}

/// What the book holds: its key-value pairs.
pub uninterp spec fn book_entries(b: BookMap) -> Map<Board, u8>;

impl BookMap {
    /// Relies on hashbrown::HashMap::new: the fresh map is empty.
    #[verifier::external_body]
    pub fn new() -> (r: BookMap)
        ensures
            forall|b: Board| !book_entries(r).contains_key(b),
    {
        BookMap { map: hashbrown::HashMap::new() }
    }

    /// Relies on hashbrown::HashMap::insert: the pair is added, replacing
    /// any older binding of the same key.
    #[verifier::external_body]
    pub fn insert(&mut self, key: Board, mv: u8)
        ensures
            book_entries(*final(self)) == book_entries(*old(self)).insert(key, mv),
    {
        self.map.insert(key, mv);
    }

    /// Relies on hashbrown::HashMap::get: the value bound to the key, if
    /// the key is present.
    #[verifier::external_body]
    pub fn get(&self, key: &Board) -> (r: Option<u8>)
        ensures
            r matches Some(v) ==> book_entries(*self).contains_key(*key) && book_entries(*self)[*key]
                == v,
            r is None ==> !book_entries(*self).contains_key(*key),
    {
        self.map.get(key).copied()
    }

    /// Number of positions in the book.
    /// Relies on hashbrown::HashMap::len.
    #[verifier::external_body]
    pub fn len(&self) -> (r: usize)
        ensures
            r == book_entries(*self).dom().len(),
    {
        self.map.len()
    }
}

/// One quarter turn of the board.
fn turn_board(board: &Board) -> (r: Board)
    ensures
        forall|s: int|
            0 <= s < 64 ==> (bit64(r.my_board, #[trigger] turn_sq(s) as u64) == bit64(
                board.my_board,
                s as u64,
            ) && bit64(r.opponent_board, turn_sq(s) as u64) == bit64(
                board.opponent_board,
                s as u64,
            )),
{
    let mut new_board = Board { my_board: 0, opponent_board: 0 };
    proof {
        assert forall|p: u64| p < 64 implies !bit64(0u64, p) by {
            crate::bits::lemma_bit_zero(p);
        }
    }
    let mut i: usize = 0;
    while i < 64
        invariant
            i <= 64,
            forall|s: int|
                0 <= s < i ==> (bit64(new_board.my_board, #[trigger] turn_sq(s) as u64) == bit64(
                    board.my_board,
                    s as u64,
                ) && bit64(new_board.opponent_board, turn_sq(s) as u64) == bit64(
                    board.opponent_board,
                    s as u64,
                )),
            forall|p: u64|
                p < 64 ==> ((exists|s: int| 0 <= s < i && #[trigger] turn_sq(s) == p as int) || (
                !bit64(new_board.my_board, p) && !bit64(new_board.opponent_board, p))),
        decreases 64 - i,
    {
        let x = i % 8;
        let y = i / 8;
        let target: u64 = ((7 - x) * 8 + y) as u64;
        proof {
            assert(turn_sq(i as int) == target as int);
            assert(target < 64);
        }
        let ghost old_b = new_board;
        if board.check_mine(x, y) {
            new_board.my_board = new_board.my_board | (1u64 << target);
        }
        if board.check_opponent(x, y) {
            new_board.opponent_board = new_board.opponent_board | (1u64 << target);
        }
        proof {
            assert forall|p: u64|
                p < 64 implies (bit64(new_board.my_board, p) == (bit64(old_b.my_board, p) || (p
                == target && bit64(board.my_board, i as u64)))) by {
                crate::bits::lemma_bit_or(old_b.my_board, 1u64 << target, p);
                crate::bits::lemma_bit_single(target, p);
            }
            assert forall|p: u64|
                p < 64 implies (bit64(new_board.opponent_board, p) == (bit64(
                old_b.opponent_board,
                p,
            ) || (p == target && bit64(board.opponent_board, i as u64)))) by {
                crate::bits::lemma_bit_or(old_b.opponent_board, 1u64 << target, p);
                crate::bits::lemma_bit_single(target, p);
            }
            assert forall|s: int|
                0 <= s < i + 1 implies (bit64(
                new_board.my_board,
                #[trigger] turn_sq(s) as u64,
            ) == bit64(board.my_board, s as u64) && bit64(
                new_board.opponent_board,
                turn_sq(s) as u64,
            ) == bit64(board.opponent_board, s as u64)) by {
                assert(0 <= turn_sq(s) < 64);
                if s < i {
                    if turn_sq(s) == target as int {
                        assert(s == i as int) by {
                            assert(turn_sq(s) == turn_sq(i as int));
                            assert(s % 8 == i as int % 8 && s / 8 == i as int / 8) by {
                                assert((7 - s % 8) * 8 + s / 8 == (7 - i as int % 8) * 8 + i as int
                                    / 8);
                            }
                        }
                    }
                }
            }
        }
        i = i + 1;
    }
    new_board
}

/// Mirror of the board along the vertical axis.
fn flip_board(board: &Board) -> (r: Board)
    ensures
        forall|s: int|
            0 <= s < 64 ==> (bit64(r.my_board, #[trigger] flip_sq(s) as u64) == bit64(
                board.my_board,
                s as u64,
            ) && bit64(r.opponent_board, flip_sq(s) as u64) == bit64(
                board.opponent_board,
                s as u64,
            )),
{
    let mut new_board = Board { my_board: 0, opponent_board: 0 };
    proof {
        assert forall|p: u64| p < 64 implies !bit64(0u64, p) by {
            crate::bits::lemma_bit_zero(p);
        }
    }
    let mut i: usize = 0;
    while i < 64
        invariant
            i <= 64,
            forall|s: int|
                0 <= s < i ==> (bit64(new_board.my_board, #[trigger] flip_sq(s) as u64) == bit64(
                    board.my_board,
                    s as u64,
                ) && bit64(new_board.opponent_board, flip_sq(s) as u64) == bit64(
                    board.opponent_board,
                    s as u64,
                )),
            forall|p: u64|
                p < 64 ==> ((exists|s: int| 0 <= s < i && #[trigger] flip_sq(s) == p as int) || (
                !bit64(new_board.my_board, p) && !bit64(new_board.opponent_board, p))),
        decreases 64 - i,
    {
        let x = i % 8;
        let y = i / 8;
        let target: u64 = (y * 8 + (7 - x)) as u64;
        proof {
            assert(flip_sq(i as int) == target as int);
            assert(target < 64);
        }
        let ghost old_b = new_board;
        if board.check_mine(x, y) {
            new_board.my_board = new_board.my_board | (1u64 << target);
        }
        if board.check_opponent(x, y) {
            new_board.opponent_board = new_board.opponent_board | (1u64 << target);
        }
        proof {
            assert forall|p: u64|
                p < 64 implies (bit64(new_board.my_board, p) == (bit64(old_b.my_board, p) || (p
                == target && bit64(board.my_board, i as u64)))) by {
                crate::bits::lemma_bit_or(old_b.my_board, 1u64 << target, p);
                crate::bits::lemma_bit_single(target, p);
            }
            assert forall|p: u64|
                p < 64 implies (bit64(new_board.opponent_board, p) == (bit64(
                old_b.opponent_board,
                p,
            ) || (p == target && bit64(board.opponent_board, i as u64)))) by {
                crate::bits::lemma_bit_or(old_b.opponent_board, 1u64 << target, p);
                crate::bits::lemma_bit_single(target, p);
            }
            assert forall|s: int|
                0 <= s < i + 1 implies (bit64(
                new_board.my_board,
                #[trigger] flip_sq(s) as u64,
            ) == bit64(board.my_board, s as u64) && bit64(
                new_board.opponent_board,
                flip_sq(s) as u64,
            ) == bit64(board.opponent_board, s as u64)) by {
                assert(0 <= flip_sq(s) < 64);
                if s < i {
                    if flip_sq(s) == target as int {
                        assert(s == i as int) by {
                            assert(flip_sq(s) == flip_sq(i as int));
                        }
                    }
                }
            }
        }
        i = i + 1;
    }
    new_board
}

/// The eight symmetric images of the board, image `k` carrying square `s`
/// of the original to square `sym_sq(k, s)`.
pub fn get_eq_board(board: &Board) -> (r: Vec<Board>)
    ensures
        r@.len() == 8,
        forall|k: int| 0 <= k < 8 ==> is_transform(*board, #[trigger] r@[k], k),
{
    let e0 = *board;
    let e1 = turn_board(&e0);
    let e2 = turn_board(&e1);
    let e3 = turn_board(&e2);
    let e4 = flip_board(&e0);
    let e5 = turn_board(&e4);
    let e6 = turn_board(&e5);
    let e7 = turn_board(&e6);
    proof {
        assert forall|s: int| 0 <= s < 64 implies 0 <= #[trigger] turn_sq(s) < 64 && 0
            <= flip_sq(s) < 64 by {}
        assert(is_transform(*board, e0, 0));
        assert(is_transform(*board, e1, 1));
        assert forall|s: int|
            0 <= s < 64 implies (bit64(e2.my_board, #[trigger] sym_sq(2, s) as u64) == bit64(
            board.my_board,
            s as u64,
        ) && bit64(e2.opponent_board, sym_sq(2, s) as u64) == bit64(
            board.opponent_board,
            s as u64,
        )) by {
            assert(0 <= turn_sq(s) < 64);
        }
        assert forall|s: int|
            0 <= s < 64 implies (bit64(e3.my_board, #[trigger] sym_sq(3, s) as u64) == bit64(
            board.my_board,
            s as u64,
        ) && bit64(e3.opponent_board, sym_sq(3, s) as u64) == bit64(
            board.opponent_board,
            s as u64,
        )) by {
            assert(0 <= turn_sq(s) < 64 && 0 <= turn_sq(turn_sq(s)) < 64);
        }
        assert(is_transform(*board, e4, 4));
        assert forall|s: int|
            0 <= s < 64 implies (bit64(e5.my_board, #[trigger] sym_sq(5, s) as u64) == bit64(
            board.my_board,
            s as u64,
        ) && bit64(e5.opponent_board, sym_sq(5, s) as u64) == bit64(
            board.opponent_board,
            s as u64,
        )) by {
            assert(0 <= flip_sq(s) < 64);
        }
        assert forall|s: int|
            0 <= s < 64 implies (bit64(e6.my_board, #[trigger] sym_sq(6, s) as u64) == bit64(
            board.my_board,
            s as u64,
        ) && bit64(e6.opponent_board, sym_sq(6, s) as u64) == bit64(
            board.opponent_board,
            s as u64,
        )) by {
            assert(0 <= flip_sq(s) < 64 && 0 <= turn_sq(flip_sq(s)) < 64);
        }
        assert forall|s: int|
            0 <= s < 64 implies (bit64(e7.my_board, #[trigger] sym_sq(7, s) as u64) == bit64(
            board.my_board,
            s as u64,
        ) && bit64(e7.opponent_board, sym_sq(7, s) as u64) == bit64(
            board.opponent_board,
            s as u64,
        )) by {
            assert(0 <= flip_sq(s) < 64 && 0 <= turn_sq(flip_sq(s)) < 64 && 0 <= turn_sq(
                turn_sq(flip_sq(s)),
            ) < 64);
        }
    }
    let mut v: Vec<Board> = Vec::new();
    v.push(e0);
    v.push(e1);
    v.push(e2);
    v.push(e3);
    v.push(e4);
    v.push(e5);
    v.push(e6);
    v.push(e7);
    v
}

/// What a book lookup returns: scanning the symmetry images of the
/// side-swapped position from index `k` on, the first image in the book
/// yields its stored move (clamped to a square) carried back by the
/// inverse symmetry.
pub open spec fn lookup_from(bm: Map<Board, u8>, images: Seq<Board>, k: int) -> Option<u8>
    decreases 8 - k,
{
    if k < 0 || k >= 8 || images.len() != 8 {
        None
    } else if bm.contains_key(images[k]) {
        Some(sym_inv_sq(k, bm[images[k]] as int % 64) as u8)
    } else {
        lookup_from(bm, images, k + 1)
    }
}

/// The inverse symmetry keeps squares on the board.
pub proof fn lemma_sym_inv_range(k: int, s: int)
    requires
        0 <= s < 64,
    ensures
        0 <= sym_inv_sq(k, s) < 64,
{
}

/// Looks the position up in the book: the book's key side is the
/// opponent's, so the sides are swapped first, and all eight symmetric
/// images are tried; a hit is carried back into the caller's frame by the
/// inverse symmetry.
pub fn lookup_book(book: &BookMap, input_board: &Board) -> (r: Option<u8>)
    ensures
        r == spec_lookup(book_entries(*book), *input_board),
        r matches Some(v) ==> v < 64,
{
    let mut board = *input_board;
    board.change_turn();
    let eq_boards = get_eq_board(&board);
    proof {
        assert forall|k: int| 0 <= k < 8 implies eq_boards@[k] == spec_images(board)[k] by {
            lemma_sym_board_is_transform(k, board);
            lemma_transform_unique(board, eq_boards@[k], sym_board(k, board), k);
        }
        assert(eq_boards@ =~= spec_images(board));
    }
    let mut i: usize = 0;
    while i < 8
        invariant
            i <= 8,
            eq_boards@.len() == 8,
            board.my_board == input_board.opponent_board,
            board.opponent_board == input_board.my_board,
            eq_boards@ == spec_images(board),
            forall|k: int| 0 <= k < 8 ==> is_transform(board, #[trigger] eq_boards@[k], k),
            lookup_from(book_entries(*book), eq_boards@, 0) == lookup_from(
                book_entries(*book),
                eq_boards@,
                i as int,
            ),
        decreases 8 - i,
    {
        match book.get(&eq_boards[i]) {
            Some(mv0) => {
                let mv = mv0 % 64;
                let x = mv % 8;
                let y = mv / 8;
                let conv: u8 = if i == 0 {
                    y * 8 + x
                } else if i == 1 {
                    x * 8 + (7 - y)
                } else if i == 2 {
                    (7 - y) * 8 + (7 - x)
                } else if i == 3 {
                    (7 - x) * 8 + y
                } else if i == 4 {
                    y * 8 + (7 - x)
                } else if i == 5 {
                    x * 8 + y
                } else if i == 6 {
                    (7 - y) * 8 + x
                } else {
                    (7 - x) * 8 + (7 - y)
                };
                proof {
                    assert(conv as int == sym_inv_sq(i as int, mv0 as int % 64));
                    lemma_sym_inv_range(i as int, mv0 as int % 64);
                    assert(lookup_from(book_entries(*book), eq_boards@, i as int) == Some(conv));
                }
                return Some(conv);
            },
            None => {},
        }
        i = i + 1;
    }
    None
}


/// The book file did not parse: it was truncated or held a token that
/// means nothing.
#[derive(Debug)]
pub struct BookParseError;

/// Bit `k` of a byte stream, reading each byte low bit first.
pub open spec fn sbit(bytes: Seq<u8>, k: int) -> bool {
    bit64(bytes[k / 8] as u64, (k % 8) as u64)
}

/// Little-endian value of the `n` bits starting at `k`.
pub open spec fn sread(bytes: Seq<u8>, k: int, n: int) -> int
    decreases n,
{
    if n <= 0 {
        0int
    } else {
        (if sbit(bytes, k) {
            1int
        } else {
            0int
        }) + 2 * sread(bytes, k + 1, n - 1)
    }
}

/// Parses square tokens from bit `k` with `seen` squares already placed,
/// accumulating the two occupancy maps; yields the next bit position and
/// the finished maps. A token pair 00 is an empty square, 10 the mover's
/// stone, 01 the opponent's; 11 is followed by a five-bit run of empty
/// squares, which must not be zero.
pub open spec fn parse_squares(bytes: Seq<u8>, k: int, seen: int, m: u64, o: u64) -> Option<
    (int, u64, u64),
>
    decreases 8 * bytes.len() - k,
{
    if k < 0 {
        None
    } else if seen >= 64 {
        Some((k, m, o))
    } else if k + 2 > 8 * bytes.len() {
        None
    } else {
        let b1 = sbit(bytes, k);
        let b2 = sbit(bytes, k + 1);
        if b1 && b2 {
            if k + 7 > 8 * bytes.len() {
                None
            } else {
                let t = sread(bytes, k + 2, 5);
                if t == 0 {
                    None
                } else {
                    parse_squares(bytes, k + 7, seen + t, m, o)
                }
            }
        } else if b1 {
            parse_squares(bytes, k + 2, seen + 1, m | (1u64 << (seen as u64)), o)
        } else if b2 {
            parse_squares(bytes, k + 2, seen + 1, m, o | (1u64 << (seen as u64)))
        } else {
            parse_squares(bytes, k + 2, seen + 1, m, o)
        }
    }
}

/// A finished square parse sits at or after its start, within the stream.
proof fn lemma_parse_squares_pos(bytes: Seq<u8>, k: int, seen: int, m: u64, o: u64)
    requires
        parse_squares(bytes, k, seen, m, o) is Some,
        0 <= k,
    ensures
        k <= parse_squares(bytes, k, seen, m, o)->Some_0.0,
        seen >= 64 ==> parse_squares(bytes, k, seen, m, o)->Some_0.0 == k,
        seen < 64 ==> k + 2 <= parse_squares(bytes, k, seen, m, o)->Some_0.0 <= 8 * bytes.len(),
    decreases 8 * bytes.len() - k,
{
    if seen >= 64 {
    } else {
        let b1 = sbit(bytes, k);
        let b2 = sbit(bytes, k + 1);
        if b1 && b2 {
            lemma_parse_squares_pos(bytes, k + 7, seen + sread(bytes, k + 2, 5), m, o);
        } else if b1 {
            lemma_parse_squares_pos(bytes, k + 2, seen + 1, m | (1u64 << (seen as u64)), o);
        } else if b2 {
            lemma_parse_squares_pos(bytes, k + 2, seen + 1, m, o | (1u64 << (seen as u64)));
        } else {
            lemma_parse_squares_pos(bytes, k + 2, seen + 1, m, o);
        }
    }
}

/// Parses records from bit `k` onward: the 64 squares of a position, then
/// six bits naming the recommended square. Parsing stops after the record
/// that reaches the last byte of the stream.
pub open spec fn parse_records(bytes: Seq<u8>, k: int, acc: Seq<(Board, u8)>) -> Option<
    Seq<(Board, u8)>,
>
    decreases 8 * bytes.len() + 8 - k,
    when 0 <= k
    via parse_records_decreases
{
    match parse_squares(bytes, k, 0, 0u64, 0u64) {
        None => None,
        Some((k2, m, o)) => {
            if k2 + 6 > 8 * bytes.len() {
                None
            } else {
                let mv = sread(bytes, k2, 6);
                let acc2 = acc.push((Board { my_board: m, opponent_board: o }, mv as u8));
                let k3 = k2 + 6;
                if k3 / 8 >= bytes.len() - 1 {
                    Some(acc2)
                } else {
                    parse_records(bytes, k3, acc2)
                }
            }
        },
    }
}

#[via_fn]
proof fn parse_records_decreases(bytes: Seq<u8>, k: int, acc: Seq<(Board, u8)>) {
    if 0 <= k && parse_squares(bytes, k, 0, 0u64, 0u64) is Some {
        lemma_parse_squares_pos(bytes, k, 0, 0u64, 0u64);
    }
}

/// What the decoder accepts: the records of the stream, parsed from the
/// first bit; an empty stream holds no record.
pub open spec fn spec_decode(bytes: Seq<u8>) -> Option<Seq<(Board, u8)>> {
    if bytes.len() == 0 {
        None
    } else {
        parse_records(bytes, 0, Seq::empty())
    }
}

/// Bit `pos` of the byte stream.
fn read_bit(bytes: &Vec<u8>, pos: u64) -> (r: bool)
    requires
        bytes@.len() < 0x10000000,
        pos < 8 * bytes@.len(),
    ensures
        r == sbit(bytes@, pos as int),
{
    proof {
        assert((pos as int) / 8 == ((pos / 8) as int));
        assert((pos as int) % 8 == ((pos % 8) as int));
        assert(((pos / 8) as int) < bytes@.len());
    }
    let i = (pos / 8) as usize;
    let j = pos % 8;
    ((bytes[i] as u64) >> j) & 1 == 1
}

/// Decodes a book file into its records. The result is exactly what the
/// stream parses to; a truncated stream, a zero-length run, or an empty
/// file is an error.
pub fn decode_book(bytes: &Vec<u8>) -> (r: Result<Vec<(Board, u8)>, BookParseError>)
    requires
        bytes@.len() < 0x10000000,
    ensures
        match r {
            Ok(v) => spec_decode(bytes@) == Some(v@),
            Err(e) => spec_decode(bytes@) is None,
        },
{
    let ghost bs = bytes@;
    let n: u64 = bytes.len() as u64;
    if n == 0 {
        return Err(BookParseError);
    }
    let total_bits: u64 = 8 * n;
    let mut pos: u64 = 0;
    let mut entries: Vec<(Board, u8)> = Vec::new();
    loop
        invariant
            bs == bytes@,
            n == bs.len(),
            n >= 1,
            bs.len() < 0x10000000,
            total_bits == 8 * n,
            pos <= total_bits,
            parse_records(bs, pos as int, entries@) == parse_records(
                bs,
                0,
                Seq::<(Board, u8)>::empty(),
            ),
        decreases 8 * bs.len() + 8 - pos,
    {
        let ghost pos0 = pos;
        let ghost entries0 = entries@;
        proof {
            assert(parse_records(bs, pos0 as int, entries0) == parse_records(
                bs,
                0,
                Seq::<(Board, u8)>::empty(),
            ));
        }
        let mut seen: u64 = 0;
        let mut m: u64 = 0;
        let mut o: u64 = 0;
        while seen < 64
            invariant
                bs == bytes@,
                n == bs.len(),
                n >= 1,
                bs.len() < 0x10000000,
                total_bits == 8 * n,
                pos0 <= pos <= total_bits,
                seen <= 95,
                entries@ == entries0,
                parse_records(bs, pos0 as int, entries0) == parse_records(
                    bs,
                    0,
                    Seq::<(Board, u8)>::empty(),
                ),
                parse_squares(bs, pos as int, seen as int, m, o) == parse_squares(
                    bs,
                    pos0 as int,
                    0,
                    0u64,
                    0u64,
                ),
            decreases 8 * bs.len() - pos,
        {
            if pos + 2 > total_bits {
                proof {
                    assert(parse_squares(bs, pos as int, seen as int, m, o) is None);
                    assert(parse_records(bs, pos0 as int, entries@) is None);
                }
                return Err(BookParseError);
            }
            let b1 = read_bit(bytes, pos);
            let b2 = read_bit(bytes, pos + 1);
            if b1 && b2 {
                if pos + 7 > total_bits {
                    proof {
                        assert(parse_squares(bs, pos as int, seen as int, m, o) is None);
                        assert(parse_records(bs, pos0 as int, entries@) is None);
                    }
                    return Err(BookParseError);
                }
                let t0 = read_bit(bytes, pos + 2);
                let t1 = read_bit(bytes, pos + 3);
                let t2 = read_bit(bytes, pos + 4);
                let t3 = read_bit(bytes, pos + 5);
                let t4 = read_bit(bytes, pos + 6);
                let t: u64 = (if t0 { 1u64 } else { 0u64 }) + 2 * ((if t1 { 1u64 } else { 0u64 })
                    + 2 * ((if t2 { 1u64 } else { 0u64 }) + 2 * ((if t3 { 1u64 } else { 0u64 }) + 2
                    * (if t4 { 1u64 } else { 0u64 }))));
                proof {
                    reveal_with_fuel(sread, 6);
                    assert(t as int == sread(bs, pos + 2, 5));
                    assert(t <= 31);
                }
                if t == 0 {
                    proof {
                        assert(parse_squares(bs, pos as int, seen as int, m, o) is None);
                        assert(parse_records(bs, pos0 as int, entries@) is None);
                    }
                    return Err(BookParseError);
                }
                pos = pos + 7;
                seen = seen + t;
            } else if b1 {
                m = m | (1u64 << seen);
                pos = pos + 2;
                seen = seen + 1;
            } else if b2 {
                o = o | (1u64 << seen);
                pos = pos + 2;
                seen = seen + 1;
            } else {
                pos = pos + 2;
                seen = seen + 1;
            }
        }
        proof {
            assert(parse_squares(bs, pos as int, seen as int, m, o) == Some(
                ((pos as int, m, o)),
            ));
        }
        if pos + 6 > total_bits {
            proof {
                assert(parse_records(bs, pos0 as int, entries@) is None);
            }
            return Err(BookParseError);
        }
        let v0 = read_bit(bytes, pos);
        let v1 = read_bit(bytes, pos + 1);
        let v2 = read_bit(bytes, pos + 2);
        let v3 = read_bit(bytes, pos + 3);
        let v4 = read_bit(bytes, pos + 4);
        let v5 = read_bit(bytes, pos + 5);
        let mv: u64 = (if v0 { 1u64 } else { 0u64 }) + 2 * ((if v1 { 1u64 } else { 0u64 }) + 2 * ((
        if v2 { 1u64 } else { 0u64 }) + 2 * ((if v3 { 1u64 } else { 0u64 }) + 2 * ((if v4 {
            1u64
        } else {
            0u64
        }) + 2 * (if v5 { 1u64 } else { 0u64 })))));
        proof {
            reveal_with_fuel(sread, 7);
            assert(mv as int == sread(bs, pos as int, 6));
            assert(mv < 64);
        }
        let board = Board { my_board: m, opponent_board: o };
        entries.push((board, mv as u8));
        pos = pos + 6;
        proof {
            assert(entries@ == entries0.push((board, mv as u8)));
        }
        if pos / 8 >= n - 1 {
            proof {
                assert((pos as int) / 8 >= bs.len() - 1);
                assert(parse_records(bs, pos0 as int, entries0) == Some(entries@));
            }
            return Ok(entries);
        }
        proof {
            assert((pos as int) / 8 < bs.len() - 1);
            assert(parse_records(bs, pos0 as int, entries0) == parse_records(
                bs,
                pos as int,
                entries@,
            ));
        }
    }
}

/// The book a record list loads to: each record binds its position to
/// its move, later records overriding earlier ones.
pub open spec fn entries_map(entries: Seq<(Board, u8)>) -> Map<Board, u8>
    decreases entries.len(),
{
    if entries.len() == 0 {
        Map::empty()
    } else {
        entries_map(entries.drop_last()).insert(entries.last().0, entries.last().1)
    }
}

/// Loads a decoded record list into a book: the book holds exactly the
/// records' bindings, later records overriding earlier ones.
pub fn build_book(entries: &Vec<(Board, u8)>) -> (r: BookMap)
    ensures
        book_entries(r) == entries_map(entries@),
{
    let mut book = BookMap::new();
    proof {
        assert(book_entries(book) =~= entries_map(entries@.subrange(0, 0)));
    }
    let mut i: usize = 0;
    while i < entries.len()
        invariant
            i <= entries@.len(),
            book_entries(book) == entries_map(entries@.subrange(0, i as int)),
        decreases entries@.len() - i,
    {
        let (b, mv) = entries[i];
        book.insert(b, mv);
        proof {
            assert(entries@.subrange(0, i + 1).drop_last() =~= entries@.subrange(0, i as int));
            assert(entries@.subrange(0, i + 1).last() == entries@[i as int]);
            assert(book_entries(book) == entries_map(entries@.subrange(0, i + 1)));
        }
        i = i + 1;
    }
    proof {
        assert(entries@.subrange(0, entries@.len() as int) =~= entries@);
    }
    book
}


/// First token bit of square `j` in the record at bit `off`.
pub open spec fn stok1(bytes: Seq<u8>, off: int, j: int) -> bool {
    sbit(bytes, off + 2 * j)
}

/// Second token bit of square `j` in the record at bit `off`.
pub open spec fn stok2(bytes: Seq<u8>, off: int, j: int) -> bool {
    sbit(bytes, off + 2 * j + 1)
}

/// Move bit `t` of the record at bit `off`.
pub open spec fn smv(bytes: Seq<u8>, off: int, t: int) -> bool {
    sbit(bytes, off + 128 + t)
}

/// A record encoded square by square sits in the stream at bit `off`:
/// the token of each square carries the two occupancy bits, and the six
/// trailing bits carry the move.
pub open spec fn record_at(bytes: Seq<u8>, off: int, e: (Board, u8)) -> bool {
    &&& (forall|j: int|
        0 <= j < 64 ==> (#[trigger] stok1(bytes, off, j) == bit64(e.0.my_board, j as u64) && stok2(
            bytes,
            off,
            j,
        ) == bit64(e.0.opponent_board, j as u64)))
    &&& (forall|t: int|
        0 <= t < 6 ==> #[trigger] smv(bytes, off, t) == bit64(e.1 as u64, t as u64))
}

/// Walking the square tokens of an encoded record rebuilds its maps.
proof fn lemma_decode_entry_squares(
    bytes: Seq<u8>,
    off: int,
    e: (Board, u8),
    seen: int,
    mp: u64,
    op: u64,
)
    requires
        e.0.my_board & e.0.opponent_board == 0,
        0 <= off,
        off + 134 <= 8 * bytes.len(),
        0 <= seen <= 64,
        record_at(bytes, off, e),
        forall|i: u64| i < 64 ==> (bit64(mp, i) == (i < seen && bit64(e.0.my_board, i))),
        forall|i: u64| i < 64 ==> (bit64(op, i) == (i < seen && bit64(e.0.opponent_board, i))),
    ensures
        parse_squares(bytes, off + 2 * seen, seen, mp, op) == Some(
            ((off + 128, e.0.my_board, e.0.opponent_board)),
        ),
    decreases 64 - seen,
{
    let m = e.0.my_board;
    let o = e.0.opponent_board;
    if seen >= 64 {
        assert forall|i: u64| i < 64 implies bit64(mp, i) == bit64(m, i) by {}
        assert forall|i: u64| i < 64 implies bit64(op, i) == bit64(o, i) by {}
        crate::bits::lemma_bit_ext(mp, m);
        crate::bits::lemma_bit_ext(op, o);
        assert(parse_squares(bytes, off + 128, seen, mp, op) == Some(((off + 128, m, o))));
    } else {
        let k = off + 2 * seen;
        let b1 = sbit(bytes, k);
        let b2 = sbit(bytes, k + 1);
        assert(b1 == stok1(bytes, off, seen) && b2 == stok2(bytes, off, seen));
        assert(b1 == bit64(m, seen as u64) && b2 == bit64(o, seen as u64));
        crate::bits::lemma_and_zero_disjoint(m, o, seen as u64);
        assert(!(b1 && b2));
        if b1 {
            let mp2 = mp | (1u64 << (seen as u64));
            assert forall|i: u64|
                i < 64 implies (bit64(mp2, i) == (i < seen + 1 && bit64(m, i))) by {
                crate::bits::lemma_bit_or(mp, 1u64 << (seen as u64), i);
                crate::bits::lemma_bit_single(seen as u64, i);
            }
            lemma_decode_entry_squares(bytes, off, e, seen + 1, mp2, op);
        } else if b2 {
            let op2 = op | (1u64 << (seen as u64));
            assert forall|i: u64|
                i < 64 implies (bit64(op2, i) == (i < seen + 1 && bit64(o, i))) by {
                crate::bits::lemma_bit_or(op, 1u64 << (seen as u64), i);
                crate::bits::lemma_bit_single(seen as u64, i);
            }
            lemma_decode_entry_squares(bytes, off, e, seen + 1, mp, op2);
        } else {
            assert forall|i: u64| i < 64 implies (bit64(mp, i) == (i < seen + 1 && bit64(m, i))) by {}
            assert forall|i: u64| i < 64 implies (bit64(op, i) == (i < seen + 1 && bit64(o, i))) by {}
            lemma_decode_entry_squares(bytes, off, e, seen + 1, mp, op);
        }
    }
}

/// An encoded record parses to its entry, leaving the read head just
/// past its 134 bits.
proof fn lemma_decode_entry(bytes: Seq<u8>, off: int, e: (Board, u8))
    requires
        e.0.my_board & e.0.opponent_board == 0,
        e.1 < 64,
        0 <= off,
        off + 134 <= 8 * bytes.len(),
        record_at(bytes, off, e),
    ensures
        parse_squares(bytes, off, 0, 0u64, 0u64) == Some(
            ((off + 128, e.0.my_board, e.0.opponent_board)),
        ),
        sread(bytes, off + 128, 6) == e.1 as int,
{
    assert forall|i: u64| i < 64 implies (bit64(0u64, i) == (i < 0 && bit64(e.0.my_board, i))) by {
        crate::bits::lemma_bit_zero(i);
    }
    assert forall|i: u64|
        i < 64 implies (bit64(0u64, i) == (i < 0 && bit64(e.0.opponent_board, i))) by {
        crate::bits::lemma_bit_zero(i);
    }
    lemma_decode_entry_squares(bytes, off, e, 0, 0u64, 0u64);
    // the six move bits read back as the move
    let mv = e.1 as u64;
    let k2 = off + 128;
    reveal_with_fuel(sread, 7);
    assert(smv(bytes, off, 0) == bit64(mv, 0) && smv(bytes, off, 1) == bit64(mv, 1) && smv(
        bytes,
        off,
        2,
    ) == bit64(mv, 2) && smv(bytes, off, 3) == bit64(mv, 3) && smv(bytes, off, 4) == bit64(mv, 4)
        && smv(bytes, off, 5) == bit64(mv, 5));
    let c0: int = if bit64(mv, 0) { 1 } else { 0 };
    let c1: int = if bit64(mv, 1) { 1 } else { 0 };
    let c2: int = if bit64(mv, 2) { 1 } else { 0 };
    let c3: int = if bit64(mv, 3) { 1 } else { 0 };
    let c4: int = if bit64(mv, 4) { 1 } else { 0 };
    let c5: int = if bit64(mv, 5) { 1 } else { 0 };
    assert(sread(bytes, k2, 6) == c0 + 2 * (c1 + 2 * (c2 + 2 * (c3 + 2 * (c4 + 2 * (c5))))));
    assert(mv < 64 ==> (if (mv >> 0u64) & 1 == 1 { 1int } else { 0int }) + 2 * ((if (mv >> 1u64) & 1
        == 1 { 1int } else { 0int }) + 2 * ((if (mv >> 2u64) & 1 == 1 { 1int } else { 0int }) + 2 * ((
    if (mv >> 3u64) & 1 == 1 { 1int } else { 0int }) + 2 * ((if (mv >> 4u64) & 1 == 1 { 1int } else { 0int })
        + 2 * (if (mv >> 5u64) & 1 == 1 { 1int } else { 0int }))))) == mv as int) by (bit_vector);
}

/// A stream of encoded records parses to the entries from `r` on, after
/// whatever was already collected.
proof fn lemma_decode_records(bytes: Seq<u8>, entries: Seq<(Board, u8)>, r: int, acc: Seq<
    (Board, u8),
>)
    requires
        0 <= r < entries.len(),
        8 * bytes.len() == 8 * ((134 * entries.len() + 7) / 8),
        134 * entries.len() <= 8 * bytes.len() < 134 * entries.len() + 8,
        forall|q: int|
            0 <= q < entries.len() ==> (#[trigger] entries[q]).0.my_board
                & entries[q].0.opponent_board == 0,
        forall|q: int| 0 <= q < entries.len() ==> (#[trigger] entries[q]).1 < 64,
        forall|q: int| 0 <= q < entries.len() ==> record_at(bytes, 134 * q, #[trigger] entries[q]),
    ensures
        parse_records(bytes, 134 * r, acc) == Some(acc + entries.skip(r)),
    decreases entries.len() - r,
{
    let off = 134 * r;
    assert(off + 134 <= 8 * bytes.len());
    lemma_decode_entry(bytes, off, entries[r]);
    let k2 = off + 128;
    let k3 = k2 + 6;
    let acc2 = acc.push(entries[r]);
    assert(parse_records(bytes, off, acc) == (if k3 / 8 >= bytes.len() - 1 {
        Some(acc2)
    } else {
        parse_records(bytes, k3, acc2)
    }));
    if r == entries.len() - 1 {
        // the last record ends in the final byte
        assert(k3 == 134 * entries.len());
        assert(8 * (k3 / 8) <= k3);
        assert(8 * bytes.len() < k3 + 8);
        assert(k3 / 8 >= bytes.len() - 1);
        assert(entries.skip(r) =~= seq![entries[r]]);
        assert(acc2 =~= acc + entries.skip(r));
    } else {
        // later records keep the head clear of the final byte
        assert(k3 + 134 <= 8 * bytes.len());
        assert(8 * (k3 / 8) <= k3);
        assert(k3 / 8 < bytes.len() - 1);
        lemma_decode_records(bytes, entries, r + 1, acc2);
        assert(acc2 + entries.skip(r + 1) =~= acc + entries.skip(r));
    }
}

/// Packs a bit list into bytes, low bit of each byte first; the unused
/// bits of the final byte stay clear.
fn pack_bits(bits: &Vec<bool>) -> (r: Vec<u8>)
    requires
        bits@.len() < 0x8000000,
    ensures
        r@.len() == (bits@.len() + 7) / 8,
        forall|k: int| 0 <= k < bits@.len() ==> #[trigger] sbit(r@, k) == bits@[k],
        forall|k: int| bits@.len() <= k < 8 * r@.len() ==> !(#[trigger] sbit(r@, k)),
{
    let n = bits.len();
    let nb = (n + 7) / 8;
    let mut out: Vec<u8> = Vec::new();
    let mut bi: usize = 0;
    while bi < nb
        invariant
            n == bits@.len(),
            n < 0x8000000,
            nb == (n + 7) / 8,
            bi <= nb,
            out@.len() == bi,
            forall|k: int| 0 <= k < 8 * bi && k < n ==> #[trigger] sbit(out@, k) == bits@[k],
            forall|k: int| 0 <= k < 8 * bi && n <= k ==> !(#[trigger] sbit(out@, k)),
        decreases nb - bi,
    {
        let mut cur: u64 = 0;
        proof {
            assert forall|u: u64| u < 64 implies !bit64(0u64, u) by {
                crate::bits::lemma_bit_zero(u);
            }
        }
        let mut t: usize = 0;
        while t < 8
            invariant
                n == bits@.len(),
                bi < nb,
                nb == (n + 7) / 8,
                n < 0x8000000,
                t <= 8,
                cur < 256,
                forall|u: u64|
                    u < 64 ==> (#[trigger] bit64(cur, u) == (u < t && 8 * bi + u < n && bits@[8 * bi
                        + u])),
            decreases 8 - t,
        {
            let ghost cur0 = cur;
            let ghost tt = t as u64;
            if 8 * bi + t < n {
                if bits[8 * bi + t] {
                    cur = cur | (1u64 << (t as u64));
                }
            }
            proof {
                assert forall|u: u64|
                    u < 64 implies (#[trigger] bit64(cur, u) == (u < t + 1 && 8 * bi + u < n
                    && bits@[8 * bi + u])) by {
                    crate::bits::lemma_bit_or(cur0, 1u64 << (t as u64), u);
                    crate::bits::lemma_bit_single(t as u64, u);
                }
                assert((cur0 < 256 && tt < 8) ==> (cur0 | (1u64 << tt)) < 256) by (bit_vector);
            }
            t = t + 1;
        }
        let ghost out0 = out@;
        out.push(cur as u8);
        proof {
            assert((cur as u8) as u64 == cur);
            assert forall|k: int|
                0 <= k < 8 * (bi + 1) && k < n implies #[trigger] sbit(out@, k) == bits@[k] by {
                if k < 8 * bi {
                    assert(sbit(out0, k) == bits@[k]);
                    assert(out@[k / 8] == out0[k / 8]);
                    assert(sbit(out@, k) == sbit(out0, k));
                } else {
                    assert(k / 8 == bi as int && 0 <= k % 8 < 8);
                    assert(out@[bi as int] == cur as u8);
                    assert(bit64((cur as u8) as u64, (k % 8) as u64) == bit64(
                        cur,
                        (k % 8) as u64,
                    ));
                    assert(8 * bi + (k % 8) == k);
                }
            }
            assert forall|k: int|
                0 <= k < 8 * (bi + 1) && n <= k implies !(#[trigger] sbit(out@, k)) by {
                if k < 8 * bi {
                    assert(!sbit(out0, k));
                    assert(out@[k / 8] == out0[k / 8]);
                    assert(sbit(out@, k) == sbit(out0, k));
                } else {
                    assert(k / 8 == bi as int && 0 <= k % 8 < 8);
                    assert(bit64((cur as u8) as u64, (k % 8) as u64) == bit64(
                        cur,
                        (k % 8) as u64,
                    ));
                    assert(8 * bi + (k % 8) == k);
                }
            }
        }
        bi = bi + 1;
    }
    out
}

/// Encodes the records in the book file format, square tokens first and
/// the move after, with the canonical single-square tokens throughout.
/// What it writes decodes back to exactly the given records: the round
/// trip through the codec is the identity, so re-encoding a decoded
/// canonical file reproduces the file.
#[verifier::rlimit(100)]
pub fn encode_book(entries: &Vec<(Board, u8)>) -> (r: Vec<u8>)
    requires
        1 <= entries@.len() < 0x10000,
        forall|q: int|
            0 <= q < entries@.len() ==> (#[trigger] entries@[q]).0.my_board
                & entries@[q].0.opponent_board == 0,
        forall|q: int| 0 <= q < entries@.len() ==> (#[trigger] entries@[q]).1 < 64,
    ensures
        spec_decode(r@) == Some(entries@),
{
    let ghost es = entries@;
    let mut bits: Vec<bool> = Vec::new();
    let mut i: usize = 0;
    while i < entries.len()
        invariant
            es == entries@,
            es.len() < 0x10000,
            i <= es.len(),
            bits@.len() == 134 * i,
            forall|q: int, j: int|
                0 <= q < i && 0 <= j < 64 ==> (#[trigger] bits@[134 * q + 2 * j] == bit64(
                    es[q].0.my_board,
                    j as u64,
                ) && bits@[134 * q + 2 * j + 1] == bit64(es[q].0.opponent_board, j as u64)),
            forall|q: int, t: int|
                0 <= q < i && 0 <= t < 6 ==> #[trigger] bits@[134 * q + 128 + t] == bit64(
                    es[q].1 as u64,
                    t as u64,
                ),
        decreases es.len() - i,
    {
        let (b, mv) = entries[i];
        let ghost base = 134 * i as int;
        let mut j: usize = 0;
        while j < 64
            invariant
                es == entries@,
                i < es.len(),
                base == 134 * i,
                (b, mv) == es[i as int],
                bits@.len() == base + 2 * j,
                j <= 64,
                forall|q: int, jj: int|
                    0 <= q < i && 0 <= jj < 64 ==> (#[trigger] bits@[134 * q + 2 * jj] == bit64(
                        es[q].0.my_board,
                        jj as u64,
                    ) && bits@[134 * q + 2 * jj + 1] == bit64(es[q].0.opponent_board, jj as u64)),
                forall|q: int, t: int|
                    0 <= q < i && 0 <= t < 6 ==> #[trigger] bits@[134 * q + 128 + t] == bit64(
                        es[q].1 as u64,
                        t as u64,
                    ),
                forall|jj: int|
                    0 <= jj < j ==> (#[trigger] bits@[base + 2 * jj] == bit64(
                        b.my_board,
                        jj as u64,
                    ) && bits@[base + 2 * jj + 1] == bit64(b.opponent_board, jj as u64)),
            decreases 64 - j,
        {
            let ghost bits0 = bits@;
            bits.push((b.my_board >> (j as u64)) & 1 == 1);
            bits.push((b.opponent_board >> (j as u64)) & 1 == 1);
            proof {
                assert(bits@.len() == bits0.len() + 2);
                assert forall|idx: int| 0 <= idx < bits0.len() implies bits@[idx] == bits0[idx] by {}
                assert(bits@[base + 2 * (j as int)] == bit64(b.my_board, j as u64));
                assert(bits@[base + 2 * (j as int) + 1] == bit64(b.opponent_board, j as u64));
                assert forall|q: int, jj: int|
                    0 <= q < i && 0 <= jj < 64 implies (#[trigger] bits@[134 * q + 2 * jj]
                    == bit64(es[q].0.my_board, jj as u64) && bits@[134 * q + 2 * jj + 1] == bit64(
                    es[q].0.opponent_board,
                    jj as u64,
                )) by {
                    assert(134 * q + 2 * jj + 1 < bits0.len());
                    assert(bits@[134 * q + 2 * jj] == bits0[134 * q + 2 * jj]);
                    assert(bits@[134 * q + 2 * jj + 1] == bits0[134 * q + 2 * jj + 1]);
                }
                assert forall|q: int, tt: int|
                    0 <= q < i && 0 <= tt < 6 implies #[trigger] bits@[134 * q + 128 + tt]
                    == bit64(es[q].1 as u64, tt as u64) by {
                    assert(134 * q + 128 + tt < bits0.len());
                    assert(bits@[134 * q + 128 + tt] == bits0[134 * q + 128 + tt]);
                }
                assert forall|jj: int|
                    0 <= jj < j + 1 implies (#[trigger] bits@[base + 2 * jj] == bit64(
                    b.my_board,
                    jj as u64,
                ) && bits@[base + 2 * jj + 1] == bit64(b.opponent_board, jj as u64)) by {
                    if jj < j {
                        assert(base + 2 * jj + 1 < bits0.len());
                        assert(bits@[base + 2 * jj] == bits0[base + 2 * jj]);
                        assert(bits@[base + 2 * jj + 1] == bits0[base + 2 * jj + 1]);
                    }
                }
            }
            j = j + 1;
        }
        let mut t: usize = 0;
        while t < 6
            invariant
                es == entries@,
                i < es.len(),
                base == 134 * i,
                (b, mv) == es[i as int],
                bits@.len() == base + 128 + t,
                t <= 6,
                forall|q: int, jj: int|
                    0 <= q < i && 0 <= jj < 64 ==> (#[trigger] bits@[134 * q + 2 * jj] == bit64(
                        es[q].0.my_board,
                        jj as u64,
                    ) && bits@[134 * q + 2 * jj + 1] == bit64(es[q].0.opponent_board, jj as u64)),
                forall|q: int, tt: int|
                    0 <= q < i && 0 <= tt < 6 ==> #[trigger] bits@[134 * q + 128 + tt] == bit64(
                        es[q].1 as u64,
                        tt as u64,
                    ),
                forall|jj: int|
                    0 <= jj < 64 ==> (#[trigger] bits@[base + 2 * jj] == bit64(
                        b.my_board,
                        jj as u64,
                    ) && bits@[base + 2 * jj + 1] == bit64(b.opponent_board, jj as u64)),
                forall|tt: int|
                    0 <= tt < t ==> #[trigger] bits@[base + 128 + tt] == bit64(
                        mv as u64,
                        tt as u64,
                    ),
            decreases 6 - t,
        {
            let ghost bits0 = bits@;
            bits.push((mv >> (t as u8)) & 1 == 1);
            proof {
                assert(bits@.len() == bits0.len() + 1);
                assert forall|idx: int| 0 <= idx < bits0.len() implies bits@[idx] == bits0[idx] by {}
                assert(((mv >> (t as u8)) & 1 == 1) == bit64(mv as u64, t as u64)) by (bit_vector)
                    requires
                        t < 8,
                ;
                assert(bits@[base + 128 + (t as int)] == bit64(mv as u64, t as u64));
                assert forall|q: int, jj: int|
                    0 <= q < i && 0 <= jj < 64 implies (#[trigger] bits@[134 * q + 2 * jj]
                    == bit64(es[q].0.my_board, jj as u64) && bits@[134 * q + 2 * jj + 1] == bit64(
                    es[q].0.opponent_board,
                    jj as u64,
                )) by {
                    assert(134 * q + 2 * jj + 1 < bits0.len());
                    assert(bits@[134 * q + 2 * jj] == bits0[134 * q + 2 * jj]);
                    assert(bits@[134 * q + 2 * jj + 1] == bits0[134 * q + 2 * jj + 1]);
                }
                assert forall|q: int, tt: int|
                    0 <= q < i && 0 <= tt < 6 implies #[trigger] bits@[134 * q + 128 + tt]
                    == bit64(es[q].1 as u64, tt as u64) by {
                    assert(134 * q + 128 + tt < bits0.len());
                    assert(bits@[134 * q + 128 + tt] == bits0[134 * q + 128 + tt]);
                }
                assert forall|jj: int|
                    0 <= jj < 64 implies (#[trigger] bits@[base + 2 * jj] == bit64(
                    b.my_board,
                    jj as u64,
                ) && bits@[base + 2 * jj + 1] == bit64(b.opponent_board, jj as u64)) by {
                    assert(base + 2 * jj + 1 < bits0.len());
                    assert(bits@[base + 2 * jj] == bits0[base + 2 * jj]);
                    assert(bits@[base + 2 * jj + 1] == bits0[base + 2 * jj + 1]);
                }
                assert forall|tt: int|
                    0 <= tt < t + 1 implies #[trigger] bits@[base + 128 + tt] == bit64(
                    mv as u64,
                    tt as u64,
                ) by {
                    if tt < t {
                        assert(base + 128 + tt < bits0.len());
                        assert(bits@[base + 128 + tt] == bits0[base + 128 + tt]);
                    }
                }
            }
            t = t + 1;
        }
        proof {
            assert forall|q: int, j2: int|
                0 <= q < i + 1 && 0 <= j2 < 64 implies (#[trigger] bits@[134 * q + 2 * j2]
                == bit64(es[q].0.my_board, j2 as u64) && bits@[134 * q + 2 * j2 + 1] == bit64(
                es[q].0.opponent_board,
                j2 as u64,
            )) by {
                if q == i as int {
                    assert(bits@[base + 2 * j2] == bit64(b.my_board, j2 as u64));
                    assert(bits@[base + 2 * j2 + 1] == bit64(b.opponent_board, j2 as u64));
                    assert(134 * q + 2 * j2 == base + 2 * j2);
                }
            }
            assert forall|q: int, t2: int|
                0 <= q < i + 1 && 0 <= t2 < 6 implies #[trigger] bits@[134 * q + 128 + t2]
                == bit64(es[q].1 as u64, t2 as u64) by {
                if q == i as int {
                    assert(bits@[base + 128 + t2] == bit64(mv as u64, t2 as u64));
                    assert(134 * q + 128 + t2 == base + 128 + t2);
                }
            }
        }
        i = i + 1;
    }
    let bytes = pack_bits(&bits);
    proof {
        let bs = bytes@;
        assert(bs.len() == (134 * es.len() + 7) / 8);
        assert(8 * (bs.len() as int) >= 134 * es.len());
        assert(8 * (bs.len() as int) < 134 * es.len() + 8);
        assert forall|q: int| 0 <= q < es.len() implies record_at(bs, 134 * q, #[trigger] es[q]) by {
            assert forall|j: int|
                0 <= j < 64 implies (#[trigger] stok1(bs, 134 * q, j) == bit64(
                es[q].0.my_board,
                j as u64,
            ) && stok2(bs, 134 * q, j) == bit64(es[q].0.opponent_board, j as u64)) by {
                assert(0 <= 134 * q + 2 * j < bits@.len());
                assert(sbit(bs, 134 * q + 2 * j) == bits@[134 * q + 2 * j]);
                assert(sbit(bs, 134 * q + 2 * j + 1) == bits@[134 * q + 2 * j + 1]);
            }
            assert forall|t: int|
                0 <= t < 6 implies #[trigger] smv(bs, 134 * q, t) == bit64(
                es[q].1 as u64,
                t as u64,
            ) by {
                assert(0 <= 134 * q + 128 + t < bits@.len());
                assert(sbit(bs, 134 * q + 128 + t) == bits@[134 * q + 128 + t]);
            }
        }
        lemma_decode_records(bs, es, 0, Seq::empty());
        assert(Seq::<(Board, u8)>::empty() + es.skip(0) =~= es);
        assert(bs.len() >= 1);
    }
    bytes
}

/// A symmetry image is pinned down: two boards transformed alike are the
/// same board.
proof fn lemma_transform_unique(b: Board, r1: Board, r2: Board, k: int)
    requires
        0 <= k < 8,
        is_transform(b, r1, k),
        is_transform(b, r2, k),
    ensures
        r1 == r2,
{
    assert forall|p: u64| p < 64 implies bit64(r1.my_board, p) == bit64(r2.my_board, p) by {
        lemma_sym_inverse(k, p as int);
        let q = sym_inv_sq(k, p as int);
        assert(sym_sq(k, q) == p as int);
        assert(bit64(r1.my_board, sym_sq(k, q) as u64) == bit64(b.my_board, q as u64));
        assert(bit64(r2.my_board, sym_sq(k, q) as u64) == bit64(b.my_board, q as u64));
    }
    assert forall|p: u64|
        p < 64 implies bit64(r1.opponent_board, p) == bit64(r2.opponent_board, p) by {
        lemma_sym_inverse(k, p as int);
        let q = sym_inv_sq(k, p as int);
        assert(sym_sq(k, q) == p as int);
        assert(bit64(r1.opponent_board, sym_sq(k, q) as u64) == bit64(b.opponent_board, q as u64));
        assert(bit64(r2.opponent_board, sym_sq(k, q) as u64) == bit64(b.opponent_board, q as u64));
    }
    crate::bits::lemma_bit_ext(r1.my_board, r2.my_board);
    crate::bits::lemma_bit_ext(r1.opponent_board, r2.opponent_board);
}

/// Transforming a transform composes the symmetries.
proof fn lemma_transform_comp(b: Board, bg: Board, c: Board, g: int, k: int)
    requires
        0 <= g < 8,
        0 <= k < 8,
        is_transform(b, bg, g),
        is_transform(bg, c, k),
    ensures
        is_transform(b, c, sym_comp(k, g)),
{
    assert forall|s: int|
        0 <= s < 64 implies (bit64(c.my_board, #[trigger] sym_sq(sym_comp(k, g), s) as u64)
        == bit64(b.my_board, s as u64) && bit64(c.opponent_board, sym_sq(sym_comp(k, g), s) as u64)
        == bit64(b.opponent_board, s as u64)) by {
        lemma_sym_comp(k, g, s);
        lemma_sym_coords(g, s);
        assert(bit64(bg.my_board, sym_sq(g, s) as u64) == bit64(b.my_board, s as u64));
        assert(bit64(bg.opponent_board, sym_sq(g, s) as u64) == bit64(b.opponent_board, s as u64));
        assert(bit64(c.my_board, sym_sq(k, sym_sq(g, s)) as u64) == bit64(
            bg.my_board,
            sym_sq(g, s) as u64,
        ));
        assert(bit64(c.opponent_board, sym_sq(k, sym_sq(g, s)) as u64) == bit64(
            bg.opponent_board,
            sym_sq(g, s) as u64,
        ));
    }
}

/// With exactly one image in the book, the scan returns that image's
/// move carried back by its symmetry.
proof fn lemma_lookup_from_hit(bm: Map<Board, u8>, images: Seq<Board>, j: int, i: int)
    requires
        images.len() == 8,
        0 <= i <= j < 8,
        bm.contains_key(images[j]),
        forall|k: int| i <= k < 8 && k != j ==> !bm.contains_key(#[trigger] images[k]),
    ensures
        lookup_from(bm, images, i) == Some(sym_inv_sq(j, bm[images[j]] as int % 64) as u8),
    decreases 8 - i,
{
    if i < j {
        lemma_lookup_from_hit(bm, images, j, i + 1);
    }
}

/// Book lookup is symmetry-covariant. `b` is the side-swapped query and
/// `imgs` its eight images; `imgs2` are the images of `b`'s own image
/// under symmetry `g`, so the two scans serve the queries `p` and its
/// `g`-image. When the book holds exactly one position of the orbit, and
/// the orbit has eight distinct members, both lookups hit and the second
/// answer is the first one pushed through `g`.
pub proof fn lemma_lookup_covariant(
    bm: Map<Board, u8>,
    b: Board,
    imgs: Seq<Board>,
    g: int,
    imgs2: Seq<Board>,
    j: int,
)
    requires
        0 <= g < 8,
        0 <= j < 8,
        imgs.len() == 8,
        imgs2.len() == 8,
        forall|k: int| 0 <= k < 8 ==> is_transform(b, #[trigger] imgs[k], k),
        forall|k: int| 0 <= k < 8 ==> is_transform(imgs[g], #[trigger] imgs2[k], k),
        bm.contains_key(imgs[j]),
        forall|k: int| 0 <= k < 8 && k != j ==> !bm.contains_key(#[trigger] imgs[k]),
        forall|k1: int, k2: int| 0 <= k1 < k2 < 8 ==> imgs[k1] != imgs[k2],
    ensures
        lookup_from(bm, imgs, 0) == Some(sym_inv_sq(j, bm[imgs[j]] as int % 64) as u8),
        lookup_from(bm, imgs2, 0) == Some(
            sym_sq(g, sym_inv_sq(j, bm[imgs[j]] as int % 64)) as u8,
        ),
{
    let m = bm[imgs[j]] as int % 64;
    assert(0 <= m < 64);
    lemma_lookup_from_hit(bm, imgs, j, 0);
    // each image of the transformed query is an image of the original
    assert forall|k: int| 0 <= k < 8 implies imgs2[k] == imgs[sym_comp(k, g)] by {
        lemma_transform_comp(b, imgs[g], imgs2[k], g, k);
        lemma_sym_comp(k, g, 0);
        lemma_transform_unique(b, imgs2[k], imgs[sym_comp(k, g)], sym_comp(k, g));
    }
    // the one index whose composite lands on the stored image
    lemma_comp_cancel(j, g);
    let k2 = sym_comp(j, sym_inv_idx(g));
    assert(sym_comp(k2, g) == j);
    assert(imgs2[k2] == imgs[j]);
    assert forall|k: int| 0 <= k < 8 && k != k2 implies !bm.contains_key(#[trigger] imgs2[k]) by {
        lemma_comp_cancel(k, g);
        assert(imgs2[k] == imgs[sym_comp(k, g)]);
        if sym_comp(k, g) == j {
            assert(sym_comp(sym_comp(k, g), sym_inv_idx(g)) == k);
            assert(k == k2);
        }
    }
    lemma_lookup_from_hit(bm, imgs2, k2, 0);
    assert(lookup_from(bm, imgs2, 0) == Some(sym_inv_sq(k2, m) as u8));
    // the two answers are one square seen through `g`
    lemma_sym_inverse(j, m);
    let x = sym_inv_sq(j, m);
    lemma_sym_coords(g, x);
    let y = sym_sq(g, x);
    lemma_sym_comp(k2, g, x);
    assert(sym_sq(k2, y) == sym_sq(sym_comp(k2, g), x));
    assert(sym_sq(k2, y) == m);
    lemma_sym_inverse(k2, y);
    assert(sym_inv_sq(k2, sym_sq(k2, y)) == y);
    assert(sym_inv_sq(k2, m) == y);
}

} // verus!
