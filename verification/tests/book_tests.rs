use othello_core::board::Board;
use othello_core::book::{decode_book, encode_book, get_eq_board, lookup_book, BookMap};
use othello_core::interface::{
    boards_to_string, get_result, get_stone_counts, get_valid_moves, is_pass, str_to_board,
    string_to_boards, update_board,
};

/// Packs bits, low bit of each byte first, as the book file stores them.
struct BitWriter {
    bytes: Vec<u8>,
    cur: u8,
    nbits: u8,
}

impl BitWriter {
    fn new() -> BitWriter {
        BitWriter { bytes: Vec::new(), cur: 0, nbits: 0 }
    }
    fn push_bit(&mut self, b: bool) {
        if b {
            self.cur |= 1 << self.nbits;
        }
        self.nbits += 1;
        if self.nbits == 8 {
            self.bytes.push(self.cur);
            self.cur = 0;
            self.nbits = 0;
        }
    }
    fn push_bits(&mut self, v: u64, n: u8) {
        for k in 0..n {
            self.push_bit((v >> k) & 1 == 1);
        }
    }
    fn finish(mut self) -> Vec<u8> {
        if self.nbits > 0 {
            self.bytes.push(self.cur);
        }
        self.bytes
    }
}

fn encode_record(w: &mut BitWriter, my: u64, opp: u64, mv: u8) {
    for s in 0..64 {
        if (my >> s) & 1 == 1 {
            w.push_bits(0b01, 2); // low bit first: token "10"
        } else if (opp >> s) & 1 == 1 {
            w.push_bits(0b10, 2); // token "01"
        } else {
            w.push_bits(0b00, 2);
        }
    }
    w.push_bits(mv as u64, 6);
}

#[test]
fn test_decode_single_record() {
    let mut w = BitWriter::new();
    encode_record(&mut w, 0x1, 0x2, 19);
    let bytes = w.finish();
    let entries = decode_book(&bytes).expect("well-formed stream");
    assert_eq!(entries.len(), 1);
    assert_eq!(entries[0].0.my_board, 0x1);
    assert_eq!(entries[0].0.opponent_board, 0x2);
    assert_eq!(entries[0].1, 19);
}

#[test]
fn test_decode_two_records_and_run_token() {
    let mut w = BitWriter::new();
    encode_record(&mut w, 0x10, 0x20, 7);
    // a second record written with a run token: skip two empties, the
    // mover's stone, then 61 empties one at a time
    w.push_bits(0b11, 2);
    w.push_bits(2, 5);
    w.push_bits(0b01, 2); // mover's stone on square 2
    for _ in 0..61 {
        w.push_bits(0b00, 2);
    }
    w.push_bits(33, 6);
    let bytes = w.finish();
    let entries = decode_book(&bytes).expect("well-formed stream");
    assert_eq!(entries.len(), 2);
    assert_eq!(entries[0].0.my_board, 0x10);
    assert_eq!(entries[0].0.opponent_board, 0x20);
    assert_eq!(entries[0].1, 7);
    assert_eq!(entries[1].0.my_board, 0x4);
    assert_eq!(entries[1].0.opponent_board, 0);
    assert_eq!(entries[1].1, 33);
}

#[test]
fn test_decode_rejects_bad_streams() {
    // an empty file
    assert!(decode_book(&Vec::new()).is_err());
    // a truncated record
    let mut w = BitWriter::new();
    w.push_bits(0b00, 2);
    assert!(decode_book(&w.finish()).is_err());
    // a zero-length run token
    let mut w2 = BitWriter::new();
    w2.push_bits(0b11, 2);
    w2.push_bits(0, 5);
    for _ in 0..40 {
        w2.push_bits(0, 8);
    }
    assert!(decode_book(&w2.finish()).is_err());
}

#[test]
fn test_book_insert_and_get() {
    let mut book = BookMap::new();
    let b = Board::new(false);
    assert!(book.get(&b).is_none());
    book.insert(b, 19);
    assert_eq!(book.get(&b), Some(19));
    assert_eq!(book.len(), 1);
    book.insert(b, 26);
    assert_eq!(book.get(&b), Some(26));
    assert_eq!(book.len(), 1);
}

#[test]
fn test_book_lookup_symmetry() {
    // store the position under each of its eight symmetric images in
    // turn; looking the swapped position up returns the image of the move
    let base = Board {
        my_board: (1u64 << 0) | (1u64 << 1) | (1u64 << 2) | (1u64 << 10),
        opponent_board: 1u64 << 20,
    };
    let images = get_eq_board(&base);
    // the stored move is square 19 (file 3, rank 2); its image under the
    // inverse of each symmetry:
    let expected = [19u8, 29, 44, 34, 20, 26, 43, 37];
    let query = Board {
        my_board: base.opponent_board,
        opponent_board: base.my_board,
    };
    for k in 0..8 {
        let mut book = BookMap::new();
        book.insert(images[k], 19);
        let got = lookup_book(&book, &query);
        assert_eq!(got, Some(expected[k]), "symmetry {}", k);
    }
    // a board in no relation to the book misses
    let empty_book = BookMap::new();
    assert_eq!(lookup_book(&empty_book, &query), None);
}

#[test]
fn test_string_round_trip() {
    let s = "BW..............................................................";
    let (black, white) = string_to_boards(s);
    assert_eq!(black, 0x1);
    assert_eq!(white, 0x2);
    let back = boards_to_string(black, white);
    assert_eq!(back.as_str(), "BW.............................................................."
    );
}

#[test]
fn test_str_to_board() {
    let s = String::from(
        "XO..............................................................",
    );
    let b = str_to_board(&s).expect("64 characters");
    assert_eq!(b.my_board, 0x1);
    assert_eq!(b.opponent_board, 0x2);
    assert!(str_to_board(&String::from("XO")).is_none());
}

#[test]
fn test_valid_move_strings() {
    let opening = "...........................WB......BW...........................";
    let moves = get_valid_moves(opening, false);
    let mut expected = String::new();
    for i in 0..64 {
        if i == 19 || i == 26 || i == 37 || i == 44 {
            expected.push('1');
        } else {
            expected.push('0');
        }
    }
    assert_eq!(moves.as_str(), expected.as_str());
    assert!(!is_pass(opening, false));
    assert!(!is_pass(opening, true));
}

#[test]
fn test_get_result_and_counts() {
    let opening = "...........................WB......BW...........................";
    assert_eq!(get_result(opening).as_str(), "Ongoing");
    let counts = get_stone_counts(opening);
    assert_eq!(counts.black, 2);
    assert_eq!(counts.white, 2);

    let mut all_black = String::new();
    for _ in 0..64 {
        all_black.push('B');
    }
    assert_eq!(get_result(all_black.as_str()).as_str(), "BlackWin");

    let mut half = String::new();
    for i in 0..64 {
        half.push(if i < 32 { 'B' } else { 'W' });
    }
    assert_eq!(get_result(half.as_str()).as_str(), "Draw");
}

#[test]
fn test_update_board() {
    let opening = "...........................WB......BW...........................";
    // black plays D3 = square 19, flipping D4 = square 27
    let after = update_board(opening, 19, false);
    let chars: Vec<char> = after.chars().collect();
    assert_eq!(chars[19], 'B');
    assert_eq!(chars[27], 'B');
    assert_eq!(chars[28], 'B');
    assert_eq!(chars[35], 'B');
    assert_eq!(chars[36], 'W');
    // an illegal square leaves the position unchanged
    let same = update_board(opening, 0, false);
    assert_eq!(same.as_str(), opening);
    // a pass leaves the position unchanged
    let same2 = update_board(opening, 64, false);
    assert_eq!(same2.as_str(), opening);
}

#[test]
fn test_encode_decode_round_trip() {
    // the canonical encoder's output decodes back to the same records
    let entries = vec![
        (Board { my_board: 0x0000000810000000, opponent_board: 0x0000001008000000 }, 19u8),
        (Board { my_board: 0x1, opponent_board: 0x2 }, 63u8),
        (Board { my_board: 0xff00, opponent_board: 0xff0000 }, 0u8),
    ];
    let bytes = encode_book(&entries);
    let decoded = decode_book(&bytes).expect("canonical stream");
    assert_eq!(decoded.len(), entries.len());
    for k in 0..entries.len() {
        assert_eq!(decoded[k].0.my_board, entries[k].0.my_board);
        assert_eq!(decoded[k].0.opponent_board, entries[k].0.opponent_board);
        assert_eq!(decoded[k].1, entries[k].1);
    }
    // and re-encoding the decoded records reproduces the file
    let again = encode_book(&decoded);
    assert_eq!(again, bytes);
}
