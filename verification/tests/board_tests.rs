use othello_core::board::Board;
use othello_core::proto::Move;
use othello_core::movegen::{
    get_placeable, get_flipper, get_row_placeable, get_col_placeable, get_diag1_placeable,
    get_diag2_placeable,
};

fn print_board_u64(board: u64) {
    for i in 0..8 {
        println!("{:08b}", (board >> ((7 - i) * 8)) & 0xFF);
    }
    println!("\n");
}

fn print_board(board: &Board) {
    for i in 0..8 {
        let mut line = String::new();
        for j in 0..8 {
            if board.my_board & (1u64 << ((7 - i) * 8 + (7 - j))) != 0 {
                line.push('O');
            } else if board.opponent_board & (1u64 << ((7 - i) * 8 + (7 - j))) != 0 {
                line.push('X');
            } else {
                line.push('.');
            }
        }
        println!("{}", line);
    }
}

#[test]
fn test_board_operations() {
    println!("=== test board 1 ===");
    // mine : O, opponent : X, empty : .
    let test_board_1 = Board {
        my_board: 0b00000000_00000100_00001000_00110100_00000000_00000000_00000000_00000000,
        opponent_board: 0b00000000_00000000_00110000_00001000_00011100_00100000_00000000_00000000,
    };

    print_board(&test_board_1);

    println!("Row placeable:");
    let mut data_row = 0u64;
    for i in 0..8 {
        data_row |= get_row_placeable(&test_board_1, i);
    }
    print_board_u64(data_row);

    println!("Col placeable:");
    let mut data_col = 0u64;
    for i in 0..8 {
        data_col |= get_col_placeable(&test_board_1, i);
    }
    print_board_u64(data_col);

    println!("Diag1 placeable:");
    let mut data_diag1 = 0u64;
    for i in 0..15 {
        data_diag1 |= get_diag1_placeable(&test_board_1, i);
    }
    print_board_u64(data_diag1);

    println!("Diag2 placeable:");
    let mut data_diag2 = 0u64;
    for i in 0..15 {
        data_diag2 |= get_diag2_placeable(&test_board_1, i);
    }
    print_board_u64(data_diag2);

    println!("All placeable:");
    print_board_u64(get_placeable(&test_board_1));

    println!("\n=== test board 2 ===");
    let test_board_2 = Board {
        my_board: 0b00000000_00010000_10000000_01000000_00111000_00010100_00000000_00111000,
        opponent_board: 0b00000100_10000100_01111111_00111111_00000110_01101000_10111111_00000010,
    };

    print_board(&test_board_2);

    println!("Row placeable:");
    let mut data_row = 0u64;
    for i in 0..8 {
        data_row |= get_row_placeable(&test_board_2, i);
    }
    print_board_u64(data_row);

    println!("Col placeable:");
    let mut data_col = 0u64;
    for i in 0..8 {
        data_col |= get_col_placeable(&test_board_2, i);
    }
    print_board_u64(data_col);

    println!("Diag1 placeable:");
    let mut data_diag1 = 0u64;
    for i in 0..15 {
        data_diag1 |= get_diag1_placeable(&test_board_2, i);
    }
    print_board_u64(data_diag1);

    println!("Diag2 placeable:");
    let mut data_diag2 = 0u64;
    for i in 0..15 {
        data_diag2 |= get_diag2_placeable(&test_board_2, i);
    }
    print_board_u64(data_diag2);

    println!("All placeable:");
    print_board_u64(get_placeable(&test_board_2));

    println!("=== flip test ===");
    println!("Flips (0, 0):");
    print_board_u64(get_flipper(&test_board_2, 63));

    println!("Flips (1, 1):");
    print_board_u64(get_flipper(&test_board_2, 54));

    println!("Flips (4, 1):");
    print_board_u64(get_flipper(&test_board_2, 30));

    println!("Flips (0, 1) will fail:");
    print_board_u64(get_flipper(&test_board_2, 62));

    let test_board_3 = Board {
        my_board: 0x0000000810000000,
        opponent_board: 0x0000001008000000,
    };
    println!("Flips (2, 3):");
    print_board_u64(get_flipper(&test_board_3, 19));
}

#[test]
fn test_board_fmt() {
    let b = Board::new(false);
    println!("{}", b.board_string());
}

#[test]
fn test_opening_moves() {
    // from the standard opening with black to move, exactly D3, C4, F5, E6
    let b = Board::new(false);
    let moves = b.get_valid_moves();
    let expected = (1u64 << 19) | (1u64 << 26) | (1u64 << 37) | (1u64 << 44);
    assert_eq!(moves, expected);
    assert_eq!(moves.count_ones(), 4);
}

#[test]
fn test_legal_moves_on_empty_squares() {
    // the legal-move mask never overlaps the occupied squares
    let b = Board::new(false);
    let moves = b.get_valid_moves();
    assert_eq!(moves & (b.my_board | b.opponent_board), 0);
    let c = Board {
        my_board: 0b00000000_00010000_10000000_01000000_00111000_00010100_00000000_00111000,
        opponent_board: 0b00000100_10000100_01111111_00111111_00000110_01101000_10111111_00000010,
    };
    let moves_c = c.get_valid_moves();
    assert_eq!(moves_c & (c.my_board | c.opponent_board), 0);
}

#[test]
fn test_capture_chain() {
    // mover at d1, opponent e1..g1, empty h1: placing at h1 flips e1..g1
    let b = Board {
        my_board: 1u64 << 3,
        opponent_board: (1u64 << 4) | (1u64 << 5) | (1u64 << 6),
    };
    let flips = get_flipper(&b, 7);
    assert_eq!(flips, (1u64 << 4) | (1u64 << 5) | (1u64 << 6));
    let mut after = b;
    after.do_move(7);
    assert_eq!(after.my_board.count_ones(), b.my_board.count_ones() + 4);
    assert_eq!(after.opponent_board.count_ones(), 0);
}

#[test]
fn test_flip_mask_properties() {
    // for a legal square the flip mask is nonempty, takes nothing from
    // the mover, flips opponent stones only, and adds one stone in play
    let b = Board::new(false);
    let moves = b.get_valid_moves();
    for s in 0..64u64 {
        if moves & (1u64 << s) != 0 {
            let f = get_flipper(&b, s as usize);
            assert!(f != 0);
            assert_eq!(f & b.my_board, 0);
            assert_eq!(f & b.opponent_board, f);
            let mut after = b;
            after.do_move(s as u8);
            assert_eq!(after.my_board & after.opponent_board, 0);
            assert_eq!(
                after.my_board.count_ones() + after.opponent_board.count_ones(),
                b.my_board.count_ones() + b.opponent_board.count_ones() + 1
            );
        } else {
            assert_eq!(get_flipper(&b, s as usize), 0);
        }
    }
}

#[test]
fn test_apply_move_roundtrip() {
    // applying a move, unflipping the mask, and clearing the placed bit
    // restores the position
    let b = Board::new(false);
    let f = get_flipper(&b, 19);
    assert!(f != 0);
    let mut after = b;
    after.do_move(19);
    assert_eq!((after.my_board ^ f) & !(1u64 << 19), b.my_board);
    assert_eq!(after.opponent_board ^ f, b.opponent_board);
}

#[test]
fn test_child_counts_after_swap() {
    // the child that search expands is apply-then-swap; its counts are
    // the old ones exchanged, less and plus the flipped stones
    let b = Board::new(false);
    let f = get_flipper(&b, 19);
    let mut child = b;
    child.do_move(19);
    child.change_turn();
    assert_eq!(
        child.my_board.count_ones(),
        b.opponent_board.count_ones() - f.count_ones()
    );
    assert_eq!(
        child.opponent_board.count_ones(),
        b.my_board.count_ones() + f.count_ones() + 1
    );
    assert_eq!(
        child.my_board.count_ones() + child.opponent_board.count_ones(),
        b.my_board.count_ones() + b.opponent_board.count_ones() + 1
    );
}

#[test]
fn test_do_move_interface_both_sides() {
    let mut b = Board::new(false);
    // black (the mover) plays D3 = square 19 -> file 4, rank 3 in protocol terms
    b.do_move_interface(Move::Mv { x_ah: 4, y_18: 3 }, true);
    assert_eq!(b.my_board & (1u64 << 19), 1u64 << 19);
    // now the opponent answers C3 = square 18 (legal for white after D3)
    let mut swapped = b;
    swapped.change_turn();
    let white_moves = swapped.get_valid_moves();
    assert!(white_moves & (1u64 << 18) != 0);
    b.do_move_interface(Move::Mv { x_ah: 3, y_18: 3 }, false);
    assert_eq!(b.opponent_board & (1u64 << 18), 1u64 << 18);
    // a pass changes nothing
    let before = b;
    b.do_move_interface(Move::Pass, true);
    assert_eq!(b.my_board, before.my_board);
    assert_eq!(b.opponent_board, before.opponent_board);
}

#[test]
fn test_piece_counts_and_turn() {
    let b = Board::new(false);
    assert_eq!(b.piece_counts(), (2, 2));
    assert_eq!(b.get_turn(), 4);
    assert!(b.check_mine(4, 3));
    assert!(b.check_mine(3, 4));
    assert!(b.check_opponent(3, 3));
    assert!(b.check_opponent(4, 4));
    let mut w = Board::new(true);
    assert!(w.check_mine(3, 3));
    w.change_turn();
    assert!(w.check_opponent(3, 3));
}
