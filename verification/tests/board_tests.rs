use peg_solitaire::board::{
    check_hole_mask, check_legal, check_move, count_pegs, hole_mask, make_move, FULL_BOARD, HOLES,
};

#[test]
fn hole_masks_are_the_powers_of_two() {
    let mut expected: u16 = 1;
    for hole in 0..HOLES {
        assert_eq!(hole_mask(hole), expected);
        expected = expected.wrapping_mul(2);
    }
    assert_eq!(hole_mask(0), 1);
    assert_eq!(hole_mask(4), 16);
    assert_eq!(hole_mask(14), 16384);
}

#[test]
fn full_board_has_fifteen_pegs() {
    assert_eq!(FULL_BOARD, 0x7fff);
    assert_eq!(count_pegs(FULL_BOARD), 15);
    assert_eq!(FULL_BOARD & 0x8000, 0);
}

#[test]
fn count_pegs_counts_set_bits() {
    assert_eq!(count_pegs(0), 0);
    assert_eq!(count_pegs(1), 1);
    assert_eq!(count_pegs(0x8000), 1);
    assert_eq!(count_pegs(0xffff), 16);
    assert_eq!(count_pegs(0b1010_0110), 4);
    for board in 0..=u16::MAX {
        assert_eq!(count_pegs(board), board.count_ones());
    }
}

#[test]
fn hole_masks_are_recognised() {
    for hole in 0..HOLES {
        assert!(check_hole_mask(hole_mask(hole)));
    }
    assert!(!check_hole_mask(0));
    assert!(!check_hole_mask(3));
    assert!(!check_hole_mask(0x8000));
    assert!(!check_hole_mask(0x7fff));
    let recognised = (0..=u16::MAX).filter(|mask| check_hole_mask(*mask)).count();
    assert_eq!(recognised, 15);
}

#[test]
fn moves_need_three_different_holes() {
    assert!(check_move((1, 2, 8)));
    assert!(check_move((16384, 8192, 4096)));
    assert!(!check_move((1, 1, 8)));
    assert!(!check_move((1, 2, 1)));
    assert!(!check_move((1, 2, 2)));
    assert!(!check_move((0, 2, 8)));
    assert!(!check_move((1, 6, 8)));
    assert!(!check_move((1, 2, 0x8000)));
}

#[test]
fn legal_needs_two_pegs_and_an_empty_hole() {
    let board: u16 = 0x7ffe;
    assert!(check_legal(board, (8, 2, 1)));
    assert!(check_legal(board, (32, 4, 1)));
    assert!(!check_legal(board, (1, 2, 8)));
    assert!(!check_legal(board, (8, 16, 32)));
    assert!(!check_legal(0, (8, 2, 1)));
    assert!(!check_legal(8, (8, 2, 1)));
    assert!(!check_legal(2, (8, 2, 1)));
    assert!(check_legal(10, (8, 2, 1)));
}

#[test]
fn make_move_clears_two_holes_and_fills_one() {
    assert_eq!(make_move(0x7ffe, 8, 2, 1), 0x7ff5);
    assert_eq!(make_move(0b1010, 8, 2, 1), 0b0001);
    assert_eq!(make_move(0x7ffe, 32, 4, 1), 0x7fdb);
}

#[test]
fn make_move_takes_one_peg_away() {
    let board: u16 = 0x7ffe;
    let next = make_move(board, 8, 2, 1);
    assert_eq!(count_pegs(next) + 1, count_pegs(board));
    let last = make_move(0b110, 4, 2, 1);
    assert_eq!(last, 1);
    assert_eq!(count_pegs(last), 1);
}

#[test]
fn make_move_leaves_other_holes_alone() {
    for board in 0..0x8000u16 {
        if check_legal(board, (64, 128, 256)) {
            let next = make_move(board, 64, 128, 256);
            let touched: u16 = 64 | 128 | 256;
            assert_eq!(next & !touched, board & !touched);
            assert_eq!(next & touched, 256);
            assert_eq!(count_pegs(next) + 1, count_pegs(board));
        }
    }
}
