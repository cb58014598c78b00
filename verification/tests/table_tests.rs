use peg_solitaire::board::{check_move, hole_mask};
use peg_solitaire::search::check_table;
use peg_solitaire::table::{generate_possible_moves, DIRECTIONS, JUMPS};

fn position(hole: u32) -> (i32, i32) {
    let mut row: i32 = 0;
    let mut first: i32 = 0;
    while first + row + 1 <= hole as i32 {
        first += row + 1;
        row += 1;
    }
    (row, hole as i32 - first)
}

fn hole_at(row: i32, col: i32) -> u32 {
    (row * (row + 1) / 2 + col) as u32
}

fn hole_of(mask: u16) -> u32 {
    assert_eq!(mask.count_ones(), 1);
    mask.trailing_zeros()
}

fn holes(m: (u16, u16, u16)) -> (u32, u32, u32) {
    (hole_of(m.0), hole_of(m.1), hole_of(m.2))
}

fn masks(a: u32, b: u32, c: u32) -> (u16, u16, u16) {
    (hole_mask(a), hole_mask(b), hole_mask(c))
}

fn reflect(hole: u32) -> u32 {
    let (row, col) = position(hole);
    hole_at(row, row - col)
}

fn rotate(hole: u32) -> u32 {
    let (row, col) = position(hole);
    hole_at(4 - row + col, 4 - row)
}

#[test]
fn table_has_thirty_six_moves() {
    let table = generate_possible_moves();
    assert_eq!(table.len(), 36);
    assert_eq!(table.len(), JUMPS);
    assert_eq!(DIRECTIONS, 6);
}

#[test]
fn table_has_no_move_twice() {
    let table = generate_possible_moves();
    for i in 0..table.len() {
        for j in 0..i {
            assert_ne!(table[i], table[j]);
        }
    }
}

#[test]
fn table_entries_are_moves() {
    let table = generate_possible_moves();
    assert!(check_table(&table));
    for m in &table {
        assert!(check_move(*m));
    }
}

#[test]
fn table_entries_lie_on_lines() {
    let table = generate_possible_moves();
    for m in &table {
        let (a, b, c) = holes(*m);
        let (ra, ca) = position(a);
        let (rb, cb) = position(b);
        let (rc, cc) = position(c);
        let step = (rb - ra, cb - ca);
        assert_eq!((rc - rb, cc - cb), step);
        assert!(
            step == (0, 1)
                || step == (0, -1)
                || step == (1, 0)
                || step == (-1, 0)
                || step == (1, 1)
                || step == (-1, -1)
        );
    }
}

#[test]
fn table_holds_every_jump_of_the_board() {
    let table = generate_possible_moves();
    let mut found = 0;
    for a in 0..15u32 {
        let (row, col) = position(a);
        for step in [(0, 1), (0, -1), (1, 0), (-1, 0), (1, 1), (-1, -1)] {
            let (er, ec) = (row + 2 * step.0, col + 2 * step.1);
            if 0 <= ec && ec <= er && er <= 4 {
                let m = masks(a, hole_at(row + step.0, col + step.1), hole_at(er, ec));
                assert!(table.contains(&m));
                found += 1;
            }
        }
    }
    assert_eq!(found, 36);
}

#[test]
fn table_holds_the_known_jumps() {
    let table = generate_possible_moves();
    let known: [(u32, u32, u32); 36] = [
        (0, 1, 3),
        (0, 2, 5),
        (1, 3, 6),
        (1, 4, 8),
        (2, 4, 7),
        (2, 5, 9),
        (3, 1, 0),
        (3, 4, 5),
        (3, 7, 12),
        (3, 6, 10),
        (4, 7, 11),
        (4, 8, 13),
        (5, 2, 0),
        (5, 4, 3),
        (5, 9, 14),
        (5, 8, 12),
        (6, 3, 1),
        (6, 7, 8),
        (7, 4, 2),
        (7, 8, 9),
        (8, 7, 6),
        (8, 4, 1),
        (9, 5, 2),
        (9, 8, 7),
        (10, 6, 3),
        (10, 11, 12),
        (11, 7, 4),
        (11, 12, 13),
        (12, 7, 3),
        (12, 11, 10),
        (12, 13, 14),
        (12, 8, 5),
        (13, 12, 11),
        (13, 8, 4),
        (14, 9, 5),
        (14, 13, 12),
    ];
    for (a, b, c) in known {
        assert!(table.contains(&masks(a, b, c)));
    }
    assert!(!table.contains(&masks(9, 7, 8)));
    assert!(!table.contains(&masks(0, 1, 2)));
    assert!(!table.contains(&masks(4, 1, 0)));
}

#[test]
fn table_is_ordered_by_hole_and_direction() {
    let table = generate_possible_moves();
    assert_eq!(table[0], masks(0, 1, 3));
    assert_eq!(table[1], masks(0, 2, 5));
    assert_eq!(table[2], masks(1, 3, 6));
    assert_eq!(table[6], masks(3, 1, 0));
    assert_eq!(table[7], masks(3, 4, 5));
    assert_eq!(table[8], masks(3, 6, 10));
    assert_eq!(table[9], masks(3, 7, 12));
    assert_eq!(table[35], masks(14, 13, 12));
    assert_eq!(table[0], (1, 2, 8));
    for i in 1..table.len() {
        assert!(holes(table[i - 1]).0 <= holes(table[i]).0);
    }
}

#[test]
fn table_holds_each_jump_with_its_reverse() {
    let table = generate_possible_moves();
    for m in &table {
        assert!(table.contains(&(m.2, m.1, m.0)));
    }
}

#[test]
fn table_is_the_same_under_the_symmetries_of_the_board() {
    let table = generate_possible_moves();
    for m in &table {
        let (a, b, c) = holes(*m);
        assert!(table.contains(&masks(reflect(a), reflect(b), reflect(c))));
        assert!(table.contains(&masks(rotate(a), rotate(b), rotate(c))));
    }
    for hole in 0..15 {
        assert_eq!(reflect(reflect(hole)), hole);
        assert_eq!(rotate(rotate(rotate(hole))), hole);
    }
    assert_eq!(rotate(0), 14);
    assert_eq!(rotate(14), 10);
    assert_eq!(rotate(10), 0);
    assert_eq!(reflect(1), 2);
    assert_eq!(reflect(4), 4);
}

#[test]
fn four_starting_holes_stand_for_all() {
    let mut reached = [false; 15];
    for start in [0u32, 1, 3, 4] {
        for mirrored in [false, true] {
            let mut hole = if mirrored { reflect(start) } else { start };
            for _ in 0..3 {
                reached[hole as usize] = true;
                hole = rotate(hole);
            }
        }
    }
    assert!(reached.iter().all(|r| *r));
}
