use peg_solitaire::board::{count_pegs, hole_mask, make_move};
use peg_solitaire::run::{hole_of_run, launch_all_games, launch_game, starting_board, RUNS};
use peg_solitaire::search::{check_table, find_moves, play_game};
use peg_solitaire::table::generate_possible_moves;
use std::collections::HashMap;

fn masks(a: u32, b: u32, c: u32) -> (u16, u16, u16) {
    (hole_mask(a), hole_mask(b), hole_mask(c))
}

fn board_of(pegs: &[u32]) -> u16 {
    let mut board: u16 = 0;
    for hole in pegs {
        board |= hole_mask(*hole);
    }
    board
}

fn legal_by_hand(board: u16, table: &Vec<(u16, u16, u16)>) -> Vec<(u16, u16, u16)> {
    let mut legal = Vec::new();
    for m in table {
        if board & m.0 != 0 && board & m.1 != 0 && board & m.2 == 0 {
            legal.push(*m);
        }
    }
    legal
}

#[test]
fn find_moves_on_the_corner_start() {
    let table = generate_possible_moves();
    let mut moves = Vec::new();
    find_moves(0x7ffe, &mut moves, &table);
    assert_eq!(moves, vec![masks(3, 1, 0), masks(5, 2, 0)]);
    assert_eq!(moves, vec![(8, 2, 1), (32, 4, 1)]);
}

#[test]
fn find_moves_on_boards_without_moves() {
    let table = generate_possible_moves();
    let mut moves = Vec::new();
    find_moves(0, &mut moves, &table);
    assert!(moves.is_empty());
    find_moves(0x7fff, &mut moves, &table);
    assert!(moves.is_empty());
    find_moves(board_of(&[0]), &mut moves, &table);
    assert!(moves.is_empty());
    find_moves(board_of(&[0, 14]), &mut moves, &table);
    assert!(moves.is_empty());
    find_moves(board_of(&[0, 4, 10, 14]), &mut moves, &table);
    assert!(moves.is_empty());
}

#[test]
fn find_moves_on_small_boards() {
    let table = generate_possible_moves();
    let mut moves = Vec::new();
    find_moves(board_of(&[0, 1]), &mut moves, &table);
    assert_eq!(moves, vec![masks(0, 1, 3)]);
    moves.clear();
    find_moves(board_of(&[3, 4]), &mut moves, &table);
    assert_eq!(moves, vec![masks(3, 4, 5)]);
    moves.clear();
    find_moves(board_of(&[4, 7, 8]), &mut moves, &table);
    assert_eq!(
        moves,
        vec![masks(4, 7, 11), masks(4, 8, 13), masks(7, 4, 2), masks(7, 8, 9), masks(8, 4, 1), masks(8, 7, 6)]
    );
}

#[test]
fn find_moves_keeps_what_the_vector_held() {
    let table = generate_possible_moves();
    let mut moves = vec![(1u16, 2u16, 4u16)];
    find_moves(0x7ffe, &mut moves, &table);
    assert_eq!(moves, vec![(1, 2, 4), (8, 2, 1), (32, 4, 1)]);
}

#[test]
fn find_moves_agrees_with_the_rule_on_every_board() {
    let table = generate_possible_moves();
    for board in 0..0x8000u16 {
        let mut moves = Vec::new();
        find_moves(board, &mut moves, &table);
        assert_eq!(moves, legal_by_hand(board, &table));
    }
}

#[test]
fn find_moves_with_a_table_of_two() {
    let table = vec![masks(0, 1, 3), masks(3, 1, 0)];
    assert!(check_table(&table));
    let mut moves = Vec::new();
    find_moves(board_of(&[0, 1]), &mut moves, &table);
    assert_eq!(moves, vec![masks(0, 1, 3)]);
    moves.clear();
    find_moves(board_of(&[1, 3]), &mut moves, &table);
    assert_eq!(moves, vec![masks(3, 1, 0)]);
}

#[test]
fn check_table_refuses_what_is_no_move() {
    assert!(check_table(&Vec::new()));
    assert!(check_table(&vec![(1, 2, 4), (4, 2, 1)]));
    assert!(!check_table(&vec![(1, 2, 4), (4, 4, 1)]));
    assert!(!check_table(&vec![(0x8000, 2, 4)]));
}

#[test]
fn every_legal_move_takes_one_peg_away() {
    let table = generate_possible_moves();
    for board in 0..0x8000u16 {
        let mut moves = Vec::new();
        find_moves(board, &mut moves, &table);
        for (start, skip, end) in moves {
            let next = make_move(board, start, skip, end);
            assert_eq!(count_pegs(next) + 1, count_pegs(board));
            assert_eq!(next & 0x8000, 0);
        }
    }
}

#[test]
fn play_game_counts_a_board_without_moves_once() {
    let table = generate_possible_moves();
    let mut results: HashMap<u32, u128> = HashMap::new();
    play_game(board_of(&[0, 4, 14]), &table, &mut results);
    assert_eq!(results.len(), 1);
    assert_eq!(results[&3], 1);
    let mut empty: HashMap<u32, u128> = HashMap::new();
    play_game(0, &table, &mut empty);
    assert_eq!(empty.len(), 1);
    assert_eq!(empty[&0], 1);
}

#[test]
fn play_game_counts_one_game_of_one_move() {
    let table = generate_possible_moves();
    let mut results: HashMap<u32, u128> = HashMap::new();
    play_game(board_of(&[0, 1]), &table, &mut results);
    assert_eq!(results.len(), 1);
    assert_eq!(results[&1], 1);
}

#[test]
fn play_game_counts_every_order_of_moves() {
    let table = generate_possible_moves();
    let mut results: HashMap<u32, u128> = HashMap::new();
    // Pegs in 0, 1 and in 12, 13: two jumps that do not meet, two orders.
    play_game(board_of(&[0, 1, 12, 13]), &table, &mut results);
    let total: u128 = results.values().sum();
    assert!(total >= 2);
    let mut expected: HashMap<u32, u128> = HashMap::new();
    count_by_hand(board_of(&[0, 1, 12, 13]), &table, &mut expected);
    assert_eq!(results, expected);
}

fn count_by_hand(board: u16, table: &Vec<(u16, u16, u16)>, results: &mut HashMap<u32, u128>) {
    let legal = legal_by_hand(board, table);
    for m in &legal {
        count_by_hand((board & !m.0 & !m.1) | m.2, table, results);
    }
    if legal.is_empty() {
        *results.entry(board.count_ones()).or_default() += 1;
    }
}

#[test]
fn play_game_adds_to_what_is_counted() {
    let table = generate_possible_moves();
    let mut results: HashMap<u32, u128> = HashMap::new();
    results.insert(1, 10);
    results.insert(7, 5);
    play_game(board_of(&[0, 1]), &table, &mut results);
    assert_eq!(results.len(), 2);
    assert_eq!(results[&1], 11);
    assert_eq!(results[&7], 5);
    play_game(board_of(&[0, 1]), &table, &mut results);
    assert_eq!(results[&1], 12);
}

#[test]
fn play_game_agrees_with_a_search_by_hand() {
    let table = generate_possible_moves();
    let board = board_of(&[0, 1, 2, 3, 4, 5, 7, 8]);
    let mut results: HashMap<u32, u128> = HashMap::new();
    play_game(board, &table, &mut results);
    let mut expected: HashMap<u32, u128> = HashMap::new();
    count_by_hand(board, &table, &mut expected);
    assert_eq!(results, expected);
    for pegs in results.keys() {
        assert!(1 <= *pegs && *pegs <= 8);
    }
}

#[test]
fn starting_boards_have_fourteen_pegs() {
    assert_eq!(starting_board(0), 0x7ffe);
    assert_eq!(starting_board(1), 0x7ffd);
    assert_eq!(starting_board(3), 0x7ff7);
    assert_eq!(starting_board(4), 0x7fef);
    for hole in 0..15 {
        let board = starting_board(hole);
        assert_eq!(count_pegs(board), 14);
        assert_eq!(board & hole_mask(hole), 0);
        assert_eq!(board & 0x8000, 0);
    }
    assert_eq!(RUNS, 4);
    assert_eq!(hole_of_run(0), 0);
    assert_eq!(hole_of_run(1), 1);
    assert_eq!(hole_of_run(2), 3);
    assert_eq!(hole_of_run(3), 4);
}

#[test]
fn launch_game_reports_a_small_board() {
    let table = generate_possible_moves();
    let report = launch_game(board_of(&[0, 1]), &table);
    assert_eq!(report.outcomes, vec![(1, 1)]);
    assert_eq!(report.games, 1);
    let none = launch_game(0, &table);
    assert_eq!(none.outcomes, vec![(0, 1)]);
    assert_eq!(none.games, 1);
}

#[test]
fn corner_start_can_be_solved() {
    let table = generate_possible_moves();
    let report = launch_game(starting_board(0), &table);
    assert!(report.games > 0);
    assert_eq!(report.outcomes[0].0, 1);
    assert!(report.outcomes[0].1 > 0);
    assert_eq!(report.outcomes[0], (1, 29760));
    assert_eq!(report.games, 568630);
    let again = launch_game(starting_board(0), &table);
    assert_eq!(again.outcomes, report.outcomes);
    assert_eq!(again.games, report.games);
}

#[test]
fn counts_add_up_to_the_number_of_games() {
    let table = generate_possible_moves();
    let report = launch_game(starting_board(4), &table);
    let sum: u128 = report.outcomes.iter().map(|o| o.1).sum();
    assert_eq!(sum, report.games);
    assert_eq!(report.games, 137846);
    assert_eq!(report.outcomes[0], (1, 1550));
    for i in 0..report.outcomes.len() {
        assert!(1 <= report.outcomes[i].0 && report.outcomes[i].0 <= 14);
        assert!(report.outcomes[i].1 > 0);
        if i > 0 {
            assert!(report.outcomes[i - 1].0 < report.outcomes[i].0);
        }
    }
}

#[test]
fn report_agrees_with_the_histogram() {
    let table = generate_possible_moves();
    let board = starting_board(4);
    let mut results: HashMap<u32, u128> = HashMap::new();
    play_game(board, &table, &mut results);
    let report = launch_game(board, &table);
    assert_eq!(report.outcomes.len(), results.len());
    for (pegs, games) in &report.outcomes {
        assert_eq!(results[pegs], *games);
    }
}

#[test]
fn four_runs_are_reported() {
    let table = generate_possible_moves();
    let summary = launch_all_games(&table);
    assert_eq!(summary.runs.len(), 4);
    let totals: Vec<u128> = summary.runs.iter().map(|r| r.games).collect();
    assert_eq!(totals, vec![568630, 294543, 1149568, 137846]);
    assert_eq!(summary.games, 2150587);
    let solved: Vec<(u32, u128)> = summary.runs.iter().map(|r| r.outcomes[0]).collect();
    assert_eq!(solved, vec![(1, 29760), (1, 14880), (1, 85258), (1, 1550)]);
    for (run, report) in summary.runs.iter().enumerate() {
        let alone = launch_game(starting_board(hole_of_run(run)), &table);
        assert_eq!(alone.outcomes, report.outcomes);
        assert_eq!(alone.games, report.games);
    }
}

#[test]
fn starts_of_one_kind_have_the_same_games() {
    let table = generate_possible_moves();
    let corner = launch_game(starting_board(0), &table);
    for hole in [10u32, 14] {
        let other = launch_game(starting_board(hole), &table);
        assert_eq!(other.outcomes, corner.outcomes);
        assert_eq!(other.games, corner.games);
    }
}
