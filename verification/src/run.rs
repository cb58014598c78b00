//! Runs of the search: one from each of the four kinds of starting board,
//! each with its games counted by the number of pegs they end with.

use crate::board::{
    has_peg, hole_mask, is_board, lemma_pegs_below_bound, mask_of, peg_count, pegs_below, Move,
    FULL_BOARD,
};
use crate::search::{
    count_of, games, games_below, is_table, lemma_counts_add_up, lemma_ending,
    lemma_games_below_grows, lemma_games_bounded, play_game,
};
use crate::table::JUMPS;
use std::collections::HashMap;
use vstd::prelude::*;
use vstd::seq_lib::lemma_seq_contains_after_push;

verus! {

broadcast use vstd::std_specs::hash::group_hash_axioms;

/// Number of runs: one for each kind of hole that can be empty at the start.
pub const RUNS: usize = 4;

/// What one run of the search found.
#[derive(Debug)]
pub struct RunReport {
    /// For each number of pegs that some game ends with, that number and the
    /// number of games that end with it, by rising number of pegs.
    pub outcomes: Vec<(u32, u128)>,
    /// Number of all games of the run.
    pub games: u128,
}

/// What the four runs found.
#[derive(Debug)]
pub struct Summary {
    /// The reports of the runs, in the order of their starting holes.
    pub runs: Vec<RunReport>,
    /// Number of all games of all runs.
    pub games: u128,
}

/// The board with a peg in every hole but `empty`.
pub open spec fn board_without(empty: nat) -> u16 {
    FULL_BOARD & !mask_of(empty)
}

/// The hole that is empty at the start of run `run`: a corner, the hole next
/// to it on a side, the middle of a side, and an inner hole.
pub open spec fn starting_hole(run: int) -> nat {
    if run == 0 {
        0
    } else if run == 1 {
        1
    } else if run == 2 {
        3
    } else {
        4
    }
}

/// Sum of the numbers of games of `outcomes`.
pub open spec fn sum_of(outcomes: Seq<(u32, u128)>) -> nat
    decreases outcomes.len(),
{
    if outcomes.len() == 0 {
        0
    } else {
        sum_of(outcomes.drop_last()) + outcomes.last().1 as nat
    }
}

/// Number of all games of the first `runs` runs.
pub open spec fn games_of_runs(table: Seq<Move>, runs: nat) -> nat
    decreases runs,
{
    if runs == 0 {
        0
    } else {
        games_of_runs(table, (runs - 1) as nat) + games(
            board_without(starting_hole(runs - 1)),
            table,
            None,
        )
    }
}

/// `report` says what the games from `board` are: it lists, by rising number
/// of pegs, exactly the numbers of pegs that some game ends with, each with
/// the number of games that end so, and it gives the number of all games.
pub open spec fn is_report(report: RunReport, board: u16, table: Seq<Move>) -> bool {
    &&& forall|i: int, j: int|
        0 <= i < j < report.outcomes@.len() ==> report.outcomes@[i].0 < report.outcomes@[j].0
    &&& forall|pegs: u32, n: u128|
        #![trigger report.outcomes@.contains((pegs, n))]
        report.outcomes@.contains((pegs, n)) <==> n > 0 && n == games(
            board,
            table,
            Some(pegs as nat),
        )
    &&& report.games == games(board, table, None)
}

proof fn lemma_starting_bits(empty: u16, hole: u16)
    by (bit_vector)
    requires
        empty < 15,
        hole < 16,
    ensures
        0x7fffu16 >= (1u16 << empty),
        0x7fffu16 - (1u16 << empty) == 0x7fffu16 & !(1u16 << empty),
        (0x7fffu16 & !(1u16 << empty)) & 0x8000 == 0,
        ((0x7fffu16 & !(1u16 << empty)) & (1u16 << hole) != 0) == (hole < 15 && hole != empty),
{
}

proof fn lemma_starting_pegs(empty: nat, n: nat)
    requires
        empty < 15,
        n <= 16,
    ensures
        pegs_below(board_without(empty), n) == if n == 16 {
            14
        } else if empty < n {
            n - 1
        } else {
            n as int
        },
    decreases n,
{
    if n > 0 {
        lemma_starting_pegs(empty, (n - 1) as nat);
        lemma_starting_bits(empty as u16, (n - 1) as u16);
    }
}

/// A starting board is a board of fourteen pegs, and every hole of it but
/// the empty one holds a peg.
pub proof fn lemma_board_without(empty: nat, hole: nat)
    requires
        empty < 15,
        hole < 16,
    ensures
        is_board(board_without(empty)),
        peg_count(board_without(empty)) == 14,
        has_peg(board_without(empty), hole) == (hole < 15 && hole != empty),
{
    lemma_starting_bits(empty as u16, hole as u16);
    lemma_starting_pegs(empty, 16);
}

/// The board on which a run starts: a peg in every hole but `empty`.
pub fn starting_board(empty: u32) -> (board: u16)
    requires
        empty < 15,
    ensures
        board == board_without(empty as nat),
        is_board(board),
        peg_count(board) == 14,
{
    proof {
        lemma_board_without(empty as nat, 0);
        lemma_starting_bits(empty as u16, 0);
    }
    FULL_BOARD - hole_mask(empty)
}

/// The empty hole of run `run`.
pub fn hole_of_run(run: usize) -> (hole: u32)
    requires
        run < 4,
    ensures
        hole == starting_hole(run as int),
        hole < 15,
{
    if run == 0 {
        0
    } else if run == 1 {
        1
    } else if run == 2 {
        3
    } else {
        4
    }
}

/// Runs the search from `board` and reports the games it found: how many
/// end with each number of pegs, by rising number of pegs, and how many
/// there are.
pub fn launch_game(board: u16, possible_moves: &Vec<Move>) -> (report: RunReport)
    requires
        is_table(possible_moves@),
        possible_moves@.len() <= JUMPS,
    ensures
        is_report(report, board, possible_moves@),
        sum_of(report.outcomes@) == report.games,
        forall|i: int|
            0 <= i < report.outcomes@.len() ==> {
                &&& (#[trigger] report.outcomes@[i]).0 <= peg_count(board)
                &&& peg_count(board) >= 1 ==> report.outcomes@[i].0 >= 1
            },
{
    let ghost table = possible_moves@;
    let mut results: HashMap<u32, u128> = HashMap::new();
    proof {
        assert forall|pegs: u32| #![trigger count_of(results@, pegs)] count_of(results@, pegs)
            + games(board, table, Some(pegs as nat)) <= u128::MAX by {
            lemma_games_bounded(board, table, Some(pegs as nat));
        }
    }
    play_game(board, possible_moves, &mut results);
    proof {
        lemma_counts_add_up(board, table);
        lemma_games_bounded(board, table, None);
    }
    let mut outcomes: Vec<(u32, u128)> = Vec::new();
    let mut total: u128 = 0;
    let mut pegs: u32 = 0;
    while pegs < 17
        invariant
            pegs <= 17,
            is_table(table),
            games_below(board, table, 17) == games(board, table, None),
            games(board, table, None) <= u128::MAX,
            total == games_below(board, table, pegs as nat),
            sum_of(outcomes@) == total,
            forall|k: u32|
                #![trigger count_of(results@, k)]
                count_of(results@, k) == games(board, table, Some(k as nat)),
            forall|k: u32|
                #![trigger results@.contains_key(k)]
                results@.contains_key(k) <==> games(board, table, Some(k as nat)) > 0,
            forall|i: int| 0 <= i < outcomes@.len() ==> (#[trigger] outcomes@[i]).0 < pegs,
            forall|i: int, j: int|
                0 <= i < j < outcomes@.len() ==> outcomes@[i].0 < outcomes@[j].0,
            forall|k: u32, n: u128|
                #![trigger outcomes@.contains((k, n))]
                outcomes@.contains((k, n)) <==> k < pegs && n > 0 && n == games(
                    board,
                    table,
                    Some(k as nat),
                ),
        decreases 17 - pegs,
    {
        broadcast use lemma_seq_contains_after_push;

        let ghost listed = outcomes@;
        proof {
            lemma_games_below_grows(board, table, (pegs + 1) as nat, 17);
            assert(count_of(results@, pegs) == games(board, table, Some(pegs as nat)));
            assert(results@.contains_key(pegs) <==> games(board, table, Some(pegs as nat)) > 0);
        }
        match results.get(&pegs) {
            Some(n) => {
                outcomes.push((pegs, *n));
                total = total + *n;
                assert(outcomes@.drop_last() =~= listed);
            },
            None => {},
        }
        pegs = pegs + 1;
    }
    proof {
        assert forall|k: u32, n: u128|
            #![trigger outcomes@.contains((k, n))]
            outcomes@.contains((k, n)) <==> n > 0 && n == games(
                board,
                table,
                Some(k as nat),
            ) by {
            if n > 0 && n == games(board, table, Some(k as nat)) {
                lemma_ending(board, table, k as nat);
                lemma_pegs_below_bound(board, 16);
            }
        }
        assert forall|i: int| 0 <= i < outcomes@.len() implies {
            &&& (#[trigger] outcomes@[i]).0 <= peg_count(board)
            &&& peg_count(board) >= 1 ==> outcomes@[i].0 >= 1
        } by {
            let found = outcomes@[i];
            assert(outcomes@.contains((found.0, found.1)));
            lemma_ending(board, table, found.0 as nat);
        }
    }
    RunReport { outcomes, games: total }
}

/// Runs the search from each of the four starting boards and reports what
/// each run found and how many games there are in all.
pub fn launch_all_games(possible_moves: &Vec<Move>) -> (summary: Summary)
    requires
        is_table(possible_moves@),
        possible_moves@.len() <= JUMPS,
    ensures
        summary.runs@.len() == 4,
        forall|run: int|
            0 <= run < 4 ==> is_report(
                #[trigger] summary.runs@[run],
                board_without(starting_hole(run)),
                possible_moves@,
            ),
        forall|run: int|
            0 <= run < 4 ==> sum_of((#[trigger] summary.runs@[run]).outcomes@)
                == summary.runs@[run].games,
        summary.games == games_of_runs(possible_moves@, 4),
{
    let ghost table = possible_moves@;
    let mut runs: Vec<RunReport> = Vec::new();
    let mut total: u128 = 0;
    let mut run: usize = 0;
    while run < RUNS
        invariant
            run <= 4,
            table == possible_moves@,
            is_table(table),
            table.len() <= 36,
            runs@.len() == run,
            forall|r: int|
                0 <= r < run ==> is_report(
                    #[trigger] runs@[r],
                    board_without(starting_hole(r)),
                    table,
                ),
            forall|r: int|
                0 <= r < run ==> sum_of((#[trigger] runs@[r]).outcomes@) == runs@[r].games,
            total == games_of_runs(table, run as nat),
            4 * total <= run * u128::MAX,
        decreases 4 - run,
    {
        let board: u16 = starting_board(hole_of_run(run));
        proof {
            lemma_games_bounded(board, table, None);
        }
        let report = launch_game(board, possible_moves);
        total = total + report.games;
        runs.push(report);
        run = run + 1;
    }
    Summary { runs, games: total }
}

} // verus!
