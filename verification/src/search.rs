//! The search: which moves a board allows, and the count of every way the
//! game can be played from a board to a board that allows no move.

use crate::board::{
    after_move, check_move, count_pegs, hole_of, is_legal, is_move, lemma_holes_after_move,
    lemma_legal_test, lemma_mask_of_hole, lemma_move_removes_one_peg, lemma_peg_is_counted,
    lemma_pegs_below_bound, make_move, peg_count, Move,
};
use std::collections::HashMap;
use vstd::prelude::*;

verus! {

broadcast use vstd::std_specs::hash::group_hash_axioms;

/// Every entry of `table` is a move.
pub open spec fn is_table(table: Seq<Move>) -> bool {
    forall|i: int| 0 <= i < table.len() ==> is_move(#[trigger] table[i])
}

/// The test that a move is legal on `board`.
pub open spec fn legal_on(board: u16) -> spec_fn(Move) -> bool {
    |m: Move| is_legal(board, m)
}

/// The moves of `table` that are legal on `board`, in the order of the table.
pub open spec fn legal_moves(board: u16, table: Seq<Move>) -> Seq<Move> {
    table.filter(legal_on(board))
}

/// Number of games that can be played from `board`: the ways to go on
/// playing legal moves of `table` until none is left. With `ending` given,
/// only the games that end with that many pegs are counted.
///
/// Two games are the same only if they play the same moves in the same
/// order, whether or not they pass through the same boards.
pub open spec fn games(board: u16, table: Seq<Move>, ending: Option<nat>) -> nat
    decreases peg_count(board), 1nat, 0nat,
    when is_table(table)
{
    let moves = legal_moves(board, table);
    if moves.len() == 0 {
        if ending is None || ending == Some(peg_count(board)) {
            1
        } else {
            0
        }
    } else {
        games_after(board, table, moves.len(), ending)
    }
}

/// Number of the games from `board` that begin with one of its first `n`
/// legal moves.
pub open spec fn games_after(board: u16, table: Seq<Move>, n: nat, ending: Option<nat>) -> nat
    decreases peg_count(board), 0nat, n,
    when is_table(table) && n <= legal_moves(board, table).len()
    via games_after_decreases
{
    if n == 0 {
        0
    } else {
        games_after(board, table, (n - 1) as nat, ending) + games(
            after_move(board, legal_moves(board, table)[n - 1]),
            table,
            ending,
        )
    }
}

#[via_fn]
proof fn games_after_decreases(board: u16, table: Seq<Move>, n: nat, ending: Option<nat>) {
    if n > 0 {
        lemma_legal_moves(board, table);
        lemma_move_removes_one_peg(board, legal_moves(board, table)[n - 1]);
    }
}

/// The games counted in `results` for `pegs` pegs.
pub open spec fn count_of(results: Map<u32, u128>, pegs: u32) -> nat {
    if results.contains_key(pegs) {
        results[pegs] as nat
    } else {
        0
    }
}

/// The legal moves of a board are moves of the table that are legal on it,
/// and no more than the table has.
pub proof fn lemma_legal_moves(board: u16, table: Seq<Move>)
    requires
        is_table(table),
    ensures
        legal_moves(board, table).len() <= table.len(),
        forall|i: int|
            0 <= i < legal_moves(board, table).len() ==> {
                &&& is_move(#[trigger] legal_moves(board, table)[i])
                &&& is_legal(board, legal_moves(board, table)[i])
                &&& table.contains(legal_moves(board, table)[i])
            },
{
    let legal = legal_moves(board, table);
    table.lemma_filter_len(legal_on(board));
    assert forall|i: int| 0 <= i < legal.len() implies {
        &&& is_move(#[trigger] legal[i])
        &&& is_legal(board, legal[i])
        &&& table.contains(legal[i])
    } by {
        table.lemma_filter_pred(legal_on(board), i);
        assert(legal.contains(legal[i]));
        table.lemma_filter_contains_rev(legal_on(board), legal[i]);
    }
}

/// The games that begin with one of the first moves are among those that
/// begin with one of the first and some more.
pub proof fn lemma_games_after_grows(
    board: u16,
    table: Seq<Move>,
    few: nat,
    many: nat,
    ending: Option<nat>,
)
    requires
        is_table(table),
        few <= many <= legal_moves(board, table).len(),
    ensures
        games_after(board, table, few, ending) <= games_after(board, table, many, ending),
    decreases many,
{
    if few < many {
        lemma_games_after_grows(board, table, few, (many - 1) as nat, ending);
    }
}

/// Number of the games from `board` that end with fewer than `limit` pegs.
pub open spec fn games_below(board: u16, table: Seq<Move>, limit: nat) -> nat
    decreases limit,
{
    if limit == 0 {
        0
    } else {
        games_below(board, table, (limit - 1) as nat) + games(
            board,
            table,
            Some((limit - 1) as nat),
        )
    }
}

/// Number of moves of the longest game that can be played from `board`.
pub open spec fn longest_game(board: u16, table: Seq<Move>) -> nat
    decreases peg_count(board), 1nat, 0nat,
    when is_table(table)
{
    let moves = legal_moves(board, table);
    if moves.len() == 0 {
        0
    } else {
        1 + longest_after(board, table, moves.len())
    }
}

/// Number of moves of the longest game from any of the boards that the first
/// `n` legal moves of `board` lead to.
pub open spec fn longest_after(board: u16, table: Seq<Move>, n: nat) -> nat
    decreases peg_count(board), 0nat, n,
    when is_table(table) && n <= legal_moves(board, table).len()
    via longest_after_decreases
{
    if n == 0 {
        0
    } else {
        let others = longest_after(board, table, (n - 1) as nat);
        let this = longest_game(after_move(board, legal_moves(board, table)[n - 1]), table);
        if this > others {
            this
        } else {
            others
        }
    }
}

#[via_fn]
proof fn longest_after_decreases(board: u16, table: Seq<Move>, n: nat) {
    if n > 0 {
        lemma_legal_moves(board, table);
        lemma_move_removes_one_peg(board, legal_moves(board, table)[n - 1]);
    }
}

/// A number that no count of games from a board with `pegs` pegs exceeds,
/// for a table of at most thirty-six moves: thirty-six to the power of
/// `pegs`.
pub open spec fn game_bound(pegs: nat) -> nat
    decreases pegs,
{
    if pegs == 0 {
        1
    } else {
        36 * game_bound((pegs - 1) as nat)
    }
}

proof fn lemma_game_bound_grows(few: nat, many: nat)
    requires
        few <= many,
    ensures
        1 <= game_bound(few) <= game_bound(many),
    decreases many,
{
    if few < many {
        lemma_game_bound_grows(few, (many - 1) as nat);
    } else if many > 0 {
        lemma_game_bound_grows((few - 1) as nat, (many - 1) as nat);
    }
}

/// The bound grows with the number of pegs, and for every board it is far
/// below what a `u128` holds.
pub proof fn lemma_game_bound(few: nat, many: nat)
    requires
        few <= many <= 16,
    ensures
        1 <= game_bound(few) <= game_bound(many),
        4 * game_bound(many) <= u128::MAX,
{
    lemma_game_bound_grows(few, many);
    lemma_game_bound_grows(many, 16);
    assert(game_bound(16) == 7958661109946400884391936) by {
        reveal_with_fuel(game_bound, 17);
    }
}

proof fn lemma_games_after_bounded(board: u16, table: Seq<Move>, n: nat, ending: Option<nat>)
    requires
        is_table(table),
        table.len() <= 36,
        0 < n <= legal_moves(board, table).len(),
    ensures
        peg_count(board) >= 1,
        games_after(board, table, n, ending) <= n * game_bound((peg_count(board) - 1) as nat),
    decreases peg_count(board), 0nat, n,
{
    let m = legal_moves(board, table)[n - 1];
    let rest = game_bound((peg_count(board) - 1) as nat);
    lemma_legal_moves(board, table);
    lemma_move_removes_one_peg(board, m);
    lemma_games_bounded(after_move(board, m), table, ending);
    let fewer = (n - 1) as nat;
    if n > 1 {
        lemma_games_after_bounded(board, table, fewer, ending);
    }
    assert(games_after(board, table, fewer, ending) <= fewer * rest) by (nonlinear_arith)
        requires
            fewer == 0 ==> games_after(board, table, fewer, ending) == 0,
            fewer > 0 ==> games_after(board, table, fewer, ending) <= fewer * rest,
    ;
    assert(fewer * rest + rest == n * rest) by (nonlinear_arith)
        requires
            fewer + 1 == n,
    ;
}

/// No board has more games than the bound for its number of pegs.
pub proof fn lemma_games_bounded(board: u16, table: Seq<Move>, ending: Option<nat>)
    requires
        is_table(table),
        table.len() <= 36,
    ensures
        games(board, table, ending) <= game_bound(peg_count(board)),
        4 * games(board, table, ending) <= u128::MAX,
    decreases peg_count(board), 1nat, 0nat,
{
    let n = legal_moves(board, table).len();
    lemma_pegs_below_bound(board, 16);
    lemma_game_bound(peg_count(board), peg_count(board));
    if n > 0 {
        lemma_legal_moves(board, table);
        lemma_games_after_bounded(board, table, n, ending);
        let rest = game_bound((peg_count(board) - 1) as nat);
        assert(n * rest <= 36 * rest) by (nonlinear_arith)
            requires
                n <= 36,
                rest >= 0,
        ;
    }
}

proof fn lemma_ending_after(board: u16, table: Seq<Move>, n: nat, pegs: nat)
    requires
        is_table(table),
        n <= legal_moves(board, table).len(),
        games_after(board, table, n, Some(pegs)) > 0,
    ensures
        1 <= pegs < peg_count(board),
    decreases peg_count(board), 0nat, n,
{
    let m = legal_moves(board, table)[n - 1];
    let next = after_move(board, m);
    lemma_legal_moves(board, table);
    lemma_move_removes_one_peg(board, m);
    if games(next, table, Some(pegs)) > 0 {
        lemma_mask_of_hole(m.2);
        lemma_holes_after_move(board, m, hole_of(m.2));
        lemma_peg_is_counted(next, hole_of(m.2), 16);
        lemma_ending(next, table, pegs);
    } else {
        lemma_ending_after(board, table, (n - 1) as nat, pegs);
    }
}

/// A game ends with no more pegs than it began with, and with at least one
/// wherever it began with one.
pub proof fn lemma_ending(board: u16, table: Seq<Move>, pegs: nat)
    requires
        is_table(table),
        games(board, table, Some(pegs)) > 0,
    ensures
        pegs <= peg_count(board),
        peg_count(board) >= 1 ==> pegs >= 1,
    decreases peg_count(board), 1nat, 0nat,
{
    let n = legal_moves(board, table).len();
    if n > 0 {
        lemma_ending_after(board, table, n, pegs);
    }
}

proof fn lemma_longest_after(board: u16, table: Seq<Move>, n: nat)
    requires
        is_table(table),
        0 < n <= legal_moves(board, table).len(),
    ensures
        longest_after(board, table, n) + 2 <= peg_count(board),
    decreases peg_count(board), 0nat, n,
{
    let m = legal_moves(board, table)[n - 1];
    let next = after_move(board, m);
    lemma_legal_moves(board, table);
    lemma_move_removes_one_peg(board, m);
    lemma_mask_of_hole(m.2);
    lemma_holes_after_move(board, m, hole_of(m.2));
    lemma_peg_is_counted(next, hole_of(m.2), 16);
    lemma_longest_game(next, table);
    if n > 1 {
        lemma_longest_after(board, table, (n - 1) as nat);
    }
}

/// No game has as many moves as the board it begins with has pegs: every
/// move takes one peg away and leaves one behind.
pub proof fn lemma_longest_game(board: u16, table: Seq<Move>)
    requires
        is_table(table),
    ensures
        longest_game(board, table) <= peg_count(board),
        peg_count(board) >= 1 ==> longest_game(board, table) < peg_count(board),
    decreases peg_count(board), 1nat, 0nat,
{
    let n = legal_moves(board, table).len();
    if n > 0 {
        lemma_longest_after(board, table, n);
    }
}

/// Sum over the numbers of pegs below `limit` of the games that begin with
/// one of the first `n` legal moves.
spec fn games_after_below(board: u16, table: Seq<Move>, n: nat, limit: nat) -> nat
    decreases limit,
{
    if limit == 0 {
        0
    } else {
        games_after_below(board, table, n, (limit - 1) as nat) + games_after(
            board,
            table,
            n,
            Some((limit - 1) as nat),
        )
    }
}

proof fn lemma_below_at_end(board: u16, table: Seq<Move>, limit: nat)
    requires
        is_table(table),
        legal_moves(board, table).len() == 0,
    ensures
        games_below(board, table, limit) == if peg_count(board) < limit {
            1nat
        } else {
            0nat
        },
    decreases limit,
{
    if limit > 0 {
        lemma_below_at_end(board, table, (limit - 1) as nat);
    }
}

proof fn lemma_below_by_moves(board: u16, table: Seq<Move>, limit: nat)
    requires
        is_table(table),
        legal_moves(board, table).len() > 0,
    ensures
        games_below(board, table, limit) == games_after_below(
            board,
            table,
            legal_moves(board, table).len(),
            limit,
        ),
    decreases limit,
{
    if limit > 0 {
        lemma_below_by_moves(board, table, (limit - 1) as nat);
    }
}

proof fn lemma_after_below_step(board: u16, table: Seq<Move>, n: nat, limit: nat)
    requires
        is_table(table),
        n <= legal_moves(board, table).len(),
    ensures
        n == 0 ==> games_after_below(board, table, n, limit) == 0,
        n > 0 ==> games_after_below(board, table, n, limit) == games_after_below(
            board,
            table,
            (n - 1) as nat,
            limit,
        ) + games_below(after_move(board, legal_moves(board, table)[n - 1]), table, limit),
    decreases limit,
{
    if limit > 0 {
        lemma_after_below_step(board, table, n, (limit - 1) as nat);
    }
}

proof fn lemma_after_below(board: u16, table: Seq<Move>, n: nat, limit: nat)
    requires
        is_table(table),
        n <= legal_moves(board, table).len(),
        limit >= peg_count(board),
    ensures
        games_after_below(board, table, n, limit) == games_after(board, table, n, None),
    decreases peg_count(board), 0nat, n,
{
    lemma_after_below_step(board, table, n, limit);
    if n > 0 {
        let m = legal_moves(board, table)[n - 1];
        lemma_legal_moves(board, table);
        lemma_move_removes_one_peg(board, m);
        lemma_after_below(board, table, (n - 1) as nat, limit);
        lemma_games_below(after_move(board, m), table, limit);
    }
}

/// Every game ends with some number of pegs: the games that end with fewer
/// pegs than a limit above the pegs of the board are all its games.
pub proof fn lemma_games_below(board: u16, table: Seq<Move>, limit: nat)
    requires
        is_table(table),
        limit > peg_count(board),
    ensures
        games_below(board, table, limit) == games(board, table, None),
    decreases peg_count(board), 1nat, 0nat,
{
    let n = legal_moves(board, table).len();
    if n == 0 {
        lemma_below_at_end(board, table, limit);
    } else {
        lemma_below_by_moves(board, table, limit);
        lemma_after_below(board, table, n, limit);
    }
}

/// The games that end with fewer pegs than a lower limit are among those
/// that end with fewer than a higher one.
pub proof fn lemma_games_below_grows(board: u16, table: Seq<Move>, low: nat, high: nat)
    requires
        low <= high,
    ensures
        games_below(board, table, low) <= games_below(board, table, high),
    decreases high,
{
    if low < high {
        lemma_games_below_grows(board, table, low, (high - 1) as nat);
    }
}

/// The counts for the several numbers of pegs add up to the count of all
/// games: seventeen counts, for no peg up to sixteen, cover every board.
pub proof fn lemma_counts_add_up(board: u16, table: Seq<Move>)
    requires
        is_table(table),
    ensures
        games_below(board, table, 17) == games(board, table, None),
{
    lemma_pegs_below_bound(board, 16);
    lemma_games_below(board, table, 17);
}

/// Tells whether every entry of `table` is a move.
pub fn check_table(table: &Vec<Move>) -> (ok: bool)
    ensures
        ok == is_table(table@),
{
    let mut i: usize = 0;
    while i < table.len()
        invariant
            i <= table.len(),
            forall|j: int| 0 <= j < i ==> is_move(#[trigger] table@[j]),
        decreases table.len() - i,
    {
        if !check_move(table[i]) {
            return false;
        }
        i = i + 1;
    }
    true
}

/// Appends to `moves` the moves of `possible_moves` that are legal on
/// `board`, in the order of the table.
pub fn find_moves(board: u16, moves: &mut Vec<Move>, possible_moves: &Vec<Move>)
    requires
        is_table(possible_moves@),
    ensures
        final(moves)@ == old(moves)@ + legal_moves(board, possible_moves@),
{
    let ghost before = moves@;
    let mut i: usize = 0;
    proof {
        reveal(Seq::filter);
        assert(possible_moves@.take(0) =~= Seq::<Move>::empty());
        assert(moves@ =~= before + legal_moves(board, possible_moves@.take(0)));
    }
    while i < possible_moves.len()
        invariant
            i <= possible_moves.len(),
            is_table(possible_moves@),
            moves@ == before + legal_moves(board, possible_moves@.take(i as int)),
        decreases possible_moves.len() - i,
    {
        let (start, skip, end) = possible_moves[i];
        proof {
            lemma_legal_test(board, (start, skip, end));
            possible_moves@.lemma_take_succ_push(i as int);
            possible_moves@.take(i as int).lemma_filter_push((start, skip, end), legal_on(board));
        }
        if board & (start + skip + end) == (start + skip) {
            moves.push((start, skip, end));
        }
        i = i + 1;
        assert(moves@ =~= before + legal_moves(board, possible_moves@.take(i as int)));
    }
    assert(possible_moves@.take(i as int) =~= possible_moves@);
}

/// Plays every game that can be played from `board` and counts each in
/// `results` under the number of pegs it ends with.
///
/// The counts that `results` already holds are kept and added to. The moves
/// of a board are tried in the order of the table.
pub fn play_game(board: u16, possible_moves: &Vec<Move>, results: &mut HashMap<u32, u128>)
    requires
        is_table(possible_moves@),
        forall|pegs: u32|
            #![trigger count_of(old(results)@, pegs)]
            count_of(old(results)@, pegs) + games(board, possible_moves@, Some(pegs as nat))
                <= u128::MAX,
    ensures
        forall|pegs: u32|
            #![trigger count_of(final(results)@, pegs)]
            count_of(final(results)@, pegs) == count_of(old(results)@, pegs) + games(
                board,
                possible_moves@,
                Some(pegs as nat),
            ),
        forall|pegs: u32|
            #![trigger final(results)@.contains_key(pegs)]
            final(results)@.contains_key(pegs) <==> old(results)@.contains_key(pegs) || games(
                board,
                possible_moves@,
                Some(pegs as nat),
            ) > 0,
    decreases peg_count(board),
{
    let ghost before = results@;
    let ghost table = possible_moves@;
    let mut moves: Vec<Move> = Vec::new();
    find_moves(board, &mut moves, possible_moves);
    assert(moves@ =~= legal_moves(board, table));
    proof {
        lemma_legal_moves(board, table);
    }
    let mut i: usize = 0;
    while i < moves.len()
        invariant
            i <= moves.len(),
            table == possible_moves@,
            is_table(table),
            moves@ == legal_moves(board, table),
            forall|pegs: u32|
                #![trigger count_of(before, pegs)]
                count_of(before, pegs) + games(board, table, Some(pegs as nat)) <= u128::MAX,
            forall|pegs: u32|
                #![trigger count_of(results@, pegs)]
                count_of(results@, pegs) == count_of(before, pegs) + games_after(
                    board,
                    table,
                    i as nat,
                    Some(pegs as nat),
                ),
            forall|pegs: u32|
                #![trigger results@.contains_key(pegs)]
                results@.contains_key(pegs) <==> before.contains_key(pegs) || games_after(
                    board,
                    table,
                    i as nat,
                    Some(pegs as nat),
                ) > 0,
        decreases moves.len() - i,
    {
        let (start, skip, end) = moves[i];
        proof {
            lemma_legal_moves(board, table);
        }
        let next: u16 = make_move(board, start, skip, end);
        proof {
            assert forall|pegs: u32| #![trigger count_of(results@, pegs)] count_of(results@, pegs)
                + games(next, table, Some(pegs as nat)) <= u128::MAX by {
                lemma_games_after_grows(
                    board,
                    table,
                    (i + 1) as nat,
                    moves@.len(),
                    Some(pegs as nat),
                );
                assert(count_of(before, pegs) + games(board, table, Some(pegs as nat))
                    <= u128::MAX);
            }
        }
        play_game(next, possible_moves, results);
        i = i + 1;
    }
    if moves.len() == 0 {
        let ghost kept = results@;
        let pegs: u32 = count_pegs(board);
        let counted: u128 = match results.get(&pegs) {
            Some(n) => *n,
            None => 0,
        };
        assert(counted == count_of(kept, pegs));
        assert(count_of(before, pegs) + games(board, table, Some(pegs as nat)) <= u128::MAX);
        results.insert(pegs, counted + 1);
        proof {
            assert forall|k: u32| #![trigger count_of(results@, k)] count_of(results@, k)
                == count_of(before, k) + games(board, table, Some(k as nat)) by {
                assert(count_of(kept, k) == count_of(before, k));
            }
            assert forall|k: u32| #![trigger results@.contains_key(k)] results@.contains_key(k)
                <==> before.contains_key(k) || games(board, table, Some(k as nat)) > 0 by {
                assert(kept.contains_key(k) <==> before.contains_key(k));
            }
        }
    }
}

} // verus!
