//! The move table: every jump that the shape of the board allows, listed
//! once, hole by hole and direction by direction.

use crate::board::{
    hole_mask, hole_of, is_hole_mask, is_move, lemma_hole_of_mask, lemma_mask_of_hole, mask_of,
    Move,
};
use crate::geometry::{
    col_of, hole_at, in_line, is_hole, lemma_hole_at, lemma_position, lemma_row_starts,
    lemma_symmetries_keep_lines, on_board, reflect, rotate, row_of, row_start,
};
use vstd::prelude::*;
use vstd::seq_lib::{lemma_seq_concat_contains_all_elements, lemma_seq_contains_after_push};

verus! {

/// Number of directions in which a peg can jump.
pub const DIRECTIONS: u32 = 6;

/// Number of jumps that the board allows.
pub const JUMPS: usize = 36;

/// The move from hole `a` over hole `b` into hole `c`.
pub open spec fn move_of(a: int, b: int, c: int) -> Move {
    (mask_of(a as nat), mask_of(b as nat), mask_of(c as nat))
}

/// The hole that the peg of `m` leaves.
pub open spec fn start_of(m: Move) -> int {
    hole_of(m.0) as int
}

/// The hole that the peg of `m` jumps over.
pub open spec fn skip_of(m: Move) -> int {
    hole_of(m.1) as int
}

/// The hole that the peg of `m` lands in.
pub open spec fn end_of(m: Move) -> int {
    hole_of(m.2) as int
}

/// `m` is a jump of the board: its three masks are hole masks, and the holes
/// follow each other on one line.
pub open spec fn is_jump(m: Move) -> bool {
    &&& is_hole_mask(m.0)
    &&& is_hole_mask(m.1)
    &&& is_hole_mask(m.2)
    &&& in_line(start_of(m), skip_of(m), end_of(m))
}

/// Change of row in direction `dir`. The six directions are numbered from
/// the upper left neighbour to the lower right one.
pub open spec fn step_row(dir: int) -> int {
    if dir < 2 {
        -1
    } else if dir < 4 {
        0
    } else {
        1
    }
}

/// Change of column in direction `dir`.
pub open spec fn step_col(dir: int) -> int {
    if dir == 0 || dir == 2 {
        -1
    } else if dir == 1 || dir == 4 {
        0
    } else {
        1
    }
}

/// The number of the direction with the step `(dr, dc)`.
pub open spec fn dir_of(dr: int, dc: int) -> int {
    if dr < 0 {
        if dc < 0 {
            0
        } else {
            1
        }
    } else if dr == 0 {
        if dc < 0 {
            2
        } else {
            3
        }
    } else {
        if dc == 0 {
            4
        } else {
            5
        }
    }
}

/// The direction in which the peg of `m` jumps.
pub open spec fn direction_of(m: Move) -> int {
    dir_of(
        row_of(skip_of(m)) - row_of(start_of(m)),
        col_of(skip_of(m)) - col_of(start_of(m)),
    )
}

/// Place of a jump in the table's order: by the hole it starts from, then by
/// its direction.
pub open spec fn rank(m: Move) -> int {
    6 * start_of(m) + direction_of(m)
}

/// The jump from `hole` in direction `dir`, if the board has room for it.
pub open spec fn jump_at(hole: int, dir: int) -> Option<Move> {
    let row = row_of(hole);
    let col = col_of(hole);
    let end_row = row + 2 * step_row(dir);
    let end_col = col + 2 * step_col(dir);
    if on_board(end_row, end_col) {
        Some(
            move_of(
                hole,
                hole_at(row + step_row(dir), col + step_col(dir)),
                hole_at(end_row, end_col),
            ),
        )
    } else {
        None
    }
}

/// The jumps from `hole` in the first `dirs` directions, in their order.
pub open spec fn jumps_from(hole: int, dirs: nat) -> Seq<Move>
    decreases dirs,
{
    if dirs == 0 {
        Seq::empty()
    } else {
        let earlier = jumps_from(hole, (dirs - 1) as nat);
        match jump_at(hole, dirs - 1) {
            Some(m) => earlier.push(m),
            None => earlier,
        }
    }
}

/// The jumps from the holes numbered below `hole`, in their order.
pub open spec fn jumps_before(hole: nat) -> Seq<Move>
    decreases hole,
{
    if hole == 0 {
        Seq::empty()
    } else {
        jumps_before((hole - 1) as nat) + jumps_from(hole - 1, 6)
    }
}

/// The move table.
pub open spec fn move_table() -> Seq<Move> {
    jumps_before(15)
}

/// The image of `m` when the board is mirrored.
pub open spec fn reflect_move(m: Move) -> Move {
    move_of(reflect(start_of(m)), reflect(skip_of(m)), reflect(end_of(m)))
}

/// The image of `m` when the board is turned.
pub open spec fn rotate_move(m: Move) -> Move {
    move_of(rotate(start_of(m)), rotate(skip_of(m)), rotate(end_of(m)))
}

/// A move made of three holes on a line is a jump, and its holes are those
/// it was made of.
pub proof fn lemma_move_of_line(a: int, b: int, c: int)
    requires
        in_line(a, b, c),
    ensures
        is_jump(move_of(a, b, c)),
        start_of(move_of(a, b, c)) == a,
        skip_of(move_of(a, b, c)) == b,
        end_of(move_of(a, b, c)) == c,
{
    lemma_hole_of_mask(a as nat);
    lemma_hole_of_mask(b as nat);
    lemma_hole_of_mask(c as nat);
}

/// A jump is a move: its three holes differ.
pub proof fn lemma_jump_is_move(m: Move)
    requires
        is_jump(m),
    ensures
        is_move(m),
{
}

/// What `jump_at` gives is a jump from that hole in that direction.
pub proof fn lemma_jump_at(hole: int, dir: int)
    requires
        is_hole(hole),
        0 <= dir < 6,
        jump_at(hole, dir) is Some,
    ensures
        is_jump(jump_at(hole, dir)->0),
        start_of(jump_at(hole, dir)->0) == hole,
        direction_of(jump_at(hole, dir)->0) == dir,
{
    let row = row_of(hole);
    let col = col_of(hole);
    lemma_position(hole);
    lemma_hole_at(row + step_row(dir), col + step_col(dir));
    lemma_hole_at(row + 2 * step_row(dir), col + 2 * step_col(dir));
    lemma_move_of_line(
        hole,
        hole_at(row + step_row(dir), col + step_col(dir)),
        hole_at(row + 2 * step_row(dir), col + 2 * step_col(dir)),
    );
}

/// Every jump is the one that `jump_at` gives for its first hole and its
/// direction.
pub proof fn lemma_jump_found(m: Move)
    requires
        is_jump(m),
    ensures
        is_hole(start_of(m)),
        0 <= direction_of(m) < 6,
        jump_at(start_of(m), direction_of(m)) == Some(m),
{
    lemma_mask_of_hole(m.0);
    lemma_mask_of_hole(m.1);
    lemma_mask_of_hole(m.2);
    lemma_position(start_of(m));
    lemma_position(skip_of(m));
    lemma_position(end_of(m));
}

/// The jumps listed for one hole are the jumps that start there, in the
/// order of their directions.
pub proof fn lemma_jumps_from(hole: int, dirs: nat)
    requires
        is_hole(hole),
        dirs <= 6,
    ensures
        forall|m: Move|
            #![trigger jumps_from(hole, dirs).contains(m)]
            jumps_from(hole, dirs).contains(m) <==> is_jump(m) && start_of(m) == hole
                && direction_of(m) < dirs,
        forall|i: int, j: int|
            0 <= i < j < jumps_from(hole, dirs).len() ==> direction_of(jumps_from(hole, dirs)[i])
                < direction_of(jumps_from(hole, dirs)[j]),
    decreases dirs,
{
    broadcast use lemma_seq_contains_after_push;

    let listed = jumps_from(hole, dirs);
    if dirs > 0 {
        let earlier = jumps_from(hole, (dirs - 1) as nat);
        lemma_jumps_from(hole, (dirs - 1) as nat);
        if jump_at(hole, dirs - 1) is Some {
            lemma_jump_at(hole, dirs - 1);
        }
        assert forall|m: Move| #![trigger listed.contains(m)] listed.contains(m) <==> is_jump(m)
            && start_of(m) == hole && direction_of(m) < dirs by {
            if is_jump(m) {
                lemma_jump_found(m);
            }
        }
        assert forall|i: int, j: int| 0 <= i < j < listed.len() implies direction_of(listed[i])
            < direction_of(listed[j]) by {
            if j == earlier.len() {
                assert(earlier.contains(earlier[i]));
            }
        }
    } else {
        assert forall|m: Move| #![trigger listed.contains(m)] !listed.contains(m) by {
            if is_jump(m) {
                lemma_jump_found(m);
            }
        }
    }
}

/// Up to any hole the table lists exactly the jumps that start before it,
/// each once, by hole and direction.
pub proof fn lemma_jumps_before(hole: nat)
    requires
        hole <= 15,
    ensures
        forall|m: Move|
            #![trigger jumps_before(hole).contains(m)]
            jumps_before(hole).contains(m) <==> is_jump(m) && start_of(m) < hole,
        forall|i: int, j: int|
            0 <= i < j < jumps_before(hole).len() ==> rank(jumps_before(hole)[i]) < rank(
                jumps_before(hole)[j],
            ),
    decreases hole,
{
    broadcast use lemma_seq_concat_contains_all_elements;

    let listed = jumps_before(hole);
    if hole > 0 {
        let earlier = jumps_before((hole - 1) as nat);
        let here = jumps_from(hole - 1, 6);
        lemma_jumps_before((hole - 1) as nat);
        lemma_jumps_from(hole - 1, 6);
        assert forall|m: Move| #![trigger listed.contains(m)] listed.contains(m) <==> is_jump(m)
            && start_of(m) < hole by {
            if is_jump(m) {
                lemma_jump_found(m);
            }
        }
        assert forall|i: int, j: int| 0 <= i < j < listed.len() implies rank(listed[i]) < rank(
            listed[j],
        ) by {
            if i < earlier.len() {
                assert(earlier.contains(earlier[i]));
                lemma_jump_found(earlier[i]);
            } else {
                assert(here.contains(here[i - earlier.len()]));
            }
            if j >= earlier.len() {
                assert(here.contains(here[j - earlier.len()]));
                lemma_jump_found(here[j - earlier.len()]);
            }
        }
    }
}

/// Four jumps start from the middle hole of each side, two from every other
/// hole.
pub proof fn lemma_jumps_from_len(hole: int)
    requires
        is_hole(hole),
    ensures
        jumps_from(hole, 6).len() == if hole == 3 || hole == 5 || hole == 12 {
            4nat
        } else {
            2nat
        },
{
    reveal_with_fuel(jumps_from, 7);
    lemma_row_starts();
}

/// The move table holds thirty-six moves, no move twice, and a move is in
/// it exactly if it is a jump of the board. The jumps stand in the order of
/// the holes they start from, those from one hole in the order of their
/// directions.
pub proof fn lemma_move_table()
    ensures
        move_table().len() == 36,
        move_table().no_duplicates(),
        forall|m: Move| #![trigger move_table().contains(m)] move_table().contains(m) <==> is_jump(m),
        forall|i: int| 0 <= i < move_table().len() ==> is_move(#[trigger] move_table()[i]),
        forall|i: int, j: int|
            0 <= i < j < move_table().len() ==> rank(move_table()[i]) < rank(move_table()[j]),
{
    let table = move_table();
    lemma_jumps_before(15);
    assert forall|m: Move| #![trigger table.contains(m)] table.contains(m) <==> is_jump(m) by {
        if is_jump(m) {
            lemma_jump_found(m);
        }
    }
    assert forall|i: int| 0 <= i < table.len() implies is_move(#[trigger] table[i]) by {
        assert(table.contains(table[i]));
        lemma_jump_is_move(table[i]);
    }
    assert(table.len() == 36) by {
        reveal_with_fuel(jumps_before, 16);
        lemma_jumps_from_len(0);
        lemma_jumps_from_len(1);
        lemma_jumps_from_len(2);
        lemma_jumps_from_len(3);
        lemma_jumps_from_len(4);
        lemma_jumps_from_len(5);
        lemma_jumps_from_len(6);
        lemma_jumps_from_len(7);
        lemma_jumps_from_len(8);
        lemma_jumps_from_len(9);
        lemma_jumps_from_len(10);
        lemma_jumps_from_len(11);
        lemma_jumps_from_len(12);
        lemma_jumps_from_len(13);
        lemma_jumps_from_len(14);
    }
}

/// The move table is the same for every way of laying the board down: the
/// image of a listed move under the mirroring and under the turning of the
/// board is listed too.
pub proof fn lemma_table_symmetric(m: Move)
    requires
        move_table().contains(m),
    ensures
        move_table().contains(reflect_move(m)),
        move_table().contains(rotate_move(m)),
{
    lemma_move_table();
    lemma_symmetries_keep_lines(start_of(m), skip_of(m), end_of(m));
    lemma_move_of_line(reflect(start_of(m)), reflect(skip_of(m)), reflect(end_of(m)));
    lemma_move_of_line(rotate(start_of(m)), rotate(skip_of(m)), rotate(end_of(m)));
}

/// The step `(dr, dc)` of direction `dir`.
fn direction(dir: u32) -> (step: (i32, i32))
    requires
        dir < 6,
    ensures
        step.0 == step_row(dir as int),
        step.1 == step_col(dir as int),
{
    if dir == 0 {
        (-1, -1)
    } else if dir == 1 {
        (-1, 0)
    } else if dir == 2 {
        (0, -1)
    } else if dir == 3 {
        (0, 1)
    } else if dir == 4 {
        (1, 0)
    } else {
        (1, 1)
    }
}

/// The mask of the hole at `(row, col)`.
fn mask_at(row: i32, col: i32) -> (mask: u16)
    requires
        on_board(row as int, col as int),
    ensures
        mask == mask_of(hole_at(row as int, col as int) as nat),
{
    proof {
        lemma_row_starts();
        lemma_hole_at(row as int, col as int);
        assert(0 <= row * (row + 1) <= 20) by (nonlinear_arith)
            requires
                0 <= row <= 4,
        ;
    }
    let hole: i32 = row * (row + 1) / 2 + col;
    hole_mask(hole as u32)
}

/// Builds the move table: for each hole, row by row, and each of the six
/// directions, the jump from that hole in that direction where the board
/// has room for it.
pub fn generate_possible_moves() -> (moves: Vec<Move>)
    ensures
        moves@ == move_table(),
        moves@.len() == JUMPS,
        moves@.no_duplicates(),
        forall|m: Move| #![trigger moves@.contains(m)] moves@.contains(m) <==> is_jump(m),
        forall|i: int| 0 <= i < moves@.len() ==> is_move(#[trigger] moves@[i]),
        forall|i: int, j: int| 0 <= i < j < moves@.len() ==> rank(moves@[i]) < rank(moves@[j]),
{
    let mut moves: Vec<Move> = Vec::new();
    let mut row: i32 = 0;
    proof {
        lemma_row_starts();
    }
    while row < 5
        invariant
            0 <= row <= 5,
            moves@ == jumps_before(row_start(row as int) as nat),
        decreases 5 - row,
    {
        let mut col: i32 = 0;
        while col <= row
            invariant
                0 <= row < 5,
                0 <= col <= row + 1,
                moves@ == jumps_before(hole_at(row as int, col as int) as nat),
            decreases row + 1 - col,
        {
            let ghost hole = hole_at(row as int, col as int);
            let ghost before = moves@;
            let mut dir: u32 = 0;
            proof {
                lemma_hole_at(row as int, col as int);
            }
            while dir < DIRECTIONS
                invariant
                    on_board(row as int, col as int),
                    hole == hole_at(row as int, col as int),
                    dir <= 6,
                    before == jumps_before(hole as nat),
                    moves@ == before + jumps_from(hole, dir as nat),
                decreases 6 - dir,
            {
                let step = direction(dir);
                let end_row: i32 = row + 2 * step.0;
                let end_col: i32 = col + 2 * step.1;
                proof {
                    lemma_hole_at(row as int, col as int);
                }
                if 0 <= end_col && end_col <= end_row && end_row <= 4 {
                    let m: Move = (
                        mask_at(row, col),
                        mask_at(row + step.0, col + step.1),
                        mask_at(end_row, end_col),
                    );
                    moves.push(m);
                    assert(jump_at(hole, dir as int) == Some(m));
                }
                dir = dir + 1;
                assert(moves@ =~= before + jumps_from(hole, dir as nat));
            }
            col = col + 1;
            proof {
                lemma_row_starts();
                assert(hole_at(row as int, col as int) == hole + 1);
            }
        }
        row = row + 1;
        proof {
            lemma_row_starts();
        }
    }
    proof {
        lemma_row_starts();
        lemma_move_table();
    }
    moves
}

} // verus!
