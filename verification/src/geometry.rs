//! Where the holes lie: rows and columns of the triangle, which holes are
//! neighbours on a line, and the rotations and reflections of the board.
//!
//! Row `r` holds the `r + 1` holes whose numbers start at `r * (r + 1) / 2`;
//! column `c` of a row is its `c`-th hole from the left.

use vstd::prelude::*;

verus! {

/// `hole` is the number of one of the fifteen holes.
pub open spec fn is_hole(hole: int) -> bool {
    0 <= hole < 15
}

/// Number of the leftmost hole of row `row`.
pub open spec fn row_start(row: int) -> int {
    row * (row + 1) / 2
}

/// `(row, col)` is a position of the triangle.
pub open spec fn on_board(row: int, col: int) -> bool {
    0 <= col && col <= row && row <= 4
}

/// Number of the hole at `(row, col)`.
pub open spec fn hole_at(row: int, col: int) -> int {
    row_start(row) + col
}

/// Row of hole `hole`.
pub open spec fn row_of(hole: int) -> int {
    if hole < row_start(1) {
        0
    } else if hole < row_start(2) {
        1
    } else if hole < row_start(3) {
        2
    } else if hole < row_start(4) {
        3
    } else {
        4
    }
}

/// Column of hole `hole` in its row.
pub open spec fn col_of(hole: int) -> int {
    hole - row_start(row_of(hole))
}

/// `(dr, dc)` leads from a position to one of its six neighbours: along the
/// row, or along one of the two slanted sides of the triangle.
pub open spec fn is_step(dr: int, dc: int) -> bool {
    ||| dr == 0 && (dc == 1 || dc == -1)
    ||| dc == 0 && (dr == 1 || dr == -1)
    ||| dr == dc && (dr == 1 || dr == -1)
}

/// The holes `a`, `b`, `c` follow each other on one line of the board: `b`
/// is a neighbour of `a`, and `c` lies as far beyond `b` in the same
/// direction.
pub open spec fn in_line(a: int, b: int, c: int) -> bool {
    &&& is_hole(a)
    &&& is_hole(b)
    &&& is_hole(c)
    &&& is_step(row_of(b) - row_of(a), col_of(b) - col_of(a))
    &&& row_of(c) - row_of(b) == row_of(b) - row_of(a)
    &&& col_of(c) - col_of(b) == col_of(b) - col_of(a)
}

/// The hole that `hole` comes to lie on when the board is mirrored about its
/// vertical axis.
pub open spec fn reflect(hole: int) -> int {
    hole_at(row_of(hole), row_of(hole) - col_of(hole))
}

/// The hole that `hole` comes to lie on when the board is turned by a third
/// of a full turn, the top corner going to the bottom right.
pub open spec fn rotate(hole: int) -> int {
    hole_at(4 - row_of(hole) + col_of(hole), 4 - row_of(hole))
}

/// `b` is the image of `a` under one of the six symmetries of the triangle.
pub open spec fn is_image(a: int, b: int) -> bool {
    ||| b == a
    ||| b == rotate(a)
    ||| b == rotate(rotate(a))
    ||| b == reflect(a)
    ||| b == rotate(reflect(a))
    ||| b == rotate(rotate(reflect(a)))
}

/// The first holes of the rows.
pub proof fn lemma_row_starts()
    ensures
        row_start(0) == 0,
        row_start(1) == 1,
        row_start(2) == 3,
        row_start(3) == 6,
        row_start(4) == 10,
        row_start(5) == 15,
{
}

/// Every position is a hole, and its row and column are those it was made
/// from.
pub proof fn lemma_hole_at(row: int, col: int)
    requires
        on_board(row, col),
    ensures
        is_hole(hole_at(row, col)),
        row_of(hole_at(row, col)) == row,
        col_of(hole_at(row, col)) == col,
{
    lemma_row_starts();
}

/// Every hole has a position, and is the hole at that position.
pub proof fn lemma_position(hole: int)
    requires
        is_hole(hole),
    ensures
        on_board(row_of(hole), col_of(hole)),
        hole_at(row_of(hole), col_of(hole)) == hole,
{
    lemma_row_starts();
}

/// Mirroring the board maps holes to holes, and doing it twice maps every
/// hole to itself.
pub proof fn lemma_reflect(hole: int)
    requires
        is_hole(hole),
    ensures
        is_hole(reflect(hole)),
        row_of(reflect(hole)) == row_of(hole),
        col_of(reflect(hole)) == row_of(hole) - col_of(hole),
        reflect(reflect(hole)) == hole,
{
    lemma_position(hole);
    lemma_hole_at(row_of(hole), row_of(hole) - col_of(hole));
}

/// Turning the board maps holes to holes, and three turns map every hole to
/// itself.
pub proof fn lemma_rotate(hole: int)
    requires
        is_hole(hole),
    ensures
        is_hole(rotate(hole)),
        row_of(rotate(hole)) == 4 - row_of(hole) + col_of(hole),
        col_of(rotate(hole)) == 4 - row_of(hole),
        rotate(rotate(rotate(hole))) == hole,
{
    lemma_position(hole);
    lemma_hole_at(4 - row_of(hole) + col_of(hole), 4 - row_of(hole));
    let once = rotate(hole);
    lemma_hole_at(4 - row_of(once) + col_of(once), 4 - row_of(once));
    let twice = rotate(once);
    lemma_hole_at(4 - row_of(twice) + col_of(twice), 4 - row_of(twice));
}

/// A line of three holes is mapped to a line of three holes by mirroring and
/// by turning the board.
pub proof fn lemma_symmetries_keep_lines(a: int, b: int, c: int)
    requires
        in_line(a, b, c),
    ensures
        in_line(reflect(a), reflect(b), reflect(c)),
        in_line(rotate(a), rotate(b), rotate(c)),
{
    lemma_reflect(a);
    lemma_reflect(b);
    lemma_reflect(c);
    lemma_rotate(a);
    lemma_rotate(b);
    lemma_rotate(c);
}

/// Every hole is the image of hole 0, 1, 3 or 4 under a symmetry of the
/// board: a corner, a hole next to a corner, the middle of a side, or one of
/// the three inner holes.
pub proof fn lemma_four_kinds_of_holes(hole: int)
    requires
        is_hole(hole),
    ensures
        is_image(0, hole) || is_image(1, hole) || is_image(3, hole) || is_image(4, hole),
{
    lemma_row_starts();
    lemma_rotate(0);
    lemma_rotate(rotate(0));
    lemma_rotate(1);
    lemma_rotate(rotate(1));
    lemma_reflect(1);
    lemma_rotate(reflect(1));
    lemma_rotate(rotate(reflect(1)));
    lemma_rotate(3);
    lemma_rotate(rotate(3));
    lemma_rotate(4);
    lemma_rotate(rotate(4));
    lemma_position(rotate(0));
    lemma_position(rotate(rotate(0)));
    lemma_position(rotate(1));
    lemma_position(rotate(rotate(1)));
    lemma_position(reflect(1));
    lemma_position(rotate(reflect(1)));
    lemma_position(rotate(rotate(reflect(1))));
    lemma_position(rotate(3));
    lemma_position(rotate(rotate(3)));
    lemma_position(rotate(4));
    lemma_position(rotate(rotate(4)));
}

} // verus!
