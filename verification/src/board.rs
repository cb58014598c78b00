//! The board as a bit set, one bit per hole, and the effect of a jump on it.
//!
//! Holes are numbered row by row:
//!
//! ```text
//!         0
//!       1   2
//!     3   4   5
//!   6   7   8   9
//! 10  11  12  13  14
//! ```
//!
//! Bit `i` of a board is set exactly when hole `i` holds a peg. Bit 15 stands
//! for no hole and is clear on every board of the game.

use vstd::prelude::*;

verus! {

/// A jump as three single-bit masks: the hole the peg leaves, the hole it
/// jumps over and the hole it lands in.
pub type Move = (u16, u16, u16);

/// Number of holes on the board.
pub const HOLES: u32 = 15;

/// The board with a peg in every hole.
pub const FULL_BOARD: u16 = 0x7fff;

/// The mask whose only set bit is bit `hole`.
pub open spec fn mask_of(hole: nat) -> u16 {
    1u16 << hole
}

/// `mask` is the mask of one of the fifteen holes.
pub open spec fn is_hole_mask(mask: u16) -> bool {
    exists|hole: nat| hole < 15 && #[trigger] mask_of(hole) == mask
}

/// The bit position that `mask` stands for, where it has exactly one bit set.
pub open spec fn hole_of(mask: u16) -> nat {
    choose|hole: nat| hole < 16 && #[trigger] mask_of(hole) == mask
}

/// Hole `hole` of `board` holds a peg.
pub open spec fn has_peg(board: u16, hole: nat) -> bool {
    board & mask_of(hole) != 0
}

/// Number of pegs in the holes numbered below `n`.
pub open spec fn pegs_below(board: u16, n: nat) -> nat
    decreases n,
{
    if n == 0 {
        0
    } else {
        pegs_below(board, (n - 1) as nat) + if has_peg(board, (n - 1) as nat) {
            1nat
        } else {
            0nat
        }
    }
}

/// Number of set bits of `board`.
pub open spec fn peg_count(board: u16) -> nat {
    pegs_below(board, 16)
}

/// `board` keeps the bit that stands for no hole clear.
pub open spec fn is_board(board: u16) -> bool {
    board & 0x8000 == 0
}

/// The three masks name three different holes.
pub open spec fn is_move(m: Move) -> bool {
    &&& is_hole_mask(m.0)
    &&& is_hole_mask(m.1)
    &&& is_hole_mask(m.2)
    &&& m.0 != m.1
    &&& m.0 != m.2
    &&& m.1 != m.2
}

/// The jump can be played on `board`: the first two holes hold a peg and the
/// third is empty.
pub open spec fn is_legal(board: u16, m: Move) -> bool {
    &&& board & m.0 != 0
    &&& board & m.1 != 0
    &&& board & m.2 == 0
}

/// The board once the jump is played: the first two holes are emptied, the
/// third is filled, every other hole is left as it was.
pub open spec fn after_move(board: u16, m: Move) -> u16 {
    ((board & !m.0) & !m.1) | m.2
}

proof fn lemma_mask_bits(i: u16, j: u16)
    by (bit_vector)
    requires
        i < 16,
        j < 16,
    ensures
        (1u16 << i) != 0,
        i < 15 ==> (1u16 << i) < 0x8000,
        i != j ==> (1u16 << i) & (1u16 << j) == 0,
        i != j ==> (1u16 << i) != (1u16 << j),
{
}

/// Different holes have different masks, and `hole_of` undoes `mask_of`.
pub proof fn lemma_hole_of_mask(hole: nat)
    requires
        hole < 16,
    ensures
        hole_of(mask_of(hole)) == hole,
        mask_of(hole) != 0,
        hole < 15 ==> is_hole_mask(mask_of(hole)),
{
    let found = hole_of(mask_of(hole));
    assert(found < 16 && mask_of(found) == mask_of(hole));
    lemma_mask_bits(hole as u16, found as u16);
}

/// A hole mask is the mask of the hole that `hole_of` gives for it.
pub proof fn lemma_mask_of_hole(mask: u16)
    requires
        is_hole_mask(mask),
    ensures
        hole_of(mask) < 15,
        mask_of(hole_of(mask)) == mask,
{
    let hole = choose|hole: nat| hole < 15 && #[trigger] mask_of(hole) == mask;
    lemma_hole_of_mask(hole);
}

proof fn lemma_bit_after_jump(board: u16, a: u16, b: u16, c: u16, h: u16)
    by (bit_vector)
    requires
        a < 16,
        b < 16,
        c < 16,
        h < 16,
        a != b,
        a != c,
        b != c,
    ensures
        ((((board & !(1u16 << a)) & !(1u16 << b)) | (1u16 << c)) & (1u16 << h) != 0) == (h != a
            && h != b && (h == c || board & (1u16 << h) != 0)),
{
}

proof fn lemma_jump_arithmetic(board: u16, a: u16, b: u16, c: u16)
    by (bit_vector)
    requires
        a < 15,
        b < 15,
        c < 15,
        a != b,
        a != c,
        b != c,
    ensures
        (1u16 << a) + (1u16 << b) + (1u16 << c) < 0x8000,
        (board & (((1u16 << a) + (1u16 << b) + (1u16 << c)) as u16) == (1u16 << a) + (1u16 << b))
            == (board & (1u16 << a) != 0 && board & (1u16 << b) != 0 && board & (1u16 << c) == 0),
        (board & (1u16 << a) != 0 && board & (1u16 << b) != 0 && board & (1u16 << c) == 0) ==> {
            &&& board >= (1u16 << a)
            &&& board - (1u16 << a) >= (1u16 << b)
            &&& board - (1u16 << a) - (1u16 << b) + (1u16 << c) <= 0xffff
            &&& board - (1u16 << a) - (1u16 << b) + (1u16 << c) == (((board & !(1u16 << a)) & !(
            1u16 << b)) | (1u16 << c))
        },
        board & 0x8000 == 0 ==> (((board & !(1u16 << a)) & !(1u16 << b)) | (1u16 << c)) & 0x8000
            == 0,
{
}

/// The sum of the three masks of a move is the mask of its three holes, and
/// comparing the board under it with the sum of the first two tells whether
/// the move is legal.
pub proof fn lemma_legal_test(board: u16, m: Move)
    requires
        is_move(m),
    ensures
        m.0 + m.1 + m.2 < 0x8000,
        (board & ((m.0 + m.1 + m.2) as u16) == m.0 + m.1) == is_legal(board, m),
{
    lemma_mask_of_hole(m.0);
    lemma_mask_of_hole(m.1);
    lemma_mask_of_hole(m.2);
    lemma_jump_arithmetic(board, hole_of(m.0) as u16, hole_of(m.1) as u16, hole_of(m.2) as u16);
}

/// Playing a legal move is the same as subtracting the first two masks from
/// the board and adding the third, and neither step leaves the range of `u16`.
pub proof fn lemma_move_arithmetic(board: u16, m: Move)
    requires
        is_move(m),
        is_legal(board, m),
    ensures
        board >= m.0,
        board - m.0 >= m.1,
        board - m.0 - m.1 + m.2 <= u16::MAX,
        board - m.0 - m.1 + m.2 == after_move(board, m),
        is_board(board) ==> is_board(after_move(board, m)),
{
    lemma_mask_of_hole(m.0);
    lemma_mask_of_hole(m.1);
    lemma_mask_of_hole(m.2);
    lemma_jump_arithmetic(board, hole_of(m.0) as u16, hole_of(m.1) as u16, hole_of(m.2) as u16);
}

/// What a move does to each hole: it empties the first two, fills the third
/// and leaves the others alone.
pub proof fn lemma_holes_after_move(board: u16, m: Move, hole: nat)
    requires
        is_move(m),
        hole < 16,
    ensures
        has_peg(after_move(board, m), hole) == (hole != hole_of(m.0) && hole != hole_of(m.1) && (
        hole == hole_of(m.2) || has_peg(board, hole))),
{
    lemma_mask_of_hole(m.0);
    lemma_mask_of_hole(m.1);
    lemma_mask_of_hole(m.2);
    lemma_bit_after_jump(
        board,
        hole_of(m.0) as u16,
        hole_of(m.1) as u16,
        hole_of(m.2) as u16,
        hole as u16,
    );
}

proof fn lemma_pegs_below_after_move(board: u16, m: Move, n: nat)
    requires
        is_move(m),
        is_legal(board, m),
        n <= 16,
    ensures
        pegs_below(after_move(board, m), n) + (if hole_of(m.0) < n {
            1nat
        } else {
            0nat
        }) + (if hole_of(m.1) < n {
            1nat
        } else {
            0nat
        }) == pegs_below(board, n) + (if hole_of(m.2) < n {
            1nat
        } else {
            0nat
        }),
    decreases n,
{
    lemma_mask_of_hole(m.0);
    lemma_mask_of_hole(m.1);
    lemma_mask_of_hole(m.2);
    if n > 0 {
        lemma_pegs_below_after_move(board, m, (n - 1) as nat);
        lemma_holes_after_move(board, m, (n - 1) as nat);
    }
}

/// A legal move leaves exactly one peg fewer on the board.
pub proof fn lemma_move_removes_one_peg(board: u16, m: Move)
    requires
        is_move(m),
        is_legal(board, m),
    ensures
        peg_count(after_move(board, m)) + 1 == peg_count(board),
{
    lemma_mask_of_hole(m.0);
    lemma_mask_of_hole(m.1);
    lemma_mask_of_hole(m.2);
    lemma_pegs_below_after_move(board, m, 16);
}

/// No more pegs than holes counted.
pub proof fn lemma_pegs_below_bound(board: u16, n: nat)
    ensures
        pegs_below(board, n) <= n,
    decreases n,
{
    if n > 0 {
        lemma_pegs_below_bound(board, (n - 1) as nat);
    }
}

/// A hole that holds a peg is counted.
pub proof fn lemma_peg_is_counted(board: u16, hole: nat, n: nat)
    requires
        hole < n,
        has_peg(board, hole),
    ensures
        pegs_below(board, n) >= 1,
    decreases n,
{
    if n - 1 > hole {
        lemma_peg_is_counted(board, hole, (n - 1) as nat);
    }
}

proof fn lemma_one_bit(mask: u16)
    by (bit_vector)
    requires
        mask != 0,
        mask & ((mask - 1) as u16) == 0,
        mask < 0x8000,
    ensures
        mask == 1u16 << 0u16 || mask == 1u16 << 1u16 || mask == 1u16 << 2u16 || mask == 1u16
            << 3u16 || mask == 1u16 << 4u16 || mask == 1u16 << 5u16 || mask == 1u16 << 6u16
            || mask == 1u16 << 7u16 || mask == 1u16 << 8u16 || mask == 1u16 << 9u16 || mask
            == 1u16 << 10u16 || mask == 1u16 << 11u16 || mask == 1u16 << 12u16 || mask == 1u16
            << 13u16 || mask == 1u16 << 14u16,
{
}

proof fn lemma_bit_alone(hole: u16)
    by (bit_vector)
    requires
        hole < 15,
    ensures
        (1u16 << hole) != 0,
        (1u16 << hole) & (((1u16 << hole) - 1) as u16) == 0,
        (1u16 << hole) < 0x8000,
{
}

/// The hole masks are the masks below the bit of no hole that have one bit
/// set: taking one from such a mask leaves no bit in common with it.
pub proof fn lemma_hole_mask_test(mask: u16)
    ensures
        is_hole_mask(mask) == (mask != 0 && mask & ((mask - 1) as u16) == 0 && mask < 0x8000),
{
    if is_hole_mask(mask) {
        lemma_mask_of_hole(mask);
        lemma_bit_alone(hole_of(mask) as u16);
    }
    if mask != 0 && mask & ((mask - 1) as u16) == 0 && mask < 0x8000 {
        lemma_one_bit(mask);
        assert(mask == mask_of(0) || mask == mask_of(1) || mask == mask_of(2) || mask == mask_of(3)
            || mask == mask_of(4) || mask == mask_of(5) || mask == mask_of(6) || mask == mask_of(7)
            || mask == mask_of(8) || mask == mask_of(9) || mask == mask_of(10) || mask == mask_of(
            11,
        ) || mask == mask_of(12) || mask == mask_of(13) || mask == mask_of(14));
    }
}

/// Tells whether `mask` is the mask of a hole.
pub fn check_hole_mask(mask: u16) -> (ok: bool)
    ensures
        ok == is_hole_mask(mask),
{
    proof {
        lemma_hole_mask_test(mask);
    }
    mask != 0 && mask < 0x8000 && mask & (mask - 1) == 0
}

/// Tells whether `m` is a move: three masks of three different holes.
pub fn check_move(m: Move) -> (ok: bool)
    ensures
        ok == is_move(m),
{
    check_hole_mask(m.0) && check_hole_mask(m.1) && check_hole_mask(m.2) && m.0 != m.1 && m.0
        != m.2 && m.1 != m.2
}

/// Tells whether `m` can be played on `board`.
pub fn check_legal(board: u16, m: Move) -> (ok: bool)
    ensures
        ok == is_legal(board, m),
{
    board & m.0 != 0 && board & m.1 != 0 && board & m.2 == 0
}

/// The mask of hole `hole`.
pub fn hole_mask(hole: u32) -> (mask: u16)
    requires
        hole < HOLES,
    ensures
        mask == mask_of(hole as nat),
        is_hole_mask(mask),
{
    proof {
        lemma_hole_of_mask(hole as nat);
    }
    1u16 << hole
}

/// Counts the pegs on `board`.
pub fn count_pegs(board: u16) -> (count: u32)
    ensures
        count == peg_count(board),
        count <= 16,
{
    let mut count: u32 = 0;
    let mut hole: u32 = 0;
    while hole < 16
        invariant
            hole <= 16,
            count <= hole,
            count == pegs_below(board, hole as nat),
        decreases 16 - hole,
    {
        if board & (1u16 << hole) != 0 {
            count = count + 1;
        }
        hole = hole + 1;
    }
    count
}

/// Plays the move `(start, skip, end)` on `board` and returns the new board.
///
/// The pegs in `start` and `skip` go away and a peg appears in `end`; no
/// other hole changes.
pub fn make_move(board: u16, start: u16, skip: u16, end: u16) -> (next: u16)
    requires
        is_move((start, skip, end)),
        is_legal(board, (start, skip, end)),
    ensures
        next == after_move(board, (start, skip, end)),
        peg_count(next) + 1 == peg_count(board),
        is_board(board) ==> is_board(next),
{
    proof {
        lemma_move_arithmetic(board, (start, skip, end));
        lemma_move_removes_one_peg(board, (start, skip, end));
    }
    board - start - skip + end
}

} // verus!
