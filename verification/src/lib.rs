//! Exhaustive enumeration of the play-throughs of the fifteen-hole triangular
//! peg solitaire board.

pub mod board;
pub mod geometry;
pub mod table;
pub mod search;
pub mod run;
