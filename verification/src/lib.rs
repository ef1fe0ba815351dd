//! A solver for the Star Battle logic puzzle.
//!
//! An `N`x`N` grid is partitioned into `N` labelled regions; a solution
//! places exactly `K` stars in every row, every column and every region so
//! that no two stars touch, not even diagonally.  The crate holds the puzzle
//! model ([`stargrid`]), the constraint-propagating backtracking search
//! ([`solver`]) and the counting theory their contracts are stated in
//! ([`counting`]).

pub mod counting;
pub mod solver;
pub mod stargrid;
