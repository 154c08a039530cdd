//! Solver for numeric cryptogram puzzles: each puzzle token is a string of
//! digits, and the task is to assign letters to digits (the same digit always
//! taking the same letter, and each digit limited to a bounded number of
//! distinct letters) so that every token decodes to a dictionary word.
//!
//! The dictionary is indexed by a prefix tree ([`trie`]); the per-digit
//! letter bounds come from digit frequencies in the puzzle text
//! ([`capacity`]); partial assignments are checked against both
//! ([`validator`]); and a backtracking search drives placement cell by cell
//! ([`solver`]). The [`filtering`] module holds an alternative per-word
//! narrowing strategy that works without the search.

pub mod capacity;
pub mod filtering;
pub mod solver;
pub mod trie;
pub mod validator;
