//! Solver for substitution-cipher puzzles: a prefix trie over the dictionary
//! and a backtracking search for a one-to-one assignment of letters to
//! cipher symbols under which every cipher word is a dictionary word.

pub mod solver;
pub mod trie;
