//! Exhaustive search for five five-letter words that share no letter.
//!
//! Words are reduced to 26-bit letter sets, anagrams are folded into one
//! corpus entry, and a depth-five backtracking search with an ordering rule
//! and a store of known dead ends enumerates every combination.

pub mod letters;
pub mod words;
pub mod dead_ends;
pub mod candidates;
pub mod model;
pub mod possible;
pub mod frontier;
pub mod search;
pub mod corpus;
pub mod expand;
pub mod solver;
pub mod laws;
