//! A solver core for Wordle-style word puzzles.
//!
//! Given a weighted lexicon (a mapping from word to weight) and a list of
//! constraints — each a previously tried guess together with the feedback
//! pattern it produced — the library filters the lexicon down to the words
//! consistent with every constraint, and can order the survivors by weight.
//!
//! The feedback scorer, the pattern matcher and the candidate filter are all
//! verified: their contracts state exactly which feedback vector a guess
//! receives against a target, when a digit pattern matches a vector, and
//! which entries of the lexicon survive a constraint list.

pub mod score;
pub mod lexicon;
pub mod candidate;
