//! A Wordle-style word-guessing assistant.
//!
//! The library keeps a dictionary of five-letter candidate words and narrows
//! it down as feedback from successive guesses arrives.  Feedback is folded
//! into four constraint sets (confirmed positions, per-position exclusions,
//! absent letters, and a multiset of letters still owed), the constraints are
//! compiled into a validity predicate, the dictionary retains only words that
//! pass it, and the survivors are ranked by per-position letter frequency.

pub mod letter;
pub mod counting;
pub mod order;
pub mod aggregate;
pub mod engine;
pub mod valid;
pub mod freq;
pub mod laws;
