//! A solver core for a Wordle-style word puzzle.
//!
//! The library models what is known about a hidden five-letter answer as a
//! `WordleStatus`: one set of still-possible letters per position plus a set
//! of letters the answer must contain. It filters candidate answers against
//! that knowledge and scores every allowed guess by the total number of
//! candidates that would remain, picking the guess that narrows the field
//! the most.

pub mod letters;
pub mod words;
pub mod state;
pub mod search;
pub mod laws;

pub use words::{parse_word_list, Word, WordleError};
pub use state::{WordlePosition, WordleStatus};
pub use search::BestGuess;
