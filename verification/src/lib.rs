//! Unsupervised discovery of Korean word boundaries by cohesion scoring.
//!
//! The crate is layered bottom-up:
//!
//! - `jamo`: a Hangul syllable and its onset, nucleus and coda, both ways;
//! - `stream`: the jamo stream of a text, with the fallbacks for what is no
//!   syllable;
//! - `chunk`: a text cut into maximal runs of one character class;
//! - `expand`: the word candidates of one chunk;
//! - `table`: how often each candidate was observed;
//! - `score`: cohesion scores and their exact comparison;
//! - `model`: counting over a corpus, selection of one word for each chunk,
//!   and the vocabulary that results.

pub mod chunk;
pub mod expand;
pub mod jamo;
pub mod model;
pub mod score;
pub mod stream;
pub mod table;
