//! Rapid Automatic Keyword Extraction: ranks the candidate keyphrases of a
//! text by statistics of stopword-delimited word co-occurrence.
//!
//! A text is lowercased and cut into sentences; each sentence is split into
//! words, and the runs of words between stopwords are its candidate
//! phrases. A word scores its degree by its frequency, a phrase the sum of
//! the scores of its words, and the phrases are ranked by score.

pub mod ordered;
pub mod phrase_scores;
pub mod phrases;
pub mod rake;
pub mod rank;
pub mod score;
pub mod segment;
pub mod stopwords;
pub mod text;
pub mod word_scores;

pub use crate::rake::Rake;
pub use crate::score::{Score, WordStats};
pub use crate::stopwords::get_stopwords;
