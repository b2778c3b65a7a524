//! Naive Bayes spam classification with exact arithmetic.
//!
//! Raw text is normalised into tokens (`text`, `stop_words`, `stemmer`). A
//! corpus of labelled documents (`document`) is counted class by class
//! (`table`, `word_classifier`); the counts give smoothed word probabilities
//! as exact fractions (`probability`), and these give the decision between
//! the two classes (`email_classifier`). Scores are products of fractions
//! over natural numbers of any size (`bignat`), so that a long document
//! cannot make them underflow. What training and classification give is
//! stated in mathematical terms in `model`.

pub mod bignat;
pub mod document;
pub mod email_classifier;
pub mod model;
pub mod probability;
pub mod stemmer;
pub mod stop_words;
pub mod table;
pub mod text;
pub mod word_classifier;
