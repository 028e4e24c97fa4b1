//! A single-label text classifier that accumulates per-label term counts
//! and picks the label whose counts best explain a query.
//!
//! Texts reach the library already normalized: a sequence of stemmed terms.

pub mod term_table;
pub mod classifier;
pub mod selection;

pub use classifier::NaiveBayesClassifier;
