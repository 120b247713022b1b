//! Context analysis of confusable English words.
//!
//! Builds the query for the Google Books Ngram JSON endpoint, turns the
//! endpoint's wildcard expansions into context rows, groups them into a
//! family tree annotated with parts of speech from Harper's curated
//! dictionary, and compares the contexts of two or three families with set
//! operations.
use vstd::prelude::*;

pub mod text;
pub mod pos;
pub mod lexicon;
pub mod cli;
pub mod ngram;
pub mod tree;
pub mod compare;
pub mod table;

verus! {
} // verus!
