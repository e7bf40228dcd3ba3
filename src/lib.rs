//! In-memory, typo-tolerant prefix search over a text corpus: a positional
//! index of every word, exact lookup, completion ranked by frequency, and
//! completion within a bounded edit distance.
use vstd::prelude::*;

pub mod text;
pub mod normalize;
pub mod levenshtein;
pub mod completions;
pub mod corpus;
pub mod selection;
pub mod index;
