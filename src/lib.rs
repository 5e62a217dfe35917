//! Mines n-gram frequencies from a markup-annotated text corpus and seals
//! them into a compact, prefix-searchable index for predictive text.
//!
//! The pipeline runs: `corpus` (pull-parse events to article texts), `markup`
//! (strip templates and link delimiters), `segment` (sentences), `tokenize`
//! (surface tokens), `ngram` (windowed counting, pruning, filtering and
//! scoring), `index` (sealing and querying the sorted transducer).
use vstd::prelude::*;

pub mod corpus;
pub mod index;
pub mod keys;
pub mod markup;
pub mod ngram;
pub mod segment;
pub mod text;
pub mod tokenize;
pub mod utf8_order;

verus! {

} // verus!
