//! The analysis and search core of a personal document store. Documents are
//! split into words, the words are stemmed and indexed by their ordinal
//! positions, queries select documents by the terms that they must and must
//! not hold, and every match is shown as an excerpt of the words around it.

// Texts, numbers and what other crates compute.
pub mod error;
pub mod text;
pub mod numbers;
pub mod segment;
pub mod stem;
pub mod ids;
pub mod time;

// Documents and their analysis.
pub mod analysis;
pub mod attachment;
pub mod fragments;
pub mod doc;
pub mod header;
pub mod naming;
pub mod render;
pub mod excerpt;

// The index and the search.
pub mod positions;
pub mod index;
pub mod search;
pub mod present;
pub mod listing;

// What holds of the functions above.
pub mod laws;
