//! The synonym sites and the reading of their answers.
pub mod base;
pub mod thesaurus;
pub mod thesaurus2;
pub mod merriam_webster;
