//! The offline pipeline: reading the dump, counting words, and building the
//! correlation matrix.
pub mod correlation;
pub mod error;
pub mod frequency;
pub mod read;
pub mod wikitext;
