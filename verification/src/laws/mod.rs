//! What holds of all texts and all vocabularies.
pub mod basics;
pub mod casing;
pub mod chaining;
pub mod coverage;
pub mod cutting;
pub mod decoding;
pub mod language;
pub mod lookup;
pub mod pieces;
pub mod saving;
pub mod segmentation;
pub mod sequence;
pub mod spacing;
pub mod spelling;
pub mod tokens;
pub mod vocabulary;
pub mod words;
