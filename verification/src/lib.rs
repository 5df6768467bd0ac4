//! A tokenizer of mixed Vietnamese and English text, and its decoder.
//!
//! [`model::ViLLMModel`] cuts a text into words, tells the language of each, and makes tokens of
//! them: Vietnamese words by runs, in which neighbours may form compounds; English words as tokens
//! of their own or as pieces; everything that is not in the vocabulary as bytes.
//! [`decoder::ViLLMDecoder`] makes a text of tokens again.
//!
//! What a model does is stated over its vocabulary, in [`lexicon`]. What holds of all texts and all
//! vocabularies is in [`laws`].
pub mod chars;
pub mod config;
pub mod decoder;
pub mod lang;
pub mod laws;
pub mod lexicon;
pub mod model;
pub mod pre_tokenizer;
pub mod score;
pub mod segment;
pub mod sort;
pub mod str_map;
pub mod text;
pub mod token;
pub mod trie;
pub mod words;
