//! A Chinese word segmentation library.
//!
//! The segmenter combines a prefix dictionary (searched with multi-pattern
//! automata), a per-block DAG of candidate word spans, a maximum-probability
//! dynamic program over unigram frequencies, and a four-state hidden Markov
//! model that splits out-of-vocabulary runs.
//!
//! Returned words are owned copies of the corresponding input substrings.

pub mod api;
pub mod cut;
pub mod dag;
pub mod dict;
pub mod hmm;
pub mod jieba;
pub mod laws;
pub mod matcher;
pub mod route;
pub mod score;
pub mod splitter;
pub mod text;

pub use api::Tag;
pub use api::Token;
pub use api::TokenizeMode;
pub use dict::DictErrorReason;
pub use dict::DictionaryError;
pub use jieba::Jieba;
