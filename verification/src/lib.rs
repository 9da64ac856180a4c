//! A small language-modelling pipeline: a character-based byte-pair
//! tokenizer that learns a vocabulary from a corpus and encodes text with
//! it, and a first-order Markov chain over the token identifiers.

pub mod bpe;
pub mod markov;
pub mod pairs;
pub mod token;
pub mod tokenizers;
pub mod vocab;
pub mod vocab_text;
pub mod weighted_list;

pub use markov::MarkovChain;
pub use tokenizers::{BpeTokenizer, TokenId, Tokenizer};
pub use vocab::{Vocabulary, VocabularyBuilder};
pub use weighted_list::WeightedVec;
