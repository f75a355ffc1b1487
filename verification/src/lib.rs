//! A trie-based lexical dictionary and greedy tokenizer for space-delimited
//! ASCII text. Multi-word dictionary entries, synonyms and stopwords are
//! recognized as single semantic units; overlapping matches are resolved by a
//! local sliding-window heuristic.

pub mod alphabet;
pub mod laws;
pub mod loader;
pub mod prefix;
pub mod tokenizer;
pub mod trie;

pub use tokenizer::Candidate;
pub use tokenizer::Token;
pub use tokenizer::TokenV;
pub use trie::Node;
pub use trie::Trie;
pub use trie::TrieError;
