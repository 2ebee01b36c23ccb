//! Sensitive-word detection: a trie-shaped automaton for exact occurrences and a
//! gap-tolerant scanner for occurrences with filler characters between letters.
pub mod dfa;
pub mod model;
pub mod trie;

pub use dfa::{add_sensitive_word, add_sensitive_words, create_dfa, run_dfa_with_words, DFA};
