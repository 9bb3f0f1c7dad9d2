//! A T9 phone-word library: a trie-based dictionary index together with a
//! backtracking search that decomposes a telephone digit string into every
//! sequence of dictionary words consistent with the keypad letter mapping.

pub mod keypad;
pub mod laws;
pub mod search;
pub mod trie;
