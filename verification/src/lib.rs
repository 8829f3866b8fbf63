//! A byte-prefix trie over tokens, together with readers for the header and
//! alphabet sections of HFST optimized-lookup transducer files and a
//! vowel-harmony classifier for Hungarian verbs.
pub mod handlers;
pub mod hfstol;
pub mod metadata;
pub mod morphology;
pub mod trie;
