//! The logic behind the server's request handlers.
pub mod vowel_harmony;
