//! Reading HFST optimized-lookup (`.hfstol`) transducer files.
pub mod header;

pub mod tokenizer;
