//! The start of the header of the Hungarian analyser's `.hfstol` file.
pub mod header;
