//! Fuzzy search over the entries of an encrypted password store, and the
//! handoff of a chosen entry to the program that decrypts it.
pub mod config;
pub mod format;
pub mod index;
pub mod matching;
pub mod retrieve;
pub mod scan;
pub mod text;
