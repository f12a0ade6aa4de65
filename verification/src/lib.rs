//! A runtime engine for documentation-driven command parsing.
//!
//! A command is described by a usage line in a compact grammar together
//! with a documentation block; the engine parses both into a validated
//! model, builds a prefix trie over the declared identifiers for
//! abbreviation-aware lookup, and then parses token streams into typed
//! command values, with structured errors and renderable help topics.
pub mod command;
pub mod did_you_mean;
pub mod docs;
pub mod engine;
pub mod errors;
pub mod fold_error;
pub mod fold_help;
pub mod help;
pub mod laws;
pub mod lower;
pub mod text;
pub mod tokenize;
pub mod trie;
pub mod usage;
