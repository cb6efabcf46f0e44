//! Recommends new voice commands from a record of dictated commands.
//!
//! A record is read into entries (`record`), its chains of commands are
//! simplified and counted as candidates (`generation`, with what holds of
//! them in `simplification` and `usage`), candidates that are parts of
//! others are left out (`redundancy`), and the candidates that score best
//! together are selected (`scoring`, `tree_search`, `search_tree`,
//! `searcher`), refined by the user's answers (`user_command_parsing`,
//! `refinement`, `filtering`) and written out (`ordering`, `output`).
//! The action model is in `actions` and `commands`, its canonical form in
//! `canonical_form`; `text`, `numbers`, `text_separation` and `random` hold
//! what the rest is built on.

pub mod actions;
pub mod canonical_form;
pub mod commands;
pub mod filtering;
pub mod generation;
pub mod numbers;
pub mod ordering;
pub mod output;
pub mod random;
pub mod record;
pub mod redundancy;
pub mod refinement;
pub mod scoring;
pub mod search_tree;
pub mod searcher;
pub mod simplification;
pub mod text;
pub mod text_separation;
pub mod tree_search;
pub mod usage;
pub mod user_command_parsing;
