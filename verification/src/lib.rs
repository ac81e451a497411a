//! Core logic of a local-first markdown note and wiki editor.

pub mod ai;
pub mod commands;
pub mod error;
pub mod git;
pub mod images;
pub mod order;
pub mod search;
pub mod text;
pub mod tree;
pub mod utils;
pub mod watcher;
pub mod wiki;
