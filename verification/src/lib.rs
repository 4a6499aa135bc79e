//! Log line parsing, filtering, merging and the state of a tailing log viewer.

pub mod text;
pub mod formats;
pub mod parse;
pub mod filter;
pub mod merge;
pub mod tail;
pub mod app;
pub mod ui;
