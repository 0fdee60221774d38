//! Counts lines of code per language, skipping blank lines and lines that are
//! entirely comment.
pub mod analysis;
pub mod cli;
pub mod config_reader;
pub mod model;
pub mod registry;
pub mod text;
