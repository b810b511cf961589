//! Extracts named documentation blocks from the comments of source files,
//! assembles them into a cross-referenced document graph, and renders each
//! block to HTML while expanding embedded blocks.

pub mod common;
pub mod config;
pub mod db;
pub mod parser;
pub mod parser_core;
pub mod renderer;
pub mod table;
