//! Per-extension aggregation of file statistics.
//!
//! The library takes the plain data of a directory scan (file names, sizes,
//! contents) and groups a chosen metric by file extension into a table whose
//! rows are sorted by extension. Reading the file system and rendering the
//! table are left to the surrounding program.

pub mod agg;
pub mod extension;
pub mod lex;
pub mod lines;
pub mod render;
pub mod table;
pub mod walk;
