//! Core logic of a lightweight Markdown reader: outline extraction,
//! reference-link collection, byte decoding and preference handling.

pub mod text;
pub mod toc;
pub mod file_ops;
pub mod reader;
pub mod config;
