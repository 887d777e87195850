//! Object-level parser for the syntax of PDF documents: a byte cursor, the
//! value model, and a recursive-descent value parser with stream extraction.
pub mod grammar;
pub mod laws;
pub mod parser;
pub mod reader;
pub mod structure;
mod trusted;
