//! A compiler frontend toolkit: a region-aware tokenizer and a few
//! backtracking primitives for building a parser over its tokens.
pub mod reader;
pub mod text;
pub mod rules;
pub mod region;
pub mod compound;
pub mod compiler;
pub mod lexer;
pub mod pattern;
pub mod logger;
pub mod laws;
