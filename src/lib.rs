//! An incremental, resumable JSON lexer and structural parser.
//!
//! Input arrives as a sequence of text buffers; the lexer keeps only its
//! state, a cursor into the current buffer and a scratch buffer between calls.
//! Positions are byte offsets into the current buffer.
pub mod lexer;
pub mod parser;
mod text;

