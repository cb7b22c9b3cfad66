//! A single-pass translator from a small BASIC-like language to C.
//!
//! The lexer turns source text into tokens on demand, the parser checks the
//! grammar and the binding rules while it reads, and the emitter collects the
//! generated text in a header and a body.
pub mod emitter;
pub mod lexer;
pub mod parser;
pub mod token;
pub mod translate;
