//! Parsing core of a minimal browser engine.
//!
//! A lexical tokenizer reduces a character stream to markup tokens, and a
//! tree constructor reduces tokens to a document tree while tracking the
//! stack of open elements and mode-dependent insertion rules.

pub mod attribute;
pub mod chars;
pub mod http;
pub mod node;
pub mod parser;
pub mod token;
pub mod url;
