//! An assembler and a virtual machine for a small 8-bit register machine.
//!
//! `lexer` splits source text into tokens, `parser` reads them into
//! operations and serializes those, `shared` holds the instruction set both
//! halves agree on, and `machine` executes the bytes.
pub mod lexer;
pub mod machine;
pub mod parser;
pub mod shared;

pub use parser::{to_bytes, Parser, ParserError};
