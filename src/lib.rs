//! A 16-bit educational machine: bit-field helpers, a lexer and a two-pass
//! assembler for its symbolic language, a single-step execution engine, the
//! decoding of raw program files, and the decisions of an interactive memory
//! viewer.

pub mod assembler;
pub mod lexer;
pub mod loader;
pub mod machine;
pub mod numeral;
pub mod util;
pub mod viewer;
