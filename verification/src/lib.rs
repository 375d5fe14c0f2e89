//! A bytecode compiler and stack machine for a small expression language.
//!
//! Source text is scanned into tokens, compiled in a single pass by
//! operator-precedence parsing into a [`chunk::Chunk`], and executed one
//! instruction at a time by [`vm::VM`]. Numbers are IEEE-754 binary64; this
//! library never computes with them itself: it carries a literal as written
//! and any computed number as its bit pattern, and asks its caller for the
//! arithmetic.
pub mod opcode;
pub mod value;
pub mod text;
pub mod chunk;
pub mod instructions;
pub mod scanner;
pub mod compiler;
pub mod vm;
