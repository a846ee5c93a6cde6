//! A compiler and stack-based interpreter for a small expression language.
pub mod precedence;
pub mod token;
pub mod scanner;
pub mod value;
pub mod error;
pub mod chunk;
pub mod vm;
pub mod compiler;
