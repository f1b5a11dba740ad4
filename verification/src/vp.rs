//! The value-passing calculus and its compilation to the pure calculus.
pub mod ast;
pub mod context;
pub mod expr;
pub mod laws;
pub mod parser;
pub mod process;
pub mod resolve;
pub mod show;
pub mod utils;
pub mod values;
