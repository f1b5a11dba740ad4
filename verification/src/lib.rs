//! Milner's Calculus of Communicating Systems: process terms, the labelled
//! transition systems they induce, strong bisimilarity, and the compilation of
//! value-passing processes down to the pure calculus.
//!
//! - [`process`], [`context`], [`ast`]: the terms of the pure calculus, their
//!   normal form, and the constants of a program.
//! - [`derive`]: the transitions of a term, and the system a term spans.
//! - [`lts`], [`bisim`]: transition systems, their weakening, and
//!   bisimilarity.
//! - [`vp`]: the value-passing calculus: values, type inhabitants, and the
//!   compilation to the pure calculus.
//! - [`syntax`], [`parser`], [`written`]: the concrete syntax, and the law
//!   that what is written is read back.
//! - [`show`], [`pretty_print`], [`text`]: texts and tables.
//! - [`laws`]: what holds of unfolding.
//! - [`cli`]: the options of the command line.
pub mod ast;
pub mod bisim;
pub mod cli;
pub mod context;
pub mod derive;
pub mod error;
pub mod laws;
pub mod lts;
pub mod parser;
pub mod pretty_print;
pub mod process;
pub mod show;
pub mod syntax;
pub mod table;
pub mod text;
pub mod vp;
pub mod written;
