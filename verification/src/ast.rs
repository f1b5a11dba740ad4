//! The abstract syntax of a program of the pure calculus.
use vstd::prelude::*;

use crate::process::{Process, Term};

verus! {

/// A pragma of a program.
#[derive(Debug)]
pub enum Command {
    /// Names the entry constant.
    SetMain(String),
}

/// One statement of a program.
#[derive(Debug)]
pub enum Statement {
    /// Binds a constant to its body.
    DefConstant(String, Process),
    /// Runs a pragma.
    Exec(Command),
}

/// A program: its statements, in source order.
pub struct Program(pub Vec<Statement>);

/// The mathematical value of a [`Statement`].
pub enum Clause {
    DefConstant(Seq<char>, Term),
    SetMain(Seq<char>),
}

impl View for Statement {
    type V = Clause;

    open spec fn view(&self) -> Clause {
        match self {
            Statement::DefConstant(name, body) => Clause::DefConstant(name@, body@),
            Statement::Exec(Command::SetMain(main)) => Clause::SetMain(main@),
        }
    }
}

/// The values of a list of statements.
pub open spec fn clauses(statements: Seq<Statement>) -> Seq<Clause> {
    Seq::new(statements.len(), |i: int| statements[i]@)
}

} // verus!
