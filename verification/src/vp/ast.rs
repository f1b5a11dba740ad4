//! The abstract syntax of a program of the value-passing calculus.
use vstd::prelude::*;

use crate::table::names_view;
use crate::vp::context::{tag_views, TagDecl};
use crate::vp::process::{Agent, Process};

verus! {

/// A pragma of a program.
#[derive(Debug)]
pub enum Command {
    /// Sets the bounds of the integers: the least, and the one above the
    /// greatest.
    SetBounds(u32, u32),
    /// Names the entry constant.
    SetMain(String),
}

/// One statement of a program.
#[derive(Debug)]
pub enum Statement {
    /// Declares a constant with its parameters and its body.
    DefConstant(String, (Vec<String>, Process)),
    /// Declares an enum with its tags and the types of their fields.
    DefEnum(String, Vec<(String, Vec<String>)>),
    /// Declares an alias of a type.
    DefAlias(String, String),
    /// Runs a pragma.
    Exec(Command),
}

/// A program: its statements, in source order.
pub struct Program(pub Vec<Statement>);

/// The mathematical value of a [`Statement`].
pub enum Declaration {
    DefConstant(Seq<char>, Seq<Seq<char>>, Agent),
    DefEnum(Seq<char>, Seq<TagDecl>),
    DefAlias(Seq<char>, Seq<char>),
    SetBounds(u32, u32),
    SetMain(Seq<char>),
}

impl View for Statement {
    type V = Declaration;

    open spec fn view(&self) -> Declaration {
        match self {
            Statement::DefConstant(name, decl) => Declaration::DefConstant(
                name@,
                names_view(decl.0@),
                decl.1@,
            ),
            Statement::DefEnum(name, tags) => Declaration::DefEnum(name@, tag_views(tags@)),
            Statement::DefAlias(alias, ty) => Declaration::DefAlias(alias@, ty@),
            Statement::Exec(Command::SetBounds(min, max)) => Declaration::SetBounds(*min, *max),
            Statement::Exec(Command::SetMain(main)) => Declaration::SetMain(main@),
        }
    }
}

/// The values of a list of statements.
pub open spec fn declarations(statements: Seq<Statement>) -> Seq<Declaration> {
    Seq::new(statements.len(), |i: int| statements[i]@)
}

} // verus!
