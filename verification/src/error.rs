//! The ways in which a query on a program can fail. Every failure is final:
//! nothing is retried and no partial result is handed out.
use vstd::prelude::*;

verus! {

/// Why a query on a program failed.
#[derive(Debug, Clone, Copy, PartialEq, Eq, Structural)]
pub enum Error {
    /// The source text is not a program of its dialect.
    ParseError,
    /// The context does not bind its entry constant.
    MainMissing,
    /// A process refers to a constant that the context does not bind.
    UnknownConstant,
    /// A variable was to be replaced by a value of another kind.
    TypeMismatch,
    /// An expression that is evaluated still holds a variable.
    UnboundVariable,
    /// An evaluated integer lies outside the context's bounds.
    IntegerOutOfBounds,
    /// A type, or a tag of an enum, is not declared, or a type is declared
    /// through itself and so has no list of values, or a declaration of an
    /// enum is not admitted.
    InvalidType,
    /// A port substitution mentions the port of the internal action.
    ReservedName,
    /// An evaluated quotient has a zero divisor.
    DivisionByZero,
    /// The bounds of the integers do not have the lower one below the upper.
    InvalidBounds,
    /// The value universe of a context was asked for before it was generated.
    ValuesNotGenerated,
    /// More instances of constants are nested than the machine can count.
    NestingLimit,
    /// A source file's extension names no dialect.
    ExtensionMismatch,
}

} // verus!
