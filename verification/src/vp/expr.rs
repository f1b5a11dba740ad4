//! The expressions of the value-passing dialect as they are written, before
//! the place they stand in decides of which kind they are.
//!
//! The operators have five levels. From the tightest to the loosest binding:
//! `*` and `/`; `+` and `-`; one comparison (`==`, `!=`, `<`, `>`, `<=`, `>=`
//! between numbers, `is` between enum values); `&&`; `||`. A negation `!`
//! binds looser than a comparison and tighter than `&&`. Operators of one
//! level group to the left. An atom is a number, `true` or `false`, a name,
//! an enum literal `Ty::Tag` or `Ty::Tag(e, ..)`, or an expression in
//! brackets.
use vstd::prelude::*;

use crate::error::Error;
use crate::parser::{ident_after, ident_at, sym_after, sym_at, word_after};
use crate::syntax::{words, Sym, Token, Word};

verus! {

/// An operator between two expressions.
#[derive(Debug, Clone, Copy, PartialEq, Eq, Structural)]
pub enum Op {
    Add,
    Sub,
    Mul,
    Div,
    And,
    Or,
    Eq,
    NotEq,
    Lt,
    Gt,
    LtEq,
    GtEq,
    Is,
}

/// The mathematical value of an [`Expr`].
pub enum Phrase {
    Num(u32),
    Bool(bool),
    Name(Seq<char>),
    Lit(Seq<char>, Seq<char>, Seq<Phrase>),
    Not(Box<Phrase>),
    Bin(Op, Box<Phrase>, Box<Phrase>),
}

/// An expression as it is written.
#[derive(Debug)]
pub enum Expr {
    Num(u32),
    Bool(bool),
    Name(String),
    Lit(String, String, Vec<Expr>),
    Not(Box<Expr>),
    Bin(Op, Box<Expr>, Box<Expr>),
}

impl Expr {
    /// The phrase an expression stands for.
    pub open spec fn model(&self) -> Phrase
        decreases self,
    {
        match self {
            Expr::Num(n) => Phrase::Num(*n),
            Expr::Bool(b) => Phrase::Bool(*b),
            Expr::Name(x) => Phrase::Name(x@),
            Expr::Lit(ty, tag, fields) => Phrase::Lit(
                ty@,
                tag@,
                Seq::new(
                    fields.len() as nat,
                    |i: int|
                        if 0 <= i < fields.len() {
                            fields[i].model()
                        } else {
                            Phrase::Bool(false)
                        },
                ),
            ),
            Expr::Not(e) => Phrase::Not(Box::new((**e).model())),
            Expr::Bin(op, l, r) => Phrase::Bin(
                *op,
                Box::new((**l).model()),
                Box::new((**r).model()),
            ),
        }
    }
}

impl View for Expr {
    type V = Phrase;

    open spec fn view(&self) -> Phrase {
        self.model()
    }
}

/// The phrases of a list of expressions.
pub open spec fn phrases(es: Seq<Expr>) -> Seq<Phrase> {
    Seq::new(es.len(), |i: int| es[i]@)
}

/// An enum literal stands for the literal of the phrases of its fields.
pub proof fn lemma_lit_view(ty: String, tag: String, fields: Vec<Expr>)
    ensures
        Expr::Lit(ty, tag, fields)@ == Phrase::Lit(ty@, tag@, phrases(fields@)),
{
    let a = Expr::Lit(ty, tag, fields)@;
    assert(a->Lit_2 =~= phrases(fields@));
}

/// The comparison that the word at `i` writes.
pub open spec fn comparison_at(ts: Seq<Word>, i: int) -> Option<Op> {
    if sym_at(ts, i, Sym::Eq) {
        Some(Op::Eq)
    } else if sym_at(ts, i, Sym::NotEq) {
        Some(Op::NotEq)
    } else if sym_at(ts, i, Sym::LtEq) {
        Some(Op::LtEq)
    } else if sym_at(ts, i, Sym::GtEq) {
        Some(Op::GtEq)
    } else if sym_at(ts, i, Sym::Lt) {
        Some(Op::Lt)
    } else if sym_at(ts, i, Sym::Gt) {
        Some(Op::Gt)
    } else if ident_at(ts, i) == Some("is"@) {
        Some(Op::Is)
    } else {
        None
    }
}

/// The operator of the level `level` that the word at `j` writes.
pub open spec fn op_at(ts: Seq<Word>, j: int, level: int) -> Option<Op> {
    if level == 1 {
        if sym_at(ts, j, Sym::Star) {
            Some(Op::Mul)
        } else if sym_at(ts, j, Sym::Slash) {
            Some(Op::Div)
        } else {
            None
        }
    } else if level == 2 {
        if sym_at(ts, j, Sym::Plus) {
            Some(Op::Add)
        } else if sym_at(ts, j, Sym::Minus) {
            Some(Op::Sub)
        } else {
            None
        }
    } else if level == 3 {
        comparison_at(ts, j)
    } else if level == 4 {
        if sym_at(ts, j, Sym::And) {
            Some(Op::And)
        } else {
            None
        }
    } else if level == 5 {
        if sym_at(ts, j, Sym::Or) {
            Some(Op::Or)
        } else {
            None
        }
    } else {
        None
    }
}

/// The atom read from the word at `i` on, and the place after it.
pub open spec fn read_atom(ts: Seq<Word>, i: int) -> Result<(Phrase, int), Error>
    decreases ts.len() - i, 0nat,
{
    if i < 0 || i >= ts.len() {
        Err(Error::ParseError)
    } else {
        match ts[i] {
            Word::Number(n) => Ok((Phrase::Num(n), i + 1)),
            Word::Ident(name) => if name == "true"@ {
                Ok((Phrase::Bool(true), i + 1))
            } else if name == "false"@ {
                Ok((Phrase::Bool(false), i + 1))
            } else if sym_at(ts, i + 1, Sym::PathSep) {
                match ident_at(ts, i + 2) {
                    None => Err(Error::ParseError),
                    Some(tag) => if sym_at(ts, i + 3, Sym::LParen) {
                        match read_args(ts, i + 4, Seq::empty()) {
                            Err(e) => Err(e),
                            Ok((fields, k)) => Ok((Phrase::Lit(name, tag, fields), k + 1)),
                        }
                    } else {
                        Ok((Phrase::Lit(name, tag, Seq::empty()), i + 3))
                    },
                }
            } else {
                Ok((Phrase::Name(name), i + 1))
            },
            Word::Symbol(Sym::LParen) => match read_level(ts, i + 1, 5) {
                Err(e) => Err(e),
                Ok((e, j)) => if sym_at(ts, j, Sym::RParen) {
                    Ok((e, j + 1))
                } else {
                    Err(Error::ParseError)
                },
            },
            _ => Err(Error::ParseError),
        }
    }
}

/// The expressions of a list `e, ..` read from `i` on, after those of `acc`,
/// and the place of the closing bracket. The list may be empty.
pub open spec fn read_args(ts: Seq<Word>, i: int, acc: Seq<Phrase>) -> Result<
    (Seq<Phrase>, int),
    Error,
>
    decreases ts.len() - i, 11nat,
{
    if acc.len() == 0 && sym_at(ts, i, Sym::RParen) {
        Ok((acc, i))
    } else {
        match read_level(ts, i, 5) {
            Err(e) => Err(e),
            Ok((e, j)) => if j <= i || j >= ts.len() {
                Err(Error::ParseError)
            } else if sym_at(ts, j, Sym::Comma) {
                read_args(ts, j + 1, acc.push(e))
            } else if sym_at(ts, j, Sym::RParen) {
                Ok((acc.push(e), j))
            } else {
                Err(Error::ParseError)
            },
        }
    }
}

/// The negation, or the comparison, read from the word at `i` on.
pub open spec fn read_not(ts: Seq<Word>, i: int) -> Result<(Phrase, int), Error>
    decreases ts.len() - i, 7nat,
{
    if sym_at(ts, i, Sym::Bang) {
        match read_not(ts, i + 1) {
            Err(e) => Err(e),
            Ok((e, j)) => Ok((Phrase::Not(Box::new(e)), j)),
        }
    } else {
        read_level(ts, i, 3)
    }
}

/// The expression of the level `level` read from the word at `i` on: an
/// operand of the level, and the operators of the level with their operands
/// after it.
pub open spec fn read_level(ts: Seq<Word>, i: int, level: int) -> Result<(Phrase, int), Error>
    decreases ts.len() - i, 2 * level,
{
    if level < 1 || level > 5 {
        Err(Error::ParseError)
    } else {
        let first = if level == 1 {
            read_atom(ts, i)
        } else if level == 4 {
            read_not(ts, i)
        } else {
            read_level(ts, i, level - 1)
        };
        match first {
            Err(e) => Err(e),
            Ok((l, j)) => if j <= i || j > ts.len() {
                Err(Error::ParseError)
            } else {
                read_rest(ts, j, l, level)
            },
        }
    }
}

/// The expression of the level `level` whose first part `l` was read up to
/// the word at `j`. A comparison takes one operator, the other levels any
/// number.
pub open spec fn read_rest(ts: Seq<Word>, j: int, l: Phrase, level: int) -> Result<
    (Phrase, int),
    Error,
>
    decreases ts.len() - j, 20nat,
{
    if level < 1 || level > 5 {
        Err(Error::ParseError)
    } else {
        match op_at(ts, j, level) {
            None => Ok((l, j)),
            Some(op) => {
                let next = if level == 1 {
                    read_atom(ts, j + 1)
                } else if level == 4 {
                    read_not(ts, j + 1)
                } else {
                    read_level(ts, j + 1, level - 1)
                };
                match next {
                    Err(e) => Err(e),
                    Ok((r, k)) => if k <= j || k > ts.len() {
                        Err(Error::ParseError)
                    } else if level == 3 {
                        Ok((Phrase::Bin(op, Box::new(l), Box::new(r)), k))
                    } else {
                        read_rest(ts, k, Phrase::Bin(op, Box::new(l), Box::new(r)), level)
                    },
                }
            },
        }
    }
}

/// The expression read from the word at `i` on, and the place after it.
pub open spec fn read_expr(ts: Seq<Word>, i: int) -> Result<(Phrase, int), Error> {
    read_level(ts, i, 5)
}

/// The result of reading an expression.
pub open spec fn expr_result(r: Result<(Expr, usize), Error>) -> Result<(Phrase, int), Error> {
    match r {
        Ok((e, j)) => Ok((e@, j as int)),
        Err(e) => Err(e),
    }
}

fn comparison(ts: &Vec<Token>, i: usize) -> (r: Option<Op>)
    requires
        i <= ts.len(),
    ensures
        r == comparison_at(words(ts@), i as int),
        r is Some ==> i < ts.len(),
{
    if sym_after(ts, i, 0, Sym::Eq) {
        Some(Op::Eq)
    } else if sym_after(ts, i, 0, Sym::NotEq) {
        Some(Op::NotEq)
    } else if sym_after(ts, i, 0, Sym::LtEq) {
        Some(Op::LtEq)
    } else if sym_after(ts, i, 0, Sym::GtEq) {
        Some(Op::GtEq)
    } else if sym_after(ts, i, 0, Sym::Lt) {
        Some(Op::Lt)
    } else if sym_after(ts, i, 0, Sym::Gt) {
        Some(Op::Gt)
    } else if word_after(ts, i, 0, "is") {
        Some(Op::Is)
    } else {
        None
    }
}

fn op_after(ts: &Vec<Token>, j: usize, level: u8) -> (r: Option<Op>)
    requires
        j <= ts.len(),
    ensures
        r == op_at(words(ts@), j as int, level as int),
        r is Some ==> j < ts.len(),
{
    if level == 1 {
        if sym_after(ts, j, 0, Sym::Star) {
            Some(Op::Mul)
        } else if sym_after(ts, j, 0, Sym::Slash) {
            Some(Op::Div)
        } else {
            None
        }
    } else if level == 2 {
        if sym_after(ts, j, 0, Sym::Plus) {
            Some(Op::Add)
        } else if sym_after(ts, j, 0, Sym::Minus) {
            Some(Op::Sub)
        } else {
            None
        }
    } else if level == 3 {
        comparison(ts, j)
    } else if level == 4 {
        if sym_after(ts, j, 0, Sym::And) {
            Some(Op::And)
        } else {
            None
        }
    } else if level == 5 {
        if sym_after(ts, j, 0, Sym::Or) {
            Some(Op::Or)
        } else {
            None
        }
    } else {
        None
    }
}

/// Reads an atom from the token at `i` on; see [`read_atom`].
pub(crate) fn parse_atom(ts: &Vec<Token>, i: usize) -> (r: Result<(Expr, usize), Error>)
    requires
        i <= ts.len(),
    ensures
        expr_result(r) == read_atom(words(ts@), i as int),
        r matches Ok((_, j)) ==> i < j <= ts.len(),
    decreases ts.len() - i, 0nat,
{
    if i >= ts.len() {
        return Err(Error::ParseError);
    }
    match &ts[i] {
        Token::Number(n) => Ok((Expr::Num(*n), i + 1)),
        Token::Ident(name) => {
            if *name.as_str() == *"true" {
                Ok((Expr::Bool(true), i + 1))
            } else if *name.as_str() == *"false" {
                Ok((Expr::Bool(false), i + 1))
            } else if sym_after(ts, i, 1, Sym::PathSep) {
                match ident_after(ts, i, 2) {
                    None => Err(Error::ParseError),
                    Some(tag) => {
                        if sym_after(ts, i, 3, Sym::LParen) {
                            match parse_args(ts, i + 4) {
                                Err(e) => Err(e),
                                Ok((fields, k)) => {
                                    let ty = name.clone();
                                    let tag = tag.clone();
                                    proof {
                                        lemma_lit_view(ty, tag, fields);
                                    }
                                    Ok((Expr::Lit(ty, tag, fields), k + 1))
                                },
                            }
                        } else {
                            let fields: Vec<Expr> = Vec::new();
                            let ty = name.clone();
                            let tag = tag.clone();
                            proof {
                                lemma_lit_view(ty, tag, fields);
                                assert(phrases(fields@) =~= Seq::<Phrase>::empty());
                            }
                            Ok((Expr::Lit(ty, tag, fields), i + 3))
                        }
                    },
                }
            } else {
                Ok((Expr::Name(name.clone()), i + 1))
            }
        },
        Token::Symbol(Sym::LParen) => {
            match parse_level(ts, i + 1, 5) {
                Err(e) => Err(e),
                Ok((e, j)) => {
                    if sym_after(ts, j, 0, Sym::RParen) {
                        Ok((e, j + 1))
                    } else {
                        Err(Error::ParseError)
                    }
                },
            }
        },
        _ => Err(Error::ParseError),
    }
}

/// Reads a list of expressions up to the closing bracket; see [`read_args`].
pub(crate) fn parse_args(ts: &Vec<Token>, i: usize) -> (r: Result<(Vec<Expr>, usize), Error>)
    requires
        i <= ts.len(),
    ensures
        match r {
            Ok((es, k)) => read_args(words(ts@), i as int, Seq::empty()) == Ok::<
                (Seq<Phrase>, int),
                Error,
            >((phrases(es@), k as int)) && i <= k < ts.len(),
            Err(e) => read_args(words(ts@), i as int, Seq::empty()) == Err::<
                (Seq<Phrase>, int),
                Error,
            >(e),
        },
    decreases ts.len() - i, 22nat,
{
    let ghost ws = words(ts@);
    let mut out: Vec<Expr> = Vec::new();
    let mut at: usize = i;
    assert(phrases(out@) =~= Seq::<Phrase>::empty());
    loop
        invariant
            i <= at <= ts.len(),
            ws == words(ts@),
            read_args(ws, i as int, Seq::empty()) == read_args(ws, at as int, phrases(out@)),
        decreases ts.len() - at,
    {
        if out.len() == 0 && sym_after(ts, at, 0, Sym::RParen) {
            return Ok((out, at));
        }
        match parse_level(ts, at, 5) {
            Err(e) => {
                return Err(e);
            },
            Ok((e, j)) => {
                if j >= ts.len() {
                    return Err(Error::ParseError);
                }
                let ghost before = out@;
                out.push(e);
                assert(phrases(out@) =~= phrases(before).push(e@));
                if sym_after(ts, j, 0, Sym::Comma) {
                    at = j + 1;
                } else if sym_after(ts, j, 0, Sym::RParen) {
                    return Ok((out, j));
                } else {
                    return Err(Error::ParseError);
                }
            },
        }
    }
}

/// Reads a negation or a comparison; see [`read_not`].
pub(crate) fn parse_not(ts: &Vec<Token>, i: usize) -> (r: Result<(Expr, usize), Error>)
    requires
        i <= ts.len(),
    ensures
        expr_result(r) == read_not(words(ts@), i as int),
        r matches Ok((_, j)) ==> i < j <= ts.len(),
    decreases ts.len() - i, 14nat,
{
    if sym_after(ts, i, 0, Sym::Bang) {
        match parse_not(ts, i + 1) {
            Err(e) => Err(e),
            Ok((e, j)) => Ok((Expr::Not(Box::new(e)), j)),
        }
    } else {
        parse_level(ts, i, 3)
    }
}

/// Reads an operand of the level `level`.
fn parse_operand(ts: &Vec<Token>, i: usize, level: u8) -> (r: Result<(Expr, usize), Error>)
    requires
        i <= ts.len(),
        1 <= level <= 5,
    ensures
        expr_result(r) == (if level == 1 {
            read_atom(words(ts@), i as int)
        } else if level == 4 {
            read_not(words(ts@), i as int)
        } else {
            read_level(words(ts@), i as int, level - 1)
        }),
        r matches Ok((_, j)) ==> i < j <= ts.len(),
    decreases ts.len() - i, 4 * level - 1,
{
    if level == 1 {
        parse_atom(ts, i)
    } else if level == 4 {
        parse_not(ts, i)
    } else {
        parse_level(ts, i, level - 1)
    }
}

/// Reads an expression of the level `level`; see [`read_level`].
pub(crate) fn parse_level(ts: &Vec<Token>, i: usize, level: u8) -> (r: Result<(Expr, usize), Error>)
    requires
        i <= ts.len(),
    ensures
        expr_result(r) == read_level(words(ts@), i as int, level as int),
        r matches Ok((_, j)) ==> i < j <= ts.len(),
    decreases ts.len() - i, 4 * level,
{
    if level < 1 || level > 5 {
        return Err(Error::ParseError);
    }
    let ghost ws = words(ts@);
    let (first, start) = match parse_operand(ts, i, level) {
        Err(e) => {
            return Err(e);
        },
        Ok(r) => r,
    };
    let mut l = first;
    let mut j = start;
    loop
        invariant
            i < j <= ts.len(),
            1 <= level <= 5,
            ws == words(ts@),
            read_level(ws, i as int, level as int) == read_rest(ws, j as int, l@, level as int),
        decreases ts.len() - j,
    {
        match op_after(ts, j, level) {
            None => {
                return Ok((l, j));
            },
            Some(op) => {
                match parse_operand(ts, j + 1, level) {
                    Err(e) => {
                        return Err(e);
                    },
                    Ok((r, k)) => {
                        l = Expr::Bin(op, Box::new(l), Box::new(r));
                        j = k;
                        if level == 3 {
                            return Ok((l, j));
                        }
                    },
                }
            },
        }
    }
}

/// Reads an expression from the token at `i` on; see [`read_expr`].
pub(crate) fn parse_expr(ts: &Vec<Token>, i: usize) -> (r: Result<(Expr, usize), Error>)
    requires
        i <= ts.len(),
    ensures
        expr_result(r) == read_expr(words(ts@), i as int),
        r matches Ok((_, j)) ==> i < j <= ts.len(),
{
    parse_level(ts, i, 5)
}

} // verus!
