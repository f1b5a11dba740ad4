//! The concrete syntax of the pure calculus.
//!
//! A program is a list of statements. `fn NAME { PROCESS }` binds a constant,
//! with or without `()` after the name, and `#![set_main(NAME)]` names the
//! entry constant. A process is `NIL` or `()`, the name of a constant, a
//! prefix `a!.P`, `a?.P` or `tau.P`, or one of the bracketed forms
//! `(P + Q + ..)`, `(P | Q)`, `(P \ { a, b })` and `(P[new/old, ..])`.
use vstd::prelude::*;

use crate::ast::{clauses, Clause, Command, Program, Statement};
use crate::context::{definitions_of, Context};
use crate::error::Error;
use crate::process::{
    mentions_tau, pairs_view, terms, Channel, Label, Process, Substitution, Term,
};
use crate::syntax::{lex, tokens, words, Sym, Token, Word};
use crate::table::names_view;

verus! {

/// Whether the word at `i` is the symbol `sym`.
pub open spec fn sym_at(ts: Seq<Word>, i: int, sym: Sym) -> bool {
    0 <= i < ts.len() && ts[i] == Word::Symbol(sym)
}

/// The name at `i`, if the word there is one.
pub open spec fn ident_at(ts: Seq<Word>, i: int) -> Option<Seq<char>> {
    if 0 <= i < ts.len() {
        match ts[i] {
            Word::Ident(name) => Some(name),
            _ => None,
        }
    } else {
        None
    }
}

/// The prefix `l` before a process that was read.
pub open spec fn prefixed(l: Label, rest: Result<(Term, int), Error>) -> Result<(Term, int), Error> {
    match rest {
        Ok((p, j)) => Ok((Term::Action(l, Box::new(p)), j)),
        Err(e) => Err(e),
    }
}

/// The names of a list `a, b, ..` read from `i` on, after those of `acc`, and
/// the place of the closing symbol `close`. The list may be empty.
pub open spec fn read_names(ts: Seq<Word>, i: int, acc: Seq<Seq<char>>, close: Sym) -> Result<
    (Seq<Seq<char>>, int),
    Error,
>
    decreases ts.len() - i,
{
    match ident_at(ts, i) {
        None => if acc.len() == 0 && sym_at(ts, i, close) {
            Ok((acc, i))
        } else {
            Err(Error::ParseError)
        },
        Some(name) => if sym_at(ts, i + 1, Sym::Comma) {
            read_names(ts, i + 2, acc.push(name), close)
        } else if sym_at(ts, i + 1, close) {
            Ok((acc.push(name), i + 1))
        } else {
            Err(Error::ParseError)
        },
    }
}

/// The pairs of a list `new/old, ..` read from `i` on, after those of `acc`,
/// and the place of the closing bracket. The list may be empty.
pub open spec fn read_pairs(ts: Seq<Word>, i: int, acc: Seq<(Seq<char>, Seq<char>)>) -> Result<
    (Seq<(Seq<char>, Seq<char>)>, int),
    Error,
>
    decreases ts.len() - i,
{
    match ident_at(ts, i) {
        None => if acc.len() == 0 && sym_at(ts, i, Sym::RBracket) {
            Ok((acc, i))
        } else {
            Err(Error::ParseError)
        },
        Some(new) => if sym_at(ts, i + 1, Sym::Slash) {
            match ident_at(ts, i + 2) {
                None => Err(Error::ParseError),
                Some(old) => if sym_at(ts, i + 3, Sym::Comma) {
                    read_pairs(ts, i + 4, acc.push((new, old)))
                } else if sym_at(ts, i + 3, Sym::RBracket) {
                    Ok((acc.push((new, old)), i + 3))
                } else {
                    Err(Error::ParseError)
                },
            }
        } else {
            Err(Error::ParseError)
        },
    }
}

/// The process read from the word at `i` on, and the place after it.
pub open spec fn read_process(ts: Seq<Word>, i: int) -> Result<(Term, int), Error>
    decreases ts.len() - i, 0nat,
{
    if i < 0 || i >= ts.len() {
        Err(Error::ParseError)
    } else {
        match ts[i] {
            Word::Ident(name) => if name == "NIL"@ {
                Ok((Term::nil(), i + 1))
            } else if name == "tau"@ {
                if sym_at(ts, i + 1, Sym::Dot) {
                    prefixed(Label::Tau, read_process(ts, i + 2))
                } else {
                    Err(Error::ParseError)
                }
            } else if sym_at(ts, i + 1, Sym::Bang) {
                if sym_at(ts, i + 2, Sym::Dot) {
                    prefixed(Label::Send(name), read_process(ts, i + 3))
                } else {
                    Err(Error::ParseError)
                }
            } else if sym_at(ts, i + 1, Sym::Question) {
                if sym_at(ts, i + 2, Sym::Dot) {
                    prefixed(Label::Recv(name), read_process(ts, i + 3))
                } else {
                    Err(Error::ParseError)
                }
            } else {
                Ok((Term::Constant(name), i + 1))
            },
            Word::Symbol(Sym::LParen) => if sym_at(ts, i + 1, Sym::RParen) {
                Ok((Term::nil(), i + 2))
            } else {
                match read_process(ts, i + 1) {
                    Err(e) => Err(e),
                    Ok((p, j)) => if j <= i || j >= ts.len() {
                        Err(Error::ParseError)
                    } else {
                        read_bracketed(ts, j, p)
                    },
                }
            },
            _ => Err(Error::ParseError),
        }
    }
}

/// What follows the first process `p` of a bracketed form, from the word at
/// `j` on.
pub open spec fn read_bracketed(ts: Seq<Word>, j: int, p: Term) -> Result<(Term, int), Error>
    decreases ts.len() - j, 2nat,
{
    if j < 0 || j >= ts.len() {
        Err(Error::ParseError)
    } else if sym_at(ts, j, Sym::RParen) || sym_at(ts, j, Sym::Plus) {
        read_alternatives(ts, j, seq![p])
    } else if sym_at(ts, j, Sym::Bar) {
        match read_process(ts, j + 1) {
            Err(e) => Err(e),
            Ok((q, k)) => if sym_at(ts, k, Sym::RParen) {
                Ok((Term::Par(Box::new(p), Box::new(q)), k + 1))
            } else {
                Err(Error::ParseError)
            },
        }
    } else if sym_at(ts, j, Sym::Backslash) {
        if sym_at(ts, j + 1, Sym::LBrace) {
            match read_names(ts, j + 2, Seq::empty(), Sym::RBrace) {
                Err(e) => Err(e),
                Ok((names, k)) => if sym_at(ts, k + 1, Sym::RParen) {
                    Ok((Term::Restriction(Box::new(p), names), k + 2))
                } else {
                    Err(Error::ParseError)
                },
            }
        } else {
            Err(Error::ParseError)
        }
    } else if sym_at(ts, j, Sym::LBracket) {
        match read_pairs(ts, j + 1, Seq::empty()) {
            Err(e) => Err(e),
            Ok((pairs, k)) => if sym_at(ts, k + 1, Sym::RParen) {
                if exists|n: int| 0 <= n < pairs.len() && mentions_tau(#[trigger] pairs[n]) {
                    Err(Error::ReservedName)
                } else {
                    Ok((Term::Substitution(Box::new(p), pairs), k + 2))
                }
            } else {
                Err(Error::ParseError)
            },
        }
    } else {
        Err(Error::ParseError)
    }
}

/// The sum of the alternatives `acc` and of those that follow from the word
/// at `j` on, each after a plus sign, up to the closing bracket.
pub open spec fn read_alternatives(ts: Seq<Word>, j: int, acc: Seq<Term>) -> Result<
    (Term, int),
    Error,
>
    decreases ts.len() - j, 1nat,
{
    if sym_at(ts, j, Sym::RParen) {
        Ok((Term::Sum(acc), j + 1))
    } else if sym_at(ts, j, Sym::Plus) {
        match read_process(ts, j + 1) {
            Err(e) => Err(e),
            Ok((q, k)) => if k <= j || k > ts.len() {
                Err(Error::ParseError)
            } else {
                read_alternatives(ts, k, acc.push(q))
            },
        }
    } else {
        Err(Error::ParseError)
    }
}

/// The statement read from the word at `i` on, and the place after it.
pub open spec fn read_statement(ts: Seq<Word>, i: int) -> Result<(Clause, int), Error> {
    if ident_at(ts, i) == Some("fn"@) {
        match ident_at(ts, i + 1) {
            None => Err(Error::ParseError),
            Some(name) => {
                let k = if sym_at(ts, i + 2, Sym::LParen) && sym_at(ts, i + 3, Sym::RParen) {
                    i + 4
                } else {
                    i + 2
                };
                if sym_at(ts, k, Sym::LBrace) {
                    match read_process(ts, k + 1) {
                        Err(e) => Err(e),
                        Ok((p, m)) => if sym_at(ts, m, Sym::RBrace) {
                            Ok((Clause::DefConstant(name, p), m + 1))
                        } else {
                            Err(Error::ParseError)
                        },
                    }
                } else {
                    Err(Error::ParseError)
                }
            },
        }
    } else if sym_at(ts, i, Sym::Hash) && sym_at(ts, i + 1, Sym::Bang) && sym_at(
        ts,
        i + 2,
        Sym::LBracket,
    ) && ident_at(ts, i + 3) == Some("set_main"@) && sym_at(ts, i + 4, Sym::LParen) && sym_at(
        ts,
        i + 6,
        Sym::RParen,
    ) && sym_at(ts, i + 7, Sym::RBracket) {
        match ident_at(ts, i + 5) {
            None => Err(Error::ParseError),
            Some(name) => Ok((Clause::SetMain(name), i + 8)),
        }
    } else {
        Err(Error::ParseError)
    }
}

/// The statements `acc` and those read from the word at `i` on, up to the
/// end of the words.
pub open spec fn read_statements(ts: Seq<Word>, i: int, acc: Seq<Clause>) -> Result<
    Seq<Clause>,
    Error,
>
    decreases ts.len() - i,
{
    if i < 0 || i >= ts.len() {
        Ok(acc)
    } else {
        match read_statement(ts, i) {
            Err(e) => Err(e),
            Ok((c, j)) => if j <= i {
                Err(Error::ParseError)
            } else {
                read_statements(ts, j, acc.push(c))
            },
        }
    }
}

/// The statements of a program text.
pub open spec fn read_program(source: Seq<char>) -> Result<Seq<Clause>, Error> {
    match lex(source) {
        None => Err(Error::ParseError),
        Some(ts) => read_statements(ts, 0, Seq::empty()),
    }
}


/// Whether the token `k` places after `i` is the symbol `sym`.
pub(crate) fn sym_after(ts: &Vec<Token>, i: usize, k: usize, sym: Sym) -> (r: bool)
    requires
        i <= ts.len(),
    ensures
        r == sym_at(words(ts@), i + k, sym),
{
    if k < ts.len() - i {
        match &ts[i + k] {
            Token::Symbol(s) => *s == sym,
            _ => false,
        }
    } else {
        false
    }
}

/// The name `k` places after `i`, if the token there is one.
pub(crate) fn ident_after(ts: &Vec<Token>, i: usize, k: usize) -> (r: Option<&String>)
    requires
        i <= ts.len(),
    ensures
        match r {
            Some(name) => ident_at(words(ts@), i + k) == Some(name@) && i + k < ts.len(),
            None => ident_at(words(ts@), i + k) is None,
        },
{
    if k < ts.len() - i {
        match &ts[i + k] {
            Token::Ident(name) => Some(name),
            _ => None,
        }
    } else {
        None
    }
}

/// Whether the name `k` places after `i` is the word `word`.
pub(crate) fn word_after(ts: &Vec<Token>, i: usize, k: usize, word: &str) -> (r: bool)
    requires
        i <= ts.len(),
    ensures
        r == (ident_at(words(ts@), i + k) == Some(word@)),
        r ==> i + k < ts.len(),
{
    match ident_after(ts, i, k) {
        Some(name) => *name.as_str() == *word,
        None => false,
    }
}

/// Reads a list of names up to the closing symbol; see [`read_names`].
pub(crate) fn parse_names(ts: &Vec<Token>, i: usize, close: Sym) -> (r: Result<
    (Vec<String>, usize),
    Error,
>)
    requires
        i <= ts.len(),
    ensures
        match r {
            Ok((names, k)) => read_names(words(ts@), i as int, Seq::empty(), close) == Ok::<
                (Seq<Seq<char>>, int),
                Error,
            >((names_view(names@), k as int)) && i <= k < ts.len(),
            Err(e) => read_names(words(ts@), i as int, Seq::empty(), close) == Err::<
                (Seq<Seq<char>>, int),
                Error,
            >(e),
        },
{
    let ghost ws = words(ts@);
    let mut names: Vec<String> = Vec::new();
    let mut at: usize = i;
    assert(names_view(names@) =~= Seq::<Seq<char>>::empty());
    loop
        invariant
            i <= at <= ts.len(),
            ws == words(ts@),
            read_names(ws, i as int, Seq::empty(), close) == read_names(
                ws,
                at as int,
                names_view(names@),
                close,
            ),
        decreases ts.len() - at,
    {
        match ident_after(ts, at, 0) {
            None => {
                if names.len() == 0 && sym_after(ts, at, 0, close) {
                    return Ok((names, at));
                }
                return Err(Error::ParseError);
            },
            Some(name) => {
                let ghost before = names@;
                names.push(name.clone());
                assert(names_view(names@) =~= names_view(before).push(name@));
                if sym_after(ts, at, 1, Sym::Comma) {
                    at = at + 2;
                } else if sym_after(ts, at, 1, close) {
                    return Ok((names, at + 1));
                } else {
                    return Err(Error::ParseError);
                }
            },
        }
    }
}

/// Reads a list of pairs up to the closing bracket; see [`read_pairs`].
pub(crate) fn parse_pairs(ts: &Vec<Token>, i: usize) -> (r: Result<
    (Vec<(String, String)>, usize),
    Error,
>)
    requires
        i <= ts.len(),
    ensures
        match r {
            Ok((pairs, k)) => read_pairs(words(ts@), i as int, Seq::empty()) == Ok::<
                (Seq<(Seq<char>, Seq<char>)>, int),
                Error,
            >((pairs_view(pairs@), k as int)) && i <= k < ts.len(),
            Err(e) => read_pairs(words(ts@), i as int, Seq::empty()) == Err::<
                (Seq<(Seq<char>, Seq<char>)>, int),
                Error,
            >(e),
        },
{
    let ghost ws = words(ts@);
    let mut pairs: Vec<(String, String)> = Vec::new();
    let mut at: usize = i;
    assert(pairs_view(pairs@) =~= Seq::<(Seq<char>, Seq<char>)>::empty());
    loop
        invariant
            i <= at <= ts.len(),
            ws == words(ts@),
            read_pairs(ws, i as int, Seq::empty()) == read_pairs(
                ws,
                at as int,
                pairs_view(pairs@),
            ),
        decreases ts.len() - at,
    {
        match ident_after(ts, at, 0) {
            None => {
                if pairs.len() == 0 && sym_after(ts, at, 0, Sym::RBracket) {
                    return Ok((pairs, at));
                }
                return Err(Error::ParseError);
            },
            Some(new) => {
                if !sym_after(ts, at, 1, Sym::Slash) {
                    return Err(Error::ParseError);
                }
                match ident_after(ts, at, 2) {
                    None => {
                        return Err(Error::ParseError);
                    },
                    Some(old) => {
                        let ghost before = pairs@;
                        pairs.push((new.clone(), old.clone()));
                        assert(pairs_view(pairs@) =~= pairs_view(before).push((new@, old@)));
                        if sym_after(ts, at, 3, Sym::Comma) {
                            at = at + 4;
                        } else if sym_after(ts, at, 3, Sym::RBracket) {
                            return Ok((pairs, at + 3));
                        } else {
                            return Err(Error::ParseError);
                        }
                    },
                }
            },
        }
    }
}

/// The result of reading a process.
pub open spec fn read_result(r: Result<(Process, usize), Error>) -> Result<(Term, int), Error> {
    match r {
        Ok((p, j)) => Ok((p@, j as int)),
        Err(e) => Err(e),
    }
}

/// Reads a process from the token at `i` on; see [`read_process`].
pub(crate) fn parse_process(ts: &Vec<Token>, i: usize) -> (r: Result<(Process, usize), Error>)
    requires
        i <= ts.len(),
    ensures
        read_result(r) == read_process(words(ts@), i as int),
        r matches Ok((_, j)) ==> i < j <= ts.len(),
    decreases ts.len() - i, 0nat,
{
    if i >= ts.len() {
        return Err(Error::ParseError);
    }
    match &ts[i] {
        Token::Ident(name) => {
            if *name.as_str() == *"NIL" {
                Ok((Process::nil(), i + 1))
            } else if *name.as_str() == *"tau" {
                if sym_after(ts, i, 1, Sym::Dot) {
                    match parse_process(ts, i + 2) {
                        Ok((p, j)) => Ok((Process::action(Channel::Tau, p), j)),
                        Err(e) => Err(e),
                    }
                } else {
                    Err(Error::ParseError)
                }
            } else if sym_after(ts, i, 1, Sym::Bang) {
                if sym_after(ts, i, 2, Sym::Dot) {
                    match parse_process(ts, i + 3) {
                        Ok((p, j)) => Ok((Process::action(Channel::Send(name.clone()), p), j)),
                        Err(e) => Err(e),
                    }
                } else {
                    Err(Error::ParseError)
                }
            } else if sym_after(ts, i, 1, Sym::Question) {
                if sym_after(ts, i, 2, Sym::Dot) {
                    match parse_process(ts, i + 3) {
                        Ok((p, j)) => Ok((Process::action(Channel::Recv(name.clone()), p), j)),
                        Err(e) => Err(e),
                    }
                } else {
                    Err(Error::ParseError)
                }
            } else {
                Ok((Process::Constant(name.clone()), i + 1))
            }
        },
        Token::Symbol(Sym::LParen) => {
            if sym_after(ts, i, 1, Sym::RParen) {
                Ok((Process::nil(), i + 2))
            } else {
                match parse_process(ts, i + 1) {
                    Err(e) => Err(e),
                    Ok((p, j)) => {
                        if j >= ts.len() {
                            Err(Error::ParseError)
                        } else {
                            parse_bracketed(ts, j, p)
                        }
                    },
                }
            }
        },
        _ => Err(Error::ParseError),
    }
}

/// Reads what follows the first process of a bracketed form; see
/// [`read_bracketed`].
pub(crate) fn parse_bracketed(ts: &Vec<Token>, j: usize, p: Process) -> (r: Result<
    (Process, usize),
    Error,
>)
    requires
        j < ts.len(),
    ensures
        read_result(r) == read_bracketed(words(ts@), j as int, p@),
        r matches Ok((_, k)) ==> j < k <= ts.len(),
    decreases ts.len() - j, 2nat,
{
    if sym_after(ts, j, 0, Sym::RParen) || sym_after(ts, j, 0, Sym::Plus) {
        let mut acc: Vec<Process> = Vec::new();
        acc.push(p);
        assert(terms(acc@) =~= seq![p@]);
        parse_alternatives(ts, j, acc)
    } else if sym_after(ts, j, 0, Sym::Bar) {
        match parse_process(ts, j + 1) {
            Err(e) => Err(e),
            Ok((q, k)) => {
                if sym_after(ts, k, 0, Sym::RParen) {
                    Ok((Process::par(p, q), k + 1))
                } else {
                    Err(Error::ParseError)
                }
            },
        }
    } else if sym_after(ts, j, 0, Sym::Backslash) {
        if sym_after(ts, j, 1, Sym::LBrace) {
            match parse_names(ts, j + 2, Sym::RBrace) {
                Err(e) => Err(e),
                Ok((names, k)) => {
                    if sym_after(ts, k, 1, Sym::RParen) {
                        Ok((Process::restriction(p, names), k + 2))
                    } else {
                        Err(Error::ParseError)
                    }
                },
            }
        } else {
            Err(Error::ParseError)
        }
    } else if sym_after(ts, j, 0, Sym::LBracket) {
        match parse_pairs(ts, j + 1) {
            Err(e) => Err(e),
            Ok((pairs, k)) => {
                if sym_after(ts, k, 1, Sym::RParen) {
                    match Substitution::new(pairs) {
                        Err(e) => Err(e),
                        Ok(subs) => Ok((Process::substitution(p, subs), k + 2)),
                    }
                } else {
                    Err(Error::ParseError)
                }
            },
        }
    } else {
        Err(Error::ParseError)
    }
}

/// Reads the alternatives of a sum up to the closing bracket; see
/// [`read_alternatives`].
pub(crate) fn parse_alternatives(ts: &Vec<Token>, j: usize, acc: Vec<Process>) -> (r: Result<
    (Process, usize),
    Error,
>)
    requires
        j < ts.len(),
    ensures
        read_result(r) == read_alternatives(words(ts@), j as int, terms(acc@)),
        r matches Ok((_, k)) ==> j < k <= ts.len(),
    decreases ts.len() - j, 1nat,
{
    if sym_after(ts, j, 0, Sym::RParen) {
        Ok((Process::sum(acc), j + 1))
    } else if sym_after(ts, j, 0, Sym::Plus) {
        match parse_process(ts, j + 1) {
            Err(e) => Err(e),
            Ok((q, k)) => {
                if k >= ts.len() {
                    proof {
                        let ws = words(ts@);
                        assert(!sym_at(ws, k as int, Sym::RParen));
                        assert(!sym_at(ws, k as int, Sym::Plus));
                        assert(read_alternatives(ws, k as int, terms(acc@).push(q@)) == Err::<
                            (Term, int),
                            Error,
                        >(Error::ParseError));
                    }
                    return Err(Error::ParseError);
                }
                let mut acc = acc;
                let ghost before = acc@;
                acc.push(q);
                assert(terms(acc@) =~= terms(before).push(q@));
                parse_alternatives(ts, k, acc)
            },
        }
    } else {
        Err(Error::ParseError)
    }
}

/// The result of reading a statement.
pub open spec fn clause_result(r: Result<(Statement, usize), Error>) -> Result<(Clause, int), Error> {
    match r {
        Ok((s, j)) => Ok((s@, j as int)),
        Err(e) => Err(e),
    }
}

/// Reads a statement from the token at `i` on; see [`read_statement`].
fn parse_statement(ts: &Vec<Token>, i: usize) -> (r: Result<(Statement, usize), Error>)
    requires
        i <= ts.len(),
    ensures
        clause_result(r) == read_statement(words(ts@), i as int),
        r matches Ok((_, j)) ==> i < j <= ts.len(),
{
    if word_after(ts, i, 0, "fn") {
        match ident_after(ts, i, 1) {
            None => Err(Error::ParseError),
            Some(name) => {
                let k = if sym_after(ts, i, 2, Sym::LParen) && sym_after(ts, i, 3, Sym::RParen) {
                    i + 4
                } else {
                    i + 2
                };
                if sym_after(ts, k, 0, Sym::LBrace) {
                    match parse_process(ts, k + 1) {
                        Err(e) => Err(e),
                        Ok((p, m)) => {
                            if sym_after(ts, m, 0, Sym::RBrace) {
                                Ok((Statement::DefConstant(name.clone(), p), m + 1))
                            } else {
                                Err(Error::ParseError)
                            }
                        },
                    }
                } else {
                    Err(Error::ParseError)
                }
            },
        }
    } else if sym_after(ts, i, 0, Sym::Hash) && sym_after(ts, i, 1, Sym::Bang) && sym_after(
        ts,
        i,
        2,
        Sym::LBracket,
    ) && word_after(ts, i, 3, "set_main") && sym_after(ts, i, 4, Sym::LParen) && sym_after(
        ts,
        i,
        6,
        Sym::RParen,
    ) && sym_after(ts, i, 7, Sym::RBracket) {
        match ident_after(ts, i, 5) {
            None => Err(Error::ParseError),
            Some(name) => Ok((Statement::Exec(Command::SetMain(name.clone())), i + 8)),
        }
    } else {
        Err(Error::ParseError)
    }
}

impl Program {
    /// The program that the text `source` writes; see [`read_program`]. A text
    /// that is no program is refused, and so is one with a substitution that
    /// mentions the reserved port.
    pub fn parse(source: &str) -> (r: Result<Self, Error>)
        ensures
            match r {
                Ok(program) => read_program(source@) == Ok::<Seq<Clause>, Error>(
                    clauses(program.0@),
                ),
                Err(e) => read_program(source@) == Err::<Seq<Clause>, Error>(e),
            },
    {
        let ts = match tokens(source) {
            Err(e) => {
                return Err(e);
            },
            Ok(ts) => ts,
        };
        let ghost ws = words(ts@);
        let mut out: Vec<Statement> = Vec::new();
        let mut i: usize = 0;
        assert(clauses(out@) =~= Seq::<Clause>::empty());
        while i < ts.len()
            invariant
                i <= ts.len(),
                ws == words(ts@),
                lex(source@) == Some(ws),
                read_statements(ws, 0, Seq::empty()) == read_statements(
                    ws,
                    i as int,
                    clauses(out@),
                ),
            decreases ts.len() - i,
        {
            match parse_statement(&ts, i) {
                Err(e) => {
                    return Err(e);
                },
                Ok((s, j)) => {
                    let ghost before = out@;
                    out.push(s);
                    assert(clauses(out@) =~= clauses(before).push(s@));
                    i = j;
                },
            }
        }
        Ok(Program(out))
    }
}

impl Context {
    /// The context of the program that the text `source` writes.
    pub fn parse(source: &str) -> (r: Result<Self, Error>)
        ensures
            match r {
                Ok(ctx) => read_program(source@) matches Ok(cs) && ctx@ == definitions_of(cs),
                Err(e) => read_program(source@) == Err::<Seq<Clause>, Error>(e),
            },
    {
        match Program::parse(source) {
            Err(e) => Err(e),
            Ok(program) => Ok(Context::from(program)),
        }
    }
}

} // verus!
