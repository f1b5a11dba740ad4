//! The concrete syntax of the value-passing calculus.
//!
//! A program is a list of statements: `fn NAME(x, ..) { PROCESS }` declares a
//! constant, the parameters in brackets may be left out; `enum NAME { Tag(ty,
//! ..), .. }` declares an enum; `type NAME = TYPE;` an alias;
//! `#![set_bounds(min, max)]` sets the bounds of the integers and
//! `#![set_main(NAME)]` names the entry constant.
//!
//! A process is written as in the pure calculus, and besides: a send may
//! carry a value, `a!(e)`, an input may bind a variable, `a?(x)`; a prefix is
//! followed by a dot or a semicolon; a constant may take arguments, `K(e,
//! ..)`; `if B then { P }` guards a process, and with `else { Q }` after it
//! chooses between two; the ports of a restriction may stand in square
//! brackets.
use vstd::prelude::*;

use crate::error::Error;
use crate::parser::{
    ident_after, ident_at, parse_names, parse_pairs, read_names, read_pairs, sym_after, sym_at,
    word_after,
};
use crate::process::{mentions_tau, Substitution};
use crate::syntax::{lex, tokens, words, Sym, Token, Word};
use crate::table::names_view;
use crate::vp::ast::{declarations, Command, Declaration, Program, Statement};
use crate::vp::context::{tag_view, tag_views, Context, Scope, TagDecl};
use crate::vp::expr::{parse_args, parse_expr, read_args, read_expr, Phrase};
use crate::vp::process::{agents, Agent, Channel, Prefix, Process};
use crate::vp::resolve::to_values;
use crate::vp::values::{vals, Logic, Val, Value};

verus! {

/// Whether the word at `i` parts a prefix from what follows it: a dot or a
/// semicolon.
pub open spec fn sep_at(ts: Seq<Word>, i: int) -> bool {
    sym_at(ts, i, Sym::Dot) || sym_at(ts, i, Sym::Semi)
}

/// The prefix `l` before an agent that was read.
pub open spec fn prefixed(l: Prefix, rest: Result<(Agent, int), Error>) -> Result<
    (Agent, int),
    Error,
> {
    match rest {
        Ok((p, j)) => Ok((Agent::Action(l, Box::new(p)), j)),
        Err(e) => Err(e),
    }
}

/// The choice between `p` under the guard `b` and `q` under its negation.
pub open spec fn choice(b: Logic, p: Agent, q: Agent) -> Agent {
    Agent::Sum(
        seq![
            Agent::IfThen(b, Box::new(p)),
            Agent::IfThen(Logic::Not(Box::new(b)), Box::new(q)),
        ],
    )
}

/// The agent read from the word at `i` on, and the place after it.
pub open spec fn read_agent(ts: Seq<Word>, i: int) -> Result<(Agent, int), Error>
    decreases ts.len() - i, 2nat,
{
    if i < 0 || i >= ts.len() {
        Err(Error::ParseError)
    } else {
        match ts[i] {
            Word::Ident(name) => if name == "NIL"@ {
                Ok((Agent::Sum(Seq::empty()), i + 1))
            } else if name == "tau"@ {
                if sep_at(ts, i + 1) {
                    prefixed(Prefix::Tau, read_agent(ts, i + 2))
                } else {
                    Err(Error::ParseError)
                }
            } else if name == "if"@ {
                read_guarded(ts, i)
            } else if sym_at(ts, i + 1, Sym::Bang) {
                read_send(ts, i, name)
            } else if sym_at(ts, i + 1, Sym::Question) {
                if sym_at(ts, i + 2, Sym::LParen) {
                    match ident_at(ts, i + 3) {
                        None => Err(Error::ParseError),
                        Some(x) => if sym_at(ts, i + 4, Sym::RParen) && sep_at(ts, i + 5) {
                            prefixed(Prefix::Recv(name, Some(x)), read_agent(ts, i + 6))
                        } else {
                            Err(Error::ParseError)
                        },
                    }
                } else if sep_at(ts, i + 2) {
                    prefixed(Prefix::Recv(name, None), read_agent(ts, i + 3))
                } else {
                    Err(Error::ParseError)
                }
            } else if sym_at(ts, i + 1, Sym::LParen) {
                match read_args(ts, i + 2, Seq::empty()) {
                    Err(e) => Err(e),
                    Ok((args, k)) => match Phrase::values(args) {
                        None => Err(Error::ParseError),
                        Some(vs) => Ok((Agent::Constant(name, vs), k + 1)),
                    },
                }
            } else {
                Ok((Agent::Constant(name, Seq::empty()), i + 1))
            },
            Word::Symbol(Sym::LParen) => if sym_at(ts, i + 1, Sym::RParen) {
                Ok((Agent::Sum(Seq::empty()), i + 2))
            } else {
                match read_agent(ts, i + 1) {
                    Err(e) => Err(e),
                    Ok((p, j)) => if j <= i || j >= ts.len() {
                        Err(Error::ParseError)
                    } else {
                        read_bracketed(ts, j, p)
                    },
                }
            },
            _ => Err(Error::ParseError),
        }
    }
}

/// The send on the port `name` read from the word at `i` on, where the port
/// stands.
pub open spec fn read_send(ts: Seq<Word>, i: int, name: Seq<char>) -> Result<(Agent, int), Error>
    decreases ts.len() - i, 1nat,
{
    if i < 0 || i >= ts.len() {
        Err(Error::ParseError)
    } else if sym_at(ts, i + 2, Sym::LParen) {
        match read_expr(ts, i + 3) {
            Err(e) => Err(e),
            Ok((e, j)) => if j <= i || j >= ts.len() {
                Err(Error::ParseError)
            } else {
                match e.value() {
                    None => Err(Error::ParseError),
                    Some(v) => if sym_at(ts, j, Sym::RParen) && sep_at(ts, j + 1) {
                        prefixed(Prefix::Send(name, Some(v)), read_agent(ts, j + 2))
                    } else {
                        Err(Error::ParseError)
                    },
                }
            },
        }
    } else if sep_at(ts, i + 2) {
        prefixed(Prefix::Send(name, None), read_agent(ts, i + 3))
    } else {
        Err(Error::ParseError)
    }
}

/// The guarded agent read from the word `if` at `i` on.
pub open spec fn read_guarded(ts: Seq<Word>, i: int) -> Result<(Agent, int), Error>
    decreases ts.len() - i, 1nat,
{
    if i < 0 || i >= ts.len() {
        Err(Error::ParseError)
    } else {
        match read_expr(ts, i + 1) {
            Err(e) => Err(e),
            Ok((e, j)) => if j <= i || j >= ts.len() {
                Err(Error::ParseError)
            } else {
                match e.logic() {
                    None => Err(Error::ParseError),
                    Some(b) => if ident_at(ts, j) == Some("then"@) && sym_at(
                        ts,
                        j + 1,
                        Sym::LBrace,
                    ) {
                        match read_agent(ts, j + 2) {
                            Err(e) => Err(e),
                            Ok((p, k)) => if k <= j || k >= ts.len() {
                                Err(Error::ParseError)
                            } else if !sym_at(ts, k, Sym::RBrace) {
                                Err(Error::ParseError)
                            } else if ident_at(ts, k + 1) == Some("else"@) {
                                if sym_at(ts, k + 2, Sym::LBrace) {
                                    match read_agent(ts, k + 3) {
                                        Err(e) => Err(e),
                                        Ok((q, m)) => if sym_at(ts, m, Sym::RBrace) {
                                            Ok((choice(b, p, q), m + 1))
                                        } else {
                                            Err(Error::ParseError)
                                        },
                                    }
                                } else {
                                    Err(Error::ParseError)
                                }
                            } else {
                                Ok((Agent::IfThen(b, Box::new(p)), k + 1))
                            },
                        }
                    } else {
                        Err(Error::ParseError)
                    },
                }
            },
        }
    }
}

/// What follows the first agent `p` of a bracketed form, from the word at `j`
/// on.
pub open spec fn read_bracketed(ts: Seq<Word>, j: int, p: Agent) -> Result<(Agent, int), Error>
    decreases ts.len() - j, 4nat,
{
    if j < 0 || j >= ts.len() {
        Err(Error::ParseError)
    } else if sym_at(ts, j, Sym::RParen) || sym_at(ts, j, Sym::Plus) {
        read_alternatives(ts, j, seq![p])
    } else if sym_at(ts, j, Sym::Bar) {
        match read_agent(ts, j + 1) {
            Err(e) => Err(e),
            Ok((q, k)) => if sym_at(ts, k, Sym::RParen) {
                Ok((Agent::Par(Box::new(p), Box::new(q)), k + 1))
            } else {
                Err(Error::ParseError)
            },
        }
    } else if sym_at(ts, j, Sym::Backslash) {
        if sym_at(ts, j + 1, Sym::LBrace) || sym_at(ts, j + 1, Sym::LBracket) {
            let close = if sym_at(ts, j + 1, Sym::LBrace) {
                Sym::RBrace
            } else {
                Sym::RBracket
            };
            match read_names(ts, j + 2, Seq::empty(), close) {
                Err(e) => Err(e),
                Ok((names, k)) => if sym_at(ts, k + 1, Sym::RParen) {
                    Ok((Agent::Restriction(Box::new(p), names), k + 2))
                } else {
                    Err(Error::ParseError)
                },
            }
        } else {
            Err(Error::ParseError)
        }
    } else if sym_at(ts, j, Sym::LBracket) {
        match read_pairs(ts, j + 1, Seq::empty()) {
            Err(e) => Err(e),
            Ok((pairs, k)) => if sym_at(ts, k + 1, Sym::RParen) {
                if exists|n: int| 0 <= n < pairs.len() && mentions_tau(#[trigger] pairs[n]) {
                    Err(Error::ReservedName)
                } else {
                    Ok((Agent::Substitution(Box::new(p), pairs), k + 2))
                }
            } else {
                Err(Error::ParseError)
            },
        }
    } else {
        Err(Error::ParseError)
    }
}

/// The sum of the alternatives `acc` and of those that follow from the word
/// at `j` on, each after a plus sign, up to the closing bracket.
pub open spec fn read_alternatives(ts: Seq<Word>, j: int, acc: Seq<Agent>) -> Result<
    (Agent, int),
    Error,
>
    decreases ts.len() - j, 3nat,
{
    if sym_at(ts, j, Sym::RParen) {
        Ok((Agent::Sum(acc), j + 1))
    } else if sym_at(ts, j, Sym::Plus) {
        match read_agent(ts, j + 1) {
            Err(e) => Err(e),
            Ok((q, k)) => if k <= j || k > ts.len() {
                Err(Error::ParseError)
            } else {
                read_alternatives(ts, k, acc.push(q))
            },
        }
    } else {
        Err(Error::ParseError)
    }
}

/// The number at `i`, if the word there is one.
pub open spec fn number_at(ts: Seq<Word>, i: int) -> Option<u32> {
    if 0 <= i < ts.len() {
        match ts[i] {
            Word::Number(n) => Some(n),
            _ => None,
        }
    } else {
        None
    }
}

/// The tags of a list `Tag(ty, ..), ..` read from `i` on, after those of
/// `acc`, and the place of the closing brace. The list may be empty, and a
/// tag without fields may leave the brackets out.
pub open spec fn read_tags(ts: Seq<Word>, i: int, acc: Seq<TagDecl>) -> Result<
    (Seq<TagDecl>, int),
    Error,
>
    decreases ts.len() - i,
{
    match ident_at(ts, i) {
        None => if acc.len() == 0 && sym_at(ts, i, Sym::RBrace) {
            Ok((acc, i))
        } else {
            Err(Error::ParseError)
        },
        Some(tag) => {
            let fields = if sym_at(ts, i + 1, Sym::LParen) {
                match read_names(ts, i + 2, Seq::empty(), Sym::RParen) {
                    Err(e) => Err(e),
                    Ok((fs, k)) => Ok((fs, k + 1)),
                }
            } else {
                Ok((Seq::empty(), i + 1))
            };
            match fields {
                Err(e) => Err(e),
                Ok((fs, j)) => if j <= i || j >= ts.len() {
                    Err(Error::ParseError)
                } else if sym_at(ts, j, Sym::Comma) {
                    read_tags(ts, j + 1, acc.push((tag, fs)))
                } else if sym_at(ts, j, Sym::RBrace) {
                    Ok((acc.push((tag, fs)), j))
                } else {
                    Err(Error::ParseError)
                },
            }
        },
    }
}

/// Whether a pragma opens at `i`: `#![`.
pub open spec fn pragma_at(ts: Seq<Word>, i: int) -> bool {
    sym_at(ts, i, Sym::Hash) && sym_at(ts, i + 1, Sym::Bang) && sym_at(ts, i + 2, Sym::LBracket)
}

/// The statement read from the word at `i` on, and the place after it.
pub open spec fn read_declaration(ts: Seq<Word>, i: int) -> Result<(Declaration, int), Error> {
    if ident_at(ts, i) == Some("fn"@) {
        match ident_at(ts, i + 1) {
            None => Err(Error::ParseError),
            Some(name) => {
                let params = if sym_at(ts, i + 2, Sym::LParen) {
                    match read_names(ts, i + 3, Seq::empty(), Sym::RParen) {
                        Err(e) => Err(e),
                        Ok((ps, k)) => Ok((ps, k + 1)),
                    }
                } else {
                    Ok((Seq::empty(), i + 2))
                };
                match params {
                    Err(e) => Err(e),
                    Ok((ps, b)) => if sym_at(ts, b, Sym::LBrace) {
                        match read_agent(ts, b + 1) {
                            Err(e) => Err(e),
                            Ok((p, m)) => if sym_at(ts, m, Sym::RBrace) {
                                Ok((Declaration::DefConstant(name, ps, p), m + 1))
                            } else {
                                Err(Error::ParseError)
                            },
                        }
                    } else {
                        Err(Error::ParseError)
                    },
                }
            },
        }
    } else if ident_at(ts, i) == Some("enum"@) {
        match ident_at(ts, i + 1) {
            None => Err(Error::ParseError),
            Some(name) => if sym_at(ts, i + 2, Sym::LBrace) {
                match read_tags(ts, i + 3, Seq::empty()) {
                    Err(e) => Err(e),
                    Ok((tags, k)) => Ok((Declaration::DefEnum(name, tags), k + 1)),
                }
            } else {
                Err(Error::ParseError)
            },
        }
    } else if ident_at(ts, i) == Some("type"@) {
        match (ident_at(ts, i + 1), ident_at(ts, i + 3)) {
            (Some(alias), Some(ty)) => if sym_at(ts, i + 2, Sym::Assign) && sym_at(
                ts,
                i + 4,
                Sym::Semi,
            ) {
                Ok((Declaration::DefAlias(alias, ty), i + 5))
            } else {
                Err(Error::ParseError)
            },
            _ => Err(Error::ParseError),
        }
    } else if pragma_at(ts, i) && ident_at(ts, i + 3) == Some("set_main"@) {
        match ident_at(ts, i + 5) {
            None => Err(Error::ParseError),
            Some(name) => if sym_at(ts, i + 4, Sym::LParen) && sym_at(ts, i + 6, Sym::RParen)
                && sym_at(ts, i + 7, Sym::RBracket) {
                Ok((Declaration::SetMain(name), i + 8))
            } else {
                Err(Error::ParseError)
            },
        }
    } else if pragma_at(ts, i) && ident_at(ts, i + 3) == Some("set_bounds"@) {
        match (number_at(ts, i + 5), number_at(ts, i + 7)) {
            (Some(min), Some(max)) => if sym_at(ts, i + 4, Sym::LParen) && sym_at(
                ts,
                i + 6,
                Sym::Comma,
            ) && sym_at(ts, i + 8, Sym::RParen) && sym_at(ts, i + 9, Sym::RBracket) {
                Ok((Declaration::SetBounds(min, max), i + 10))
            } else {
                Err(Error::ParseError)
            },
            _ => Err(Error::ParseError),
        }
    } else {
        Err(Error::ParseError)
    }
}

/// The statements `acc` and those read from the word at `i` on, up to the
/// end of the words.
pub open spec fn read_declarations(ts: Seq<Word>, i: int, acc: Seq<Declaration>) -> Result<
    Seq<Declaration>,
    Error,
>
    decreases ts.len() - i,
{
    if i < 0 || i >= ts.len() {
        Ok(acc)
    } else {
        match read_declaration(ts, i) {
            Err(e) => Err(e),
            Ok((d, j)) => if j <= i || j > ts.len() {
                Err(Error::ParseError)
            } else {
                read_declarations(ts, j, acc.push(d))
            },
        }
    }
}

/// The statements of a program text.
pub open spec fn read_program(source: Seq<char>) -> Result<Seq<Declaration>, Error> {
    match lex(source) {
        None => Err(Error::ParseError),
        Some(ts) => read_declarations(ts, 0, Seq::empty()),
    }
}


/// The result of reading an agent.
pub open spec fn agent_result(r: Result<(Process, usize), Error>) -> Result<(Agent, int), Error> {
    match r {
        Ok((p, j)) => Ok((p@, j as int)),
        Err(e) => Err(e),
    }
}

fn sep_after(ts: &Vec<Token>, i: usize, k: usize) -> (r: bool)
    requires
        i <= ts.len(),
    ensures
        r == sep_at(words(ts@), i + k),
        r ==> i + k < ts.len(),
{
    sym_after(ts, i, k, Sym::Dot) || sym_after(ts, i, k, Sym::Semi)
}

fn number_after(ts: &Vec<Token>, i: usize, k: usize) -> (r: Option<u32>)
    requires
        i <= ts.len(),
    ensures
        r == number_at(words(ts@), i + k),
        r is Some ==> i + k < ts.len(),
{
    if k < ts.len() - i {
        match &ts[i + k] {
            Token::Number(n) => Some(*n),
            _ => None,
        }
    } else {
        None
    }
}

fn pragma_after(ts: &Vec<Token>, i: usize) -> (r: bool)
    requires
        i <= ts.len(),
    ensures
        r == pragma_at(words(ts@), i as int),
        r ==> i + 2 < ts.len(),
{
    sym_after(ts, i, 0, Sym::Hash) && sym_after(ts, i, 1, Sym::Bang) && sym_after(
        ts,
        i,
        2,
        Sym::LBracket,
    )
}

/// Reads an agent from the token at `i` on; see [`read_agent`].
pub(crate) fn parse_agent(ts: &Vec<Token>, i: usize) -> (r: Result<(Process, usize), Error>)
    requires
        i <= ts.len(),
    ensures
        agent_result(r) == read_agent(words(ts@), i as int),
        r matches Ok((_, j)) ==> i < j <= ts.len(),
    decreases ts.len() - i, 2nat,
{
    if i >= ts.len() {
        return Err(Error::ParseError);
    }
    match &ts[i] {
        Token::Ident(name) => {
            if *name.as_str() == *"NIL" {
                Ok((Process::nil(), i + 1))
            } else if *name.as_str() == *"tau" {
                if sep_after(ts, i, 1) {
                    match parse_agent(ts, i + 2) {
                        Ok((p, j)) => Ok((Process::action(Channel::Tau, p), j)),
                        Err(e) => Err(e),
                    }
                } else {
                    Err(Error::ParseError)
                }
            } else if *name.as_str() == *"if" {
                parse_guarded(ts, i)
            } else if sym_after(ts, i, 1, Sym::Bang) {
                parse_send(ts, i, name)
            } else if sym_after(ts, i, 1, Sym::Question) {
                if sym_after(ts, i, 2, Sym::LParen) {
                    match ident_after(ts, i, 3) {
                        None => Err(Error::ParseError),
                        Some(x) => {
                            if sym_after(ts, i, 4, Sym::RParen) && sep_after(ts, i, 5) {
                                match parse_agent(ts, i + 6) {
                                    Ok((p, j)) => Ok(
                                        (
                                            Process::action(
                                                Channel::Recv(name.clone(), Some(x.clone())),
                                                p,
                                            ),
                                            j,
                                        ),
                                    ),
                                    Err(e) => Err(e),
                                }
                            } else {
                                Err(Error::ParseError)
                            }
                        },
                    }
                } else if sep_after(ts, i, 2) {
                    match parse_agent(ts, i + 3) {
                        Ok((p, j)) => Ok(
                            (Process::action(Channel::Recv(name.clone(), None), p), j),
                        ),
                        Err(e) => Err(e),
                    }
                } else {
                    Err(Error::ParseError)
                }
            } else if sym_after(ts, i, 1, Sym::LParen) {
                match parse_args(ts, i + 2) {
                    Err(e) => Err(e),
                    Ok((args, k)) => match to_values(&args) {
                        None => Err(Error::ParseError),
                        Some(vs) => Ok((Process::Constant(name.clone(), vs), k + 1)),
                    },
                }
            } else {
                let none: Vec<Value> = Vec::new();
                assert(vals(none@) =~= Seq::<Val>::empty());
                Ok((Process::Constant(name.clone(), none), i + 1))
            }
        },
        Token::Symbol(Sym::LParen) => {
            if sym_after(ts, i, 1, Sym::RParen) {
                Ok((Process::nil(), i + 2))
            } else {
                match parse_agent(ts, i + 1) {
                    Err(e) => Err(e),
                    Ok((p, j)) => {
                        if j >= ts.len() {
                            Err(Error::ParseError)
                        } else {
                            parse_bracketed(ts, j, p)
                        }
                    },
                }
            }
        },
        _ => Err(Error::ParseError),
    }
}

/// Reads a send; see [`read_send`].
fn parse_send(ts: &Vec<Token>, i: usize, name: &String) -> (r: Result<(Process, usize), Error>)
    requires
        i < ts.len(),
    ensures
        agent_result(r) == read_send(words(ts@), i as int, name@),
        r matches Ok((_, j)) ==> i < j <= ts.len(),
    decreases ts.len() - i, 1nat,
{
    if sym_after(ts, i, 2, Sym::LParen) {
        match parse_expr(ts, i + 3) {
            Err(e) => Err(e),
            Ok((e, j)) => {
                if j >= ts.len() {
                    return Err(Error::ParseError);
                }
                match e.to_value() {
                    None => Err(Error::ParseError),
                    Some(v) => {
                        if sym_after(ts, j, 0, Sym::RParen) && sep_after(ts, j, 1) {
                            match parse_agent(ts, j + 2) {
                                Ok((p, k)) => Ok(
                                    (Process::action(Channel::Send(name.clone(), Some(v)), p), k),
                                ),
                                Err(e) => Err(e),
                            }
                        } else {
                            Err(Error::ParseError)
                        }
                    },
                }
            },
        }
    } else if sep_after(ts, i, 2) {
        match parse_agent(ts, i + 3) {
            Ok((p, j)) => Ok((Process::action(Channel::Send(name.clone(), None), p), j)),
            Err(e) => Err(e),
        }
    } else {
        Err(Error::ParseError)
    }
}

/// Reads a guarded agent; see [`read_guarded`].
fn parse_guarded(ts: &Vec<Token>, i: usize) -> (r: Result<(Process, usize), Error>)
    requires
        i < ts.len(),
    ensures
        agent_result(r) == read_guarded(words(ts@), i as int),
        r matches Ok((_, j)) ==> i < j <= ts.len(),
    decreases ts.len() - i, 1nat,
{
    let (e, j) = match parse_expr(ts, i + 1) {
        Err(e) => {
            return Err(e);
        },
        Ok(r) => r,
    };
    if j >= ts.len() {
        return Err(Error::ParseError);
    }
    let b = match e.to_bexpr() {
        None => {
            return Err(Error::ParseError);
        },
        Some(b) => b,
    };
    if !(word_after(ts, j, 0, "then") && sym_after(ts, j, 1, Sym::LBrace)) {
        return Err(Error::ParseError);
    }
    let (p, k) = match parse_agent(ts, j + 2) {
        Err(e) => {
            return Err(e);
        },
        Ok(r) => r,
    };
    if k >= ts.len() {
        return Err(Error::ParseError);
    }
    if !sym_after(ts, k, 0, Sym::RBrace) {
        return Err(Error::ParseError);
    }
    if word_after(ts, k, 1, "else") {
        if sym_after(ts, k, 2, Sym::LBrace) {
            match parse_agent(ts, k + 3) {
                Err(e) => Err(e),
                Ok((q, m)) => {
                    if sym_after(ts, m, 0, Sym::RBrace) {
                        Ok((Process::if_then_else(b, p, q), m + 1))
                    } else {
                        Err(Error::ParseError)
                    }
                },
            }
        } else {
            Err(Error::ParseError)
        }
    } else {
        Ok((Process::if_then(b, p), k + 1))
    }
}

/// Reads what follows the first agent of a bracketed form; see
/// [`read_bracketed`].
fn parse_bracketed(ts: &Vec<Token>, j: usize, p: Process) -> (r: Result<(Process, usize), Error>)
    requires
        j < ts.len(),
    ensures
        agent_result(r) == read_bracketed(words(ts@), j as int, p@),
        r matches Ok((_, k)) ==> j < k <= ts.len(),
    decreases ts.len() - j, 4nat,
{
    if sym_after(ts, j, 0, Sym::RParen) || sym_after(ts, j, 0, Sym::Plus) {
        let mut acc: Vec<Process> = Vec::new();
        acc.push(p);
        assert(agents(acc@) =~= seq![p@]);
        parse_alternatives(ts, j, acc)
    } else if sym_after(ts, j, 0, Sym::Bar) {
        match parse_agent(ts, j + 1) {
            Err(e) => Err(e),
            Ok((q, k)) => {
                if sym_after(ts, k, 0, Sym::RParen) {
                    Ok((Process::par(p, q), k + 1))
                } else {
                    Err(Error::ParseError)
                }
            },
        }
    } else if sym_after(ts, j, 0, Sym::Backslash) {
        let braces = sym_after(ts, j, 1, Sym::LBrace);
        if braces || sym_after(ts, j, 1, Sym::LBracket) {
            let close = if braces {
                Sym::RBrace
            } else {
                Sym::RBracket
            };
            match parse_names(ts, j + 2, close) {
                Err(e) => Err(e),
                Ok((names, k)) => {
                    if sym_after(ts, k, 1, Sym::RParen) {
                        Ok((Process::restriction(p, names), k + 2))
                    } else {
                        Err(Error::ParseError)
                    }
                },
            }
        } else {
            Err(Error::ParseError)
        }
    } else if sym_after(ts, j, 0, Sym::LBracket) {
        match parse_pairs(ts, j + 1) {
            Err(e) => Err(e),
            Ok((pairs, k)) => {
                if sym_after(ts, k, 1, Sym::RParen) {
                    match Substitution::new(pairs) {
                        Err(e) => Err(e),
                        Ok(subs) => Ok((Process::substitution(p, subs), k + 2)),
                    }
                } else {
                    Err(Error::ParseError)
                }
            },
        }
    } else {
        Err(Error::ParseError)
    }
}

/// Reads the alternatives of a sum up to the closing bracket; see
/// [`read_alternatives`].
fn parse_alternatives(ts: &Vec<Token>, j: usize, acc: Vec<Process>) -> (r: Result<
    (Process, usize),
    Error,
>)
    requires
        j < ts.len(),
    ensures
        agent_result(r) == read_alternatives(words(ts@), j as int, agents(acc@)),
        r matches Ok((_, k)) ==> j < k <= ts.len(),
    decreases ts.len() - j, 3nat,
{
    if sym_after(ts, j, 0, Sym::RParen) {
        Ok((Process::sum(acc), j + 1))
    } else if sym_after(ts, j, 0, Sym::Plus) {
        match parse_agent(ts, j + 1) {
            Err(e) => Err(e),
            Ok((q, k)) => {
                if k >= ts.len() {
                    proof {
                        let ws = words(ts@);
                        assert(!sym_at(ws, k as int, Sym::RParen));
                        assert(!sym_at(ws, k as int, Sym::Plus));
                        assert(read_alternatives(ws, k as int, agents(acc@).push(q@)) == Err::<
                            (Agent, int),
                            Error,
                        >(Error::ParseError));
                    }
                    return Err(Error::ParseError);
                }
                let mut acc = acc;
                let ghost before = acc@;
                acc.push(q);
                assert(agents(acc@) =~= agents(before).push(q@));
                parse_alternatives(ts, k, acc)
            },
        }
    } else {
        Err(Error::ParseError)
    }
}

/// Reads the tags of an enum up to the closing brace; see [`read_tags`].
fn parse_tags(ts: &Vec<Token>, i: usize) -> (r: Result<(Vec<(String, Vec<String>)>, usize), Error>)
    requires
        i <= ts.len(),
    ensures
        match r {
            Ok((tags, k)) => read_tags(words(ts@), i as int, Seq::empty()) == Ok::<
                (Seq<TagDecl>, int),
                Error,
            >((tag_views(tags@), k as int)) && i <= k < ts.len(),
            Err(e) => read_tags(words(ts@), i as int, Seq::empty()) == Err::<
                (Seq<TagDecl>, int),
                Error,
            >(e),
        },
{
    let ghost ws = words(ts@);
    let mut tags: Vec<(String, Vec<String>)> = Vec::new();
    let mut at: usize = i;
    assert(tag_views(tags@) =~= Seq::<TagDecl>::empty());
    loop
        invariant
            i <= at <= ts.len(),
            ws == words(ts@),
            read_tags(ws, i as int, Seq::empty()) == read_tags(ws, at as int, tag_views(tags@)),
        decreases ts.len() - at,
    {
        match ident_after(ts, at, 0) {
            None => {
                if tags.len() == 0 && sym_after(ts, at, 0, Sym::RBrace) {
                    return Ok((tags, at));
                }
                return Err(Error::ParseError);
            },
            Some(tag) => {
                let (fields, j) = if sym_after(ts, at, 1, Sym::LParen) {
                    match parse_names(ts, at + 2, Sym::RParen) {
                        Err(e) => {
                            return Err(e);
                        },
                        Ok((fs, k)) => (fs, k + 1),
                    }
                } else {
                    let none: Vec<String> = Vec::new();
                    assert(names_view(none@) =~= Seq::<Seq<char>>::empty());
                    (none, at + 1)
                };
                if j >= ts.len() {
                    return Err(Error::ParseError);
                }
                let ghost before = tags@;
                let entry = (tag.clone(), fields);
                tags.push(entry);
                assert(tag_views(tags@) =~= tag_views(before).push(tag_view(entry)));
                if sym_after(ts, j, 0, Sym::Comma) {
                    at = j + 1;
                } else if sym_after(ts, j, 0, Sym::RBrace) {
                    return Ok((tags, j));
                } else {
                    return Err(Error::ParseError);
                }
            },
        }
    }
}

/// The result of reading a statement.
pub open spec fn declaration_result(r: Result<(Statement, usize), Error>) -> Result<
    (Declaration, int),
    Error,
> {
    match r {
        Ok((s, j)) => Ok((s@, j as int)),
        Err(e) => Err(e),
    }
}

/// Reads a statement from the token at `i` on; see [`read_declaration`].
fn parse_declaration(ts: &Vec<Token>, i: usize) -> (r: Result<(Statement, usize), Error>)
    requires
        i <= ts.len(),
    ensures
        declaration_result(r) == read_declaration(words(ts@), i as int),
        r matches Ok((_, j)) ==> i < j <= ts.len(),
{
    if word_after(ts, i, 0, "fn") {
        match ident_after(ts, i, 1) {
            None => Err(Error::ParseError),
            Some(name) => {
                let (params, b) = if sym_after(ts, i, 2, Sym::LParen) {
                    match parse_names(ts, i + 3, Sym::RParen) {
                        Err(e) => {
                            return Err(e);
                        },
                        Ok((ps, k)) => (ps, k + 1),
                    }
                } else {
                    let none: Vec<String> = Vec::new();
                    assert(names_view(none@) =~= Seq::<Seq<char>>::empty());
                    (none, i + 2)
                };
                if sym_after(ts, b, 0, Sym::LBrace) {
                    match parse_agent(ts, b + 1) {
                        Err(e) => Err(e),
                        Ok((p, m)) => {
                            if sym_after(ts, m, 0, Sym::RBrace) {
                                Ok((Statement::DefConstant(name.clone(), (params, p)), m + 1))
                            } else {
                                Err(Error::ParseError)
                            }
                        },
                    }
                } else {
                    Err(Error::ParseError)
                }
            },
        }
    } else if word_after(ts, i, 0, "enum") {
        match ident_after(ts, i, 1) {
            None => Err(Error::ParseError),
            Some(name) => {
                if sym_after(ts, i, 2, Sym::LBrace) {
                    match parse_tags(ts, i + 3) {
                        Err(e) => Err(e),
                        Ok((tags, k)) => Ok((Statement::DefEnum(name.clone(), tags), k + 1)),
                    }
                } else {
                    Err(Error::ParseError)
                }
            },
        }
    } else if word_after(ts, i, 0, "type") {
        match (ident_after(ts, i, 1), ident_after(ts, i, 3)) {
            (Some(alias), Some(ty)) => {
                if sym_after(ts, i, 2, Sym::Assign) && sym_after(ts, i, 4, Sym::Semi) {
                    Ok((Statement::DefAlias(alias.clone(), ty.clone()), i + 5))
                } else {
                    Err(Error::ParseError)
                }
            },
            _ => Err(Error::ParseError),
        }
    } else if pragma_after(ts, i) && word_after(ts, i, 3, "set_main") {
        match ident_after(ts, i, 5) {
            None => Err(Error::ParseError),
            Some(name) => {
                if sym_after(ts, i, 4, Sym::LParen) && sym_after(ts, i, 6, Sym::RParen)
                    && sym_after(ts, i, 7, Sym::RBracket) {
                    Ok((Statement::Exec(Command::SetMain(name.clone())), i + 8))
                } else {
                    Err(Error::ParseError)
                }
            },
        }
    } else if pragma_after(ts, i) && word_after(ts, i, 3, "set_bounds") {
        match (number_after(ts, i, 5), number_after(ts, i, 7)) {
            (Some(min), Some(max)) => {
                if sym_after(ts, i, 4, Sym::LParen) && sym_after(ts, i, 6, Sym::Comma)
                    && sym_after(ts, i, 8, Sym::RParen) && sym_after(ts, i, 9, Sym::RBracket) {
                    Ok((Statement::Exec(Command::SetBounds(min, max)), i + 10))
                } else {
                    Err(Error::ParseError)
                }
            },
            _ => Err(Error::ParseError),
        }
    } else {
        Err(Error::ParseError)
    }
}

impl Program {
    /// The program that the text `source` writes; see [`read_program`]. A text
    /// that is no program is refused, and so is one with a substitution that
    /// mentions the reserved port.
    pub fn parse(source: &str) -> (r: Result<Self, Error>)
        ensures
            match r {
                Ok(program) => read_program(source@) == Ok::<Seq<Declaration>, Error>(
                    declarations(program.0@),
                ),
                Err(e) => read_program(source@) == Err::<Seq<Declaration>, Error>(e),
            },
    {
        let ts = match tokens(source) {
            Err(e) => {
                return Err(e);
            },
            Ok(ts) => ts,
        };
        let ghost ws = words(ts@);
        let mut out: Vec<Statement> = Vec::new();
        let mut i: usize = 0;
        assert(declarations(out@) =~= Seq::<Declaration>::empty());
        while i < ts.len()
            invariant
                i <= ts.len(),
                ws == words(ts@),
                lex(source@) == Some(ws),
                read_declarations(ws, 0, Seq::empty()) == read_declarations(
                    ws,
                    i as int,
                    declarations(out@),
                ),
            decreases ts.len() - i,
        {
            match parse_declaration(&ts, i) {
                Err(e) => {
                    return Err(e);
                },
                Ok((s, j)) => {
                    let ghost before = out@;
                    out.push(s);
                    assert(declarations(out@) =~= declarations(before).push(s@));
                    i = j;
                },
            }
        }
        Ok(Program(out))
    }
}

impl Context {
    /// The context of the program that the text `source` writes: the text is
    /// read, its statements are run and the values of all types generated.
    pub fn parse(source: &str) -> (r: Result<Self, Error>)
        ensures
            match r {
                Ok(ctx) => read_program(source@) matches Ok(ds) && Scope::of_program(ds) == Ok::<
                    Scope,
                    Error,
                >(ctx@),
                Err(e) => match read_program(source@) {
                    Ok(ds) => Scope::of_program(ds) == Err::<Scope, Error>(e),
                    Err(f) => e == f,
                },
            },
    {
        match Program::parse(source) {
            Err(e) => Err(e),
            Ok(program) => Context::from_program(program),
        }
    }
}

} // verus!
