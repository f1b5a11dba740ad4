//! The text of channels and processes: an infix rendering of the terms.
use vstd::prelude::*;

use crate::ast::{clauses, Clause, Command, Program, Statement};
use crate::process::{lemma_sum_view, terms, Channel, Label, Process, Substitution, Term};
use crate::table::names_view;
use crate::text::{join, joined};

verus! {

impl Label {
    /// The text of a label: the port with `!` for a send and `?` for a
    /// receive, `Tau` for the internal action.
    pub open spec fn text(self) -> Seq<char> {
        match self {
            Label::Send(n) => n + "!"@,
            Label::Recv(n) => n + "?"@,
            Label::Tau => "Tau"@,
        }
    }
}

/// The text of a `(new, old)` pair of a substitution.
pub open spec fn pair_text(pair: (Seq<char>, Seq<char>)) -> Seq<char> {
    pair.0 + "/"@ + pair.1
}

/// The texts of the pairs of a substitution.
pub open spec fn pair_texts(pairs: Seq<(Seq<char>, Seq<char>)>) -> Seq<Seq<char>> {
    Seq::new(pairs.len(), |i: int| pair_text(pairs[i]))
}

impl Term {
    /// The text of a term. A prefix is written with a dot, a sum with `+`
    /// between its alternatives and the empty sum as `NIL`, a parallel
    /// composition with `|`, a restriction with its ports in braces after a
    /// backslash, a substitution with its pairs in square brackets.
    pub open spec fn text(self) -> Seq<char>
        decreases self, 0nat,
    {
        match self {
            Term::Constant(k) => k,
            Term::Action(l, p) => l.text() + "."@ + p.text(),
            Term::Sum(ps) => if ps.len() == 0 {
                "NIL"@
            } else {
                "("@ + joined(Term::texts(ps), " + "@) + ")"@
            },
            Term::Par(p, q) => "("@ + p.text() + " | "@ + q.text() + ")"@,
            Term::Restriction(p, names) => "("@ + p.text() + " \\ { "@ + joined(names, ", "@)
                + " })"@,
            Term::Substitution(p, subs) => "("@ + p.text() + "["@ + joined(
                pair_texts(subs),
                ", "@,
            ) + "])"@,
        }
    }

    /// The texts of a list of terms.
    pub open spec fn texts(ps: Seq<Term>) -> Seq<Seq<char>>
        decreases ps, 1nat,
    {
        Seq::new(
            ps.len(),
            |i: int|
                if 0 <= i < ps.len() {
                    ps[i].text()
                } else {
                    Seq::empty()
                },
        )
    }
}

impl Channel {
    /// The text of the channel; see [`Label::text`].
    pub fn to_text(&self) -> (r: String)
        ensures
            r@ == self@.text(),
    {
        match self {
            Channel::Send(s) => s.clone().concat("!"),
            Channel::Recv(s) => s.clone().concat("?"),
            Channel::Tau => String::from_str("Tau"),
        }
    }
}

impl Substitution {
    /// The texts of the pairs, `new/old`, in order.
    pub fn pair_texts(&self) -> (r: Vec<String>)
        ensures
            names_view(r@) == pair_texts(self@),
    {
        let pairs = self.pairs();
        let mut out: Vec<String> = Vec::new();
        let mut i: usize = 0;
        while i < pairs.len()
            invariant
                i <= pairs.len(),
                out.len() == i,
                crate::process::pairs_view(pairs@) == self@,
                forall|k: int| 0 <= k < i ==> out[k]@ == pair_text(self@[k]),
            decreases pairs.len() - i,
        {
            let mut s = pairs[i].0.clone();
            s.append("/");
            s.append(pairs[i].1.as_str());
            assert(self@[i as int] == (pairs[i as int].0@, pairs[i as int].1@));
            out.push(s);
            i += 1;
        }
        assert(names_view(out@) =~= pair_texts(self@));
        out
    }
}

impl Process {
    /// The text of the process; see [`Term::text`].
    #[verifier::loop_isolation(false)]
    pub fn to_text(&self) -> (r: String)
        ensures
            r@ == self@.text(),
        decreases self,
    {
        match self {
            Process::Constant(k) => k.clone(),
            Process::Action(ch, p) => {
                let mut s = ch.to_text();
                s.append(".");
                s.append((**p).to_text().as_str());
                s
            },
            Process::Sum(ps) => {
                proof {
                    lemma_sum_view(*ps);
                }
                if ps.len() == 0 {
                    String::from_str("NIL")
                } else {
                    let mut parts: Vec<String> = Vec::new();
                    let mut i: usize = 0;
                    while i < ps.len()
                        invariant
                            i <= ps.len(),
                            parts.len() == i,
                            forall|k: int| 0 <= k < i ==> parts[k]@ == ps[k]@.text(),
                        decreases ps.len() - i,
                    {
                        parts.push(ps[i].to_text());
                        i += 1;
                    }
                    assert(names_view(parts@) =~= Term::texts(self@->Sum_0));
                    let mut s = String::from_str("(");
                    s.append(join(&parts, " + ").as_str());
                    s.append(")");
                    s
                }
            },
            Process::Par(p, q) => {
                let mut s = String::from_str("(");
                s.append((**p).to_text().as_str());
                s.append(" | ");
                s.append((**q).to_text().as_str());
                s.append(")");
                s
            },
            Process::Restriction(p, names) => {
                let mut s = String::from_str("(");
                s.append((**p).to_text().as_str());
                s.append(" \\ { ");
                s.append(join(names, ", ").as_str());
                s.append(" })");
                s
            },
            Process::Substitution(p, subs) => {
                let mut s = String::from_str("(");
                s.append((**p).to_text().as_str());
                s.append("[");
                s.append(join(&subs.pair_texts(), ", ").as_str());
                s.append("])");
                s
            },
        }
    }
}


impl Clause {
    /// The text of a statement, as a source writes it.
    pub open spec fn text(self) -> Seq<char> {
        match self {
            Clause::DefConstant(name, body) => "fn "@ + name + "() { "@ + body.text() + " }"@,
            Clause::SetMain(main) => "#![set_main("@ + main + ")]"@,
        }
    }
}

/// The text of a program: the text of each statement, each on a line of its
/// own.
pub open spec fn program_text(statements: Seq<Clause>) -> Seq<char>
    decreases statements.len(),
{
    if statements.len() == 0 {
        Seq::empty()
    } else {
        program_text(statements.drop_last()) + statements.last().text() + "\n"@
    }
}

impl Statement {
    /// The text of the statement; see [`Clause::text`].
    pub fn to_text(&self) -> (r: String)
        ensures
            r@ == self@.text(),
    {
        match self {
            Statement::DefConstant(name, body) => {
                let mut s = String::from_str("fn ");
                s.append(name.as_str());
                s.append("() { ");
                s.append(body.to_text().as_str());
                s.append(" }");
                s
            },
            Statement::Exec(Command::SetMain(main)) => {
                let mut s = String::from_str("#![set_main(");
                s.append(main.as_str());
                s.append(")]");
                s
            },
        }
    }
}

impl Program {
    /// The text of the program; see [`program_text`].
    pub fn to_text(&self) -> (r: String)
        ensures
            r@ == program_text(clauses(self.0@)),
    {
        let ghost all = clauses(self.0@);
        let mut out = String::new();
        let mut i: usize = 0;
        assert(all.take(0).len() == 0);
        while i < self.0.len()
            invariant
                i <= self.0.len(),
                all == clauses(self.0@),
                out@ == program_text(all.take(i as int)),
            decreases self.0.len() - i,
        {
            proof {
                let next = all.take(i + 1);
                assert(next.drop_last() =~= all.take(i as int));
                assert(next.last() == self.0@[i as int]@);
            }
            out.append(self.0[i].to_text().as_str());
            out.append("\n");
            i += 1;
        }
        assert(all.take(self.0.len() as int) =~= all);
        out
    }
}

} // verus!
