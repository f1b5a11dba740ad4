//! The text of value-passing channels and processes.
use vstd::prelude::*;

use crate::show::pair_texts;
use crate::table::names_view;
use crate::text::{decimal, decimal_text};
use crate::vp::ast::{declarations, Command, Declaration, Program, Statement};
use crate::vp::context::{tag_view, tag_views, TagDecl};
use crate::text::{join, joined};
use crate::vp::process::{lemma_sum_view, Agent, Channel, Prefix, Process};
use crate::vp::values::{value_texts, Val};

verus! {

impl Prefix {
    /// The text of a prefix: the port with `!` for a send and `?` for an
    /// input, then in brackets the value sent or the variable bound, if there
    /// is one; `Tau` for the internal action.
    pub open spec fn text(self) -> Seq<char> {
        match self {
            Prefix::Send(name, Some(v)) => name + "!("@ + v.text() + ")"@,
            Prefix::Recv(name, Some(x)) => name + "?("@ + x + ")"@,
            Prefix::Send(name, None) => name + "!"@,
            Prefix::Recv(name, None) => name + "?"@,
            Prefix::Tau => "Tau"@,
        }
    }
}

impl Agent {
    /// The text of an agent. A constant has its arguments in brackets where
    /// there are any, a prefix stands before a semicolon, a guard reads `if`
    /// and `then` with its body in braces, a restriction has its ports in
    /// square brackets after a backslash.
    pub open spec fn text(self) -> Seq<char>
        decreases self, 0nat,
    {
        match self {
            Agent::Constant(k, args) => if args.len() == 0 {
                k
            } else {
                k + "("@ + joined(Val::texts(args), ","@) + ")"@
            },
            Agent::Action(ch, p) => ch.text() + "; "@ + p.text(),
            Agent::Sum(ps) => if ps.len() == 0 {
                "NIL"@
            } else {
                "("@ + joined(Agent::texts(ps), " + "@) + ")"@
            },
            Agent::Par(p, q) => "("@ + p.text() + " | "@ + q.text() + ")"@,
            Agent::Restriction(p, names) => "("@ + p.text() + " \\ ["@ + joined(names, ", "@)
                + "])"@,
            Agent::IfThen(b, p) => "if "@ + b.text() + " then { "@ + p.text() + " }"@,
            Agent::Substitution(p, subs) => "("@ + p.text() + " ["@ + joined(
                pair_texts(subs),
                ", "@,
            ) + "])"@,
        }
    }

    /// The texts of a list of agents.
    pub open spec fn texts(ps: Seq<Agent>) -> Seq<Seq<char>>
        decreases ps, 1nat,
    {
        Seq::new(
            ps.len(),
            |i: int|
                if 0 <= i < ps.len() {
                    ps[i].text()
                } else {
                    Seq::empty()
                },
        )
    }
}

impl Channel {
    /// The text of the channel; see [`Prefix::text`].
    pub fn to_text(&self) -> (r: String)
        ensures
            r@ == self@.text(),
    {
        match self {
            Channel::Send(name, Some(v)) => {
                let mut s = name.clone();
                s.append("!(");
                s.append(v.to_text().as_str());
                s.append(")");
                s
            },
            Channel::Recv(name, Some(x)) => {
                let mut s = name.clone();
                s.append("?(");
                s.append(x.as_str());
                s.append(")");
                s
            },
            Channel::Send(name, None) => name.clone().concat("!"),
            Channel::Recv(name, None) => name.clone().concat("?"),
            Channel::Tau => String::from_str("Tau"),
        }
    }
}

impl Process {
    /// The text of the process; see [`Agent::text`].
    #[verifier::loop_isolation(false)]
    pub fn to_text(&self) -> (r: String)
        ensures
            r@ == self@.text(),
        decreases self,
    {
        match self {
            Process::Constant(k, args) => {
                if args.len() == 0 {
                    k.clone()
                } else {
                    let mut s = k.clone();
                    s.append("(");
                    s.append(join(&value_texts(args), ",").as_str());
                    s.append(")");
                    s
                }
            },
            Process::Action(ch, p) => {
                let mut s = ch.to_text();
                s.append("; ");
                s.append((**p).to_text().as_str());
                s
            },
            Process::Sum(ps) => {
                proof {
                    lemma_sum_view(*ps);
                }
                if ps.len() == 0 {
                    String::from_str("NIL")
                } else {
                    let mut parts: Vec<String> = Vec::new();
                    let mut i: usize = 0;
                    while i < ps.len()
                        invariant
                            i <= ps.len(),
                            parts.len() == i,
                            forall|k: int| 0 <= k < i ==> parts[k]@ == ps[k]@.text(),
                        decreases ps.len() - i,
                    {
                        parts.push(ps[i].to_text());
                        i += 1;
                    }
                    assert(names_view(parts@) =~= Agent::texts(self@->Sum_0));
                    let mut s = String::from_str("(");
                    s.append(join(&parts, " + ").as_str());
                    s.append(")");
                    s
                }
            },
            Process::Par(p, q) => {
                let mut s = String::from_str("(");
                s.append((**p).to_text().as_str());
                s.append(" | ");
                s.append((**q).to_text().as_str());
                s.append(")");
                s
            },
            Process::Restriction(p, names) => {
                let mut s = String::from_str("(");
                s.append((**p).to_text().as_str());
                s.append(" \\ [");
                s.append(join(names, ", ").as_str());
                s.append("])");
                s
            },
            Process::IfThen(b, p) => {
                let mut s = String::from_str("if ");
                s.append(b.to_text().as_str());
                s.append(" then { ");
                s.append((**p).to_text().as_str());
                s.append(" }");
                s
            },
            Process::Substitution(p, subs) => {
                let mut s = String::from_str("(");
                s.append((**p).to_text().as_str());
                s.append(" [");
                s.append(join(&subs.pair_texts(), ", ").as_str());
                s.append("])");
                s
            },
        }
    }
}


/// The text of the declaration of a tag: its name and the types of its
/// fields in brackets.
pub open spec fn tag_text(tag: TagDecl) -> Seq<char> {
    tag.0 + "("@ + joined(tag.1, ","@) + ")"@
}

/// The texts of the declarations of the tags of an enum.
pub open spec fn tag_texts(tags: Seq<TagDecl>) -> Seq<Seq<char>> {
    Seq::new(tags.len(), |i: int| tag_text(tags[i]))
}

impl Declaration {
    /// The text of a statement, as a source writes it.
    pub open spec fn text(self) -> Seq<char> {
        match self {
            Declaration::DefConstant(name, params, body) => "fn "@ + name + "("@ + joined(
                params,
                ","@,
            ) + ") { "@ + body.text() + " }"@,
            Declaration::DefEnum(name, tags) => "enum "@ + name + " { "@ + joined(
                tag_texts(tags),
                ","@,
            ) + " }"@,
            Declaration::DefAlias(alias, ty) => "type "@ + alias + " = "@ + ty + ";"@,
            Declaration::SetBounds(min, max) => "#![set_bounds("@ + decimal(min as nat) + ", "@
                + decimal(max as nat) + ")]"@,
            Declaration::SetMain(main) => "#![set_main("@ + main + ")]"@,
        }
    }
}

/// The text of a program: the text of each statement, each on a line of its
/// own.
pub open spec fn program_text(statements: Seq<Declaration>) -> Seq<char>
    decreases statements.len(),
{
    if statements.len() == 0 {
        Seq::empty()
    } else {
        program_text(statements.drop_last()) + statements.last().text() + "\n"@
    }
}

impl Statement {
    /// The text of the statement; see [`Declaration::text`].
    pub fn to_text(&self) -> (r: String)
        ensures
            r@ == self@.text(),
    {
        match self {
            Statement::DefConstant(name, decl) => {
                let mut s = String::from_str("fn ");
                s.append(name.as_str());
                s.append("(");
                s.append(join(&decl.0, ",").as_str());
                s.append(") { ");
                s.append(decl.1.to_text().as_str());
                s.append(" }");
                s
            },
            Statement::DefEnum(name, tags) => {
                let mut parts: Vec<String> = Vec::new();
                let mut i: usize = 0;
                while i < tags.len()
                    invariant
                        i <= tags.len(),
                        parts.len() == i,
                        forall|k: int| 0 <= k < i ==> parts[k]@ == tag_text(tag_view(tags[k])),
                    decreases tags.len() - i,
                {
                    let mut t = tags[i].0.clone();
                    t.append("(");
                    t.append(join(&tags[i].1, ",").as_str());
                    t.append(")");
                    parts.push(t);
                    i += 1;
                }
                assert(names_view(parts@) =~= tag_texts(tag_views(tags@)));
                let mut s = String::from_str("enum ");
                s.append(name.as_str());
                s.append(" { ");
                s.append(join(&parts, ",").as_str());
                s.append(" }");
                s
            },
            Statement::DefAlias(alias, ty) => {
                let mut s = String::from_str("type ");
                s.append(alias.as_str());
                s.append(" = ");
                s.append(ty.as_str());
                s.append(";");
                s
            },
            Statement::Exec(Command::SetBounds(min, max)) => {
                let mut s = String::from_str("#![set_bounds(");
                s.append(decimal_text(*min).as_str());
                s.append(", ");
                s.append(decimal_text(*max).as_str());
                s.append(")]");
                s
            },
            Statement::Exec(Command::SetMain(main)) => {
                let mut s = String::from_str("#![set_main(");
                s.append(main.as_str());
                s.append(")]");
                s
            },
        }
    }
}

impl Program {
    /// The text of the program; see [`program_text`].
    pub fn to_text(&self) -> (r: String)
        ensures
            r@ == program_text(declarations(self.0@)),
    {
        let ghost all = declarations(self.0@);
        let mut out = String::new();
        let mut i: usize = 0;
        assert(all.take(0).len() == 0);
        while i < self.0.len()
            invariant
                i <= self.0.len(),
                all == declarations(self.0@),
                out@ == program_text(all.take(i as int)),
            decreases self.0.len() - i,
        {
            proof {
                let next = all.take(i + 1);
                assert(next.drop_last() =~= all.take(i as int));
                assert(next.last() == self.0@[i as int]@);
            }
            out.append(self.0[i].to_text().as_str());
            out.append("\n");
            i += 1;
        }
        assert(all.take(self.0.len() as int) =~= all);
        out
    }
}

} // verus!
