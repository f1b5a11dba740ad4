//! The words with which a term is written, and the law that what is written
//! is read back: the syntax of the pure calculus is unambiguous.
use vstd::prelude::*;

use crate::error::Error;
use crate::ast::Clause;
use crate::parser::{
    read_alternatives, read_bracketed, read_names, read_pairs, read_process, read_statement,
    read_statements, sym_at,
};
use crate::process::{mentions_tau, Label, Term};
use crate::syntax::{Sym, Word};

verus! {

/// Whether a name can be written as the name of a constant or of a port: it
/// is none of the words `NIL` and `tau`.
pub open spec fn is_plain(name: Seq<char>) -> bool {
    name != "NIL"@ && name != "tau"@
}

/// The words of a list of names: the names with commas between them.
pub open spec fn name_words(names: Seq<Seq<char>>) -> Seq<Word>
    decreases names.len(),
{
    if names.len() == 0 {
        Seq::empty()
    } else if names.len() == 1 {
        seq![Word::Ident(names[0])]
    } else {
        seq![Word::Ident(names[0]), Word::Symbol(Sym::Comma)] + name_words(names.drop_first())
    }
}

/// The words of a list of pairs: `new/old` with commas between them.
pub open spec fn pair_words(pairs: Seq<(Seq<char>, Seq<char>)>) -> Seq<Word>
    decreases pairs.len(),
{
    if pairs.len() == 0 {
        Seq::empty()
    } else {
        let first = seq![
            Word::Ident(pairs[0].0),
            Word::Symbol(Sym::Slash),
            Word::Ident(pairs[0].1),
        ];
        if pairs.len() == 1 {
            first
        } else {
            first + seq![Word::Symbol(Sym::Comma)] + pair_words(pairs.drop_first())
        }
    }
}

impl Term {
    /// Whether the term can be written: its constants and ports have plain
    /// names, and its substitutions do not mention the reserved port.
    pub open spec fn writable(self) -> bool
        decreases self,
    {
        match self {
            Term::Constant(k) => is_plain(k),
            Term::Action(l, p) => p.writable() && match l {
                Label::Send(a) => is_plain(a),
                Label::Recv(a) => is_plain(a),
                Label::Tau => true,
            },
            Term::Sum(ps) => forall|i: int| 0 <= i < ps.len() ==> (#[trigger] ps[i]).writable(),
            Term::Par(p, q) => p.writable() && q.writable(),
            Term::Restriction(p, _) => p.writable(),
            Term::Substitution(p, pairs) => p.writable() && forall|i: int|
                0 <= i < pairs.len() ==> !mentions_tau(#[trigger] pairs[i]),
        }
    }

    /// The words with which the term is written.
    pub open spec fn words(self) -> Seq<Word>
        decreases self, 0nat,
    {
        match self {
            Term::Constant(k) => seq![Word::Ident(k)],
            Term::Action(l, p) => (match l {
                Label::Send(a) => seq![
                    Word::Ident(a),
                    Word::Symbol(Sym::Bang),
                    Word::Symbol(Sym::Dot),
                ],
                Label::Recv(a) => seq![
                    Word::Ident(a),
                    Word::Symbol(Sym::Question),
                    Word::Symbol(Sym::Dot),
                ],
                Label::Tau => seq![Word::Ident("tau"@), Word::Symbol(Sym::Dot)],
            }) + p.words(),
            Term::Sum(ps) => if ps.len() == 0 {
                seq![Word::Ident("NIL"@)]
            } else {
                seq![Word::Symbol(Sym::LParen)] + ps[0].words() + Term::more_words(
                    ps.drop_first(),
                )
            },
            Term::Par(p, q) => seq![Word::Symbol(Sym::LParen)] + p.words() + seq![
                Word::Symbol(Sym::Bar),
            ] + q.words() + seq![Word::Symbol(Sym::RParen)],
            Term::Restriction(p, names) => seq![Word::Symbol(Sym::LParen)] + p.words() + seq![
                Word::Symbol(Sym::Backslash),
                Word::Symbol(Sym::LBrace),
            ] + name_words(names) + seq![Word::Symbol(Sym::RBrace), Word::Symbol(Sym::RParen)],
            Term::Substitution(p, pairs) => seq![Word::Symbol(Sym::LParen)] + p.words() + seq![
                Word::Symbol(Sym::LBracket),
            ] + pair_words(pairs) + seq![Word::Symbol(Sym::RBracket), Word::Symbol(Sym::RParen)],
        }
    }

    /// The words of the alternatives of a sum after the first: each after a
    /// plus sign, and the closing bracket.
    pub open spec fn more_words(ps: Seq<Term>) -> Seq<Word>
        decreases ps, 1nat,
    {
        if ps.len() == 0 {
            seq![Word::Symbol(Sym::RParen)]
        } else {
            seq![Word::Symbol(Sym::Plus)] + ps[0].words() + Term::more_words(ps.drop_first())
        }
    }
}

/// The words `w` stand in `ts` from the place `i` on.
pub open spec fn stands_at(ts: Seq<Word>, i: int, w: Seq<Word>) -> bool {
    &&& 0 <= i
    &&& i + w.len() <= ts.len()
    &&& forall|k: int| 0 <= k < w.len() ==> ts[i + k] == #[trigger] w[k]
}

/// Words that stand somewhere are made of parts that stand one after the
/// other.
pub proof fn lemma_stands_parts(ts: Seq<Word>, i: int, a: Seq<Word>, b: Seq<Word>)
    requires
        stands_at(ts, i, a + b),
    ensures
        stands_at(ts, i, a),
        stands_at(ts, i + a.len(), b),
{
    assert forall|k: int| 0 <= k < a.len() implies ts[i + k] == #[trigger] a[k] by {
        assert((a + b)[k] == a[k]);
    }
    assert forall|k: int| 0 <= k < b.len() implies ts[i + a.len() + k] == #[trigger] b[k] by {
        assert((a + b)[a.len() + k] == b[k]);
    }
}

/// No process is read as a prefix of what follows at `j`: the word there is
/// neither `!` nor `?`.
pub open spec fn ends_at(ts: Seq<Word>, j: int) -> bool {
    !sym_at(ts, j, Sym::Bang) && !sym_at(ts, j, Sym::Question)
}

/// The first word of a term is a name or an opening bracket.
proof fn lemma_first_word(p: Term)
    ensures
        p.words().len() > 0,
        p.words()[0] is Ident || p.words()[0] == Word::Symbol(Sym::LParen),
    decreases p,
{
    match p {
        Term::Action(l, q) => {
            lemma_first_word(*q);
        },
        _ => {},
    }
}


/// A list of names that is written is read back, after the names `acc`.
proof fn lemma_reads_names(
    names: Seq<Seq<char>>,
    ts: Seq<Word>,
    i: int,
    acc: Seq<Seq<char>>,
    close: Sym,
)
    requires
        stands_at(ts, i, name_words(names)),
        sym_at(ts, i + name_words(names).len(), close),
        close != Sym::Comma,
        names.len() > 0 || acc.len() == 0,
    ensures
        read_names(ts, i, acc, close) == Ok::<(Seq<Seq<char>>, int), Error>(
            (acc + names, i + name_words(names).len()),
        ),
    decreases names.len(),
{
    let w = name_words(names);
    if names.len() == 0 {
        assert(acc + names =~= acc);
    } else if names.len() == 1 {
        assert(ts[i + 0] == w[0]);
        assert(acc + names =~= acc.push(names[0]));
    } else {
        let head = seq![Word::Ident(names[0]), Word::Symbol(Sym::Comma)];
        let rest = names.drop_first();
        lemma_stands_parts(ts, i, head, name_words(rest));
        assert(ts[i + 0] == head[0]);
        assert(ts[i + 1] == head[1]);
        lemma_reads_names(rest, ts, i + 2, acc.push(names[0]), close);
        assert(acc.push(names[0]) + rest =~= acc + names);
    }
}

/// A list of pairs that is written is read back, after the pairs `acc`.
proof fn lemma_reads_pairs(
    pairs: Seq<(Seq<char>, Seq<char>)>,
    ts: Seq<Word>,
    i: int,
    acc: Seq<(Seq<char>, Seq<char>)>,
)
    requires
        stands_at(ts, i, pair_words(pairs)),
        sym_at(ts, i + pair_words(pairs).len(), Sym::RBracket),
        pairs.len() > 0 || acc.len() == 0,
    ensures
        read_pairs(ts, i, acc) == Ok::<(Seq<(Seq<char>, Seq<char>)>, int), Error>(
            (acc + pairs, i + pair_words(pairs).len()),
        ),
    decreases pairs.len(),
{
    let w = pair_words(pairs);
    if pairs.len() == 0 {
        assert(acc + pairs =~= acc);
    } else {
        let first = seq![
            Word::Ident(pairs[0].0),
            Word::Symbol(Sym::Slash),
            Word::Ident(pairs[0].1),
        ];
        if pairs.len() == 1 {
            assert(ts[i + 0] == first[0]);
            assert(ts[i + 1] == first[1]);
            assert(ts[i + 2] == first[2]);
            assert(acc + pairs =~= acc.push(pairs[0]));
        } else {
            let rest = pairs.drop_first();
            let head = first + seq![Word::Symbol(Sym::Comma)];
            lemma_stands_parts(ts, i, head, pair_words(rest));
            assert(ts[i + 0] == head[0]);
            assert(ts[i + 1] == head[1]);
            assert(ts[i + 2] == head[2]);
            assert(ts[i + 3] == head[3]);
            lemma_reads_pairs(rest, ts, i + 4, acc.push(pairs[0]));
            assert(acc.push(pairs[0]) + rest =~= acc + pairs);
        }
    }
}

/// What is written is read back: where the words of a writable term stand,
/// and no `!` or `?` follows them, exactly that term is read, up to the end
/// of its words.
pub proof fn lemma_reads_back(p: Term, ts: Seq<Word>, i: int)
    requires
        p.writable(),
        stands_at(ts, i, p.words()),
        ends_at(ts, i + p.words().len()),
    ensures
        read_process(ts, i) == Ok::<(Term, int), Error>((p, i + p.words().len())),
    decreases p, 0nat,
{
    let w = p.words();
    lemma_first_word(p);
    assert(ts[i + 0] == w[0]);
    reveal_strlit("NIL");
    reveal_strlit("tau");
    match p {
        Term::Constant(k) => {},
        Term::Action(l, q) => {
            let head = match l {
                Label::Send(a) => seq![
                    Word::Ident(a),
                    Word::Symbol(Sym::Bang),
                    Word::Symbol(Sym::Dot),
                ],
                Label::Recv(a) => seq![
                    Word::Ident(a),
                    Word::Symbol(Sym::Question),
                    Word::Symbol(Sym::Dot),
                ],
                Label::Tau => seq![Word::Ident("tau"@), Word::Symbol(Sym::Dot)],
            };
            lemma_stands_parts(ts, i, head, q.words());
            assert(ts[i + 0] == head[0]);
            assert(ts[i + 1] == head[1]);
            if !(l is Tau) {
                assert(ts[i + 2] == head[2]);
            }
            lemma_reads_back(*q, ts, i + head.len());
            let rest = read_process(ts, i + head.len());
            assert(rest == Ok::<(Term, int), Error>((*q, i + w.len())));
            match l {
                Label::Send(a) => {
                    assert(sym_at(ts, i + 1, Sym::Bang));
                    assert(read_process(ts, i) == crate::parser::prefixed(l, rest));
                },
                Label::Recv(a) => {
                    assert(!sym_at(ts, i + 1, Sym::Bang));
                    assert(sym_at(ts, i + 1, Sym::Question));
                    assert(sym_at(ts, i + 2, Sym::Dot));
                    assert(read_process(ts, i) == crate::parser::prefixed(l, rest));
                },
                Label::Tau => {
                    assert(ts[i] == Word::Ident("tau"@));
                    assert("tau"@[0] == 't' && "NIL"@[0] == 'N');
                    assert(sym_at(ts, i + 1, Sym::Dot));
                    assert(read_process(ts, i) == crate::parser::prefixed(l, rest));
                },
            }
        },
        Term::Sum(ps) => {
            if ps.len() > 0 {
                let open = seq![Word::Symbol(Sym::LParen)];
                let rest = ps.drop_first();
                lemma_stands_parts(ts, i, open + ps[0].words(), Term::more_words(rest));
                lemma_stands_parts(ts, i, open, ps[0].words());
                lemma_first_word(ps[0]);
                assert(ts[i + 1 + 0] == ps[0].words()[0]);
                let j = i + 1 + ps[0].words().len();
                assert(ts[j + 0] == Term::more_words(rest)[0]);
                lemma_reads_back(ps[0], ts, i + 1);
                lemma_reads_alternatives(rest, ts, j, seq![ps[0]]);
                assert(seq![ps[0]] + rest =~= ps);
                assert(!sym_at(ts, i + 1, Sym::RParen));
                assert(read_process(ts, i + 1) == Ok::<(Term, int), Error>((ps[0], j)));
                assert(read_process(ts, i) == read_bracketed(ts, j, ps[0]));
                assert(sym_at(ts, j, Sym::RParen) || sym_at(ts, j, Sym::Plus));
                assert(read_bracketed(ts, j, ps[0]) == read_alternatives(ts, j, seq![ps[0]]));
            } else {
                assert(ps =~= Seq::empty());
            }
        },
        Term::Par(a, b) => {
            let open = seq![Word::Symbol(Sym::LParen)];
            let bar = seq![Word::Symbol(Sym::Bar)];
            let close = seq![Word::Symbol(Sym::RParen)];
            lemma_stands_parts(ts, i, open + a.words() + bar + b.words(), close);
            lemma_stands_parts(ts, i, open + a.words() + bar, b.words());
            lemma_stands_parts(ts, i, open + a.words(), bar);
            lemma_stands_parts(ts, i, open, a.words());
            lemma_first_word(*a);
            assert(ts[i + 1 + 0] == a.words()[0]);
            let j = i + 1 + a.words().len();
            assert(ts[j + 0] == bar[0]);
            let k = j + 1 + b.words().len();
            assert(ts[k + 0] == close[0]);
            lemma_reads_back(*a, ts, i + 1);
            lemma_reads_back(*b, ts, j + 1);
            assert(!sym_at(ts, i + 1, Sym::RParen));
            assert(read_process(ts, i + 1) == Ok::<(Term, int), Error>((*a, j)));
            assert(read_process(ts, i) == read_bracketed(ts, j, *a));
            assert(read_process(ts, j + 1) == Ok::<(Term, int), Error>((*b, k)));
            assert(sym_at(ts, j, Sym::Bar));
            assert(sym_at(ts, k, Sym::RParen));
            assert(read_bracketed(ts, j, *a) == Ok::<(Term, int), Error>((p, k + 1)));
        },
        Term::Restriction(a, names) => {
            let open = seq![Word::Symbol(Sym::LParen)];
            let mid = seq![Word::Symbol(Sym::Backslash), Word::Symbol(Sym::LBrace)];
            let close = seq![Word::Symbol(Sym::RBrace), Word::Symbol(Sym::RParen)];
            lemma_stands_parts(ts, i, open + a.words() + mid + name_words(names), close);
            lemma_stands_parts(ts, i, open + a.words() + mid, name_words(names));
            lemma_stands_parts(ts, i, open + a.words(), mid);
            lemma_stands_parts(ts, i, open, a.words());
            lemma_first_word(*a);
            assert(ts[i + 1 + 0] == a.words()[0]);
            let j = i + 1 + a.words().len();
            assert(ts[j + 0] == mid[0]);
            assert(ts[j + 1] == mid[1]);
            let k = j + 2 + name_words(names).len();
            assert(ts[k + 0] == close[0]);
            assert(ts[k + 1] == close[1]);
            lemma_reads_back(*a, ts, i + 1);
            lemma_reads_names(names, ts, j + 2, Seq::empty(), Sym::RBrace);
            assert(Seq::<Seq<char>>::empty() + names =~= names);
            assert(!sym_at(ts, i + 1, Sym::RParen));
            assert(read_process(ts, i + 1) == Ok::<(Term, int), Error>((*a, j)));
            assert(read_process(ts, i) == read_bracketed(ts, j, *a));
            assert(sym_at(ts, j, Sym::Backslash));
            assert(sym_at(ts, j + 1, Sym::LBrace));
            assert(read_names(ts, j + 2, Seq::empty(), Sym::RBrace) == Ok::<
                (Seq<Seq<char>>, int),
                Error,
            >((names, k)));
            assert(sym_at(ts, k + 1, Sym::RParen));
            assert(read_bracketed(ts, j, *a) == Ok::<(Term, int), Error>((p, k + 2)));
        },
        Term::Substitution(a, pairs) => {
            let open = seq![Word::Symbol(Sym::LParen)];
            let mid = seq![Word::Symbol(Sym::LBracket)];
            let close = seq![Word::Symbol(Sym::RBracket), Word::Symbol(Sym::RParen)];
            lemma_stands_parts(ts, i, open + a.words() + mid + pair_words(pairs), close);
            lemma_stands_parts(ts, i, open + a.words() + mid, pair_words(pairs));
            lemma_stands_parts(ts, i, open + a.words(), mid);
            lemma_stands_parts(ts, i, open, a.words());
            lemma_first_word(*a);
            assert(ts[i + 1 + 0] == a.words()[0]);
            let j = i + 1 + a.words().len();
            assert(ts[j + 0] == mid[0]);
            let k = j + 1 + pair_words(pairs).len();
            assert(ts[k + 0] == close[0]);
            assert(ts[k + 1] == close[1]);
            lemma_reads_back(*a, ts, i + 1);
            lemma_reads_pairs(pairs, ts, j + 1, Seq::empty());
            assert(Seq::<(Seq<char>, Seq<char>)>::empty() + pairs =~= pairs);
            assert(!sym_at(ts, i + 1, Sym::RParen));
            assert(read_process(ts, i + 1) == Ok::<(Term, int), Error>((*a, j)));
            assert(read_process(ts, i) == read_bracketed(ts, j, *a));
            assert(sym_at(ts, j, Sym::LBracket));
            assert(read_pairs(ts, j + 1, Seq::empty()) == Ok::<
                (Seq<(Seq<char>, Seq<char>)>, int),
                Error,
            >((pairs, k)));
            assert(sym_at(ts, k + 1, Sym::RParen));
            assert(read_bracketed(ts, j, *a) == Ok::<(Term, int), Error>((p, k + 2)));
        },
    }
}

/// The words of a writable term, alone, are read as that term.
pub proof fn lemma_words_read_back(p: Term)
    requires
        p.writable(),
    ensures
        read_process(p.words(), 0) == Ok::<(Term, int), Error>((p, p.words().len() as int)),
{
    lemma_reads_back(p, p.words(), 0);
}

/// The alternatives of a sum that are written after the first are read back,
/// after the alternatives `acc`.
proof fn lemma_reads_alternatives(ps: Seq<Term>, ts: Seq<Word>, j: int, acc: Seq<Term>)
    requires
        forall|k: int| 0 <= k < ps.len() ==> (#[trigger] ps[k]).writable(),
        stands_at(ts, j, Term::more_words(ps)),
    ensures
        read_alternatives(ts, j, acc) == Ok::<(Term, int), Error>(
            (Term::Sum(acc + ps), j + Term::more_words(ps).len()),
        ),
    decreases ps, 1nat,
{
    let w = Term::more_words(ps);
    assert(ts[j + 0] == w[0]);
    if ps.len() == 0 {
        assert(acc + ps =~= acc);
    } else {
        let plus = seq![Word::Symbol(Sym::Plus)];
        let rest = ps.drop_first();
        lemma_stands_parts(ts, j, plus + ps[0].words(), Term::more_words(rest));
        lemma_stands_parts(ts, j, plus, ps[0].words());
        let k = j + 1 + ps[0].words().len();
        assert(ts[k + 0] == Term::more_words(rest)[0]);
        lemma_reads_back(ps[0], ts, j + 1);
        assert forall|n: int| 0 <= n < rest.len() implies (#[trigger] rest[n]).writable() by {
            assert(rest[n] == ps[n + 1]);
        }
        lemma_reads_alternatives(rest, ts, k, acc.push(ps[0]));
        assert(acc.push(ps[0]) + rest =~= acc + ps);
    }
}


impl Clause {
    /// Whether the statement can be written: the body it binds is writable.
    pub open spec fn writable(self) -> bool {
        match self {
            Clause::DefConstant(_, body) => body.writable(),
            Clause::SetMain(_) => true,
        }
    }

    /// The words with which the statement is written.
    pub open spec fn words(self) -> Seq<Word> {
        match self {
            Clause::DefConstant(name, body) => seq![
                Word::Ident("fn"@),
                Word::Ident(name),
                Word::Symbol(Sym::LBrace),
            ] + body.words() + seq![Word::Symbol(Sym::RBrace)],
            Clause::SetMain(name) => seq![
                Word::Symbol(Sym::Hash),
                Word::Symbol(Sym::Bang),
                Word::Symbol(Sym::LBracket),
                Word::Ident("set_main"@),
                Word::Symbol(Sym::LParen),
                Word::Ident(name),
                Word::Symbol(Sym::RParen),
                Word::Symbol(Sym::RBracket),
            ],
        }
    }
}

/// The words of a list of statements, one after the other.
pub open spec fn statement_words(cs: Seq<Clause>) -> Seq<Word>
    decreases cs.len(),
{
    if cs.len() == 0 {
        Seq::empty()
    } else {
        cs[0].words() + statement_words(cs.drop_first())
    }
}

/// A statement that is written is read back.
pub proof fn lemma_reads_statement(c: Clause, ts: Seq<Word>, i: int)
    requires
        c.writable(),
        stands_at(ts, i, c.words()),
    ensures
        read_statement(ts, i) == Ok::<(Clause, int), Error>((c, i + c.words().len())),
{
    let w = c.words();
    match c {
        Clause::DefConstant(name, body) => {
            let head = seq![Word::Ident("fn"@), Word::Ident(name), Word::Symbol(Sym::LBrace)];
            let close = seq![Word::Symbol(Sym::RBrace)];
            lemma_stands_parts(ts, i, head + body.words(), close);
            lemma_stands_parts(ts, i, head, body.words());
            assert(ts[i + 0] == head[0]);
            assert(ts[i + 1] == head[1]);
            assert(ts[i + 2] == head[2]);
            let m = i + 3 + body.words().len();
            assert(ts[m + 0] == close[0]);
            lemma_reads_back(body, ts, i + 3);
            assert(!sym_at(ts, i + 2, Sym::LParen));
            assert(read_process(ts, i + 3) == Ok::<(Term, int), Error>((body, m)));
        },
        Clause::SetMain(name) => {
            assert(ts[i + 0] == w[0]);
            assert(ts[i + 1] == w[1]);
            assert(ts[i + 2] == w[2]);
            assert(ts[i + 3] == w[3]);
            assert(ts[i + 4] == w[4]);
            assert(ts[i + 5] == w[5]);
            assert(ts[i + 6] == w[6]);
            assert(ts[i + 7] == w[7]);
        },
    }
}

/// Statements that are written are read back, after the statements `acc`.
pub proof fn lemma_reads_statements(cs: Seq<Clause>, ts: Seq<Word>, i: int, acc: Seq<Clause>)
    requires
        forall|k: int| 0 <= k < cs.len() ==> (#[trigger] cs[k]).writable(),
        stands_at(ts, i, statement_words(cs)),
        i + statement_words(cs).len() == ts.len(),
    ensures
        read_statements(ts, i, acc) == Ok::<Seq<Clause>, Error>(acc + cs),
    decreases cs.len(),
{
    if cs.len() == 0 {
        assert(acc + cs =~= acc);
    } else {
        let rest = cs.drop_first();
        lemma_stands_parts(ts, i, cs[0].words(), statement_words(rest));
        lemma_reads_statement(cs[0], ts, i);
        assert forall|n: int| 0 <= n < rest.len() implies (#[trigger] rest[n]).writable() by {
            assert(rest[n] == cs[n + 1]);
        }
        lemma_reads_statements(rest, ts, i + cs[0].words().len(), acc.push(cs[0]));
        assert(acc.push(cs[0]) + rest =~= acc + cs);
    }
}

} // verus!
