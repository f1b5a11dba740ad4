//! Process terms, channels and port substitutions.
use vstd::prelude::*;

use crate::context::{Context, Definitions};
use crate::error::Error;
use crate::table::names_view;

verus! {

/// The label of a transition: the mathematical value of a [`Channel`].
pub enum Label {
    Send(Seq<char>),
    Recv(Seq<char>),
    Tau,
}

/// The reserved port name of the internal action.
pub open spec fn tau_name() -> Seq<char> {
    seq!['t', 'a', 'u']
}

impl Label {
    /// The port a label acts on; the internal action acts on the reserved port.
    pub open spec fn name(self) -> Seq<char> {
        match self {
            Label::Send(n) => n,
            Label::Recv(n) => n,
            Label::Tau => tau_name(),
        }
    }

    /// Two labels synchronise when one sends and the other receives on the same
    /// port, or when both are internal.
    pub open spec fn is_synched_with(self, other: Label) -> bool {
        match (self, other) {
            (Label::Send(a), Label::Recv(b)) => a == b,
            (Label::Recv(a), Label::Send(b)) => a == b,
            (Label::Tau, Label::Tau) => true,
            _ => false,
        }
    }
}

/// A communication endpoint: output on a port, input on a port, or the
/// internal action.
#[derive(Debug, Hash)]
pub enum Channel {
    Send(String),
    Recv(String),
    Tau,
}

impl View for Channel {
    type V = Label;

    open spec fn view(&self) -> Label {
        match self {
            Channel::Send(s) => Label::Send(s@),
            Channel::Recv(s) => Label::Recv(s@),
            Channel::Tau => Label::Tau,
        }
    }
}

impl Clone for Channel {
    fn clone(&self) -> (r: Self)
        ensures
            r@ == self@,
    {
        match self {
            Channel::Send(s) => Channel::Send(s.clone()),
            Channel::Recv(s) => Channel::Recv(s.clone()),
            Channel::Tau => Channel::Tau,
        }
    }
}

impl PartialEq for Channel {
    fn eq(&self, other: &Self) -> (r: bool) {
        match (self, other) {
            (Channel::Send(a), Channel::Send(b)) => *a == *b,
            (Channel::Recv(a), Channel::Recv(b)) => *a == *b,
            (Channel::Tau, Channel::Tau) => true,
            _ => false,
        }
    }
}

impl vstd::std_specs::cmp::PartialEqSpecImpl for Channel {
    open spec fn obeys_eq_spec() -> bool {
        true
    }

    open spec fn eq_spec(&self, other: &Self) -> bool {
        self@ == other@
    }
}

impl Eq for Channel {}

impl Channel {
    /// The port of the channel; the internal action has the reserved port.
    pub fn name(&self) -> (r: &str)
        ensures
            r@ == self@.name(),
    {
        match self {
            Channel::Send(s) => s.as_str(),
            Channel::Recv(s) => s.as_str(),
            Channel::Tau => {
                proof {
                    reveal_strlit("tau");
                }
                assert("tau"@ =~= tau_name());
                "tau"
            },
        }
    }

    /// The output on the port `s`.
    pub fn send(s: &str) -> (r: Self)
        ensures
            r@ == Label::Send(s@),
    {
        Channel::Send(String::from_str(s))
    }

    /// The input on the port `s`.
    pub fn recv(s: &str) -> (r: Self)
        ensures
            r@ == Label::Recv(s@),
    {
        Channel::Recv(String::from_str(s))
    }

    /// The internal action.
    pub fn tau() -> (r: Self)
        ensures
            r@ == Label::Tau,
    {
        Channel::Tau
    }

    /// Whether the channel is the internal action.
    pub fn is_tau(&self) -> (r: bool)
        ensures
            r == (self@ == Label::Tau),
    {
        match self {
            Channel::Tau => true,
            _ => false,
        }
    }

    /// Whether the two channels synchronise; see [`Label::is_synched_with`].
    pub fn is_synched_with(&self, other: &Self) -> (r: bool)
        ensures
            r == self@.is_synched_with(other@),
    {
        match (self, other) {
            (Channel::Send(a), Channel::Recv(b)) => *a == *b,
            (Channel::Recv(a), Channel::Send(b)) => *a == *b,
            (Channel::Tau, Channel::Tau) => true,
            _ => false,
        }
    }
}


/// The mathematical value of a [`Process`].
pub enum Term {
    Constant(Seq<char>),
    Action(Label, Box<Term>),
    Sum(Seq<Term>),
    Par(Box<Term>, Box<Term>),
    Substitution(Box<Term>, Seq<(Seq<char>, Seq<char>)>),
    Restriction(Box<Term>, Seq<Seq<char>>),
}

/// The views of a list of `(new, old)` port pairs.
pub open spec fn pairs_view(pairs: Seq<(String, String)>) -> Seq<(Seq<char>, Seq<char>)> {
    Seq::new(pairs.len(), |i: int| (pairs[i].0@, pairs[i].1@))
}

/// Whether a pair of a substitution mentions the reserved port.
pub open spec fn mentions_tau(pair: (Seq<char>, Seq<char>)) -> bool {
    pair.0 == tau_name() || pair.1 == tau_name()
}

/// An ordered list of `(new, old)` port pairs, none of which mentions the
/// reserved port of the internal action.
#[derive(Debug, Hash)]
pub struct Substitution(Vec<(String, String)>);

impl View for Substitution {
    type V = Seq<(Seq<char>, Seq<char>)>;

    closed spec fn view(&self) -> Seq<(Seq<char>, Seq<char>)> {
        pairs_view(self.0@)
    }
}

impl Substitution {
    /// No pair mentions the reserved port.
    #[verifier::type_invariant]
    pub open spec fn wf(&self) -> bool {
        forall|i: int| 0 <= i < self@.len() ==> !mentions_tau(#[trigger] self@[i])
    }
}

/// A process of the calculus.
#[derive(Debug, Hash)]
pub enum Process {
    Constant(String),
    Action(Channel, Box<Process>),
    Sum(Vec<Process>),
    Par(Box<Process>, Box<Process>),
    Substitution(Box<Process>, Substitution),
    Restriction(Box<Process>, Vec<String>),
}

impl Process {
    /// The term a process stands for.
    pub open spec fn term(&self) -> Term
        decreases self,
    {
        match self {
            Process::Constant(name) => Term::Constant(name@),
            Process::Action(ch, p) => Term::Action(ch@, Box::new((**p).term())),
            Process::Sum(ps) => Term::Sum(
                Seq::new(
                    ps.len() as nat,
                    |i: int|
                        if 0 <= i < ps.len() {
                            ps[i].term()
                        } else {
                            Term::Sum(Seq::empty())
                        },
                ),
            ),
            Process::Par(p, q) => Term::Par(Box::new((**p).term()), Box::new((**q).term())),
            Process::Substitution(p, subs) => Term::Substitution(Box::new((**p).term()), subs@),
            Process::Restriction(p, names) => Term::Restriction(
                Box::new((**p).term()),
                names_view(names@),
            ),
        }
    }
}

impl View for Process {
    type V = Term;

    open spec fn view(&self) -> Term {
        self.term()
    }
}


/// The terms of a list of processes.
pub open spec fn terms(ps: Seq<Process>) -> Seq<Term> {
    Seq::new(ps.len(), |i: int| ps[i]@)
}

/// A sum stands for the sum of the terms of its children.
pub proof fn lemma_sum_view(ps: Vec<Process>)
    ensures
        Process::Sum(ps)@ == Term::Sum(terms(ps@)),
{
    let a = Process::Sum(ps)@;
    assert(a->Sum_0 =~= terms(ps@));
}

pub(crate) fn clone_string_list(names: &Vec<String>) -> (r: Vec<String>)
    ensures
        names_view(r@) == names_view(names@),
{
    let mut out: Vec<String> = Vec::new();
    let mut i: usize = 0;
    while i < names.len()
        invariant
            i <= names.len(),
            out.len() == i,
            forall|k: int| 0 <= k < i ==> out[k]@ == names[k]@,
        decreases names.len() - i,
    {
        out.push(names[i].clone());
        i += 1;
    }
    assert(names_view(out@) =~= names_view(names@));
    out
}

impl Clone for Substitution {
    fn clone(&self) -> (r: Self)
        ensures
            r@ == self@,
    {
        let mut out: Vec<(String, String)> = Vec::new();
        let mut i: usize = 0;
        while i < self.0.len()
            invariant
                i <= self.0.len(),
                out.len() == i,
                forall|k: int| 0 <= k < i ==> out[k].0@ == self.0[k].0@ && out[k].1@ == self.0[k].1@,
            decreases self.0.len() - i,
        {
            out.push((self.0[i].0.clone(), self.0[i].1.clone()));
            i += 1;
        }
        proof {
            use_type_invariant(self);
            assert(pairs_view(out@) =~= pairs_view(self.0@));
            assert(Substitution(out)@ == self@);
        }
        Substitution(out)
    }
}

impl Clone for Process {
    #[verifier::loop_isolation(false)]
    fn clone(&self) -> (r: Self)
        ensures
            r@ == self@,
        decreases self,
    {
        match self {
            Process::Constant(name) => Process::Constant(name.clone()),
            Process::Action(ch, p) => Process::Action(ch.clone(), Box::new((**p).clone())),
            Process::Sum(ps) => {
                let mut out: Vec<Process> = Vec::new();
                let mut i: usize = 0;
                while i < ps.len()
                    invariant
                        i <= ps.len(),
                        out.len() == i,
                        forall|k: int| 0 <= k < i ==> out[k]@ == ps[k]@,
                    decreases ps.len() - i,
                {
                    out.push(ps[i].clone());
                    i += 1;
                }
                proof {
                    lemma_sum_view(out);
                    lemma_sum_view(*ps);
                    assert(terms(out@) =~= terms(ps@));
                }
                Process::Sum(out)
            },
            Process::Par(p, q) => Process::Par(Box::new((**p).clone()), Box::new((**q).clone())),
            Process::Substitution(p, subs) => Process::Substitution(
                Box::new((**p).clone()),
                subs.clone(),
            ),
            Process::Restriction(p, names) => Process::Restriction(
                Box::new((**p).clone()),
                clone_string_list(names),
            ),
        }
    }
}


fn same_string_list(a: &Vec<String>, b: &Vec<String>) -> (r: bool)
    ensures
        r == (names_view(a@) == names_view(b@)),
{
    if a.len() != b.len() {
        assert(names_view(a@).len() != names_view(b@).len());
        return false;
    }
    let mut i: usize = 0;
    while i < a.len()
        invariant
            i <= a.len(),
            a.len() == b.len(),
            forall|k: int| 0 <= k < i ==> a[k]@ == b[k]@,
        decreases a.len() - i,
    {
        if a[i] != b[i] {
            assert(names_view(a@)[i as int] != names_view(b@)[i as int]);
            return false;
        }
        i += 1;
    }
    assert(names_view(a@) =~= names_view(b@));
    true
}

impl PartialEq for Substitution {
    fn eq(&self, other: &Self) -> (r: bool) {
        if self.0.len() != other.0.len() {
            assert(self@.len() != other@.len());
            return false;
        }
        let mut i: usize = 0;
        while i < self.0.len()
            invariant
                i <= self.0.len(),
                self.0.len() == other.0.len(),
                forall|k: int| 0 <= k < i ==> self@[k] == other@[k],
            decreases self.0.len() - i,
        {
            if self.0[i].0 != other.0[i].0 || self.0[i].1 != other.0[i].1 {
                assert(self@[i as int] != other@[i as int]);
                return false;
            }
            i += 1;
        }
        assert(self@ =~= other@);
        true
    }
}

impl vstd::std_specs::cmp::PartialEqSpecImpl for Substitution {
    open spec fn obeys_eq_spec() -> bool {
        true
    }

    open spec fn eq_spec(&self, other: &Self) -> bool {
        self@ == other@
    }
}

impl Eq for Substitution {}

impl PartialEq for Process {
    #[verifier::loop_isolation(false)]
    fn eq(&self, other: &Self) -> (r: bool)
        decreases self,
    {
        match (self, other) {
            (Process::Constant(a), Process::Constant(b)) => *a == *b,
            (Process::Action(c, p), Process::Action(d, q)) => *c == *d && (**p).eq(&**q),
            (Process::Sum(ps), Process::Sum(qs)) => {
                proof {
                    lemma_sum_view(*ps);
                    lemma_sum_view(*qs);
                }
                if ps.len() != qs.len() {
                    assert(terms(ps@).len() != terms(qs@).len());
                    return false;
                }
                let mut i: usize = 0;
                while i < ps.len()
                    invariant
                        i <= ps.len(),
                        forall|k: int| 0 <= k < i ==> ps[k]@ == qs[k]@,
                    decreases ps.len() - i,
                {
                    if !ps[i].eq(&qs[i]) {
                        assert(terms(ps@)[i as int] != terms(qs@)[i as int]);
                        return false;
                    }
                    i += 1;
                }
                assert(terms(ps@) =~= terms(qs@));
                true
            },
            (Process::Par(p1, q1), Process::Par(p2, q2)) => (**p1).eq(&**p2) && (**q1).eq(&**q2),
            (Process::Substitution(p, s), Process::Substitution(q, t)) => *s == *t && (**p).eq(
                &**q,
            ),
            (Process::Restriction(p, m), Process::Restriction(q, n)) => same_string_list(m, n) && (
            **p).eq(&**q),
            _ => false,
        }
    }
}

impl vstd::std_specs::cmp::PartialEqSpecImpl for Process {
    open spec fn obeys_eq_spec() -> bool {
        true
    }

    open spec fn eq_spec(&self, other: &Self) -> bool {
        self@ == other@
    }
}

impl Eq for Process {}


impl Term {
    /// The terminated process: the empty sum.
    pub open spec fn nil() -> Term {
        Term::Sum(Seq::empty())
    }

    /// A term is terminated when it is the empty sum, or the parallel
    /// composition of two terminated terms.
    pub open spec fn is_nil(self) -> bool
        decreases self,
    {
        match self {
            Term::Sum(ps) => ps.len() == 0,
            Term::Par(p, q) => p.is_nil() && q.is_nil(),
            _ => false,
        }
    }

    /// Structural normalisation, bottom-up: terminated alternatives of a sum are
    /// dropped and a sum of one alternative is that alternative; a parallel
    /// composition with a terminated side is the other side.
    pub open spec fn flatten(self) -> Term
        decreases self, 0nat,
    {
        match self {
            Term::Constant(_) => self,
            Term::Action(l, p) => Term::Action(l, Box::new(p.flatten())),
            Term::Sum(ps) => {
                let fs = Term::flatten_alternatives(ps);
                if fs.len() == 1 {
                    fs[0]
                } else {
                    Term::Sum(fs)
                }
            },
            Term::Par(p, q) => {
                let fp = p.flatten();
                let fq = q.flatten();
                if fp.is_nil() && fq.is_nil() {
                    Term::nil()
                } else if fp.is_nil() {
                    fq
                } else if fq.is_nil() {
                    fp
                } else {
                    Term::Par(Box::new(fp), Box::new(fq))
                }
            },
            Term::Substitution(p, subs) => Term::Substitution(Box::new(p.flatten()), subs),
            Term::Restriction(p, names) => Term::Restriction(Box::new(p.flatten()), names),
        }
    }

    /// The alternatives of a sum, each flattened, without those that are
    /// terminated; their order is kept.
    pub open spec fn flatten_alternatives(ps: Seq<Term>) -> Seq<Term>
        decreases ps, 1nat,
    {
        if ps.len() == 0 {
            Seq::empty()
        } else {
            let init = Term::flatten_alternatives(ps.drop_last());
            let last = ps.last().flatten();
            if last.is_nil() {
                init
            } else {
                init.push(last)
            }
        }
    }
}

impl Process {
    /// Whether the process is terminated; see [`Term::is_nil`].
    pub fn is_nil(&self) -> (r: bool)
        ensures
            r == self@.is_nil(),
        decreases self,
    {
        match self {
            Process::Sum(ps) => {
                proof {
                    lemma_sum_view(*ps);
                }
                ps.len() == 0
            },
            Process::Par(p, q) => (**p).is_nil() && (**q).is_nil(),
            _ => false,
        }
    }

    /// The terminated process: the empty sum.
    pub fn nil() -> (r: Self)
        ensures
            r@ == Term::nil(),
    {
        let ps: Vec<Process> = Vec::new();
        proof {
            lemma_sum_view(ps);
            assert(terms(ps@) =~= Seq::empty());
        }
        Process::Sum(ps)
    }

    /// The reference to the constant `s`.
    pub fn constant(s: &str) -> (r: Self)
        ensures
            r@ == Term::Constant(s@),
    {
        Process::Constant(String::from_str(s))
    }

    /// The prefix of `l` before `p`.
    pub fn action(l: Channel, p: Self) -> (r: Self)
        ensures
            r@ == Term::Action(l@, Box::new(p@)),
    {
        Process::Action(l, Box::new(p))
    }

    /// The choice between the alternatives `sum`, in their order.
    pub fn sum(sum: Vec<Self>) -> (r: Self)
        ensures
            r@ == Term::Sum(terms(sum@)),
    {
        proof {
            lemma_sum_view(sum);
        }
        Process::Sum(sum)
    }

    /// The parallel composition of `p` and `q`.
    pub fn par(p: Self, q: Self) -> (r: Self)
        ensures
            r@ == Term::Par(Box::new(p@), Box::new(q@)),
    {
        Process::Par(Box::new(p), Box::new(q))
    }

    /// The process `p` with its ports renamed by `subs`.
    pub fn substitution(p: Self, subs: Substitution) -> (r: Self)
        ensures
            r@ == Term::Substitution(Box::new(p@), subs@),
    {
        Process::Substitution(Box::new(p), subs)
    }

    /// The process `p` with the ports `chans` hidden.
    pub fn restriction(p: Self, chans: Vec<String>) -> (r: Self)
        ensures
            r@ == Term::Restriction(Box::new(p@), names_view(chans@)),
    {
        Process::Restriction(Box::new(p), chans)
    }

    #[verifier::loop_isolation(false)]
    fn flattened(&self) -> (r: Self)
        ensures
            r@ == self@.flatten(),
        decreases self,
    {
        match self {
            Process::Constant(name) => Process::Constant(name.clone()),
            Process::Action(ch, p) => Process::Action(ch.clone(), Box::new((**p).flattened())),
            Process::Sum(ps) => {
                proof {
                    lemma_sum_view(*ps);
                }
                let mut out: Vec<Process> = Vec::new();
                let mut i: usize = 0;
                while i < ps.len()
                    invariant
                        i <= ps.len(),
                        terms(out@) == Term::flatten_alternatives(terms(ps@).take(i as int)),
                    decreases ps.len() - i,
                {
                    let f = ps[i].flattened();
                    proof {
                        let next = terms(ps@).take(i + 1);
                        assert(next.drop_last() =~= terms(ps@).take(i as int));
                        assert(next.last() == ps[i as int]@);
                    }
                    if !f.is_nil() {
                        let ghost before = out@;
                        out.push(f);
                        assert(terms(out@) =~= terms(before).push(f@));
                    }
                    i += 1;
                }
                assert(terms(ps@).take(ps.len() as int) =~= terms(ps@));
                if out.len() == 1 {
                    out[0].clone()
                } else {
                    proof {
                        lemma_sum_view(out);
                    }
                    Process::Sum(out)
                }
            },
            Process::Par(p, q) => {
                let fp = (**p).flattened();
                let fq = (**q).flattened();
                if fp.is_nil() && fq.is_nil() {
                    Process::nil()
                } else if fp.is_nil() {
                    fq
                } else if fq.is_nil() {
                    fp
                } else {
                    Process::Par(Box::new(fp), Box::new(fq))
                }
            },
            Process::Substitution(p, subs) => Process::Substitution(
                Box::new((**p).flattened()),
                subs.clone(),
            ),
            Process::Restriction(p, names) => Process::Restriction(
                Box::new((**p).flattened()),
                clone_string_list(names),
            ),
        }
    }

    /// Structural normalisation; see [`Term::flatten`].
    pub fn flatten(self) -> (r: Self)
        ensures
            r@ == self@.flatten(),
    {
        self.flattened()
    }
}


proof fn lemma_alternatives_of_normal_forms(xs: Seq<Term>)
    requires
        forall|i: int| 0 <= i < xs.len() ==> !xs[i].is_nil() && xs[i].flatten() == xs[i],
    ensures
        Term::flatten_alternatives(xs) == xs,
    decreases xs.len(),
{
    if xs.len() > 0 {
        lemma_alternatives_of_normal_forms(xs.drop_last());
        assert(xs.drop_last().push(xs.last()) =~= xs);
    }
}

proof fn lemma_flatten_alternatives_normal(ps: Seq<Term>)
    ensures
        forall|i: int|
            0 <= i < Term::flatten_alternatives(ps).len() ==> {
                &&& !(#[trigger] Term::flatten_alternatives(ps)[i]).is_nil()
                &&& Term::flatten_alternatives(ps)[i].flatten() == Term::flatten_alternatives(ps)[i]
            },
    decreases ps, 1nat,
{
    if ps.len() > 0 {
        lemma_flatten_alternatives_normal(ps.drop_last());
        lemma_flatten_idempotent(ps.last());
    }
}

/// Flattening is idempotent: a flattened term is its own normal form.
pub proof fn lemma_flatten_idempotent(t: Term)
    ensures
        t.flatten().flatten() == t.flatten(),
    decreases t, 0nat,
{
    match t {
        Term::Constant(_) => {},
        Term::Action(_, p) => {
            lemma_flatten_idempotent(*p);
        },
        Term::Sum(ps) => {
            let fs = Term::flatten_alternatives(ps);
            lemma_flatten_alternatives_normal(ps);
            lemma_alternatives_of_normal_forms(fs);
        },
        Term::Par(p, q) => {
            lemma_flatten_idempotent(*p);
            lemma_flatten_idempotent(*q);
            assert(Term::flatten_alternatives(Seq::empty()) =~= Seq::<Term>::empty());
        },
        Term::Substitution(p, _) => {
            lemma_flatten_idempotent(*p);
        },
        Term::Restriction(p, _) => {
            lemma_flatten_idempotent(*p);
        },
    }
}


/// The port that a list of `(new, old)` pairs sends `name` to: the `new` of the
/// first pair whose `old` is `name`, and `name` itself where there is none.
pub open spec fn replace_name(pairs: Seq<(Seq<char>, Seq<char>)>, name: Seq<char>) -> Seq<char>
    decreases pairs.len(),
{
    if pairs.len() == 0 {
        name
    } else if pairs[0].1 == name {
        pairs[0].0
    } else {
        replace_name(pairs.drop_first(), name)
    }
}

/// A label with its port renamed; the internal action is left alone.
pub open spec fn replace_label(pairs: Seq<(Seq<char>, Seq<char>)>, l: Label) -> Label {
    match l {
        Label::Send(n) => Label::Send(replace_name(pairs, n)),
        Label::Recv(n) => Label::Recv(replace_name(pairs, n)),
        Label::Tau => Label::Tau,
    }
}

impl Term {
    /// The term with the port of every prefix renamed. Constants, restricted
    /// names and inner substitutions are left as they are.
    pub open spec fn rename(self, pairs: Seq<(Seq<char>, Seq<char>)>) -> Term
        decreases self,
    {
        match self {
            Term::Constant(_) => self,
            Term::Action(l, p) => Term::Action(replace_label(pairs, l), Box::new(p.rename(pairs))),
            Term::Sum(ps) => Term::Sum(
                Seq::new(
                    ps.len(),
                    |i: int|
                        if 0 <= i < ps.len() {
                            ps[i].rename(pairs)
                        } else {
                            Term::nil()
                        },
                ),
            ),
            Term::Par(p, q) => Term::Par(Box::new(p.rename(pairs)), Box::new(q.rename(pairs))),
            Term::Substitution(p, s) => Term::Substitution(Box::new(p.rename(pairs)), s),
            Term::Restriction(p, n) => Term::Restriction(Box::new(p.rename(pairs)), n),
        }
    }
}

/// A transition: its source, its label and its target.
pub type Transition = (Process, Channel, Process);

/// The mathematical value of a [`Transition`].
pub type Step = (Term, Label, Term);

impl Substitution {
    /// Makes a substitution of the pairs, unless one of them mentions the
    /// reserved port.
    pub fn new(subs: Vec<(String, String)>) -> (r: Result<Self, Error>)
        ensures
            match r {
                Ok(s) => s@ == pairs_view(subs@) && forall|i: int|
                    0 <= i < subs@.len() ==> !mentions_tau(#[trigger] pairs_view(subs@)[i]),
                Err(e) => e == Error::ReservedName && exists|i: int|
                    0 <= i < subs@.len() && mentions_tau(#[trigger] pairs_view(subs@)[i]),
            },
    {
        proof {
            reveal_strlit("tau");
        }
        assert("tau"@ =~= tau_name());
        let mut i: usize = 0;
        while i < subs.len()
            invariant
                i <= subs.len(),
                "tau"@ == tau_name(),
                forall|k: int| 0 <= k < i ==> !mentions_tau(#[trigger] pairs_view(subs@)[k]),
            decreases subs.len() - i,
        {
            if *subs[i].0.as_str() == *"tau" || *subs[i].1.as_str() == *"tau" {
                assert(mentions_tau(pairs_view(subs@)[i as int]));
                return Err(Error::ReservedName);
            }
            i += 1;
        }
        Ok(Substitution(subs))
    }

    /// The pairs, in order.
    pub fn pairs(&self) -> (r: &[(String, String)])
        ensures
            pairs_view(r@) == self@,
            forall|i: int| 0 <= i < self@.len() ==> !mentions_tau(#[trigger] self@[i]),
    {
        proof {
            use_type_invariant(self);
        }
        self.0.as_slice()
    }

    /// Where the substitution sends a port.
    pub fn replace(&self, name: String) -> (r: String)
        ensures
            r@ == replace_name(self@, name@),
    {
        let mut i: usize = 0;
        assert(self@.skip(0) =~= self@);
        while i < self.0.len()
            invariant
                i <= self.0.len(),
                replace_name(self@, name@) == replace_name(self@.skip(i as int), name@),
            decreases self.0.len() - i,
        {
            proof {
                let rest = self@.skip(i as int);
                assert(rest[0] == self@[i as int]);
                assert(rest.drop_first() =~= self@.skip(i + 1));
            }
            if self.0[i].1 == name {
                return self.0[i].0.clone();
            }
            i += 1;
        }
        assert(self@.skip(self.0.len() as int).len() == 0);
        name
    }

    /// Where the substitution sends a channel.
    pub fn replace_channel(&self, ch: Channel) -> (r: Channel)
        ensures
            r@ == replace_label(self@, ch@),
    {
        match ch {
            Channel::Send(name) => Channel::Send(self.replace(name)),
            Channel::Recv(name) => Channel::Recv(self.replace(name)),
            Channel::Tau => Channel::Tau,
        }
    }

    #[verifier::loop_isolation(false)]
    fn renamed(&self, p: &Process) -> (r: Process)
        ensures
            r@ == p@.rename(self@),
        decreases p,
    {
        match p {
            Process::Constant(name) => Process::Constant(name.clone()),
            Process::Action(ch, q) => Process::Action(
                self.replace_channel(ch.clone()),
                Box::new(self.renamed(&**q)),
            ),
            Process::Sum(ps) => {
                let mut out: Vec<Process> = Vec::new();
                let mut i: usize = 0;
                while i < ps.len()
                    invariant
                        i <= ps.len(),
                        out.len() == i,
                        forall|k: int| 0 <= k < i ==> out[k]@ == ps[k]@.rename(self@),
                    decreases ps.len() - i,
                {
                    out.push(self.renamed(&ps[i]));
                    i += 1;
                }
                proof {
                    lemma_sum_view(out);
                    lemma_sum_view(*ps);
                    assert(terms(out@) =~= p@.rename(self@)->Sum_0);
                }
                Process::Sum(out)
            },
            Process::Par(l, r) => Process::Par(
                Box::new(self.renamed(&**l)),
                Box::new(self.renamed(&**r)),
            ),
            Process::Substitution(q, f) => Process::Substitution(
                Box::new(self.renamed(&**q)),
                f.clone(),
            ),
            Process::Restriction(q, names) => Process::Restriction(
                Box::new(self.renamed(&**q)),
                clone_string_list(names),
            ),
        }
    }

    /// The process with the port of every prefix renamed; see [`Term::rename`].
    pub fn replace_process(&self, p: Process) -> (r: Process)
        ensures
            r@ == p@.rename(self@),
    {
        self.renamed(&p)
    }

    /// The transition with both ends and the label renamed.
    pub fn replace_transition(&self, t: Transition) -> (r: Transition)
        ensures
            r.0@ == t.0@.rename(self@),
            r.1@ == replace_label(self@, t.1@),
            r.2@ == t.2@.rename(self@),
    {
        let (source, label, target) = t;
        (self.renamed(&source), self.replace_channel(label), self.renamed(&target))
    }
}


/// How many of the bound `names` are not in `seen`.
pub open spec fn unseen(names: Seq<Seq<char>>, seen: Seq<Seq<char>>) -> nat {
    names.to_set().difference(seen.to_set()).len()
}

/// Marking a bound name that was not seen leaves fewer unseen.
pub proof fn lemma_unseen_decreases(names: Seq<Seq<char>>, seen: Seq<Seq<char>>, name: Seq<char>)
    requires
        names.contains(name),
        !seen.contains(name),
    ensures
        unseen(names, seen.push(name)) < unseen(names, seen),
{
    vstd::seq_lib::seq_to_set_is_finite(names);
    let before = names.to_set().difference(seen.to_set());
    let after = names.to_set().difference(seen.push(name).to_set());
    assert(before.contains(name));
    assert forall|n: Seq<char>| after.contains(n) <==> before.remove(name).contains(n) by {
        if n != name {
            if seen.contains(n) {
                let i = choose|i: int| 0 <= i < seen.len() && seen[i] == n;
                assert(seen.push(name)[i] == n);
            }
            if seen.push(name).contains(n) {
                let i = choose|i: int| 0 <= i < seen.push(name).len() && seen.push(name)[i] == n;
                assert(seen[i] == n);
            }
        } else {
            assert(seen.push(name)[seen.len() as int] == name);
        }
    }
    assert(after =~= before.remove(name));
}

impl Term {
    /// The term with every constant replaced by its body, recursively. A
    /// constant whose name is in `seen`, the names being expanded around it, is
    /// left as it is; one that the definitions do not bind is an error.
    pub open spec fn unfold(self, defs: Definitions, seen: Seq<Seq<char>>) -> Result<Term, Error>
        decreases unseen(defs.names, seen), self, 0nat,
    {
        match self {
            Term::Constant(name) => {
                if seen.contains(name) {
                    Ok(self)
                } else {
                    match defs.lookup(name) {
                        None => Err(Error::UnknownConstant),
                        Some(body) => {
                            proof {
                                defs.names.index_of_first_ensures(name);
                                lemma_unseen_decreases(defs.names, seen, name);
                            }
                            body.unfold(defs, seen.push(name))
                        },
                    }
                }
            },
            Term::Action(l, p) => match p.unfold(defs, seen) {
                Ok(u) => Ok(Term::Action(l, Box::new(u))),
                Err(e) => Err(e),
            },
            Term::Sum(ps) => match Term::unfold_all(ps, defs, seen) {
                Ok(us) => Ok(Term::Sum(us)),
                Err(e) => Err(e),
            },
            Term::Par(p, q) => match p.unfold(defs, seen) {
                Ok(u) => match q.unfold(defs, seen) {
                    Ok(v) => Ok(Term::Par(Box::new(u), Box::new(v))),
                    Err(e) => Err(e),
                },
                Err(e) => Err(e),
            },
            Term::Substitution(p, subs) => match p.unfold(defs, seen) {
                Ok(u) => Ok(Term::Substitution(Box::new(u), subs)),
                Err(e) => Err(e),
            },
            Term::Restriction(p, names) => match p.unfold(defs, seen) {
                Ok(u) => Ok(Term::Restriction(Box::new(u), names)),
                Err(e) => Err(e),
            },
        }
    }

    /// The terms of a list, each unfolded; the first error, in list order, wins.
    pub open spec fn unfold_all(ps: Seq<Term>, defs: Definitions, seen: Seq<Seq<char>>) -> Result<
        Seq<Term>,
        Error,
    >
        decreases unseen(defs.names, seen), ps, 1nat,
    {
        if ps.len() == 0 {
            Ok(Seq::empty())
        } else {
            match Term::unfold_all(ps.drop_last(), defs, seen) {
                Ok(us) => match ps.last().unfold(defs, seen) {
                    Ok(u) => Ok(us.push(u)),
                    Err(e) => Err(e),
                },
                Err(e) => Err(e),
            }
        }
    }

    /// The unfolding of a seed: where the seed is the body of a bound constant,
    /// that constant counts as being expanded already.
    pub open spec fn unfold_consts(self, defs: Definitions) -> Result<Term, Error> {
        match defs.name_of(self) {
            Some(name) => self.unfold(defs, seq![name]),
            None => self.unfold(defs, Seq::empty()),
        }
    }

    /// The term with [`Term::fold`] applied to each of its direct parts.
    pub open spec fn fold_parts(self, defs: Definitions) -> Term
        decreases self, 0nat,
    {
        match self {
            Term::Constant(_) => self,
            Term::Action(l, p) => Term::Action(l, Box::new(p.fold(defs))),
            Term::Sum(ps) => Term::Sum(
                Seq::new(
                    ps.len(),
                    |i: int|
                        if 0 <= i < ps.len() {
                            ps[i].fold(defs)
                        } else {
                            Term::nil()
                        },
                ),
            ),
            Term::Par(p, q) => Term::Par(Box::new(p.fold(defs)), Box::new(q.fold(defs))),
            Term::Substitution(p, subs) => Term::Substitution(Box::new(p.fold(defs)), subs),
            Term::Restriction(p, names) => Term::Restriction(Box::new(p.fold(defs)), names),
        }
    }

    /// The term with every part that is the body of a bound constant replaced
    /// by a reference to the first such constant, bottom-up. Terminated parts
    /// are left as they are.
    pub open spec fn fold(self, defs: Definitions) -> Term
        decreases self, 1nat,
    {
        let inner = self.fold_parts(defs);
        if inner.is_nil() {
            inner
        } else {
            match defs.name_of(inner) {
                Some(name) => Term::Constant(name),
                None => inner,
            }
        }
    }
}

/// The value of a result that holds a process.
pub open spec fn term_result(r: Result<Process, Error>) -> Result<Term, Error> {
    match r {
        Ok(p) => Ok(p@),
        Err(e) => Err(e),
    }
}

pub(crate) fn contains_name(names: &Vec<String>, name: &str) -> (r: bool)
    ensures
        r == names_view(names@).contains(name@),
{
    let mut i: usize = 0;
    while i < names.len()
        invariant
            i <= names.len(),
            forall|k: int| 0 <= k < i ==> names_view(names@)[k] != name@,
        decreases names.len() - i,
    {
        if *names[i].as_str() == *name {
            assert(names_view(names@)[i as int] == name@);
            return true;
        }
        i += 1;
    }
    false
}

#[verifier::loop_isolation(false)]
fn unfold_rec(p: &Process, ctx: &Context, seen: &mut Vec<String>) -> (r: Result<Process, Error>)
    ensures
        names_view(final(seen)@) == names_view(old(seen)@),
        term_result(r) == p@.unfold(ctx@, names_view(old(seen)@)),
    decreases unseen(ctx@.names, names_view(old(seen)@)), p,
{
    let ghost seen0 = names_view(seen@);
    match p {
        Process::Constant(name) => {
            if contains_name(seen, name.as_str()) {
                return Ok(Process::Constant(name.clone()));
            }
            match ctx.get_process(name.as_str()) {
                None => Err(Error::UnknownConstant),
                Some(body) => {
                    proof {
                        ctx@.names.index_of_first_ensures(name@);
                        lemma_unseen_decreases(ctx@.names, seen0, name@);
                    }
                    seen.push(name.clone());
                    assert(names_view(seen@) =~= seen0.push(name@));
                    let r = unfold_rec(body, ctx, seen);
                    let ghost grown = seen@;
                    seen.pop();
                    assert(names_view(seen@) =~= names_view(grown).drop_last());
                    assert(seen0.push(name@).drop_last() =~= seen0);
                    r
                },
            }
        },
        Process::Action(ch, q) => {
            match unfold_rec(&**q, ctx, seen) {
                Ok(u) => Ok(Process::Action(ch.clone(), Box::new(u))),
                Err(e) => Err(e),
            }
        },
        Process::Sum(ps) => {
            proof {
                lemma_sum_view(*ps);
            }
            let mut out: Vec<Process> = Vec::new();
            let mut i: usize = 0;
            assert(terms(out@) =~= Seq::<Term>::empty());
            assert(terms(ps@).take(0).len() == 0);
            while i < ps.len()
                invariant
                    i <= ps.len(),
                    names_view(seen@) == seen0,
                    Term::unfold_all(terms(ps@).take(i as int), ctx@, seen0) == Ok::<
                        Seq<Term>,
                        Error,
                    >(terms(out@)),
                decreases ps.len() - i,
            {
                proof {
                    let next = terms(ps@).take(i + 1);
                    assert(next.drop_last() =~= terms(ps@).take(i as int));
                    assert(next.last() == ps[i as int]@);
                    assert(terms(ps@).take(ps.len() as int) =~= terms(ps@));
                }
                match unfold_rec(&ps[i], ctx, seen) {
                    Ok(u) => {
                        let ghost before = out@;
                        out.push(u);
                        assert(terms(out@) =~= terms(before).push(u@));
                    },
                    Err(e) => {
                        proof {
                            lemma_unfold_all_error(terms(ps@), i as int, ctx@, seen0);
                        }
                        return Err(e);
                    },
                }
                i += 1;
            }
            proof {
                assert(terms(ps@).take(ps.len() as int) =~= terms(ps@));
                lemma_sum_view(out);
            }
            Ok(Process::Sum(out))
        },
        Process::Par(l, r) => {
            match unfold_rec(&**l, ctx, seen) {
                Ok(u) => match unfold_rec(&**r, ctx, seen) {
                    Ok(v) => Ok(Process::Par(Box::new(u), Box::new(v))),
                    Err(e) => Err(e),
                },
                Err(e) => Err(e),
            }
        },
        Process::Substitution(q, subs) => {
            match unfold_rec(&**q, ctx, seen) {
                Ok(u) => Ok(Process::Substitution(Box::new(u), subs.clone())),
                Err(e) => Err(e),
            }
        },
        Process::Restriction(q, names) => {
            match unfold_rec(&**q, ctx, seen) {
                Ok(u) => Ok(Process::Restriction(Box::new(u), clone_string_list(names))),
                Err(e) => Err(e),
            }
        },
    }
}

/// An error among the first terms of a list is the error of the whole list.
proof fn lemma_unfold_all_error(ps: Seq<Term>, i: int, defs: Definitions, seen: Seq<Seq<char>>)
    requires
        0 <= i < ps.len(),
        Term::unfold_all(ps.take(i + 1), defs, seen) is Err,
    ensures
        Term::unfold_all(ps, defs, seen) == Term::unfold_all(ps.take(i + 1), defs, seen),
    decreases ps.len(),
{
    if i + 1 == ps.len() {
        assert(ps.take(i + 1) =~= ps);
    } else {
        assert(ps.drop_last().take(i + 1) =~= ps.take(i + 1));
        lemma_unfold_all_error(ps.drop_last(), i, defs, seen);
    }
}

impl Process {
    /// The process with every part that is the body of a bound constant
    /// replaced by a reference to that constant; see [`Term::fold`].
    #[verifier::loop_isolation(false)]
    pub fn fold_consts(self, ctx: &Context) -> (r: Self)
        ensures
            r@ == self@.fold(ctx@),
    {
        self.folded(ctx)
    }

    #[verifier::loop_isolation(false)]
    fn folded(&self, ctx: &Context) -> (r: Self)
        ensures
            r@ == self@.fold(ctx@),
        decreases self,
    {
        let inner = match self {
            Process::Constant(name) => Process::Constant(name.clone()),
            Process::Action(ch, p) => Process::Action(ch.clone(), Box::new((**p).folded(ctx))),
            Process::Sum(ps) => {
                let mut out: Vec<Process> = Vec::new();
                let mut i: usize = 0;
                while i < ps.len()
                    invariant
                        i <= ps.len(),
                        out.len() == i,
                        forall|k: int| 0 <= k < i ==> out[k]@ == ps[k]@.fold(ctx@),
                    decreases ps.len() - i,
                {
                    out.push(ps[i].folded(ctx));
                    i += 1;
                }
                proof {
                    lemma_sum_view(out);
                    lemma_sum_view(*ps);
                    assert(terms(out@) =~= self@.fold_parts(ctx@)->Sum_0);
                }
                Process::Sum(out)
            },
            Process::Par(p, q) => Process::Par(
                Box::new((**p).folded(ctx)),
                Box::new((**q).folded(ctx)),
            ),
            Process::Substitution(p, subs) => Process::Substitution(
                Box::new((**p).folded(ctx)),
                subs.clone(),
            ),
            Process::Restriction(p, names) => Process::Restriction(
                Box::new((**p).folded(ctx)),
                clone_string_list(names),
            ),
        };
        assert(inner@ == self@.fold_parts(ctx@));
        if inner.is_nil() {
            return inner;
        }
        match ctx.process_to_const(&inner) {
            Some(c) => c,
            None => inner,
        }
    }

    /// The process with its constants unfolded; see [`Term::unfold_consts`].
    pub fn unfold_consts(self, ctx: &Context) -> (r: Result<Self, Error>)
        ensures
            term_result(r) == self@.unfold_consts(ctx@),
    {
        let mut seen: Vec<String> = Vec::new();
        match ctx.name_of(&self) {
            Some(name) => {
                seen.push(String::from_str(name));
                assert(names_view(seen@) =~= seq![name@]);
            },
            None => {
                assert(names_view(seen@) =~= Seq::<Seq<char>>::empty());
            },
        }
        unfold_rec(&self, ctx, &mut seen)
    }
}

} // verus!
