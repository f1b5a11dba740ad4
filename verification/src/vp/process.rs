//! Value-passing processes and their compilation to the pure calculus.
use vstd::prelude::*;

use crate::context::{Context as ContextCcs, Definitions};
use crate::error::Error;
use crate::process::{
    contains_name, mentions_tau, pairs_view, term_result, terms, Channel as ChannelCcs, Label,
    Process as ProcessCcs, Substitution, Term,
};
use crate::text::{join, joined};
use crate::vp::context::{Context, Scope};
use crate::table::names_view;
use crate::vp::values::{
    eval_values, replace_in_values, vals, value_texts, BExpr, Logic, Val, Value,
};

verus! {

/// The mathematical value of a [`Channel`].
pub enum Prefix {
    /// An output, with the value sent if there is one.
    Send(Seq<char>, Option<Val>),
    /// An input, with the variable bound to what is received if there is one.
    Recv(Seq<char>, Option<Seq<char>>),
    Tau,
}

/// The mathematical value of a [`Process`].
pub enum Agent {
    Constant(Seq<char>, Seq<Val>),
    Action(Prefix, Box<Agent>),
    Sum(Seq<Agent>),
    Par(Box<Agent>, Box<Agent>),
    Restriction(Box<Agent>, Seq<Seq<char>>),
    Substitution(Box<Agent>, Seq<(Seq<char>, Seq<char>)>),
    IfThen(Logic, Box<Agent>),
}

/// A channel of the value-passing calculus: an output that may carry a value,
/// an input that may bind a variable, or the internal action.
#[derive(Debug)]
pub enum Channel {
    Send(String, Option<Value>),
    Recv(String, Option<String>),
    Tau,
}

/// A process of the value-passing calculus.
#[derive(Debug)]
pub enum Process {
    Constant(String, Vec<Value>),
    Action(Channel, Box<Process>),
    Sum(Vec<Process>),
    Par(Box<Process>, Box<Process>),
    Restriction(Box<Process>, Vec<String>),
    Substitution(Box<Process>, Substitution),
    IfThen(BExpr, Box<Process>),
}

impl View for Channel {
    type V = Prefix;

    open spec fn view(&self) -> Prefix {
        match self {
            Channel::Send(name, Some(v)) => Prefix::Send(name@, Some(v@)),
            Channel::Send(name, None) => Prefix::Send(name@, None),
            Channel::Recv(name, Some(x)) => Prefix::Recv(name@, Some(x@)),
            Channel::Recv(name, None) => Prefix::Recv(name@, None),
            Channel::Tau => Prefix::Tau,
        }
    }
}

impl Process {
    /// The agent a process stands for.
    pub open spec fn model(&self) -> Agent
        decreases self,
    {
        match self {
            Process::Constant(name, args) => Agent::Constant(name@, vals(args@)),
            Process::Action(ch, p) => Agent::Action(ch@, Box::new((**p).model())),
            Process::Sum(ps) => Agent::Sum(
                Seq::new(
                    ps.len() as nat,
                    |i: int|
                        if 0 <= i < ps.len() {
                            ps[i].model()
                        } else {
                            Agent::Sum(Seq::empty())
                        },
                ),
            ),
            Process::Par(p, q) => Agent::Par(Box::new((**p).model()), Box::new((**q).model())),
            Process::Restriction(p, names) => Agent::Restriction(
                Box::new((**p).model()),
                names_view(names@),
            ),
            Process::Substitution(p, subs) => Agent::Substitution(Box::new((**p).model()), subs@),
            Process::IfThen(b, p) => Agent::IfThen(b@, Box::new((**p).model())),
        }
    }
}

impl View for Process {
    type V = Agent;

    open spec fn view(&self) -> Agent {
        self.model()
    }
}

/// The agents of a list of processes.
pub open spec fn agents(ps: Seq<Process>) -> Seq<Agent> {
    Seq::new(ps.len(), |i: int| ps[i]@)
}

/// A sum stands for the sum of the agents of its children.
pub proof fn lemma_sum_view(ps: Vec<Process>)
    ensures
        Process::Sum(ps)@ == Agent::Sum(agents(ps@)),
{
    let a = Process::Sum(ps)@;
    assert(a->Sum_0 =~= agents(ps@));
}

impl Clone for Channel {
    fn clone(&self) -> (r: Self)
        ensures
            r@ == self@,
    {
        match self {
            Channel::Send(name, Some(v)) => Channel::Send(name.clone(), Some(v.clone())),
            Channel::Send(name, None) => Channel::Send(name.clone(), None),
            Channel::Recv(name, Some(x)) => Channel::Recv(name.clone(), Some(x.clone())),
            Channel::Recv(name, None) => Channel::Recv(name.clone(), None),
            Channel::Tau => Channel::Tau,
        }
    }
}

/// A copy of a list of values.
pub fn clone_values(values: &Vec<Value>) -> (r: Vec<Value>)
    ensures
        vals(r@) == vals(values@),
{
    let mut out: Vec<Value> = Vec::new();
    let mut i: usize = 0;
    while i < values.len()
        invariant
            i <= values.len(),
            out.len() == i,
            forall|k: int| 0 <= k < i ==> out[k]@ == values[k]@,
        decreases values.len() - i,
    {
        out.push(values[i].clone());
        i += 1;
    }
    assert(vals(out@) =~= vals(values@));
    out
}

impl Clone for Process {
    #[verifier::loop_isolation(false)]
    fn clone(&self) -> (r: Self)
        ensures
            r@ == self@,
        decreases self,
    {
        match self {
            Process::Constant(name, args) => Process::Constant(name.clone(), clone_values(args)),
            Process::Action(ch, p) => Process::Action(ch.clone(), Box::new((**p).clone())),
            Process::Sum(ps) => {
                let mut out: Vec<Process> = Vec::new();
                let mut i: usize = 0;
                while i < ps.len()
                    invariant
                        i <= ps.len(),
                        out.len() == i,
                        forall|k: int| 0 <= k < i ==> out[k]@ == ps[k]@,
                    decreases ps.len() - i,
                {
                    out.push(ps[i].clone());
                    i += 1;
                }
                proof {
                    lemma_sum_view(out);
                    lemma_sum_view(*ps);
                    assert(agents(out@) =~= agents(ps@));
                }
                Process::Sum(out)
            },
            Process::Par(p, q) => Process::Par(Box::new((**p).clone()), Box::new((**q).clone())),
            Process::Restriction(p, names) => Process::Restriction(
                Box::new((**p).clone()),
                crate::process::clone_string_list(names),
            ),
            Process::Substitution(p, subs) => Process::Substitution(
                Box::new((**p).clone()),
                subs.clone(),
            ),
            Process::IfThen(b, p) => Process::IfThen(b.clone(), Box::new((**p).clone())),
        }
    }
}

impl PartialEq for Channel {
    fn eq(&self, other: &Self) -> (r: bool) {
        match (self, other) {
            (Channel::Send(a, Some(v)), Channel::Send(b, Some(w))) => *a == *b && v.eq(w),
            (Channel::Send(a, None), Channel::Send(b, None)) => *a == *b,
            (Channel::Recv(a, Some(x)), Channel::Recv(b, Some(y))) => *a == *b && *x == *y,
            (Channel::Recv(a, None), Channel::Recv(b, None)) => *a == *b,
            (Channel::Tau, Channel::Tau) => true,
            _ => false,
        }
    }
}

impl vstd::std_specs::cmp::PartialEqSpecImpl for Channel {
    open spec fn obeys_eq_spec() -> bool {
        true
    }

    open spec fn eq_spec(&self, other: &Self) -> bool {
        self@ == other@
    }
}

/// Whether two lists of values hold the same values.
fn same_values(a: &Vec<Value>, b: &Vec<Value>) -> (r: bool)
    ensures
        r == (vals(a@) == vals(b@)),
{
    if a.len() != b.len() {
        assert(vals(a@).len() != vals(b@).len());
        return false;
    }
    let mut i: usize = 0;
    while i < a.len()
        invariant
            i <= a.len(),
            a.len() == b.len(),
            forall|k: int| 0 <= k < i ==> a[k]@ == b[k]@,
        decreases a.len() - i,
    {
        if !a[i].eq(&b[i]) {
            assert(vals(a@)[i as int] != vals(b@)[i as int]);
            return false;
        }
        i += 1;
    }
    assert(vals(a@) =~= vals(b@));
    true
}

/// Whether two lists of names hold the same names.
fn same_names(a: &Vec<String>, b: &Vec<String>) -> (r: bool)
    ensures
        r == (names_view(a@) == names_view(b@)),
{
    if a.len() != b.len() {
        assert(names_view(a@).len() != names_view(b@).len());
        return false;
    }
    let mut i: usize = 0;
    while i < a.len()
        invariant
            i <= a.len(),
            a.len() == b.len(),
            forall|k: int| 0 <= k < i ==> a[k]@ == b[k]@,
        decreases a.len() - i,
    {
        if a[i] != b[i] {
            assert(names_view(a@)[i as int] != names_view(b@)[i as int]);
            return false;
        }
        i += 1;
    }
    assert(names_view(a@) =~= names_view(b@));
    true
}

impl PartialEq for Process {
    #[verifier::loop_isolation(false)]
    fn eq(&self, other: &Self) -> (r: bool)
        decreases self,
    {
        match (self, other) {
            (Process::Constant(a, xs), Process::Constant(b, ys)) => *a == *b && same_values(xs, ys),
            (Process::Action(c, p), Process::Action(d, q)) => *c == *d && (**p).eq(&**q),
            (Process::Sum(ps), Process::Sum(qs)) => {
                proof {
                    lemma_sum_view(*ps);
                    lemma_sum_view(*qs);
                }
                if ps.len() != qs.len() {
                    assert(agents(ps@).len() != agents(qs@).len());
                    return false;
                }
                let mut i: usize = 0;
                while i < ps.len()
                    invariant
                        i <= ps.len(),
                        forall|k: int| 0 <= k < i ==> ps[k]@ == qs[k]@,
                    decreases ps.len() - i,
                {
                    if !ps[i].eq(&qs[i]) {
                        assert(agents(ps@)[i as int] != agents(qs@)[i as int]);
                        return false;
                    }
                    i += 1;
                }
                assert(agents(ps@) =~= agents(qs@));
                true
            },
            (Process::Par(p1, q1), Process::Par(p2, q2)) => (**p1).eq(&**p2) && (**q1).eq(&**q2),
            (Process::Restriction(p, m), Process::Restriction(q, n)) => same_names(m, n) && (
            **p).eq(&**q),
            (Process::Substitution(p, s), Process::Substitution(q, t)) => *s == *t && (**p).eq(
                &**q,
            ),
            (Process::IfThen(b, p), Process::IfThen(c, q)) => b.eq(c) && (**p).eq(&**q),
            _ => false,
        }
    }
}

impl vstd::std_specs::cmp::PartialEqSpecImpl for Process {
    open spec fn obeys_eq_spec() -> bool {
        true
    }

    open spec fn eq_spec(&self, other: &Self) -> bool {
        self@ == other@
    }
}

impl Channel {
    /// The internal action.
    pub fn tau() -> (r: Self)
        ensures
            r@ == Prefix::Tau,
    {
        Channel::Tau
    }
}

impl Process {
    /// The terminated process: the empty sum.
    pub fn nil() -> (r: Self)
        ensures
            r@ == Agent::Sum(Seq::empty()),
    {
        let ps: Vec<Process> = Vec::new();
        proof {
            lemma_sum_view(ps);
            assert(agents(ps@) =~= Seq::empty());
        }
        Process::Sum(ps)
    }

    /// The instance of the constant `s` with the arguments `vals`.
    pub fn constant(s: &str, vals: Vec<Value>) -> (r: Self)
        ensures
            r@ == Agent::Constant(s@, crate::vp::values::vals(vals@)),
    {
        Process::Constant(String::from_str(s), vals)
    }

    /// The prefix of `l` before `p`.
    pub fn action(l: Channel, p: Self) -> (r: Self)
        ensures
            r@ == Agent::Action(l@, Box::new(p@)),
    {
        Process::Action(l, Box::new(p))
    }

    /// The choice between the alternatives `procs`, in their order.
    pub fn sum(procs: Vec<Self>) -> (r: Self)
        ensures
            r@ == Agent::Sum(agents(procs@)),
    {
        proof {
            lemma_sum_view(procs);
        }
        Process::Sum(procs)
    }

    /// The parallel composition of `p` and `q`.
    pub fn par(p: Self, q: Self) -> (r: Self)
        ensures
            r@ == Agent::Par(Box::new(p@), Box::new(q@)),
    {
        Process::Par(Box::new(p), Box::new(q))
    }

    /// The process `p` with the ports `chans` hidden.
    pub fn restriction(p: Self, chans: Vec<String>) -> (r: Self)
        ensures
            r@ == Agent::Restriction(Box::new(p@), names_view(chans@)),
    {
        Process::Restriction(Box::new(p), chans)
    }

    /// The process `p` with its ports renamed by `subs`.
    pub fn substitution(p: Self, subs: Substitution) -> (r: Self)
        ensures
            r@ == Agent::Substitution(Box::new(p@), subs@),
    {
        Process::Substitution(Box::new(p), subs)
    }

    /// The process `p` under the guard `b`.
    pub fn if_then(b: BExpr, p: Self) -> (r: Self)
        ensures
            r@ == Agent::IfThen(b@, Box::new(p@)),
    {
        Process::IfThen(b, Box::new(p))
    }

    /// The choice between `p` where `b` holds and `q` where it does not: the
    /// sum of the two guarded processes.
    pub fn if_then_else(b: BExpr, p: Self, q: Self) -> (r: Self)
        ensures
            r@ == Agent::Sum(
                seq![
                    Agent::IfThen(b@, Box::new(p@)),
                    Agent::IfThen(Logic::Not(Box::new(b@)), Box::new(q@)),
                ],
            ),
    {
        let mut ps: Vec<Process> = Vec::new();
        ps.push(Process::IfThen(b.clone(), Box::new(p)));
        ps.push(Process::IfThen(BExpr::Not(Box::new(b)), Box::new(q)));
        proof {
            lemma_sum_view(ps);
            assert(agents(ps@) =~= seq![
                Agent::IfThen(b@, Box::new(p@)),
                Agent::IfThen(Logic::Not(Box::new(b@)), Box::new(q@)),
            ]);
        }
        Process::Sum(ps)
    }
}


impl Agent {
    /// The agent with the variable `var` replaced by `val`, and whether that
    /// went well. An input that binds `var` itself shadows it: what follows
    /// the input is left alone. Where a part fails, what follows it is left
    /// as it was.
    pub open spec fn replace(self, var: Seq<char>, val: Val) -> (Agent, bool)
        decreases self, 0nat,
    {
        match self {
            Agent::Constant(name, args) => {
                let (args2, ok) = Val::replace_all(args, var, val);
                (Agent::Constant(name, args2), ok)
            },
            Agent::Sum(ps) => {
                let (ps2, ok) = Agent::replace_all(ps, var, val);
                (Agent::Sum(ps2), ok)
            },
            Agent::Action(m, p) => match m {
                Prefix::Recv(name, Some(x)) => if x == var {
                    (self, true)
                } else {
                    let (p2, ok) = p.replace(var, val);
                    (Agent::Action(m, Box::new(p2)), ok)
                },
                Prefix::Send(name, Some(e)) => {
                    let (e2, ok) = e.replace(var, val);
                    let (p2, ok2) = if ok {
                        p.replace(var, val)
                    } else {
                        (*p, false)
                    };
                    (Agent::Action(Prefix::Send(name, Some(e2)), Box::new(p2)), ok2)
                },
                _ => {
                    let (p2, ok) = p.replace(var, val);
                    (Agent::Action(m, Box::new(p2)), ok)
                },
            },
            Agent::Par(p, q) => {
                let (p2, ok) = p.replace(var, val);
                let (q2, ok2) = if ok {
                    q.replace(var, val)
                } else {
                    (*q, false)
                };
                (Agent::Par(Box::new(p2), Box::new(q2)), ok2)
            },
            Agent::IfThen(b, p) => {
                let (b2, ok) = b.replace(var, val);
                let (p2, ok2) = if ok {
                    p.replace(var, val)
                } else {
                    (*p, false)
                };
                (Agent::IfThen(b2, Box::new(p2)), ok2)
            },
            Agent::Restriction(p, names) => {
                let (p2, ok) = p.replace(var, val);
                (Agent::Restriction(Box::new(p2), names), ok)
            },
            Agent::Substitution(p, subs) => {
                let (p2, ok) = p.replace(var, val);
                (Agent::Substitution(Box::new(p2), subs), ok)
            },
        }
    }

    /// The agents of a list with the variable replaced, from the first on;
    /// after one that fails the rest is left as it was.
    pub open spec fn replace_all(ps: Seq<Agent>, var: Seq<char>, val: Val) -> (Seq<Agent>, bool)
        decreases ps, 1nat,
    {
        if ps.len() == 0 {
            (Seq::empty(), true)
        } else {
            let (init, ok) = Agent::replace_all(ps.drop_last(), var, val);
            if ok {
                let (p, ok2) = ps.last().replace(var, val);
                (init.push(p), ok2)
            } else {
                (init.push(ps.last()), false)
            }
        }
    }
}

/// Where replacing fails within the first agents of a list, the rest of the
/// list is left as it was.
pub proof fn lemma_replace_all_fails(ps: Seq<Agent>, i: int, var: Seq<char>, val: Val)
    requires
        0 <= i < ps.len(),
        !Agent::replace_all(ps.take(i + 1), var, val).1,
    ensures
        Agent::replace_all(ps, var, val) == (
            Agent::replace_all(ps.take(i + 1), var, val).0 + ps.skip(i + 1),
            false,
        ),
    decreases ps.len(),
{
    let head = Agent::replace_all(ps.take(i + 1), var, val).0;
    if i + 1 == ps.len() {
        assert(ps.take(i + 1) =~= ps);
        assert(head + ps.skip(i + 1) =~= head);
    } else {
        assert(ps.drop_last().take(i + 1) =~= ps.take(i + 1));
        lemma_replace_all_fails(ps.drop_last(), i, var, val);
        assert((head + ps.drop_last().skip(i + 1)).push(ps.last()) =~= head + ps.skip(i + 1));
    }
}

/// Replacing leaves a list as long as it was.
pub proof fn lemma_replace_all_len(ps: Seq<Agent>, var: Seq<char>, val: Val)
    ensures
        Agent::replace_all(ps, var, val).0.len() == ps.len(),
    decreases ps.len(),
{
    if ps.len() > 0 {
        lemma_replace_all_len(ps.drop_last(), var, val);
    }
}

/// Replaces the variable `var` by `val` in the processes of a list, from the
/// first on; see [`Agent::replace_all`].
fn replace_in_processes(ps: &mut Vec<Process>, var: &str, val: &Value) -> (r: bool)
    ensures
        (agents(final(ps)@), r) == Agent::replace_all(agents(old(ps)@), var@, val@),
    decreases *old(ps), 1nat,
{
    let ghost whole = *ps;
    let ghost olds = ps@;
    let ghost vs = agents(olds);
    let n = ps.len();
    let mut i: usize = 0;
    assert(vs.take(0).len() == 0);
    assert(agents(ps@) =~= Seq::<Agent>::empty() + vs.skip(0));
    while i < n
        invariant
            i <= n,
            n == olds.len(),
            ps.len() == n,
            whole == *old(ps),
            olds == whole@,
            vs == agents(olds),
            forall|k: int| i <= k < n ==> ps[k] == olds[k],
            Agent::replace_all(vs.take(i as int), var@, val@).1,
            agents(ps@) == Agent::replace_all(vs.take(i as int), var@, val@).0 + vs.skip(i as int),
        decreases n - i,
    {
        let ghost before = ps@;
        let ghost done = Agent::replace_all(vs.take(i as int), var@, val@).0;
        proof {
            let next = vs.take(i + 1);
            assert(next.drop_last() =~= vs.take(i as int));
            assert(next.last() == olds[i as int]@);
            vstd::std_specs::vec::axiom_vec_index_decreases(whole, i as int);
        }
        let ok = ps[i].try_replace(var, val);
        proof {
            let v = ps[i as int]@;
            assert(Agent::replace_all(vs.take(i + 1), var@, val@) == (done.push(v), ok));
            assert(agents(ps@) =~= done.push(v) + vs.skip(i + 1)) by {
                assert(done.len() == i) by {
                    lemma_replace_all_len(vs.take(i as int), var@, val@);
                }
                assert forall|k: int| 0 <= k < n implies agents(ps@)[k] == (done.push(v) + vs.skip(
                    i + 1,
                ))[k] by {
                    if k < i {
                        assert(agents(before)[k] == (done + vs.skip(i as int))[k]);
                    } else if k > i {
                        assert(agents(before)[k] == (done + vs.skip(i as int))[k]);
                    }
                }
            }
        }
        if !ok {
            proof {
                lemma_replace_all_fails(vs, i as int, var@, val@);
            }
            return false;
        }
        i += 1;
    }
    proof {
        assert(vs.take(n as int) =~= vs);
        assert(vs.skip(n as int).len() == 0);
        assert(agents(ps@) =~= Agent::replace_all(vs, var@, val@).0);
    }
    true
}

impl Process {
    /// Replaces the variable `var` by `val`; see [`Agent::replace`].
    pub fn try_replace(&mut self, var: &str, val: &Value) -> (r: bool)
        ensures
            (final(self)@, r) == old(self)@.replace(var@, val@),
        decreases *old(self), 0nat,
    {
        match self {
            Process::Constant(_, args) => replace_in_values(args, var, val),
            Process::Sum(ps) => {
                proof {
                    lemma_sum_view(*ps);
                }
                let ok = replace_in_processes(ps, var, val);
                proof {
                    lemma_sum_view(*ps);
                }
                ok
            },
            Process::Action(m, p) => {
                match m {
                    Channel::Recv(_, Some(x)) => {
                        if *x.as_str() == *var {
                            true
                        } else {
                            p.try_replace(var, val)
                        }
                    },
                    Channel::Send(_, Some(e)) => e.try_replace(var, val) && p.try_replace(var, val),
                    _ => p.try_replace(var, val),
                }
            },
            Process::Par(p, q) => p.try_replace(var, val) && q.try_replace(var, val),
            Process::IfThen(b, p) => b.try_replace(var, val) && p.try_replace(var, val),
            Process::Restriction(p, _) => p.try_replace(var, val),
            Process::Substitution(p, _) => p.try_replace(var, val),
        }
    }
}


/// The name of an instance of a constant: the name of the constant alone
/// where there are no arguments, and else a hash sign and the text of each
/// argument after it.
pub open spec fn instance_name(name: Seq<char>, args: Seq<Val>) -> Seq<char> {
    if args.len() == 0 {
        name
    } else {
        name + "#"@ + joined(Val::texts(args), "#"@)
    }
}

/// Each of the `names` as it carries each value of `universe`: the names in
/// order, and for each name the values in order.
pub open spec fn mangled_names(names: Seq<Seq<char>>, universe: Seq<Val>) -> Seq<Seq<char>>
    decreases names.len(),
{
    if names.len() == 0 {
        Seq::empty()
    } else {
        mangled_names(names.drop_last(), universe) + Seq::new(
            universe.len(),
            |k: int| universe[k].mangle(names.last()),
        )
    }
}

/// Each of the `pairs` of a substitution with both its ports carrying each
/// value of `universe`.
pub open spec fn mangled_pairs(pairs: Seq<(Seq<char>, Seq<char>)>, universe: Seq<Val>) -> Seq<
    (Seq<char>, Seq<char>),
>
    decreases pairs.len(),
{
    if pairs.len() == 0 {
        Seq::empty()
    } else {
        mangled_pairs(pairs.drop_last(), universe) + Seq::new(
            universe.len(),
            |k: int| (universe[k].mangle(pairs.last().0), universe[k].mangle(pairs.last().1)),
        )
    }
}

/// What compiling an agent gives: the term or the error, and the definitions
/// of the pure calculus as they stand then.
pub struct Compiled {
    pub result: Result<Term, Error>,
    pub defs: Definitions,
}

/// What compiling a list of agents gives.
pub struct CompiledList {
    pub result: Result<Seq<Term>, Error>,
    pub defs: Definitions,
}

impl Scope {
    /// The value universe, which must have been generated.
    pub open spec fn universe(self) -> Result<Seq<Val>, Error> {
        if self.cache.names.len() == 0 {
            Err(Error::ValuesNotGenerated)
        } else {
            Ok(self.values())
        }
    }
}

impl Agent {
    /// The number of process constructors of an agent; values do not count.
    pub open spec fn size(self) -> nat
        decreases self, 0nat,
    {
        match self {
            Agent::Constant(_, _) => 1,
            Agent::Action(_, p) => 1 + p.size(),
            Agent::Sum(ps) => 1 + Agent::total_size(ps),
            Agent::Par(p, q) => 1 + p.size() + q.size(),
            Agent::Restriction(p, _) => 1 + p.size(),
            Agent::Substitution(p, _) => 1 + p.size(),
            Agent::IfThen(_, p) => 1 + p.size(),
        }
    }

    /// The sizes of the agents of a list, added up.
    pub open spec fn total_size(ps: Seq<Agent>) -> nat
        decreases ps, 1nat,
    {
        if ps.len() == 0 {
            0
        } else {
            Agent::total_size(ps.drop_last()) + ps.last().size()
        }
    }

    /// The body of a constant with each parameter replaced by its argument,
    /// parameter after parameter as far as both lists go, and whether every
    /// replacement went well.
    pub open spec fn instantiate(self, params: Seq<Seq<char>>, args: Seq<Val>) -> (Agent, bool)
        decreases params.len(),
    {
        if params.len() == 0 || args.len() == 0 {
            (self, true)
        } else {
            let (body, ok) = self.replace(params[0], args[0]);
            if ok {
                body.instantiate(params.drop_first(), args.drop_first())
            } else {
                (body, false)
            }
        }
    }
}

/// Every agent has a size.
pub proof fn lemma_size_positive(p: Agent)
    ensures
        p.size() >= 1,
{
}

/// Replacing a variable changes values only: the size of an agent stays.
pub proof fn lemma_replace_keeps_size(p: Agent, var: Seq<char>, val: Val)
    ensures
        p.replace(var, val).0.size() == p.size(),
    decreases p, 0nat,
{
    match p {
        Agent::Constant(_, _) => {},
        Agent::Sum(ps) => {
            lemma_replace_all_keeps_size(ps, var, val);
        },
        Agent::Action(m, q) => {
            lemma_replace_keeps_size(*q, var, val);
        },
        Agent::Par(l, r) => {
            lemma_replace_keeps_size(*l, var, val);
            lemma_replace_keeps_size(*r, var, val);
        },
        Agent::IfThen(_, q) => {
            lemma_replace_keeps_size(*q, var, val);
        },
        Agent::Restriction(q, _) => {
            lemma_replace_keeps_size(*q, var, val);
        },
        Agent::Substitution(q, _) => {
            lemma_replace_keeps_size(*q, var, val);
        },
    }
}

proof fn lemma_replace_all_keeps_size(ps: Seq<Agent>, var: Seq<char>, val: Val)
    ensures
        Agent::total_size(Agent::replace_all(ps, var, val).0) == Agent::total_size(ps),
    decreases ps, 1nat,
{
    if ps.len() > 0 {
        lemma_replace_all_keeps_size(ps.drop_last(), var, val);
        lemma_replace_keeps_size(ps.last(), var, val);
        let (init, ok) = Agent::replace_all(ps.drop_last(), var, val);
        if ok {
            let q = ps.last().replace(var, val).0;
            assert(init.push(q).drop_last() =~= init);
        } else {
            assert(init.push(ps.last()).drop_last() =~= init);
        }
    }
}

/// Compiling has failed with the error `e`.
pub open spec fn failed(e: Error, defs: Definitions) -> Compiled {
    Compiled { result: Err(e), defs }
}

/// Compiling has given the term `t`.
pub open spec fn compiled(t: Term, defs: Definitions) -> Compiled {
    Compiled { result: Ok(t), defs }
}

impl Agent {
    /// The term of the pure calculus that an agent compiles to in a scope,
    /// given the definitions compiled so far and the names `seen` of the
    /// instances that are being compiled around it.
    ///
    /// - An instance of a constant has its arguments evaluated and is named
    ///   after them. An instance that is being compiled already is a
    ///   reference to it. Else the body of the constant is instantiated,
    ///   compiled and flattened, and bound under the instance's name.
    /// - A prefix without a value stays. A send has its value evaluated and
    ///   mangled into the port. An input that binds a variable is the sum,
    ///   over the value universe, of the inputs on the port mangled with a
    ///   value, each before the continuation with that value; the values
    ///   that the continuation does not take are left out.
    /// - A guard that holds is its body, one that does not is the terminated
    ///   process.
    /// - A restriction and a substitution have each port mangled with every
    ///   value of the universe.
    pub open spec fn compile(self, scope: Scope, defs: Definitions, seen: Seq<Seq<char>>) -> Compiled
        decreases usize::MAX - seen.len(), self.size(), 0nat,
    {
        match self {
            Agent::Constant(name, args) => match Val::eval_all(args, scope) {
                Err(e) => failed(e, defs),
                Ok(vs) => {
                    let encoded = instance_name(name, vs);
                    if seen.contains(encoded) {
                        compiled(Term::Constant(encoded), defs)
                    } else {
                        match scope.constants.lookup(name) {
                            None => failed(Error::UnknownConstant, defs),
                            Some(decl) => {
                                let (body, ok) = decl.1.instantiate(decl.0, vs);
                                if !ok {
                                    failed(Error::TypeMismatch, defs)
                                } else if seen.len() >= usize::MAX {
                                    failed(Error::NestingLimit, defs)
                                } else {
                                    let c = body.compile(scope, defs, seen.push(encoded));
                                    match c.result {
                                        Err(_) => c,
                                        Ok(t) => compiled(
                                            Term::Constant(encoded),
                                            c.defs.bind(encoded, t.flatten()),
                                        ),
                                    }
                                }
                            },
                        }
                    }
                },
            },
            Agent::Action(ch, p) => match ch {
                Prefix::Tau => {
                    let c = p.compile(scope, defs, seen);
                    match c.result {
                        Err(_) => c,
                        Ok(t) => compiled(Term::Action(Label::Tau, Box::new(t)), c.defs),
                    }
                },
                Prefix::Recv(name, None) => {
                    let c = p.compile(scope, defs, seen);
                    match c.result {
                        Err(_) => c,
                        Ok(t) => compiled(Term::Action(Label::Recv(name), Box::new(t)), c.defs),
                    }
                },
                Prefix::Send(name, None) => {
                    let c = p.compile(scope, defs, seen);
                    match c.result {
                        Err(_) => c,
                        Ok(t) => compiled(Term::Action(Label::Send(name), Box::new(t)), c.defs),
                    }
                },
                Prefix::Send(name, Some(e)) => match e.eval(scope) {
                    Err(e) => failed(e, defs),
                    Ok(v) => {
                        let c = p.compile(scope, defs, seen);
                        match c.result {
                            Err(_) => c,
                            Ok(t) => compiled(
                                Term::Action(Label::Send(v.mangle(name)), Box::new(t)),
                                c.defs,
                            ),
                        }
                    },
                },
                Prefix::Recv(name, Some(var)) => match scope.universe() {
                    Err(e) => failed(e, defs),
                    Ok(universe) => {
                        let c = Agent::compile_inputs(*p, name, var, universe, scope, defs, seen);
                        match c.result {
                            Err(e) => failed(e, c.defs),
                            Ok(ts) => compiled(Term::Sum(ts), c.defs),
                        }
                    },
                },
            },
            Agent::Sum(ps) => {
                let c = Agent::compile_all(ps, scope, defs, seen);
                match c.result {
                    Err(e) => failed(e, c.defs),
                    Ok(ts) => compiled(Term::Sum(ts), c.defs),
                }
            },
            Agent::Par(p, q) => {
                let a = p.compile(scope, defs, seen);
                match a.result {
                    Err(_) => a,
                    Ok(t) => {
                        let b = q.compile(scope, a.defs, seen);
                        match b.result {
                            Err(_) => b,
                            Ok(u) => compiled(Term::Par(Box::new(t), Box::new(u)), b.defs),
                        }
                    },
                }
            },
            Agent::IfThen(b, p) => match b.eval(scope) {
                Err(e) => failed(e, defs),
                Ok(holds) => if holds {
                    p.compile(scope, defs, seen)
                } else {
                    compiled(Term::nil(), defs)
                },
            },
            Agent::Restriction(p, names) => match scope.universe() {
                Err(e) => failed(e, defs),
                Ok(universe) => {
                    let c = p.compile(scope, defs, seen);
                    match c.result {
                        Err(_) => c,
                        Ok(t) => compiled(
                            Term::Restriction(Box::new(t), mangled_names(names, universe)),
                            c.defs,
                        ),
                    }
                },
            },
            Agent::Substitution(p, subs) => match scope.universe() {
                Err(e) => failed(e, defs),
                Ok(universe) => {
                    let c = p.compile(scope, defs, seen);
                    match c.result {
                        Err(_) => c,
                        Ok(t) => {
                            let pairs = mangled_pairs(subs, universe);
                            if exists|i: int| 0 <= i < pairs.len() && mentions_tau(#[trigger] pairs[i]) {
                                failed(Error::ReservedName, c.defs)
                            } else {
                                compiled(Term::Substitution(Box::new(t), pairs), c.defs)
                            }
                        },
                    }
                },
            },
        }
    }

    /// The terms that the agents of a list compile to, one after the other,
    /// each with the definitions that the ones before it left.
    pub open spec fn compile_all(
        ps: Seq<Agent>,
        scope: Scope,
        defs: Definitions,
        seen: Seq<Seq<char>>,
    ) -> CompiledList
        decreases usize::MAX - seen.len(), Agent::total_size(ps), 1nat,
    {
        if ps.len() == 0 {
            CompiledList { result: Ok(Seq::empty()), defs }
        } else {
            proof {
                lemma_size_positive(ps.last());
            }
            let a = Agent::compile_all(ps.drop_last(), scope, defs, seen);
            match a.result {
                Err(_) => a,
                Ok(ts) => {
                    let b = ps.last().compile(scope, a.defs, seen);
                    match b.result {
                        Err(e) => CompiledList { result: Err(e), defs: b.defs },
                        Ok(t) => CompiledList { result: Ok(ts.push(t)), defs: b.defs },
                    }
                },
            }
        }
    }

    /// The alternatives of an input that binds `var`: for each value of the
    /// universe that the continuation `p` takes, the input on the port
    /// mangled with the evaluated value, before the compiled continuation.
    pub open spec fn compile_inputs(
        p: Agent,
        name: Seq<char>,
        var: Seq<char>,
        universe: Seq<Val>,
        scope: Scope,
        defs: Definitions,
        seen: Seq<Seq<char>>,
    ) -> CompiledList
        decreases usize::MAX - seen.len(), p.size(), 2 + universe.len(),
    {
        if universe.len() == 0 {
            CompiledList { result: Ok(Seq::empty()), defs }
        } else {
            let a = Agent::compile_inputs(p, name, var, universe.drop_last(), scope, defs, seen);
            match a.result {
                Err(_) => a,
                Ok(ts) => {
                    let val = universe.last();
                    let (q, ok) = p.replace(var, val);
                    if !ok {
                        a
                    } else {
                        match val.eval(scope) {
                            Err(e) => CompiledList { result: Err(e), defs: a.defs },
                            Ok(v) => {
                                proof {
                                    lemma_replace_keeps_size(p, var, val);
                                }
                                let c = q.compile(scope, a.defs, seen);
                                match c.result {
                                    Err(e) => CompiledList { result: Err(e), defs: c.defs },
                                    Ok(t) => CompiledList {
                                        result: Ok(
                                            ts.push(
                                                Term::Action(
                                                    Label::Recv(v.mangle(name)),
                                                    Box::new(t),
                                                ),
                                            ),
                                        ),
                                        defs: c.defs,
                                    },
                                }
                            },
                        }
                    }
                },
            }
        }
    }
}


/// The port `name` as it carries the value `v`.
pub fn encode_action(name: String, v: &Value) -> (r: String)
    ensures
        r@ == v@.mangle(name@),
{
    v.mangle(name)
}

/// The name of the instance of the constant `name` with the arguments
/// `vals`; see [`instance_name`].
pub fn encode_constant(name: String, vals: &Vec<Value>) -> (r: String)
    ensures
        r@ == instance_name(name@, crate::vp::values::vals(vals@)),
{
    if vals.len() == 0 {
        name
    } else {
        let mut out = name;
        out.append("#");
        out.append(join(&value_texts(vals), "#").as_str());
        out
    }
}

/// Instantiating from the parameter at `i` on is replacing that parameter and
/// instantiating from the next one on.
proof fn lemma_instantiate_step(b: Agent, ps: Seq<Seq<char>>, vs: Seq<Val>, i: int)
    requires
        0 <= i < ps.len(),
        0 <= i < vs.len(),
    ensures
        b.instantiate(ps.skip(i), vs.skip(i)) == (if b.replace(ps[i], vs[i]).1 {
            b.replace(ps[i], vs[i]).0.instantiate(ps.skip(i + 1), vs.skip(i + 1))
        } else {
            (b.replace(ps[i], vs[i]).0, false)
        }),
{
    assert(ps.skip(i)[0] == ps[i]);
    assert(vs.skip(i)[0] == vs[i]);
    assert(ps.skip(i).drop_first() =~= ps.skip(i + 1));
    assert(vs.skip(i).drop_first() =~= vs.skip(i + 1));
}

/// Replaces each parameter by its argument in `body`; see
/// [`Agent::instantiate`].
fn instantiate(body: &mut Process, params: &Vec<String>, args: &Vec<Value>) -> (r: bool)
    ensures
        (final(body)@, r) == old(body)@.instantiate(names_view(params@), vals(args@)),
{
    let ghost ps = names_view(params@);
    let ghost vs = vals(args@);
    let ghost start = body@;
    let mut i: usize = 0;
    assert(ps.skip(0) =~= ps);
    assert(vs.skip(0) =~= vs);
    while i < params.len() && i < args.len()
        invariant
            i <= params.len(),
            i <= args.len(),
            ps == names_view(params@),
            vs == vals(args@),
            start == old(body)@,
            start.instantiate(ps, vs) == body@.instantiate(ps.skip(i as int), vs.skip(i as int)),
        decreases params.len() - i,
    {
        proof {
            lemma_instantiate_step(body@, ps, vs, i as int);
        }
        if !body.try_replace(params[i].as_str(), &args[i]) {
            return false;
        }
        i += 1;
    }
    proof {
        assert(ps.skip(i as int).len() == 0 || vs.skip(i as int).len() == 0);
    }
    true
}

/// Each of the `names` as it carries each value of `universe`; see
/// [`mangled_names`].
fn mangle_names(names: &Vec<String>, universe: &Vec<Value>) -> (r: Vec<String>)
    ensures
        names_view(r@) == mangled_names(names_view(names@), vals(universe@)),
{
    let ghost ns = names_view(names@);
    let ghost us = vals(universe@);
    let mut out: Vec<String> = Vec::new();
    let mut i: usize = 0;
    assert(names_view(out@) =~= mangled_names(ns.take(0), us));
    while i < names.len()
        invariant
            i <= names.len(),
            ns == names_view(names@),
            us == vals(universe@),
            names_view(out@) == mangled_names(ns.take(i as int), us),
        decreases names.len() - i,
    {
        let ghost base = names_view(out@);
        let ghost name = ns[i as int];
        let mut k: usize = 0;
        assert(names_view(out@) =~= base + Seq::new(0, |k: int| us[k].mangle(name)));
        while k < universe.len()
            invariant
                k <= universe.len(),
                i < names.len(),
                ns == names_view(names@),
                us == vals(universe@),
                name == ns[i as int],
                names_view(out@) == base + Seq::new(k as nat, |k: int| us[k].mangle(name)),
            decreases universe.len() - k,
        {
            let ghost before = out@;
            let m = encode_action(names[i].clone(), &universe[k]);
            out.push(m);
            assert(names_view(out@) =~= names_view(before).push(us[k as int].mangle(name)));
            assert(names_view(out@) =~= base + Seq::new((k + 1) as nat, |k: int| us[k].mangle(name)));
            k += 1;
        }
        proof {
            let next = ns.take(i + 1);
            assert(next.drop_last() =~= ns.take(i as int));
            assert(next.last() == name);
        }
        i += 1;
    }
    assert(ns.take(names.len() as int) =~= ns);
    out
}

/// Each pair of `subs` with both ports carrying each value of `universe`;
/// see [`mangled_pairs`].
fn mangle_pairs(subs: &Substitution, universe: &Vec<Value>) -> (r: Vec<(String, String)>)
    ensures
        pairs_view(r@) == mangled_pairs(subs@, vals(universe@)),
{
    let pairs = subs.pairs();
    let ghost ps = subs@;
    let ghost us = vals(universe@);
    let mut out: Vec<(String, String)> = Vec::new();
    let mut i: usize = 0;
    assert(pairs_view(out@) =~= mangled_pairs(ps.take(0), us));
    while i < pairs.len()
        invariant
            i <= pairs.len(),
            ps == pairs_view(pairs@),
            us == vals(universe@),
            pairs_view(out@) == mangled_pairs(ps.take(i as int), us),
        decreases pairs.len() - i,
    {
        let ghost base = pairs_view(out@);
        let ghost pair = ps[i as int];
        let mut k: usize = 0;
        assert(pairs_view(out@) =~= base + Seq::new(
            0,
            |k: int| (us[k].mangle(pair.0), us[k].mangle(pair.1)),
        ));
        while k < universe.len()
            invariant
                k <= universe.len(),
                i < pairs.len(),
                ps == pairs_view(pairs@),
                us == vals(universe@),
                pair == ps[i as int],
                pairs_view(out@) == base + Seq::new(
                    k as nat,
                    |k: int| (us[k].mangle(pair.0), us[k].mangle(pair.1)),
                ),
            decreases universe.len() - k,
        {
            let ghost before = out@;
            let new = encode_action(pairs[i].0.clone(), &universe[k]);
            let old = encode_action(pairs[i].1.clone(), &universe[k]);
            out.push((new, old));
            assert(pairs_view(out@) =~= pairs_view(before).push(
                (us[k as int].mangle(pair.0), us[k as int].mangle(pair.1)),
            ));
            assert(pairs_view(out@) =~= base + Seq::new(
                (k + 1) as nat,
                |k: int| (us[k].mangle(pair.0), us[k].mangle(pair.1)),
            ));
            k += 1;
        }
        proof {
            let next = ps.take(i + 1);
            assert(next.drop_last() =~= ps.take(i as int));
            assert(next.last() == pair);
        }
        i += 1;
    }
    assert(ps.take(pairs.len() as int) =~= ps);
    out
}


/// The result of compiling a list of processes.
pub open spec fn terms_result(r: Result<Vec<ProcessCcs>, Error>) -> Result<Seq<Term>, Error> {
    match r {
        Ok(ts) => Ok(terms(ts@)),
        Err(e) => Err(e),
    }
}

proof fn lemma_part_size(ps: Seq<Agent>, i: int)
    requires
        0 <= i < ps.len(),
    ensures
        ps[i].size() <= Agent::total_size(ps),
    decreases ps.len(),
{
    if i < ps.len() - 1 {
        lemma_part_size(ps.drop_last(), i);
    }
}

/// An error among the first agents of a list is the error of the whole list.
proof fn lemma_compile_all_error(
    ps: Seq<Agent>,
    i: int,
    scope: Scope,
    defs: Definitions,
    seen: Seq<Seq<char>>,
)
    requires
        0 <= i < ps.len(),
        Agent::compile_all(ps.take(i + 1), scope, defs, seen).result is Err,
    ensures
        Agent::compile_all(ps, scope, defs, seen) == Agent::compile_all(
            ps.take(i + 1),
            scope,
            defs,
            seen,
        ),
    decreases ps.len(),
{
    if i + 1 == ps.len() {
        assert(ps.take(i + 1) =~= ps);
    } else {
        assert(ps.drop_last().take(i + 1) =~= ps.take(i + 1));
        lemma_compile_all_error(ps.drop_last(), i, scope, defs, seen);
    }
}

/// An error among the alternatives for the first values of the universe is
/// the error of all alternatives.
proof fn lemma_compile_inputs_error(
    p: Agent,
    name: Seq<char>,
    var: Seq<char>,
    universe: Seq<Val>,
    i: int,
    scope: Scope,
    defs: Definitions,
    seen: Seq<Seq<char>>,
)
    requires
        0 <= i < universe.len(),
        Agent::compile_inputs(p, name, var, universe.take(i + 1), scope, defs, seen).result is Err,
    ensures
        Agent::compile_inputs(p, name, var, universe, scope, defs, seen) == Agent::compile_inputs(
            p,
            name,
            var,
            universe.take(i + 1),
            scope,
            defs,
            seen,
        ),
    decreases universe.len(),
{
    if i + 1 == universe.len() {
        assert(universe.take(i + 1) =~= universe);
    } else {
        assert(universe.drop_last().take(i + 1) =~= universe.take(i + 1));
        lemma_compile_inputs_error(p, name, var, universe.drop_last(), i, scope, defs, seen);
    }
}

/// Compiles the processes of a list in order; see [`Agent::compile_all`].
#[verifier::loop_isolation(false)]
fn compile_all(ps: &Vec<Process>, ctx: &Context, ccs: &mut ContextCcs, seen: &mut Vec<String>) -> (r:
    Result<Vec<ProcessCcs>, Error>)
    ensures
        names_view(final(seen)@) == names_view(old(seen)@),
        final(seen).len() == old(seen).len(),
        terms_result(r) == Agent::compile_all(
            agents(ps@),
            ctx@,
            old(ccs)@,
            names_view(old(seen)@),
        ).result,
        final(ccs)@ == Agent::compile_all(
            agents(ps@),
            ctx@,
            old(ccs)@,
            names_view(old(seen)@),
        ).defs,
    decreases usize::MAX - old(seen).len(), Agent::total_size(agents(ps@)), 2nat,
{
    let ghost seen0 = names_view(seen@);
    let ghost defs0 = ccs@;
    let ghost all = agents(ps@);
    let mut out: Vec<ProcessCcs> = Vec::new();
    let mut i: usize = 0;
    assert(terms(out@) =~= Seq::<Term>::empty());
    assert(all.take(0).len() == 0);
    while i < ps.len()
        invariant
            i <= ps.len(),
            names_view(seen@) == seen0,
            seen.len() == old(seen).len(),
            Agent::compile_all(all.take(i as int), ctx@, defs0, seen0).result == Ok::<
                Seq<Term>,
                Error,
            >(terms(out@)),
            Agent::compile_all(all.take(i as int), ctx@, defs0, seen0).defs == ccs@,
        decreases ps.len() - i,
    {
        proof {
            let next = all.take(i + 1);
            assert(next.drop_last() =~= all.take(i as int));
            assert(next.last() == ps[i as int]@);
            lemma_part_size(all, i as int);
        }
        match ps[i].compile(ctx, ccs, seen) {
            Ok(t) => {
                let ghost before = out@;
                out.push(t);
                assert(terms(out@) =~= terms(before).push(t@));
            },
            Err(e) => {
                proof {
                    lemma_compile_all_error(all, i as int, ctx@, defs0, seen0);
                }
                return Err(e);
            },
        }
        i += 1;
    }
    assert(all.take(ps.len() as int) =~= all);
    Ok(out)
}

/// Compiles the alternatives of an input that binds `var`; see
/// [`Agent::compile_inputs`].
#[verifier::loop_isolation(false)]
fn compile_inputs(
    p: &Process,
    name: &String,
    var: &String,
    universe: &Vec<Value>,
    ctx: &Context,
    ccs: &mut ContextCcs,
    seen: &mut Vec<String>,
) -> (r: Result<Vec<ProcessCcs>, Error>)
    ensures
        names_view(final(seen)@) == names_view(old(seen)@),
        final(seen).len() == old(seen).len(),
        terms_result(r) == Agent::compile_inputs(
            p@,
            name@,
            var@,
            vals(universe@),
            ctx@,
            old(ccs)@,
            names_view(old(seen)@),
        ).result,
        final(ccs)@ == Agent::compile_inputs(
            p@,
            name@,
            var@,
            vals(universe@),
            ctx@,
            old(ccs)@,
            names_view(old(seen)@),
        ).defs,
    decreases usize::MAX - old(seen).len(), p@.size(), 3 + universe.len(),
{
    let ghost seen0 = names_view(seen@);
    let ghost defs0 = ccs@;
    let ghost us = vals(universe@);
    let mut out: Vec<ProcessCcs> = Vec::new();
    let mut i: usize = 0;
    assert(terms(out@) =~= Seq::<Term>::empty());
    assert(us.take(0).len() == 0);
    while i < universe.len()
        invariant
            i <= universe.len(),
            names_view(seen@) == seen0,
            seen.len() == old(seen).len(),
            Agent::compile_inputs(p@, name@, var@, us.take(i as int), ctx@, defs0, seen0).result
                == Ok::<Seq<Term>, Error>(terms(out@)),
            Agent::compile_inputs(p@, name@, var@, us.take(i as int), ctx@, defs0, seen0).defs
                == ccs@,
        decreases universe.len() - i,
    {
        proof {
            let next = us.take(i + 1);
            assert(next.drop_last() =~= us.take(i as int));
            assert(next.last() == universe[i as int]@);
            lemma_replace_keeps_size(p@, var@, universe[i as int]@);
        }
        let mut q = p.clone();
        if q.try_replace(var.as_str(), &universe[i]) {
            match universe[i].eval(ctx) {
                Err(e) => {
                    proof {
                        lemma_compile_inputs_error(
                            p@,
                            name@,
                            var@,
                            us,
                            i as int,
                            ctx@,
                            defs0,
                            seen0,
                        );
                    }
                    return Err(e);
                },
                Ok(v) => {
                    match q.compile(ctx, ccs, seen) {
                        Err(e) => {
                            proof {
                                lemma_compile_inputs_error(
                                    p@,
                                    name@,
                                    var@,
                                    us,
                                    i as int,
                                    ctx@,
                                    defs0,
                                    seen0,
                                );
                            }
                            return Err(e);
                        },
                        Ok(t) => {
                            let ghost before = out@;
                            let port = encode_action(name.clone(), &v);
                            let alt = ProcessCcs::action(ChannelCcs::Recv(port), t);
                            out.push(alt);
                            assert(terms(out@) =~= terms(before).push(alt@));
                        },
                    }
                },
            }
        }
        i += 1;
    }
    assert(us.take(universe.len() as int) =~= us);
    Ok(out)
}

/// Compiles an instance of a constant.
fn compile_constant(
    name: &String,
    args: &Vec<Value>,
    ctx: &Context,
    ccs: &mut ContextCcs,
    seen: &mut Vec<String>,
) -> (r: Result<ProcessCcs, Error>)
    ensures
        names_view(final(seen)@) == names_view(old(seen)@),
        final(seen).len() == old(seen).len(),
        term_result(r) == Agent::Constant(name@, vals(args@)).compile(
            ctx@,
            old(ccs)@,
            names_view(old(seen)@),
        ).result,
        final(ccs)@ == Agent::Constant(name@, vals(args@)).compile(
            ctx@,
            old(ccs)@,
            names_view(old(seen)@),
        ).defs,
    decreases usize::MAX - old(seen).len(), 1nat, 0nat,
{
    let ghost seen0 = names_view(seen@);
    let vals = match eval_values(args, ctx) {
        Err(e) => {
            return Err(e);
        },
        Ok(vals) => vals,
    };
    let encoded = encode_constant(name.clone(), &vals);
    if contains_name(seen, encoded.as_str()) {
        return Ok(ProcessCcs::Constant(encoded));
    }
    let decl = match ctx.get_process(name.as_str()) {
        None => {
            return Err(Error::UnknownConstant);
        },
        Some(decl) => decl,
    };
    let mut body = decl.1.clone();
    if !instantiate(&mut body, &decl.0, &vals) {
        return Err(Error::TypeMismatch);
    }
    if seen.len() >= usize::MAX {
        return Err(Error::NestingLimit);
    }
    seen.push(encoded.clone());
    assert(names_view(seen@) =~= seen0.push(encoded@));
    let r = body.compile(ctx, ccs, seen);
    let ghost grown = seen@;
    seen.pop();
    assert(names_view(seen@) =~= names_view(grown).drop_last());
    assert(seen0.push(encoded@).drop_last() =~= seen0);
    match r {
        Err(e) => Err(e),
        Ok(t) => {
            ccs.bind_process(encoded.clone(), t.flatten());
            Ok(ProcessCcs::Constant(encoded))
        },
    }
}

/// Compiles a prefix.
fn compile_action(
    ch: &Channel,
    p: &Process,
    ctx: &Context,
    ccs: &mut ContextCcs,
    seen: &mut Vec<String>,
) -> (r: Result<ProcessCcs, Error>)
    ensures
        names_view(final(seen)@) == names_view(old(seen)@),
        final(seen).len() == old(seen).len(),
        term_result(r) == Agent::Action(ch@, Box::new(p@)).compile(
            ctx@,
            old(ccs)@,
            names_view(old(seen)@),
        ).result,
        final(ccs)@ == Agent::Action(ch@, Box::new(p@)).compile(
            ctx@,
            old(ccs)@,
            names_view(old(seen)@),
        ).defs,
    decreases usize::MAX - old(seen).len(), 1 + p@.size(), 0nat,
{
    match ch {
        Channel::Tau => {
            match p.compile(ctx, ccs, seen) {
                Err(e) => Err(e),
                Ok(t) => Ok(ProcessCcs::action(ChannelCcs::Tau, t)),
            }
        },
        Channel::Recv(name, None) => {
            match p.compile(ctx, ccs, seen) {
                Err(e) => Err(e),
                Ok(t) => Ok(ProcessCcs::action(ChannelCcs::Recv(name.clone()), t)),
            }
        },
        Channel::Send(name, None) => {
            match p.compile(ctx, ccs, seen) {
                Err(e) => Err(e),
                Ok(t) => Ok(ProcessCcs::action(ChannelCcs::Send(name.clone()), t)),
            }
        },
        Channel::Send(name, Some(e)) => {
            let v = match e.eval(ctx) {
                Err(e) => {
                    return Err(e);
                },
                Ok(v) => v,
            };
            let port = encode_action(name.clone(), &v);
            match p.compile(ctx, ccs, seen) {
                Err(e) => Err(e),
                Ok(t) => Ok(ProcessCcs::action(ChannelCcs::Send(port), t)),
            }
        },
        Channel::Recv(name, Some(var)) => {
            let universe = match ctx.values() {
                Err(e) => {
                    return Err(e);
                },
                Ok(u) => u,
            };
            match compile_inputs(p, name, var, &universe, ctx, ccs, seen) {
                Err(e) => Err(e),
                Ok(alts) => Ok(ProcessCcs::sum(alts)),
            }
        },
    }
}

/// Compiles a restriction.
fn compile_restriction(
    p: &Process,
    names: &Vec<String>,
    ctx: &Context,
    ccs: &mut ContextCcs,
    seen: &mut Vec<String>,
) -> (r: Result<ProcessCcs, Error>)
    ensures
        names_view(final(seen)@) == names_view(old(seen)@),
        final(seen).len() == old(seen).len(),
        term_result(r) == Agent::Restriction(Box::new(p@), names_view(names@)).compile(
            ctx@,
            old(ccs)@,
            names_view(old(seen)@),
        ).result,
        final(ccs)@ == Agent::Restriction(Box::new(p@), names_view(names@)).compile(
            ctx@,
            old(ccs)@,
            names_view(old(seen)@),
        ).defs,
    decreases usize::MAX - old(seen).len(), 1 + p@.size(), 0nat,
{
    let universe = match ctx.values() {
        Err(e) => {
            return Err(e);
        },
        Ok(u) => u,
    };
    let chans = mangle_names(names, &universe);
    match p.compile(ctx, ccs, seen) {
        Err(e) => Err(e),
        Ok(t) => Ok(ProcessCcs::restriction(t, chans)),
    }
}

/// Compiles a substitution.
fn compile_substitution(
    p: &Process,
    subs: &Substitution,
    ctx: &Context,
    ccs: &mut ContextCcs,
    seen: &mut Vec<String>,
) -> (r: Result<ProcessCcs, Error>)
    ensures
        names_view(final(seen)@) == names_view(old(seen)@),
        final(seen).len() == old(seen).len(),
        term_result(r) == Agent::Substitution(Box::new(p@), subs@).compile(
            ctx@,
            old(ccs)@,
            names_view(old(seen)@),
        ).result,
        final(ccs)@ == Agent::Substitution(Box::new(p@), subs@).compile(
            ctx@,
            old(ccs)@,
            names_view(old(seen)@),
        ).defs,
    decreases usize::MAX - old(seen).len(), 1 + p@.size(), 0nat,
{
    let universe = match ctx.values() {
        Err(e) => {
            return Err(e);
        },
        Ok(u) => u,
    };
    let chans = mangle_pairs(subs, &universe);
    let t = match p.compile(ctx, ccs, seen) {
        Err(e) => {
            return Err(e);
        },
        Ok(t) => t,
    };
    match Substitution::new(chans) {
        Err(e) => Err(e),
        Ok(s) => Ok(ProcessCcs::substitution(t, s)),
    }
}

impl Process {
    /// Compiles the process; see [`Agent::compile`].
    fn compile(&self, ctx: &Context, ccs: &mut ContextCcs, seen: &mut Vec<String>) -> (r: Result<
        ProcessCcs,
        Error,
    >)
        ensures
            names_view(final(seen)@) == names_view(old(seen)@),
            final(seen).len() == old(seen).len(),
            term_result(r) == self@.compile(ctx@, old(ccs)@, names_view(old(seen)@)).result,
            final(ccs)@ == self@.compile(ctx@, old(ccs)@, names_view(old(seen)@)).defs,
        decreases usize::MAX - old(seen).len(), self@.size(), 1nat,
    {
        match self {
            Process::Constant(name, args) => compile_constant(name, args, ctx, ccs, seen),
            Process::Action(ch, p) => compile_action(ch, &**p, ctx, ccs, seen),
            Process::Sum(ps) => {
                proof {
                    lemma_sum_view(*ps);
                }
                match compile_all(ps, ctx, ccs, seen) {
                    Err(e) => Err(e),
                    Ok(ts) => Ok(ProcessCcs::sum(ts)),
                }
            },
            Process::Par(p, q) => {
                let t = match (**p).compile(ctx, ccs, seen) {
                    Err(e) => {
                        return Err(e);
                    },
                    Ok(t) => t,
                };
                match (**q).compile(ctx, ccs, seen) {
                    Err(e) => Err(e),
                    Ok(u) => Ok(ProcessCcs::par(t, u)),
                }
            },
            Process::IfThen(b, p) => {
                match b.eval(ctx) {
                    Err(e) => Err(e),
                    Ok(holds) => {
                        if holds {
                            (**p).compile(ctx, ccs, seen)
                        } else {
                            Ok(ProcessCcs::nil())
                        }
                    },
                }
            },
            Process::Restriction(p, names) => compile_restriction(&**p, names, ctx, ccs, seen),
            Process::Substitution(p, subs) => compile_substitution(&**p, subs, ctx, ccs, seen),
        }
    }

    /// Compiles the process to the pure calculus; see [`Agent::compile`]. The
    /// definitions of the instances that are met are bound in `ccs`; `seen`
    /// holds the names of the instances that are being compiled around the
    /// process, and is left as it was.
    pub fn to_ccs(self, ctx: &Context, ccs: &mut ContextCcs, seen: &mut Vec<String>) -> (r: Result<
        ProcessCcs,
        Error,
    >)
        ensures
            names_view(final(seen)@) == names_view(old(seen)@),
            term_result(r) == self@.compile(ctx@, old(ccs)@, names_view(old(seen)@)).result,
            final(ccs)@ == self@.compile(ctx@, old(ccs)@, names_view(old(seen)@)).defs,
    {
        self.compile(ctx, ccs, seen)
    }
}

} // verus!
