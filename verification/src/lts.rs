//! Labelled transition systems: finite sets of transitions between processes.
use vstd::prelude::*;

use crate::context::{Context, Definitions};
use crate::process::{Channel, Label, Process, Step, Term, Transition};

verus! {

/// The value of a transition.
pub open spec fn step_of(t: Transition) -> Step {
    (t.0@, t.1@, t.2@)
}

/// The values of a list of transitions.
pub open spec fn steps(ts: Seq<Transition>) -> Seq<Step> {
    Seq::new(ts.len(), |i: int| step_of(ts[i]))
}

/// A labelled transition system: a set of transitions. Its nodes are the
/// sources and targets of its transitions, its edges their labels.
#[derive(Debug)]
pub struct Lts {
    transitions: Vec<Transition>,
}

impl View for Lts {
    type V = Set<Step>;

    closed spec fn view(&self) -> Set<Step> {
        steps(self.transitions@).to_set()
    }
}

/// The nodes of a set of transitions.
pub open spec fn nodes_of(ts: Set<Step>) -> Set<Term> {
    Set::new(|n: Term| exists|s: Step| #[trigger] ts.contains(s) && (s.0 == n || s.2 == n))
}

/// The labels of a set of transitions.
pub open spec fn edges_of(ts: Set<Step>) -> Set<Label> {
    Set::new(|l: Label| exists|s: Step| #[trigger] ts.contains(s) && s.1 == l)
}

impl Lts {
    /// No transition is held twice.
    #[verifier::type_invariant]
    spec fn wf(&self) -> bool {
        steps(self.transitions@).no_duplicates()
    }

    /// The system without transitions.
    pub fn empty() -> (r: Self)
        ensures
            r@ == Set::<Step>::empty(),
    {
        let r = Lts { transitions: Vec::new() };
        assert(r@ =~= Set::<Step>::empty());
        r
    }

    /// The number of transitions.
    pub fn len(&self) -> (r: usize)
        ensures
            r == self@.len(),
            self@.finite(),
    {
        proof {
            use_type_invariant(self);
            steps(self.transitions@).unique_seq_to_set();
            vstd::seq_lib::seq_to_set_is_finite(steps(self.transitions@));
        }
        self.transitions.len()
    }

    /// Whether the system holds the transition `t`.
    pub fn contains(&self, t: &Transition) -> (r: bool)
        ensures
            r == self@.contains(step_of(*t)),
    {
        let mut i: usize = 0;
        while i < self.transitions.len()
            invariant
                i <= self.transitions.len(),
                forall|k: int| 0 <= k < i ==> steps(self.transitions@)[k] != step_of(*t),
            decreases self.transitions.len() - i,
        {
            let u = &self.transitions[i];
            if u.0 == t.0 && u.1 == t.1 && u.2 == t.2 {
                assert(steps(self.transitions@)[i as int] == step_of(*t));
                return true;
            }
            i += 1;
        }
        false
    }

    /// Adds the transition `t`; says whether it was new.
    pub fn insert(&mut self, t: Transition) -> (r: bool)
        ensures
            final(self)@ == old(self)@.insert(step_of(t)),
            r == !old(self)@.contains(step_of(t)),
    {
        proof {
            use_type_invariant(&*self);
        }
        if self.contains(&t) {
            assert(self@.insert(step_of(t)) =~= self@);
            return false;
        }
        let mut transitions: Vec<Transition> = Vec::new();
        std::mem::swap(&mut transitions, &mut self.transitions);
        let ghost before = transitions@;
        transitions.push(t);
        proof {
            assert(steps(transitions@) =~= steps(before).push(step_of(t)));
            assert(steps(transitions@).to_set() =~= steps(before).to_set().insert(step_of(t))) by {
                assert forall|s: Step|
                    steps(transitions@).to_set().contains(s) <==> steps(before).to_set().insert(
                        step_of(t),
                    ).contains(s) by {
                    if steps(before).contains(s) {
                        let i = choose|i: int| 0 <= i < steps(before).len() && steps(before)[i] == s;
                        assert(steps(transitions@)[i] == s);
                    }
                    if s == step_of(t) {
                        assert(steps(transitions@)[before.len() as int] == s);
                    }
                }
            }
        }
        self.transitions = transitions;
        true
    }

    /// The transitions, each once.
    pub fn transitions(&self) -> (r: &Vec<Transition>)
        ensures
            steps(r@).to_set() == self@,
            steps(r@).no_duplicates(),
    {
        proof {
            use_type_invariant(self);
        }
        &self.transitions
    }

    /// The system of the transitions of a list.
    pub fn new(ts: Vec<Transition>) -> (r: Self)
        ensures
            r@ == steps(ts@).to_set(),
    {
        let mut out = Lts::empty();
        let mut ts = ts;
        let ghost all = steps(ts@);
        while ts.len() > 0
            invariant
                steps(ts@) =~= all.take(ts.len() as int),
                ts.len() <= all.len(),
                forall|s: Step|
                    out@.contains(s) <==> exists|k: int|
                        ts.len() <= k < all.len() && #[trigger] all[k] == s,
            decreases ts.len(),
        {
            let ghost n = ts.len() as int;
            let ghost whole = ts@;
            let t = ts.pop().unwrap();
            out.insert(t);
            proof {
                assert(step_of(t) == steps(whole)[n - 1]);
                assert(step_of(t) == all[n - 1]);
                assert(steps(ts@) =~= all.take(n - 1));
            }
        }
        assert(out@ =~= all.to_set());
        out
    }
}


/// The transitions with both ends flattened.
pub open spec fn flattened(ts: Set<Step>) -> Set<Step> {
    Set::new(
        |s: Step| exists|t: Step| #[trigger] ts.contains(t) && s == (t.0.flatten(), t.1, t.2.flatten()),
    )
}

/// The transitions with both ends folded into the constants of `defs`.
pub open spec fn folded(ts: Set<Step>, defs: Definitions) -> Set<Step> {
    Set::new(
        |s: Step|
            exists|t: Step| #[trigger] ts.contains(t) && s == (t.0.fold(defs), t.1, t.2.fold(defs)),
    )
}

/// The transitions that lead into `n`.
pub open spec fn steps_to(ts: Set<Step>, n: Term) -> Set<Step> {
    Set::new(|s: Step| ts.contains(s) && s.2 == n)
}

/// The transitions that leave `n`.
pub open spec fn steps_from(ts: Set<Step>, n: Term) -> Set<Step> {
    Set::new(|s: Step| ts.contains(s) && s.0 == n)
}

/// The weakening of a set of transitions: every node gets an internal loop,
/// and for every internal transition from `p` to `q`, what leads into `p`
/// also leads into `q`, and what leaves `q` also leaves `p`. The internal
/// transitions are those of the given set: the closure is made once.
pub open spec fn weakened(ts: Set<Step>) -> Set<Step> {
    Set::new(
        |s: Step|
            {
                ||| ts.contains(s)
                ||| s.1 == Label::Tau && s.0 == s.2 && nodes_of(ts).contains(s.0)
                ||| exists|p: Term| #[trigger]
                    ts.contains((p, Label::Tau, s.2)) && ts.contains((s.0, s.1, p))
                ||| exists|q: Term| #[trigger]
                    ts.contains((s.0, Label::Tau, q)) && ts.contains((q, s.1, s.2))
            },
    )
}

impl Lts {
    /// The system of the transitions of an array.
    pub fn from_array<const N: usize>(t: [(&Process, &Channel, &Process); N]) -> (r: Self)
        ensures
            forall|s: Step|
                r@.contains(s) <==> exists|i: int|
                    0 <= i < N && s == ((#[trigger] t[i]).0@, t[i].1@, t[i].2@),
    {
        let mut out = Lts::empty();
        let mut i: usize = 0;
        while i < N
            invariant
                i <= N,
                forall|s: Step|
                    #![trigger out@.contains(s)]
                    out@.contains(s) <==> exists|k: int|
                        0 <= k < i && s == ((#[trigger] t[k]).0@, t[k].1@, t[k].2@),
            decreases N - i,
        {
            let e = &t[i];
            out.insert((e.0.clone(), e.1.clone(), e.2.clone()));
            i += 1;
        }
        out
    }

    /// A copy of the system.
    fn copy(&self) -> (r: Self)
        ensures
            r@ == self@,
    {
        let mut out = Lts::empty();
        let ghost ds = steps(self.transitions@);
        let mut i: usize = 0;
        while i < self.transitions.len()
            invariant
                i <= self.transitions.len(),
                ds == steps(self.transitions@),
                forall|s: Step|
                    #![trigger out@.contains(s)]
                    out@.contains(s) <==> exists|k: int| 0 <= k < i && s == #[trigger] ds[k],
            decreases self.transitions.len() - i,
        {
            let t = &self.transitions[i];
            assert(step_of(*t) == ds[i as int]);
            out.insert((t.0.clone(), t.1.clone(), t.2.clone()));
            i += 1;
        }
        assert(out@ =~= self@);
        out
    }

    /// The weakening of the system; see [`weakened`].
    #[verifier::loop_isolation(false)]
    pub fn weaken(self) -> (r: Self)
        ensures
            r@ == weakened(self@),
    {
        let ts = &self.transitions;
        let ghost ds = steps(ts@);
        let mut out = self.copy();
        let mut i: usize = 0;
        while i < ts.len()
            invariant
                i <= ts.len(),
                forall|s: Step|
                    #![trigger out@.contains(s)]
                    out@.contains(s) <==> self@.contains(s) || exists|k: int|
                        0 <= k < i && (s == ((#[trigger] ds[k]).0, Label::Tau, ds[k].0) || s == (
                            ds[k].2,
                            Label::Tau,
                            ds[k].2,
                        )),
            decreases ts.len() - i,
        {
            let t = &ts[i];
            assert(step_of(*t) == ds[i as int]);
            out.insert((t.0.clone(), Channel::Tau, t.0.clone()));
            out.insert((t.2.clone(), Channel::Tau, t.2.clone()));
            i += 1;
        }
        let ghost looped = out@;
        let mut i: usize = 0;
        while i < ts.len()
            invariant
                i <= ts.len(),
                forall|s: Step|
                    #![trigger out@.contains(s)]
                    out@.contains(s) <==> looped.contains(s) || exists|k: int, m: int|
                        #![trigger ds[k], ds[m]]
                        0 <= k < i && 0 <= m < ds.len() && ds[k].1 == Label::Tau && ((ds[m].2
                            == ds[k].0 && s == (ds[m].0, ds[m].1, ds[k].2)) || (ds[m].0 == ds[k].2
                            && s == (ds[k].0, ds[m].1, ds[m].2))),
            decreases ts.len() - i,
        {
            let t = &ts[i];
            assert(step_of(*t) == ds[i as int]);
            if t.1.is_tau() {
                let ghost outer = out@;
                let mut j: usize = 0;
                while j < ts.len()
                    invariant
                        j <= ts.len(),
                        forall|s: Step|
                            #![trigger out@.contains(s)]
                            out@.contains(s) <==> outer.contains(s) || exists|m: int|
                                0 <= m < j && (((#[trigger] ds[m]).2 == ds[i as int].0 && s == (
                                    ds[m].0,
                                    ds[m].1,
                                    ds[i as int].2,
                                )) || (ds[m].0 == ds[i as int].2 && s == (
                                    ds[i as int].0,
                                    ds[m].1,
                                    ds[m].2,
                                ))),
                    decreases ts.len() - j,
                {
                    let u = &ts[j];
                    assert(step_of(*u) == ds[j as int]);
                    if u.2 == t.0 {
                        out.insert((u.0.clone(), u.1.clone(), t.2.clone()));
                    }
                    if u.0 == t.2 {
                        out.insert((t.0.clone(), u.1.clone(), u.2.clone()));
                    }
                    j += 1;
                }
            }
            i += 1;
        }
        proof {
            assert forall|s: Step| out@.contains(s) <==> weakened(self@).contains(s) by {
                let w = weakened(self@);
                if out@.contains(s) {
                    if self@.contains(s) {
                    } else if looped.contains(s) {
                        let k = choose|k: int|
                            0 <= k < ds.len() && (s == ((#[trigger] ds[k]).0, Label::Tau, ds[k].0)
                                || s == (ds[k].2, Label::Tau, ds[k].2));
                        assert(ds.to_set().contains(ds[k]));
                        assert(nodes_of(self@).contains(s.0));
                    } else {
                        let (k, m) = choose|k: int, m: int|
                            #![trigger ds[k], ds[m]]
                            0 <= k < ds.len() && 0 <= m < ds.len() && ds[k].1 == Label::Tau && ((
                            ds[m].2 == ds[k].0 && s == (ds[m].0, ds[m].1, ds[k].2)) || (ds[m].0
                                == ds[k].2 && s == (ds[k].0, ds[m].1, ds[m].2)));
                        assert(ds.to_set().contains(ds[k]));
                        assert(ds.to_set().contains(ds[m]));
                        if ds[m].2 == ds[k].0 && s == (ds[m].0, ds[m].1, ds[k].2) {
                            assert(self@.contains((ds[k].0, Label::Tau, s.2)));
                            assert(self@.contains((s.0, s.1, ds[k].0)));
                        } else {
                            assert(self@.contains((s.0, Label::Tau, ds[k].2)));
                            assert(self@.contains((ds[k].2, s.1, s.2)));
                        }
                    }
                }
                if w.contains(s) {
                    if self@.contains(s) {
                    } else if s.1 == Label::Tau && s.0 == s.2 && nodes_of(self@).contains(s.0) {
                        let t = choose|t: Step| #[trigger]
                            self@.contains(t) && (t.0 == s.0 || t.2 == s.0);
                        assert(ds.to_set().contains(t));
                        let k = choose|k: int| 0 <= k < ds.len() && ds[k] == t;
                        assert(s == (ds[k].0, Label::Tau, ds[k].0) || s == (
                            ds[k].2,
                            Label::Tau,
                            ds[k].2,
                        ));
                        assert(looped.contains(s));
                    } else if exists|p: Term| #[trigger]
                        self@.contains((p, Label::Tau, s.2)) && self@.contains((s.0, s.1, p)) {
                        let p = choose|p: Term| #[trigger]
                            self@.contains((p, Label::Tau, s.2)) && self@.contains((s.0, s.1, p));
                        assert(ds.to_set().contains((p, Label::Tau, s.2)));
                        assert(ds.to_set().contains((s.0, s.1, p)));
                        let k = choose|k: int| 0 <= k < ds.len() && ds[k] == (p, Label::Tau, s.2);
                        let m = choose|m: int| 0 <= m < ds.len() && ds[m] == (s.0, s.1, p);
                        assert(ds[m].2 == ds[k].0 && s == (ds[m].0, ds[m].1, ds[k].2));
                    } else {
                        let q = choose|q: Term| #[trigger]
                            self@.contains((s.0, Label::Tau, q)) && self@.contains((q, s.1, s.2));
                        assert(ds.to_set().contains((s.0, Label::Tau, q)));
                        assert(ds.to_set().contains((q, s.1, s.2)));
                        let k = choose|k: int| 0 <= k < ds.len() && ds[k] == (s.0, Label::Tau, q);
                        let m = choose|m: int| 0 <= m < ds.len() && ds[m] == (q, s.1, s.2);
                        assert(ds[m].0 == ds[k].2 && s == (ds[k].0, ds[m].1, ds[m].2));
                    }
                }
            }
            assert(out@ =~= weakened(self@));
        }
        out
    }

    /// The system with both ends of every transition flattened.
    #[verifier::loop_isolation(false)]
    pub fn flatten(self) -> (r: Self)
        ensures
            r@ == flattened(self@),
    {
        let ts = &self.transitions;
        let ghost ds = steps(ts@);
        let mut out = Lts::empty();
        let mut i: usize = 0;
        while i < ts.len()
            invariant
                i <= ts.len(),
                forall|s: Step|
                    #![trigger out@.contains(s)]
                    out@.contains(s) <==> exists|k: int|
                        0 <= k < i && s == (
                            (#[trigger] ds[k]).0.flatten(),
                            ds[k].1,
                            ds[k].2.flatten(),
                        ),
            decreases ts.len() - i,
        {
            let t = &ts[i];
            assert(step_of(*t) == ds[i as int]);
            out.insert((t.0.clone().flatten(), t.1.clone(), t.2.clone().flatten()));
            i += 1;
        }
        proof {
            assert forall|s: Step| out@.contains(s) <==> flattened(self@).contains(s) by {
                if out@.contains(s) {
                    let k = choose|k: int|
                        0 <= k < i && s == (
                            (#[trigger] ds[k]).0.flatten(),
                            ds[k].1,
                            ds[k].2.flatten(),
                        );
                    assert(ds.to_set().contains(ds[k]));
                }
                if flattened(self@).contains(s) {
                    let t = choose|t: Step| #[trigger]
                        self@.contains(t) && s == (t.0.flatten(), t.1, t.2.flatten());
                    assert(ds.to_set().contains(t));
                    let k = choose|k: int| 0 <= k < ds.len() && ds[k] == t;
                    assert(s == (ds[k].0.flatten(), ds[k].1, ds[k].2.flatten()));
                }
            }
            assert(out@ =~= flattened(self@));
        }
        out
    }

    /// The system with both ends of every transition folded into the
    /// constants of `ctx`; see [`Term::fold`].
    #[verifier::loop_isolation(false)]
    pub fn symbolic(self, ctx: &Context) -> (r: Self)
        ensures
            r@ == folded(self@, ctx@),
    {
        let ts = &self.transitions;
        let ghost ds = steps(ts@);
        let mut out = Lts::empty();
        let mut i: usize = 0;
        while i < ts.len()
            invariant
                i <= ts.len(),
                forall|s: Step|
                    #![trigger out@.contains(s)]
                    out@.contains(s) <==> exists|k: int|
                        0 <= k < i && s == (
                            (#[trigger] ds[k]).0.fold(ctx@),
                            ds[k].1,
                            ds[k].2.fold(ctx@),
                        ),
            decreases ts.len() - i,
        {
            let t = &ts[i];
            assert(step_of(*t) == ds[i as int]);
            out.insert((t.0.clone().fold_consts(ctx), t.1.clone(), t.2.clone().fold_consts(ctx)));
            i += 1;
        }
        proof {
            assert forall|s: Step| out@.contains(s) <==> folded(self@, ctx@).contains(s) by {
                if out@.contains(s) {
                    let k = choose|k: int|
                        0 <= k < i && s == (
                            (#[trigger] ds[k]).0.fold(ctx@),
                            ds[k].1,
                            ds[k].2.fold(ctx@),
                        );
                    assert(ds.to_set().contains(ds[k]));
                }
                if folded(self@, ctx@).contains(s) {
                    let t = choose|t: Step| #[trigger]
                        self@.contains(t) && s == (t.0.fold(ctx@), t.1, t.2.fold(ctx@));
                    assert(ds.to_set().contains(t));
                    let k = choose|k: int| 0 <= k < ds.len() && ds[k] == t;
                    assert(s == (ds[k].0.fold(ctx@), ds[k].1, ds[k].2.fold(ctx@)));
                }
            }
            assert(out@ =~= folded(self@, ctx@));
        }
        out
    }
}


/// The values of a list of processes, given by reference.
pub open spec fn node_views(ps: Seq<&Process>) -> Seq<Term> {
    Seq::new(ps.len(), |i: int| ps[i]@)
}

/// The values of a list of channels, given by reference.
pub open spec fn edge_views(cs: Seq<&Channel>) -> Seq<Label> {
    Seq::new(cs.len(), |i: int| cs[i]@)
}

/// The values of a list of transitions, given by reference.
pub open spec fn step_views(ts: Seq<&Transition>) -> Seq<Step> {
    Seq::new(ts.len(), |i: int| step_of(*ts[i]))
}

fn holds_node(ps: &Vec<&Process>, p: &Process) -> (r: bool)
    ensures
        r == node_views(ps@).contains(p@),
{
    let mut i: usize = 0;
    while i < ps.len()
        invariant
            i <= ps.len(),
            forall|k: int| 0 <= k < i ==> node_views(ps@)[k] != p@,
        decreases ps.len() - i,
    {
        if *ps[i] == *p {
            assert(node_views(ps@)[i as int] == p@);
            return true;
        }
        i += 1;
    }
    false
}

fn holds_edge(cs: &Vec<&Channel>, c: &Channel) -> (r: bool)
    ensures
        r == edge_views(cs@).contains(c@),
{
    let mut i: usize = 0;
    while i < cs.len()
        invariant
            i <= cs.len(),
            forall|k: int| 0 <= k < i ==> edge_views(cs@)[k] != c@,
        decreases cs.len() - i,
    {
        if *cs[i] == *c {
            assert(edge_views(cs@)[i as int] == c@);
            return true;
        }
        i += 1;
    }
    false
}

impl Lts {
    /// The labels that occur in the system, each once.
    #[verifier::loop_isolation(false)]
    pub fn edges(&self) -> (r: Vec<&Channel>)
        ensures
            edge_views(r@).to_set() == edges_of(self@),
            edge_views(r@).no_duplicates(),
    {
        let ts = &self.transitions;
        let ghost ds = steps(ts@);
        let mut out: Vec<&Channel> = Vec::new();
        let mut i: usize = 0;
        while i < ts.len()
            invariant
                i <= ts.len(),
                edge_views(out@).no_duplicates(),
                forall|l: Label|
                    #![trigger edge_views(out@).contains(l)]
                    edge_views(out@).contains(l) <==> exists|k: int|
                        0 <= k < i && (#[trigger] ds[k]).1 == l,
            decreases ts.len() - i,
        {
            assert(step_of(ts[i as int]) == ds[i as int]);
            if !holds_edge(&out, &ts[i].1) {
                let ghost before = out@;
                out.push(&ts[i].1);
                assert(edge_views(out@) =~= edge_views(before).push(ts[i as int].1@));
                assert forall|l: Label|
                    #![trigger edge_views(out@).contains(l)]
                    edge_views(out@).contains(l) <==> edge_views(before).contains(l) || l
                        == ts[i as int].1@ by {
                    if edge_views(before).contains(l) {
                        let k = choose|k: int|
                            0 <= k < before.len() && edge_views(before)[k] == l;
                        assert(edge_views(out@)[k] == l);
                    }
                    if l == ts[i as int].1@ {
                        assert(edge_views(out@)[before.len() as int] == l);
                    }
                }
            }
            i += 1;
        }
        proof {
            assert forall|l: Label|
                edge_views(out@).to_set().contains(l) <==> edges_of(self@).contains(l) by {
                if edge_views(out@).contains(l) {
                    let k = choose|k: int| 0 <= k < i && (#[trigger] ds[k]).1 == l;
                    assert(ds.to_set().contains(ds[k]));
                }
                if edges_of(self@).contains(l) {
                    let t = choose|t: Step| #[trigger] self@.contains(t) && t.1 == l;
                    assert(ds.to_set().contains(t));
                    let k = choose|k: int| 0 <= k < ds.len() && ds[k] == t;
                    assert(ds[k].1 == l);
                }
            }
            assert(edge_views(out@).to_set() =~= edges_of(self@));
        }
        out
    }

    /// The sources and targets of the system's transitions, each once.
    #[verifier::loop_isolation(false)]
    pub fn nodes(&self) -> (r: Vec<&Process>)
        ensures
            node_views(r@).to_set() == nodes_of(self@),
            node_views(r@).no_duplicates(),
    {
        let ts = &self.transitions;
        let ghost ds = steps(ts@);
        let mut out: Vec<&Process> = Vec::new();
        let mut i: usize = 0;
        while i < ts.len()
            invariant
                i <= ts.len(),
                node_views(out@).no_duplicates(),
                forall|n: Term|
                    #![trigger node_views(out@).contains(n)]
                    node_views(out@).contains(n) <==> exists|k: int|
                        0 <= k < i && ((#[trigger] ds[k]).0 == n || ds[k].2 == n),
            decreases ts.len() - i,
        {
            assert(step_of(ts[i as int]) == ds[i as int]);
            if !holds_node(&out, &ts[i].0) {
                let ghost before = out@;
                out.push(&ts[i].0);
                assert(node_views(out@) =~= node_views(before).push(ts[i as int].0@));
                assert forall|n: Term|
                    #![trigger node_views(out@).contains(n)]
                    node_views(out@).contains(n) <==> node_views(before).contains(n) || n
                        == ts[i as int].0@ by {
                    if node_views(before).contains(n) {
                        let k = choose|k: int|
                            0 <= k < before.len() && node_views(before)[k] == n;
                        assert(node_views(out@)[k] == n);
                    }
                    if n == ts[i as int].0@ {
                        assert(node_views(out@)[before.len() as int] == n);
                    }
                }
            }
            if !holds_node(&out, &ts[i].2) {
                let ghost before = out@;
                out.push(&ts[i].2);
                assert(node_views(out@) =~= node_views(before).push(ts[i as int].2@));
                assert forall|n: Term|
                    #![trigger node_views(out@).contains(n)]
                    node_views(out@).contains(n) <==> node_views(before).contains(n) || n
                        == ts[i as int].2@ by {
                    if node_views(before).contains(n) {
                        let k = choose|k: int|
                            0 <= k < before.len() && node_views(before)[k] == n;
                        assert(node_views(out@)[k] == n);
                    }
                    if n == ts[i as int].2@ {
                        assert(node_views(out@)[before.len() as int] == n);
                    }
                }
            }
            i += 1;
        }
        proof {
            assert forall|n: Term|
                node_views(out@).to_set().contains(n) <==> nodes_of(self@).contains(n) by {
                if node_views(out@).contains(n) {
                    let k = choose|k: int|
                        0 <= k < i && ((#[trigger] ds[k]).0 == n || ds[k].2 == n);
                    assert(ds.to_set().contains(ds[k]));
                }
                if nodes_of(self@).contains(n) {
                    let t = choose|t: Step| #[trigger] self@.contains(t) && (t.0 == n || t.2 == n);
                    assert(ds.to_set().contains(t));
                    let k = choose|k: int| 0 <= k < ds.len() && ds[k] == t;
                    assert(ds[k].0 == n || ds[k].2 == n);
                }
            }
            assert(node_views(out@).to_set() =~= nodes_of(self@));
        }
        out
    }

    /// The transitions that leave `p`, each once.
    #[verifier::loop_isolation(false)]
    pub fn transitions_from(&self, p: &Process) -> (r: Vec<&Transition>)
        ensures
            step_views(r@).to_set() == steps_from(self@, p@),
            step_views(r@).no_duplicates(),
    {
        proof {
            use_type_invariant(self);
        }
        let ts = &self.transitions;
        let ghost ds = steps(ts@);
        let mut out: Vec<&Transition> = Vec::new();
        let mut i: usize = 0;
        while i < ts.len()
            invariant
                i <= ts.len(),
                forall|k: int|
                    0 <= k < out.len() ==> exists|m: int|
                        0 <= m < i && #[trigger] step_views(out@)[k] == ds[m],
                step_views(out@).no_duplicates(),
                forall|m: int|
                    0 <= m < i && (#[trigger] ds[m]).0 == p@ ==> step_views(out@).contains(ds[m]),
                forall|k: int| 0 <= k < out.len() ==> (#[trigger] step_views(out@)[k]).0 == p@,
            decreases ts.len() - i,
        {
            assert(step_of(ts[i as int]) == ds[i as int]);
            if ts[i].0 == *p {
                let ghost before = out@;
                out.push(&ts[i]);
                assert(step_views(out@) =~= step_views(before).push(ds[i as int]));
                assert forall|m: int| 0 <= m < i + 1 && (#[trigger] ds[m]).0 == p@ implies step_views(
                    out@,
                ).contains(ds[m]) by {
                    if m < i {
                        let k = choose|k: int|
                            0 <= k < before.len() && step_views(before)[k] == ds[m];
                        assert(step_views(out@)[k] == ds[m]);
                    } else {
                        assert(step_views(out@)[before.len() as int] == ds[m]);
                    }
                }
            }
            i += 1;
        }
        proof {
            assert forall|s: Step|
                step_views(out@).to_set().contains(s) <==> steps_from(self@, p@).contains(s) by {
                if step_views(out@).contains(s) {
                    let k = choose|k: int| 0 <= k < out.len() && step_views(out@)[k] == s;
                    let m = choose|m: int| 0 <= m < i && step_views(out@)[k] == ds[m];
                    assert(ds.to_set().contains(ds[m]));
                }
                if steps_from(self@, p@).contains(s) {
                    assert(ds.to_set().contains(s));
                    let m = choose|m: int| 0 <= m < ds.len() && ds[m] == s;
                    assert(step_views(out@).contains(ds[m]));
                }
            }
            assert(step_views(out@).to_set() =~= steps_from(self@, p@));
        }
        out
    }

    /// The transitions that lead into `p`, each once.
    #[verifier::loop_isolation(false)]
    pub fn transitions_to(&self, p: &Process) -> (r: Vec<&Transition>)
        ensures
            step_views(r@).to_set() == steps_to(self@, p@),
            step_views(r@).no_duplicates(),
    {
        proof {
            use_type_invariant(self);
        }
        let ts = &self.transitions;
        let ghost ds = steps(ts@);
        let mut out: Vec<&Transition> = Vec::new();
        let mut i: usize = 0;
        while i < ts.len()
            invariant
                i <= ts.len(),
                forall|k: int|
                    0 <= k < out.len() ==> exists|m: int|
                        0 <= m < i && #[trigger] step_views(out@)[k] == ds[m],
                step_views(out@).no_duplicates(),
                forall|m: int|
                    0 <= m < i && (#[trigger] ds[m]).2 == p@ ==> step_views(out@).contains(ds[m]),
                forall|k: int| 0 <= k < out.len() ==> (#[trigger] step_views(out@)[k]).2 == p@,
            decreases ts.len() - i,
        {
            assert(step_of(ts[i as int]) == ds[i as int]);
            if ts[i].2 == *p {
                let ghost before = out@;
                out.push(&ts[i]);
                assert(step_views(out@) =~= step_views(before).push(ds[i as int]));
                assert forall|m: int| 0 <= m < i + 1 && (#[trigger] ds[m]).2 == p@ implies step_views(
                    out@,
                ).contains(ds[m]) by {
                    if m < i {
                        let k = choose|k: int|
                            0 <= k < before.len() && step_views(before)[k] == ds[m];
                        assert(step_views(out@)[k] == ds[m]);
                    } else {
                        assert(step_views(out@)[before.len() as int] == ds[m]);
                    }
                }
            }
            i += 1;
        }
        proof {
            assert forall|s: Step|
                step_views(out@).to_set().contains(s) <==> steps_to(self@, p@).contains(s) by {
                if step_views(out@).contains(s) {
                    let k = choose|k: int| 0 <= k < out.len() && step_views(out@)[k] == s;
                    let m = choose|m: int| 0 <= m < i && step_views(out@)[k] == ds[m];
                    assert(ds.to_set().contains(ds[m]));
                }
                if steps_to(self@, p@).contains(s) {
                    assert(ds.to_set().contains(s));
                    let m = choose|m: int| 0 <= m < ds.len() && ds[m] == s;
                    assert(step_views(out@).contains(ds[m]));
                }
            }
            assert(step_views(out@).to_set() =~= steps_to(self@, p@));
        }
        out
    }
}


/// A set of transitions is closed under its internal transitions when, for
/// every internal transition from `p` to `q` in it, what leads into `p` also
/// leads into `q` and what leaves `q` also leaves `p`.
pub open spec fn is_tau_closed(ts: Set<Step>) -> bool {
    &&& forall|x: Term, l: Label, p: Term, q: Term|
        #![trigger ts.contains((x, l, p)), ts.contains((p, Label::Tau, q))]
        ts.contains((x, l, p)) && ts.contains((p, Label::Tau, q)) ==> ts.contains((x, l, q))
    &&& forall|p: Term, q: Term, l: Label, y: Term|
        #![trigger ts.contains((p, Label::Tau, q)), ts.contains((q, l, y))]
        ts.contains((p, Label::Tau, q)) && ts.contains((q, l, y)) ==> ts.contains((p, l, y))
}

/// Weakening adds transitions between the nodes that are there: it adds no
/// node and takes no transition away.
pub proof fn lemma_weakened_keeps_nodes(ts: Set<Step>)
    ensures
        ts.subset_of(weakened(ts)),
        nodes_of(weakened(ts)) == nodes_of(ts),
{
    let w = weakened(ts);
    assert forall|n: Term| nodes_of(w).contains(n) <==> nodes_of(ts).contains(n) by {
        if nodes_of(w).contains(n) {
            let s = choose|s: Step| #[trigger] w.contains(s) && (s.0 == n || s.2 == n);
            if ts.contains(s) {
            } else if s.1 == Label::Tau && s.0 == s.2 && nodes_of(ts).contains(s.0) {
            } else if exists|p: Term| #[trigger]
                ts.contains((p, Label::Tau, s.2)) && ts.contains((s.0, s.1, p)) {
                let p = choose|p: Term| #[trigger]
                    ts.contains((p, Label::Tau, s.2)) && ts.contains((s.0, s.1, p));
                assert(ts.contains((p, Label::Tau, s.2)) && ts.contains((s.0, s.1, p)));
            } else {
                let q = choose|q: Term| #[trigger]
                    ts.contains((s.0, Label::Tau, q)) && ts.contains((q, s.1, s.2));
                assert(ts.contains((s.0, Label::Tau, q)) && ts.contains((q, s.1, s.2)));
            }
        }
        if nodes_of(ts).contains(n) {
            let s = choose|s: Step| #[trigger] ts.contains(s) && (s.0 == n || s.2 == n);
            assert(w.contains(s));
        }
    }
    assert(nodes_of(w) =~= nodes_of(ts));
}

/// Weakening a weakened system changes nothing exactly when the weakened
/// system is closed under its internal transitions. The closure is made in
/// one pass, so a chain of two internal transitions can leave it open.
pub proof fn lemma_weaken_idempotent(ts: Set<Step>)
    ensures
        weakened(weakened(ts)) == weakened(ts) <==> is_tau_closed(weakened(ts)),
{
    let m = weakened(ts);
    lemma_weakened_keeps_nodes(ts);
    lemma_weakened_keeps_nodes(m);
    if is_tau_closed(m) {
        assert forall|s: Step| weakened(m).contains(s) implies m.contains(s) by {
            if m.contains(s) {
            } else if s.1 == Label::Tau && s.0 == s.2 && nodes_of(m).contains(s.0) {
                assert(nodes_of(ts).contains(s.0));
            } else if exists|p: Term| #[trigger]
                m.contains((p, Label::Tau, s.2)) && m.contains((s.0, s.1, p)) {
                let p = choose|p: Term| #[trigger]
                    m.contains((p, Label::Tau, s.2)) && m.contains((s.0, s.1, p));
                assert(m.contains((s.0, s.1, p)) && m.contains((p, Label::Tau, s.2)));
            } else {
                let q = choose|q: Term| #[trigger]
                    m.contains((s.0, Label::Tau, q)) && m.contains((q, s.1, s.2));
                assert(m.contains((s.0, Label::Tau, q)) && m.contains((q, s.1, s.2)));
            }
        }
        assert(weakened(m) =~= m);
    }
    if weakened(m) == m {
        assert forall|x: Term, l: Label, p: Term, q: Term|
            #![trigger m.contains((x, l, p)), m.contains((p, Label::Tau, q))]
            m.contains((x, l, p)) && m.contains((p, Label::Tau, q)) implies m.contains(
            (x, l, q),
        ) by {
            let s = (x, l, q);
            assert(m.contains((p, Label::Tau, s.2)) && m.contains((s.0, s.1, p)));
            assert(weakened(m).contains(s));
        }
        assert forall|p: Term, q: Term, l: Label, y: Term|
            #![trigger m.contains((p, Label::Tau, q)), m.contains((q, l, y))]
            m.contains((p, Label::Tau, q)) && m.contains((q, l, y)) implies m.contains(
            (p, l, y),
        ) by {
            let s = (p, l, y);
            assert(m.contains((s.0, Label::Tau, q)) && m.contains((q, s.1, s.2)));
            assert(weakened(m).contains(s));
        }
    }
}

/// Weakening a weakened system changes nothing where the system has no
/// internal transition.
pub proof fn lemma_weaken_idempotent_without_internal_steps(ts: Set<Step>)
    requires
        forall|s: Step| #[trigger] ts.contains(s) ==> s.1 != Label::Tau,
    ensures
        weakened(weakened(ts)) == weakened(ts),
{
    let m = weakened(ts);
    assert forall|p: Term, q: Term| #[trigger] m.contains((p, Label::Tau, q)) implies p == q by {
        let s = (p, Label::Tau, q);
        if exists|x: Term| #[trigger] ts.contains((x, Label::Tau, s.2)) && ts.contains((s.0, s.1, x)) {
            let x = choose|x: Term| #[trigger]
                ts.contains((x, Label::Tau, s.2)) && ts.contains((s.0, s.1, x));
            assert(ts.contains((x, Label::Tau, s.2)));
        }
        if exists|y: Term| #[trigger] ts.contains((s.0, Label::Tau, y)) && ts.contains((y, s.1, s.2)) {
            let y = choose|y: Term| #[trigger]
                ts.contains((s.0, Label::Tau, y)) && ts.contains((y, s.1, s.2));
            assert(ts.contains((s.0, Label::Tau, y)));
        }
    }
    assert(is_tau_closed(m));
    lemma_weaken_idempotent(ts);
}

/// Flattening a flattened system changes nothing.
pub proof fn lemma_flattened_idempotent(ts: Set<Step>)
    ensures
        flattened(flattened(ts)) == flattened(ts),
{
    let f = flattened(ts);
    assert forall|s: Step| flattened(f).contains(s) <==> f.contains(s) by {
        if flattened(f).contains(s) {
            let m = choose|m: Step| #[trigger]
                f.contains(m) && s == (m.0.flatten(), m.1, m.2.flatten());
            let t = choose|t: Step| #[trigger]
                ts.contains(t) && m == (t.0.flatten(), t.1, t.2.flatten());
            crate::process::lemma_flatten_idempotent(t.0);
            crate::process::lemma_flatten_idempotent(t.2);
        }
        if f.contains(s) {
            let t = choose|t: Step| #[trigger]
                ts.contains(t) && s == (t.0.flatten(), t.1, t.2.flatten());
            crate::process::lemma_flatten_idempotent(t.0);
            crate::process::lemma_flatten_idempotent(t.2);
            assert(f.contains(s) && s == (s.0.flatten(), s.1, s.2.flatten()));
        }
    }
    assert(flattened(f) =~= f);
}


impl Clone for Lts {
    fn clone(&self) -> (r: Self)
        ensures
            r@ == self@,
    {
        self.copy()
    }
}

impl PartialEq for Lts {
    /// Two systems are equal when they hold the same transitions.
    fn eq(&self, other: &Self) -> (r: bool) {
        let n = self.len();
        let m = other.len();
        if n != m {
            return false;
        }
        let ts = self.transitions();
        let ghost ds = steps(ts@);
        let mut i: usize = 0;
        while i < ts.len()
            invariant
                i <= ts.len(),
                ds == steps(ts@),
                ds.to_set() == self@,
                forall|k: int| 0 <= k < i ==> other@.contains(#[trigger] ds[k]),
            decreases ts.len() - i,
        {
            assert(step_of(ts[i as int]) == ds[i as int]);
            if !other.contains(&ts[i]) {
                assert(ds.to_set().contains(ds[i as int]));
                return false;
            }
            i += 1;
        }
        proof {
            assert forall|s: Step| self@.contains(s) implies other@.contains(s) by {
                assert(ds.to_set().contains(s));
                let k = choose|k: int| 0 <= k < ds.len() && ds[k] == s;
                assert(other@.contains(ds[k]));
            }
            vstd::set_lib::lemma_subset_equality(self@, other@);
        }
        true
    }
}

impl vstd::std_specs::cmp::PartialEqSpecImpl for Lts {
    open spec fn obeys_eq_spec() -> bool {
        true
    }

    open spec fn eq_spec(&self, other: &Self) -> bool {
        self@ == other@
    }
}

} // verus!
