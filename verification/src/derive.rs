//! The operational semantics: the transitions of a process, and the labelled
//! transition system that a process spans in a context.
use vstd::prelude::*;

use crate::context::{Context, Definitions};
use crate::error::Error;
use crate::lts::{step_of, steps, Lts};
use crate::process::{
    clone_string_list, contains_name, replace_label, Channel, Label, Process, Step, Term,
    Transition,
};
use crate::table::names_view;

verus! {

impl Label {
    /// The label that synchronises with this one: the send for a receive on
    /// the same port and the other way round, the internal action for itself.
    pub open spec fn complement(self) -> Label {
        match self {
            Label::Send(n) => Label::Recv(n),
            Label::Recv(n) => Label::Send(n),
            Label::Tau => Label::Tau,
        }
    }
}

/// Two labels synchronise exactly when one is the complement of the other.
pub proof fn lemma_synched_is_complement(a: Label, b: Label)
    ensures
        a.is_synched_with(b) <==> b == a.complement(),
        a.is_synched_with(b) <==> a == b.complement(),
{
}

impl Term {
    /// Whether `self` has a transition labelled `b`, whatever its target.
    pub open spec fn offers(self, b: Label) -> bool
        decreases self,
    {
        match self {
            Term::Constant(_) => false,
            Term::Action(l, _) => b == l,
            Term::Sum(ps) => exists|i: int| 0 <= i < ps.len() && (#[trigger] ps[i]).offers(b),
            Term::Par(l, r) => {
                ||| b == Label::Tau && exists|a: Label|
                    l.offers(a) && r.offers(#[trigger] a.complement())
                ||| l.offers(b) && !r.offers(b.complement())
                ||| r.offers(b) && !l.offers(b.complement())
            },
            Term::Restriction(body, names) => !names.contains(b.name()) && body.offers(b),
            Term::Substitution(body, subs) => exists|a: Label|
                body.offers(a) && b == #[trigger] replace_label(subs, a),
        }
    }

    /// The transition relation: `self` performs `a` and becomes `q`.
    ///
    /// - A constant has no transition; constants are unfolded beforehand.
    /// - A prefix performs its label and becomes its body.
    /// - A sum has the transitions of its alternatives.
    /// - A restriction has the transitions of its body on ports that it does
    ///   not restrict, into the restricted target.
    /// - A substitution has the transitions of its body, relabelled, into the
    ///   substituted target.
    /// - A parallel composition performs the internal action where its sides
    ///   perform complementary labels, both sides moving. A transition of one
    ///   side is interleaved only where the other side offers no transition on
    ///   the complementary label.
    pub open spec fn step(self, a: Label, q: Term) -> bool
        decreases self,
    {
        match self {
            Term::Constant(_) => false,
            Term::Action(l, body) => a == l && q == *body,
            Term::Sum(ps) => exists|i: int| 0 <= i < ps.len() && (#[trigger] ps[i]).step(a, q),
            Term::Par(l, r) => {
                ||| {
                    &&& a == Label::Tau
                    &&& q matches Term::Par(l2, r2)
                    &&& exists|b: Label|
                        l.step(b, *l2) && r.step(#[trigger] b.complement(), *r2)
                }
                ||| {
                    &&& q matches Term::Par(l2, r2)
                    &&& *r2 == *r
                    &&& l.step(a, *l2)
                    &&& !r.offers(a.complement())
                }
                ||| {
                    &&& q matches Term::Par(l2, r2)
                    &&& *l2 == *l
                    &&& r.step(a, *r2)
                    &&& !l.offers(a.complement())
                }
            },
            Term::Restriction(body, names) => {
                &&& !names.contains(a.name())
                &&& q matches Term::Restriction(q0, ns)
                &&& ns == names
                &&& body.step(a, *q0)
            },
            Term::Substitution(body, subs) => {
                &&& q matches Term::Substitution(q0, s)
                &&& s == subs
                &&& exists|b: Label| body.step(b, *q0) && a == #[trigger] replace_label(subs, b)
            },
        }
    }

    /// The transitions that leave `self`.
    pub open spec fn derivatives(self) -> Set<Step> {
        Set::new(|s: Step| s.0 == self && self.step(s.1, s.2))
    }
}

/// The transitions of a restriction, from those of its body.
#[verifier::loop_isolation(false)]
fn restricted_steps(whole: &Process, body: &Process, chans: &Vec<String>, d: &Lts) -> (r: Lts)
    requires
        whole@ == Term::Restriction(Box::new(body@), names_view(chans@)),
        d@ == body@.derivatives(),
    ensures
        r@ == whole@.derivatives(),
{
    let ts = d.transitions();
    let ghost ds = steps(ts@);
    let ghost names = names_view(chans@);
    let mut out = Lts::empty();
    let mut j: usize = 0;
    while j < ts.len()
        invariant
            j <= ts.len(),
            ds == steps(ts@),
            names == names_view(chans@),
            whole@ == Term::Restriction(Box::new(body@), names),
            forall|s: Step|
                #![trigger out@.contains(s)]
                out@.contains(s) <==> exists|k: int|
                    0 <= k < j && !names.contains((#[trigger] ds[k]).1.name()) && s == (
                        whole@,
                        ds[k].1,
                        Term::Restriction(Box::new(ds[k].2), names),
                    ),
        decreases ts.len() - j,
    {
        let t = &ts[j];
        assert(step_of(*t) == ds[j as int]);
        if !contains_name(chans, t.1.name()) {
            let target = Process::Restriction(Box::new(t.2.clone()), clone_string_list(chans));
            out.insert((whole.clone(), t.1.clone(), target));
        }
        j += 1;
    }
    proof {
        assert forall|s: Step| out@.contains(s) <==> whole@.derivatives().contains(s) by {
            if out@.contains(s) {
                let k = choose|k: int|
                    0 <= k < j && !names.contains((#[trigger] ds[k]).1.name()) && s == (
                        whole@,
                        ds[k].1,
                        Term::Restriction(Box::new(ds[k].2), names),
                    );
                assert(ds.to_set().contains(ds[k]));
                assert(body@.derivatives().contains(ds[k]));
            }
            if whole@.derivatives().contains(s) {
                let q0 = *s.2->Restriction_0;
                let t = (body@, s.1, q0);
                assert(body@.derivatives().contains(t));
                assert(ds.to_set().contains(t));
                let k = choose|k: int| 0 <= k < ds.len() && ds[k] == t;
                assert(!names.contains(ds[k].1.name()));
            }
        }
        assert(out@ =~= whole@.derivatives());
    }
    out
}

/// The transitions of a substitution, from those of its body.
#[verifier::loop_isolation(false)]
fn substituted_steps(
    whole: &Process,
    body: &Process,
    subs: &crate::process::Substitution,
    d: &Lts,
) -> (r: Lts)
    requires
        whole@ == Term::Substitution(Box::new(body@), subs@),
        d@ == body@.derivatives(),
    ensures
        r@ == whole@.derivatives(),
{
    let ts = d.transitions();
    let ghost ds = steps(ts@);
    let mut out = Lts::empty();
    let mut j: usize = 0;
    while j < ts.len()
        invariant
            j <= ts.len(),
            ds == steps(ts@),
            forall|s: Step|
                #![trigger out@.contains(s)]
                out@.contains(s) <==> exists|k: int|
                    0 <= k < j && s == (
                        whole@,
                        replace_label(subs@, (#[trigger] ds[k]).1),
                        Term::Substitution(Box::new(ds[k].2), subs@),
                    ),
        decreases ts.len() - j,
    {
        let t = &ts[j];
        assert(step_of(*t) == ds[j as int]);
        let target = Process::Substitution(Box::new(t.2.clone()), subs.clone());
        out.insert((whole.clone(), subs.replace_channel(t.1.clone()), target));
        j += 1;
    }
    proof {
        assert forall|s: Step| out@.contains(s) <==> whole@.derivatives().contains(s) by {
            if out@.contains(s) {
                let k = choose|k: int|
                    0 <= k < j && s == (
                        whole@,
                        replace_label(subs@, (#[trigger] ds[k]).1),
                        Term::Substitution(Box::new(ds[k].2), subs@),
                    );
                assert(ds.to_set().contains(ds[k]));
                assert(body@.derivatives().contains(ds[k]));
                assert(body@.step(ds[k].1, ds[k].2));
            }
            if whole@.derivatives().contains(s) {
                let q0 = *s.2->Substitution_0;
                let a0 = choose|a0: Label|
                    body@.step(a0, q0) && s.1 == #[trigger] replace_label(subs@, a0);
                let t = (body@, a0, q0);
                assert(body@.derivatives().contains(t));
                assert(ds.to_set().contains(t));
                let k = choose|k: int| 0 <= k < ds.len() && ds[k] == t;
                assert(s == (
                    whole@,
                    replace_label(subs@, ds[k].1),
                    Term::Substitution(Box::new(ds[k].2), subs@),
                ));
            }
        }
        assert(out@ =~= whole@.derivatives());
    }
    out
}

/// Adds to `out` the transitions that a sum has from one alternative.
#[verifier::loop_isolation(false)]
fn add_alternative_steps(whole: &Process, d: &Lts, out: &mut Lts)
    ensures
        forall|s: Step|
            #![trigger final(out)@.contains(s)]
            final(out)@.contains(s) <==> old(out)@.contains(s) || exists|t: Step| #[trigger]
                d@.contains(t) && s == (whole@, t.1, t.2),
{
    let ts = d.transitions();
    let ghost ds = steps(ts@);
    let ghost base = out@;
    let mut j: usize = 0;
    while j < ts.len()
        invariant
            j <= ts.len(),
            ds == steps(ts@),
            forall|s: Step|
                #![trigger out@.contains(s)]
                out@.contains(s) <==> base.contains(s) || exists|k: int|
                    0 <= k < j && s == (whole@, (#[trigger] ds[k]).1, ds[k].2),
        decreases ts.len() - j,
    {
        let t = &ts[j];
        assert(step_of(*t) == ds[j as int]);
        out.insert((whole.clone(), t.1.clone(), t.2.clone()));
        j += 1;
    }
    proof {
        assert forall|s: Step|
            #![trigger out@.contains(s)]
            out@.contains(s) <==> base.contains(s) || exists|t: Step| #[trigger]
                d@.contains(t) && s == (whole@, t.1, t.2) by {
            if out@.contains(s) && !base.contains(s) {
                let k = choose|k: int| 0 <= k < j && s == (whole@, (#[trigger] ds[k]).1, ds[k].2);
                assert(ds.to_set().contains(ds[k]));
            }
            if exists|t: Step| #[trigger] d@.contains(t) && s == (whole@, t.1, t.2) {
                let t = choose|t: Step| #[trigger] d@.contains(t) && s == (whole@, t.1, t.2);
                assert(ds.to_set().contains(t));
                let k = choose|k: int| 0 <= k < ds.len() && ds[k] == t;
                assert(s == (whole@, ds[k].1, ds[k].2));
            }
        }
    }
}


/// A term that offers a label has a transition on it; the result is one target.
pub proof fn lemma_offers_has_target(p: Term, b: Label) -> (t: Term)
    requires
        p.offers(b),
    ensures
        p.step(b, t),
    decreases p,
{
    match p {
        Term::Constant(_) => p,
        Term::Action(_, body) => *body,
        Term::Sum(ps) => {
            let i = choose|i: int| 0 <= i < ps.len() && (#[trigger] ps[i]).offers(b);
            lemma_offers_has_target(ps[i], b)
        },
        Term::Par(l, r) => {
            if b == Label::Tau && exists|a: Label|
                l.offers(a) && r.offers(#[trigger] a.complement()) {
                let a = choose|a: Label| l.offers(a) && r.offers(#[trigger] a.complement());
                let tl = lemma_offers_has_target(*l, a);
                let tr = lemma_offers_has_target(*r, a.complement());
                let t = Term::Par(Box::new(tl), Box::new(tr));
                assert(l.step(a, tl) && r.step(a.complement(), tr));
                t
            } else if l.offers(b) && !r.offers(b.complement()) {
                let tl = lemma_offers_has_target(*l, b);
                Term::Par(Box::new(tl), r)
            } else {
                let tr = lemma_offers_has_target(*r, b);
                Term::Par(l, Box::new(tr))
            }
        },
        Term::Restriction(body, names) => {
            let t0 = lemma_offers_has_target(*body, b);
            Term::Restriction(Box::new(t0), names)
        },
        Term::Substitution(body, subs) => {
            let a = choose|a: Label| body.offers(a) && b == #[trigger] replace_label(subs, a);
            let t0 = lemma_offers_has_target(*body, a);
            assert(body.step(a, t0) && b == replace_label(subs, a));
            Term::Substitution(Box::new(t0), subs)
        },
    }
}

/// A term with a transition on a label offers that label.
pub proof fn lemma_step_offers(p: Term, b: Label, t: Term)
    requires
        p.step(b, t),
    ensures
        p.offers(b),
    decreases p,
{
    match p {
        Term::Constant(_) => {},
        Term::Action(_, _) => {},
        Term::Sum(ps) => {
            let i = choose|i: int| 0 <= i < ps.len() && (#[trigger] ps[i]).step(b, t);
            lemma_step_offers(ps[i], b, t);
        },
        Term::Par(l, r) => {
            let l2 = *t->Par_0;
            let r2 = *t->Par_1;
            if b == Label::Tau && exists|c: Label|
                l.step(c, l2) && r.step(#[trigger] c.complement(), r2) {
                let c = choose|c: Label| l.step(c, l2) && r.step(#[trigger] c.complement(), r2);
                lemma_step_offers(*l, c, l2);
                lemma_step_offers(*r, c.complement(), r2);
                assert(l.offers(c) && r.offers(c.complement()));
            } else if r2 == *r && l.step(b, l2) && !r.offers(b.complement()) {
                lemma_step_offers(*l, b, l2);
            } else {
                lemma_step_offers(*r, b, r2);
            }
        },
        Term::Restriction(body, _) => {
            lemma_step_offers(*body, b, *t->Restriction_0);
        },
        Term::Substitution(body, subs) => {
            let q0 = *t->Substitution_0;
            let c = choose|c: Label| body.step(c, q0) && b == #[trigger] replace_label(subs, c);
            lemma_step_offers(*body, c, q0);
            assert(body.offers(c) && b == replace_label(subs, c));
        },
    }
}

/// Whether a set of transitions holds one whose label synchronises with `a`.
pub open spec fn has_partner(d: Set<Step>, a: Label) -> bool {
    exists|t: Step| #[trigger] d.contains(t) && a.is_synched_with(t.1)
}

/// Whether the transitions `d` hold one whose label synchronises with `a`.
#[verifier::loop_isolation(false)]
fn partner_in(a: &Channel, d: &Lts) -> (r: bool)
    ensures
        r == has_partner(d@, a@),
{
    let ts = d.transitions();
    let ghost ds = steps(ts@);
    let mut j: usize = 0;
    while j < ts.len()
        invariant
            j <= ts.len(),
            forall|k: int| 0 <= k < j ==> !a@.is_synched_with((#[trigger] ds[k]).1),
        decreases ts.len() - j,
    {
        assert(step_of(ts[j as int]) == ds[j as int]);
        if a.is_synched_with(&ts[j].1) {
            assert(ds.to_set().contains(ds[j as int]));
            return true;
        }
        j += 1;
    }
    proof {
        if has_partner(d@, a@) {
            let t = choose|t: Step| #[trigger] d@.contains(t) && a@.is_synched_with(t.1);
            assert(ds.to_set().contains(t));
            let k = choose|k: int| 0 <= k < ds.len() && ds[k] == t;
            assert(!a@.is_synched_with(ds[k].1));
        }
    }
    false
}

/// The internal step that two synchronising transitions give rise to.
pub open spec fn sync_step(whole: Term, pt: Step, qt: Step) -> Step {
    (whole, Label::Tau, Term::Par(Box::new(pt.2), Box::new(qt.2)))
}

/// Adds to `out` the internal steps that `pt` makes with the transitions `d`
/// of the other side.
#[verifier::loop_isolation(false)]
fn add_sync_steps(whole: &Process, pt: &Transition, d: &Lts, out: &mut Lts)
    ensures
        forall|s: Step|
            #![trigger final(out)@.contains(s)]
            final(out)@.contains(s) <==> old(out)@.contains(s) || exists|qt: Step| #[trigger]
                d@.contains(qt) && pt.1@.is_synched_with(qt.1) && s == sync_step(
                    whole@,
                    step_of(*pt),
                    qt,
                ),
{
    let ts = d.transitions();
    let ghost ds = steps(ts@);
    let ghost base = out@;
    let mut j: usize = 0;
    while j < ts.len()
        invariant
            j <= ts.len(),
            forall|s: Step|
                #![trigger out@.contains(s)]
                out@.contains(s) <==> base.contains(s) || exists|k: int|
                    0 <= k < j && pt.1@.is_synched_with((#[trigger] ds[k]).1) && s == sync_step(
                        whole@,
                        step_of(*pt),
                        ds[k],
                    ),
        decreases ts.len() - j,
    {
        let t = &ts[j];
        assert(step_of(*t) == ds[j as int]);
        if pt.1.is_synched_with(&t.1) {
            let target = Process::Par(Box::new(pt.2.clone()), Box::new(t.2.clone()));
            out.insert((whole.clone(), Channel::Tau, target));
        }
        j += 1;
    }
    proof {
        assert forall|s: Step|
            #![trigger out@.contains(s)]
            out@.contains(s) <==> base.contains(s) || exists|qt: Step| #[trigger]
                d@.contains(qt) && pt.1@.is_synched_with(qt.1) && s == sync_step(
                    whole@,
                    step_of(*pt),
                    qt,
                ) by {
            if out@.contains(s) && !base.contains(s) {
                let k = choose|k: int|
                    0 <= k < j && pt.1@.is_synched_with((#[trigger] ds[k]).1) && s == sync_step(
                        whole@,
                        step_of(*pt),
                        ds[k],
                    );
                assert(ds.to_set().contains(ds[k]));
            }
            if exists|qt: Step| #[trigger]
                d@.contains(qt) && pt.1@.is_synched_with(qt.1) && s == sync_step(
                    whole@,
                    step_of(*pt),
                    qt,
                ) {
                let qt = choose|qt: Step| #[trigger]
                    d@.contains(qt) && pt.1@.is_synched_with(qt.1) && s == sync_step(
                        whole@,
                        step_of(*pt),
                        qt,
                    );
                assert(ds.to_set().contains(qt));
                let k = choose|k: int| 0 <= k < ds.len() && ds[k] == qt;
                assert(pt.1@.is_synched_with(ds[k].1));
            }
        }
    }
}

/// The step that a parallel composition has from a transition of one side
/// that is interleaved: the other side, `rest`, stays.
pub open spec fn interleaved_step(whole: Term, t: Step, rest: Term, left: bool) -> Step {
    if left {
        (whole, t.1, Term::Par(Box::new(t.2), Box::new(rest)))
    } else {
        (whole, t.1, Term::Par(Box::new(rest), Box::new(t.2)))
    }
}

/// Adds to `out` the interleaved steps of one side of a parallel composition:
/// those of the transitions `d` of that side that have no partner among the
/// transitions `other` of the other side, `rest`.
#[verifier::loop_isolation(false)]
fn add_interleaved_steps(
    whole: &Process,
    d: &Lts,
    other: &Lts,
    rest: &Process,
    left: bool,
    out: &mut Lts,
)
    ensures
        forall|s: Step|
            #![trigger final(out)@.contains(s)]
            final(out)@.contains(s) <==> old(out)@.contains(s) || exists|t: Step| #[trigger]
                d@.contains(t) && !has_partner(other@, t.1) && s == interleaved_step(
                    whole@,
                    t,
                    rest@,
                    left,
                ),
{
    let ts = d.transitions();
    let ghost ds = steps(ts@);
    let ghost base = out@;
    let mut j: usize = 0;
    while j < ts.len()
        invariant
            j <= ts.len(),
            forall|s: Step|
                #![trigger out@.contains(s)]
                out@.contains(s) <==> base.contains(s) || exists|k: int|
                    0 <= k < j && !has_partner(other@, (#[trigger] ds[k]).1) && s
                        == interleaved_step(whole@, ds[k], rest@, left),
        decreases ts.len() - j,
    {
        let t = &ts[j];
        assert(step_of(*t) == ds[j as int]);
        if !partner_in(&t.1, other) {
            let target = if left {
                Process::Par(Box::new(t.2.clone()), Box::new(rest.clone()))
            } else {
                Process::Par(Box::new(rest.clone()), Box::new(t.2.clone()))
            };
            out.insert((whole.clone(), t.1.clone(), target));
        }
        j += 1;
    }
    proof {
        assert forall|s: Step|
            #![trigger out@.contains(s)]
            out@.contains(s) <==> base.contains(s) || exists|t: Step| #[trigger]
                d@.contains(t) && !has_partner(other@, t.1) && s == interleaved_step(
                    whole@,
                    t,
                    rest@,
                    left,
                ) by {
            if out@.contains(s) && !base.contains(s) {
                let k = choose|k: int|
                    0 <= k < j && !has_partner(other@, (#[trigger] ds[k]).1) && s
                        == interleaved_step(whole@, ds[k], rest@, left);
                assert(ds.to_set().contains(ds[k]));
            }
            if exists|t: Step| #[trigger]
                d@.contains(t) && !has_partner(other@, t.1) && s == interleaved_step(
                    whole@,
                    t,
                    rest@,
                    left,
                ) {
                let t = choose|t: Step| #[trigger]
                    d@.contains(t) && !has_partner(other@, t.1) && s == interleaved_step(
                        whole@,
                        t,
                        rest@,
                        left,
                    );
                assert(ds.to_set().contains(t));
                let k = choose|k: int| 0 <= k < ds.len() && ds[k] == t;
                assert(!has_partner(other@, ds[k].1));
            }
        }
    }
}

/// A side of a parallel composition has a partner for a label among its
/// transitions exactly when it offers the complementary label.
proof fn lemma_partner_is_offer(r: Term, a: Label)
    ensures
        has_partner(r.derivatives(), a) <==> r.offers(a.complement()),
{
    if has_partner(r.derivatives(), a) {
        let t = choose|t: Step| #[trigger] r.derivatives().contains(t) && a.is_synched_with(t.1);
        lemma_step_offers(r, t.1, t.2);
    }
    if r.offers(a.complement()) {
        let t = lemma_offers_has_target(r, a.complement());
        assert(r.derivatives().contains((r, a.complement(), t)));
    }
}

/// The transitions of a parallel composition, from those of its sides.
#[verifier::loop_isolation(false)]
fn parallel_steps(whole: &Process, l: &Process, r: &Process, pd: &Lts, qd: &Lts) -> (out: Lts)
    requires
        whole@ == Term::Par(Box::new(l@), Box::new(r@)),
        pd@ == l@.derivatives(),
        qd@ == r@.derivatives(),
    ensures
        out@ == whole@.derivatives(),
{
    let ts = pd.transitions();
    let ghost ds = steps(ts@);
    let mut out = Lts::empty();
    let mut i: usize = 0;
    while i < ts.len()
        invariant
            i <= ts.len(),
            forall|s: Step|
                #![trigger out@.contains(s)]
                out@.contains(s) <==> exists|k: int, qt: Step|
                    #![trigger ds[k], qd@.contains(qt)]
                    0 <= k < i && qd@.contains(qt) && ds[k].1.is_synched_with(qt.1) && s
                        == sync_step(whole@, ds[k], qt),
        decreases ts.len() - i,
    {
        assert(step_of(ts[i as int]) == ds[i as int]);
        add_sync_steps(whole, &ts[i], qd, &mut out);
        i += 1;
    }
    let ghost synced = out@;
    add_interleaved_steps(whole, pd, qd, r, true, &mut out);
    let ghost lefts = out@;
    add_interleaved_steps(whole, qd, pd, l, false, &mut out);
    proof {
        assert forall|s: Step| out@.contains(s) <==> whole@.derivatives().contains(s) by {
            if synced.contains(s) {
                let (k, qt) = choose|k: int, qt: Step|
                    #![trigger ds[k], qd@.contains(qt)]
                    0 <= k < i && qd@.contains(qt) && ds[k].1.is_synched_with(qt.1) && s
                        == sync_step(whole@, ds[k], qt);
                assert(ds.to_set().contains(ds[k]));
                lemma_synched_is_complement(ds[k].1, qt.1);
                assert(l@.step(ds[k].1, ds[k].2) && r@.step(ds[k].1.complement(), qt.2));
            } else if lefts.contains(s) {
                let t = choose|t: Step| #[trigger]
                    pd@.contains(t) && !has_partner(qd@, t.1) && s == interleaved_step(
                        whole@,
                        t,
                        r@,
                        true,
                    );
                lemma_partner_is_offer(r@, t.1);
            } else if out@.contains(s) {
                let t = choose|t: Step| #[trigger]
                    qd@.contains(t) && !has_partner(pd@, t.1) && s == interleaved_step(
                        whole@,
                        t,
                        l@,
                        false,
                    );
                lemma_partner_is_offer(l@, t.1);
            }
            if whole@.derivatives().contains(s) {
                let a = s.1;
                let l2 = *s.2->Par_0;
                let r2 = *s.2->Par_1;
                if a == Label::Tau && exists|b: Label|
                    l@.step(b, l2) && r@.step(#[trigger] b.complement(), r2) {
                    let b = choose|b: Label| l@.step(b, l2) && r@.step(#[trigger] b.complement(), r2);
                    let pt = (l@, b, l2);
                    let qt = (r@, b.complement(), r2);
                    assert(pd@.contains(pt));
                    assert(qd@.contains(qt));
                    assert(ds.to_set().contains(pt));
                    let k = choose|k: int| 0 <= k < ds.len() && ds[k] == pt;
                    lemma_synched_is_complement(b, b.complement());
                    assert(s == sync_step(whole@, ds[k], qt));
                    assert(synced.contains(s));
                } else if r2 == r@ && l@.step(a, l2) && !r@.offers(a.complement()) {
                    let pt = (l@, a, l2);
                    assert(pd@.contains(pt));
                    lemma_partner_is_offer(r@, a);
                    assert(s == interleaved_step(whole@, pt, r@, true));
                    assert(lefts.contains(s));
                } else {
                    let qt = (r@, a, r2);
                    assert(qd@.contains(qt));
                    lemma_partner_is_offer(l@, a);
                    assert(s == interleaved_step(whole@, qt, l@, false));
                }
            }
        }
        assert(out@ =~= whole@.derivatives());
    }
    out
}

impl Process {
    /// The transitions that leave the process; see [`Term::step`].
    #[verifier::loop_isolation(false)]
    pub fn derive(&self) -> (r: Lts)
        ensures
            r@ == self@.derivatives(),
        decreases self,
    {
        match self {
            Process::Constant(_) => {
                let out = Lts::empty();
                assert(out@ =~= self@.derivatives());
                out
            },
            Process::Action(a, p) => {
                let mut out = Lts::empty();
                out.insert((self.clone(), a.clone(), (**p).clone()));
                assert(out@ =~= self@.derivatives());
                out
            },
            Process::Restriction(p, chans) => {
                let d = (**p).derive();
                restricted_steps(self, &**p, chans, &d)
            },
            Process::Substitution(p, subs) => {
                let d = (**p).derive();
                substituted_steps(self, &**p, subs, &d)
            },
            Process::Sum(ps) => {
                proof {
                    crate::process::lemma_sum_view(*ps);
                }
                let mut out = Lts::empty();
                let mut i: usize = 0;
                while i < ps.len()
                    invariant
                        i <= ps.len(),
                        forall|s: Step|
                            #![trigger out@.contains(s)]
                            out@.contains(s) <==> s.0 == self@ && exists|k: int|
                                0 <= k < i && (#[trigger] ps[k])@.step(s.1, s.2),
                    decreases ps.len() - i,
                {
                    let d = ps[i].derive();
                    let ghost before = out@;
                    add_alternative_steps(self, &d, &mut out);
                    proof {
                        assert forall|s: Step|
                            #![trigger out@.contains(s)]
                            out@.contains(s) <==> s.0 == self@ && exists|k: int|
                                0 <= k < i + 1 && (#[trigger] ps[k])@.step(s.1, s.2) by {
                            if out@.contains(s) && !before.contains(s) {
                                let t = choose|t: Step| #[trigger]
                                    d@.contains(t) && s == (self@, t.1, t.2);
                                assert(ps[i as int]@.step(s.1, s.2));
                            }
                            if s.0 == self@ && ps[i as int]@.step(s.1, s.2) {
                                assert(d@.contains((ps[i as int]@, s.1, s.2)));
                            }
                        }
                    }
                    i += 1;
                }
                proof {
                    let children = self@->Sum_0;
                    assert(children == crate::process::terms(ps@));
                    assert forall|s: Step| out@.contains(s) <==> self@.derivatives().contains(s) by {
                        if out@.contains(s) {
                            let k = choose|k: int|
                                0 <= k < i && (#[trigger] ps[k])@.step(s.1, s.2);
                            assert(children[k].step(s.1, s.2));
                        }
                        if self@.derivatives().contains(s) {
                            let k = choose|k: int|
                                0 <= k < children.len() && (#[trigger] children[k]).step(s.1, s.2);
                            assert(ps[k]@.step(s.1, s.2));
                        }
                    }
                    assert(out@ =~= self@.derivatives());
                }
                out
            },
            Process::Par(p, q) => {
                let pd = (**p).derive();
                let qd = (**q).derive();
                parallel_steps(self, &**p, &**q, &pd, &qd)
            },
        }
    }
}


/// No transition of a restriction is on a restricted port.
pub proof fn lemma_restriction_hides(p: Term, names: Seq<Seq<char>>, a: Label, q: Term)
    requires
        Term::Restriction(Box::new(p), names).step(a, q),
    ensures
        !names.contains(a.name()),
        q matches Term::Restriction(q0, ns) && ns == names && p.step(a, *q0),
{
}

/// Where the two sides of a parallel composition have transitions whose labels
/// synchronise, the composition performs the internal action and both sides
/// move.
pub proof fn lemma_parallel_synchronises(
    l: Term,
    r: Term,
    a1: Label,
    l2: Term,
    a2: Label,
    r2: Term,
)
    requires
        l.step(a1, l2),
        r.step(a2, r2),
        a1.is_synched_with(a2),
    ensures
        Term::Par(Box::new(l), Box::new(r)).step(
            Label::Tau,
            Term::Par(Box::new(l2), Box::new(r2)),
        ),
{
    lemma_synched_is_complement(a1, a2);
    assert(l.step(a1, l2) && r.step(a1.complement(), r2));
}

/// A transition of one side that has a partner on the other side is not
/// interleaved: the composition moves on its label, if at all, by the other
/// side alone. (On the internal action it may still move by synchronising.)
pub proof fn lemma_synchronising_step_is_consumed(l: Term, r: Term, a: Label, b: Label, r2: Term, q: Term)
    requires
        a != Label::Tau,
        r.step(b, r2),
        a.is_synched_with(b),
        Term::Par(Box::new(l), Box::new(r)).step(a, q),
    ensures
        q matches Term::Par(l3, r3) && *l3 == l && r.step(a, *r3),
{
    lemma_synched_is_complement(a, b);
    lemma_step_offers(r, b, r2);
}

impl Term {
    /// The number of constructors of a term.
    pub open spec fn size(self) -> nat
        decreases self, 0nat,
    {
        match self {
            Term::Constant(_) => 1,
            Term::Action(_, p) => 1 + p.size(),
            Term::Sum(ps) => 1 + Term::total_size(ps),
            Term::Par(p, q) => 1 + p.size() + q.size(),
            Term::Substitution(p, _) => 1 + p.size(),
            Term::Restriction(p, _) => 1 + p.size(),
        }
    }

    /// The sizes of the terms of a list, added up.
    pub open spec fn total_size(ps: Seq<Term>) -> nat
        decreases ps, 1nat,
    {
        if ps.len() == 0 {
            0
        } else {
            Term::total_size(ps.drop_last()) + ps.last().size()
        }
    }

    /// Whether `target` is reached from `self` by exactly `n` transitions.
    pub open spec fn reaches_in(self, target: Term, n: nat) -> bool
        decreases n,
    {
        if n == 0 {
            target == self
        } else {
            exists|a: Label, q: Term| #[trigger]
                self.step(a, q) && q.reaches_in(target, (n - 1) as nat)
        }
    }

    /// Whether `target` is reached from `self` by some number of transitions.
    pub open spec fn reaches(self, target: Term) -> bool {
        exists|n: nat| self.reaches_in(target, n)
    }

    /// The transitions that `self` spans: those that leave a term reached from
    /// `self`. It is the least set that holds the transitions of `self` and,
    /// with each transition, those of its target.
    pub open spec fn span(self) -> Set<Step> {
        Set::new(|s: Step| self.reaches(s.0) && s.0.step(s.1, s.2))
    }
}

proof fn lemma_part_size(ps: Seq<Term>, i: int)
    requires
        0 <= i < ps.len(),
    ensures
        ps[i].size() <= Term::total_size(ps),
    decreases ps.len(),
{
    if i < ps.len() - 1 {
        lemma_part_size(ps.drop_last(), i);
    }
}

/// A transition leads to a smaller term: every run of a term ends.
pub proof fn lemma_step_shrinks(p: Term, a: Label, q: Term)
    requires
        p.step(a, q),
    ensures
        q.size() < p.size(),
    decreases p,
{
    match p {
        Term::Constant(_) => {},
        Term::Action(_, _) => {},
        Term::Sum(ps) => {
            let i = choose|i: int| 0 <= i < ps.len() && (#[trigger] ps[i]).step(a, q);
            lemma_step_shrinks(ps[i], a, q);
            lemma_part_size(ps, i);
        },
        Term::Par(l, r) => {
            let l2 = *q->Par_0;
            let r2 = *q->Par_1;
            if a == Label::Tau && exists|b: Label|
                l.step(b, l2) && r.step(#[trigger] b.complement(), r2) {
                let b = choose|b: Label| l.step(b, l2) && r.step(#[trigger] b.complement(), r2);
                lemma_step_shrinks(*l, b, l2);
                lemma_step_shrinks(*r, b.complement(), r2);
            } else if r2 == *r && l.step(a, l2) && !r.offers(a.complement()) {
                lemma_step_shrinks(*l, a, l2);
            } else {
                lemma_step_shrinks(*r, a, r2);
            }
        },
        Term::Restriction(body, _) => {
            lemma_step_shrinks(*body, a, *q->Restriction_0);
        },
        Term::Substitution(body, subs) => {
            let q0 = *q->Substitution_0;
            let b = choose|b: Label| body.step(b, q0) && a == #[trigger] replace_label(subs, b);
            lemma_step_shrinks(*body, b, q0);
        },
    }
}

/// The span of a term is made of its own transitions and of the spans of
/// their targets.
pub proof fn lemma_span_unfolds(p: Term, s: Step)
    ensures
        p.span().contains(s) <==> p.derivatives().contains(s) || exists|t: Step| #[trigger]
            p.derivatives().contains(t) && t.2.span().contains(s),
{
    if p.span().contains(s) {
        let n = choose|n: nat| p.reaches_in(s.0, n);
        if n > 0 {
            let (a, q) = choose|a: Label, q: Term| #[trigger]
                p.step(a, q) && q.reaches_in(s.0, (n - 1) as nat);
            assert(q.reaches(s.0));
            assert(p.derivatives().contains((p, a, q)));
        }
    }
    if p.derivatives().contains(s) {
        assert(p.reaches_in(s.0, 0));
    }
    if exists|t: Step| #[trigger] p.derivatives().contains(t) && t.2.span().contains(s) {
        let t = choose|t: Step| #[trigger] p.derivatives().contains(t) && t.2.span().contains(s);
        let n = choose|n: nat| t.2.reaches_in(s.0, n);
        assert(p.step(t.1, t.2) && t.2.reaches_in(s.0, n));
        assert(p.reaches_in(s.0, n + 1));
    }
}


/// The term shown for `x` in a system derived from `seed`: the seed stands for
/// its own unfolding, `root`.
pub open spec fn reseat(x: Term, root: Term, seed: Term) -> Term {
    if x == root {
        seed
    } else {
        x
    }
}

/// The transitions as a derived system shows them: the seed in place of its
/// unfolding, and both ends folded into the constants of `defs`.
pub open spec fn presented(ts: Set<Step>, root: Term, seed: Term, defs: Definitions) -> Set<Step> {
    Set::new(
        |s: Step|
            exists|t: Step| #[trigger]
                ts.contains(t) && s == (
                    reseat(t.0, root, seed).fold(defs),
                    t.1,
                    reseat(t.2, root, seed).fold(defs),
                ),
    )
}

impl Term {
    /// The transition system of a seed in a context: what the unfolded seed
    /// spans, as [`presented`] shows it. It fails where unfolding fails.
    pub open spec fn derive_lts(self, defs: Definitions) -> Result<Set<Step>, Error> {
        match self.unfold_consts(defs) {
            Ok(root) => Ok(presented(root.span(), root, self, defs)),
            Err(e) => Err(e),
        }
    }
}

fn is_done(done: &Vec<Process>, p: &Process) -> (r: bool)
    ensures
        r == exists|k: int| 0 <= k < done.len() && (#[trigger] done[k])@ == p@,
{
    let mut i: usize = 0;
    while i < done.len()
        invariant
            i <= done.len(),
            forall|k: int| 0 <= k < i ==> (#[trigger] done[k])@ != p@,
        decreases done.len() - i,
    {
        if done[i] == *p {
            return true;
        }
        i += 1;
    }
    false
}

/// Adds to `acc` the transitions that `p` spans. `done` holds the terms whose
/// span is in `acc` already.
#[verifier::loop_isolation(false)]
fn explore(p: &Process, acc: &mut Lts, done: &mut Vec<Process>)
    requires
        forall|k: int|
            0 <= k < old(done).len() ==> (#[trigger] old(done)[k])@.span().subset_of(old(acc)@),
    ensures
        final(acc)@ == old(acc)@.union(p@.span()),
        forall|k: int|
            0 <= k < final(done).len() ==> (#[trigger] final(done)[k])@.span().subset_of(
                final(acc)@,
            ),
    decreases p@.size(),
{
    let ghost acc0 = acc@;
    if is_done(done, p) {
        assert(acc@ =~= acc0.union(p@.span()));
        return ;
    }
    let d = p.derive();
    let ts = d.transitions();
    let ghost ds = steps(ts@);
    let mut j: usize = 0;
    while j < ts.len()
        invariant
            j <= ts.len(),
            forall|s: Step|
                #![trigger acc@.contains(s)]
                acc@.contains(s) <==> acc0.contains(s) || exists|k: int|
                    0 <= k < j && (s == #[trigger] ds[k] || ds[k].2.span().contains(s)),
            forall|k: int| 0 <= k < done.len() ==> (#[trigger] done[k])@.span().subset_of(acc@),
        decreases ts.len() - j,
    {
        let t = &ts[j];
        assert(step_of(*t) == ds[j as int]);
        proof {
            assert(ds.to_set().contains(ds[j as int]));
            lemma_step_shrinks(p@, ds[j as int].1, ds[j as int].2);
        }
        let ghost before = acc@;
        acc.insert((t.0.clone(), t.1.clone(), t.2.clone()));
        explore(&t.2, acc, done);
        j += 1;
    }
    proof {
        assert forall|s: Step| acc@.contains(s) <==> acc0.union(p@.span()).contains(s) by {
            lemma_span_unfolds(p@, s);
            if acc@.contains(s) && !acc0.contains(s) {
                let k = choose|k: int|
                    0 <= k < j && (s == #[trigger] ds[k] || ds[k].2.span().contains(s));
                assert(ds.to_set().contains(ds[k]));
            }
            if p@.span().contains(s) {
                if p@.derivatives().contains(s) {
                    assert(ds.to_set().contains(s));
                    let k = choose|k: int| 0 <= k < ds.len() && ds[k] == s;
                    assert(s == ds[k]);
                } else {
                    let t = choose|t: Step| #[trigger]
                        p@.derivatives().contains(t) && t.2.span().contains(s);
                    assert(ds.to_set().contains(t));
                    let k = choose|k: int| 0 <= k < ds.len() && ds[k] == t;
                    assert(ds[k].2.span().contains(s));
                }
            }
        }
        assert(acc@ =~= acc0.union(p@.span()));
    }
    done.push(p.clone());
}

impl Process {
    /// The transition system of the process in a context; see
    /// [`Term::derive_lts`].
    #[verifier::loop_isolation(false)]
    pub fn derive_lts(self, ctx: &Context) -> (r: Result<Lts, Error>)
        ensures
            match r {
                Ok(lts) => self@.derive_lts(ctx@) == Ok::<Set<Step>, Error>(lts@),
                Err(e) => self@.derive_lts(ctx@) == Err::<Set<Step>, Error>(e),
            },
    {
        let root = match self.clone().unfold_consts(ctx) {
            Ok(u) => u,
            Err(e) => {
                return Err(e);
            },
        };
        let mut acc = Lts::empty();
        let mut done: Vec<Process> = Vec::new();
        explore(&root, &mut acc, &mut done);
        assert(acc@ =~= root@.span());
        let ts = acc.transitions();
        let ghost ds = steps(ts@);
        let mut seated = Lts::empty();
        let mut i: usize = 0;
        while i < ts.len()
            invariant
                i <= ts.len(),
                forall|s: Step|
                    #![trigger seated@.contains(s)]
                    seated@.contains(s) <==> exists|k: int|
                        0 <= k < i && s == (
                            reseat((#[trigger] ds[k]).0, root@, self@),
                            ds[k].1,
                            reseat(ds[k].2, root@, self@),
                        ),
            decreases ts.len() - i,
        {
            let t = &ts[i];
            assert(step_of(*t) == ds[i as int]);
            let a = if t.0 == root {
                self.clone()
            } else {
                t.0.clone()
            };
            let c = if t.2 == root {
                self.clone()
            } else {
                t.2.clone()
            };
            seated.insert((a, t.1.clone(), c));
            i += 1;
        }
        let ghost mid = seated@;
        let out = seated.symbolic(ctx);
        proof {
            let goal = presented(root@.span(), root@, self@, ctx@);
            assert forall|s: Step| out@.contains(s) <==> goal.contains(s) by {
                if out@.contains(s) {
                    let m = choose|m: Step| #[trigger]
                        mid.contains(m) && s == (m.0.fold(ctx@), m.1, m.2.fold(ctx@));
                    let k = choose|k: int|
                        0 <= k < i && m == (
                            reseat((#[trigger] ds[k]).0, root@, self@),
                            ds[k].1,
                            reseat(ds[k].2, root@, self@),
                        );
                    assert(ds.to_set().contains(ds[k]));
                }
                if goal.contains(s) {
                    let t = choose|t: Step| #[trigger]
                        root@.span().contains(t) && s == (
                            reseat(t.0, root@, self@).fold(ctx@),
                            t.1,
                            reseat(t.2, root@, self@).fold(ctx@),
                        );
                    assert(ds.to_set().contains(t));
                    let k = choose|k: int| 0 <= k < ds.len() && ds[k] == t;
                    let m = (reseat(ds[k].0, root@, self@), ds[k].1, reseat(ds[k].2, root@, self@));
                    assert(mid.contains(m));
                }
            }
            assert(out@ =~= goal);
        }
        Ok(out)
    }
}

} // verus!
