//! What holds of unfolding: in definitions that are not recursive, unfolding
//! leaves no constant behind, and no state that is then reached holds one.
use vstd::prelude::*;

use crate::context::Definitions;
use crate::process::{lemma_unseen_decreases, replace_label, unseen, Label, Step, Term};

verus! {

impl Term {
    /// Whether the term refers to the constant `name`.
    pub open spec fn mentions(self, name: Seq<char>) -> bool
        decreases self,
    {
        match self {
            Term::Constant(k) => k == name,
            Term::Action(_, p) => p.mentions(name),
            Term::Sum(ps) => exists|i: int| 0 <= i < ps.len() && (#[trigger] ps[i]).mentions(name),
            Term::Par(p, q) => p.mentions(name) || q.mentions(name),
            Term::Substitution(p, _) => p.mentions(name),
            Term::Restriction(p, _) => p.mentions(name),
        }
    }
}

/// Every constant that `t` refers to is bound in `defs` or is being compiled.
pub open spec fn resolves(defs: Definitions, seen: Seq<Seq<char>>, t: Term) -> bool {
    forall|n: Seq<char>| #[trigger] t.mentions(n) ==> defs.names.contains(n) || seen.contains(n)
}

/// Flattening a term adds no reference to a constant.
pub proof fn lemma_flatten_mentions(t: Term, n: Seq<char>)
    requires
        t.flatten().mentions(n),
    ensures
        t.mentions(n),
    decreases t, 0nat,
{
    match t {
        Term::Constant(_) => {},
        Term::Action(_, p) => {
            lemma_flatten_mentions(*p, n);
        },
        Term::Sum(ps) => {
            let fs = Term::flatten_alternatives(ps);
            if fs.len() == 1 {
                lemma_alternatives_mention(ps, 0, n);
            } else {
                let i = choose|i: int| 0 <= i < fs.len() && (#[trigger] fs[i]).mentions(n);
                lemma_alternatives_mention(ps, i, n);
            }
        },
        Term::Par(p, q) => {
            let fp = p.flatten();
            let fq = q.flatten();
            if fp.is_nil() && fq.is_nil() {
                assert(!Term::nil().mentions(n));
            } else if fp.is_nil() {
                lemma_flatten_mentions(*q, n);
            } else if fq.is_nil() {
                lemma_flatten_mentions(*p, n);
            } else {
                if fp.mentions(n) {
                    lemma_flatten_mentions(*p, n);
                } else {
                    lemma_flatten_mentions(*q, n);
                }
            }
        },
        Term::Substitution(p, _) => {
            lemma_flatten_mentions(*p, n);
        },
        Term::Restriction(p, _) => {
            lemma_flatten_mentions(*p, n);
        },
    }
}

proof fn lemma_alternatives_mention(ps: Seq<Term>, i: int, n: Seq<char>)
    requires
        0 <= i < Term::flatten_alternatives(ps).len(),
        Term::flatten_alternatives(ps)[i].mentions(n),
    ensures
        exists|k: int| 0 <= k < ps.len() && (#[trigger] ps[k]).mentions(n),
    decreases ps, 1nat,
{
    let init = Term::flatten_alternatives(ps.drop_last());
    let last = ps.last().flatten();
    if i < init.len() {
        lemma_alternatives_mention(ps.drop_last(), i, n);
        let k = choose|k: int|
            0 <= k < ps.drop_last().len() && (#[trigger] ps.drop_last()[k]).mentions(n);
        assert(ps[k].mentions(n));
    } else {
        lemma_flatten_mentions(ps.last(), n);
        assert(ps[ps.len() - 1].mentions(n));
    }
}


/// Whatever the definitions, unfolding leaves no constant behind but those
/// that were being unfolded when it started and those that the definitions
/// bind: what is left of a recursive definition is a reference back to it.
pub proof fn lemma_unfold_leaves_guarded(
    t: Term,
    defs: Definitions,
    seen: Seq<Seq<char>>,
    n: Seq<char>,
)
    requires
        t.unfold(defs, seen) matches Ok(u) && u.mentions(n),
    ensures
        seen.contains(n) || defs.names.contains(n),
    decreases unseen(defs.names, seen), t, 0nat,
{
    let u = t.unfold(defs, seen)->Ok_0;
    match t {
        Term::Constant(name) => {
            if !seen.contains(name) {
                defs.names.index_of_first_ensures(name);
                let body = defs.lookup(name)->Some_0;
                lemma_unseen_decreases(defs.names, seen, name);
                lemma_unfold_leaves_guarded(body, defs, seen.push(name), n);
                if seen.push(name).contains(n) && !seen.contains(n) {
                    let k = choose|k: int| 0 <= k < seen.push(name).len() && seen.push(name)[k] == n;
                    assert(n == name);
                }
            }
        },
        Term::Action(_, p) => {
            lemma_unfold_leaves_guarded(*p, defs, seen, n);
        },
        Term::Sum(ps) => {
            let us = Term::unfold_all(ps, defs, seen)->Ok_0;
            let i = choose|i: int| 0 <= i < us.len() && (#[trigger] us[i]).mentions(n);
            lemma_unfold_all_leaves_guarded(ps, defs, seen, i, n);
        },
        Term::Par(p, q) => {
            if p.unfold(defs, seen)->Ok_0.mentions(n) {
                lemma_unfold_leaves_guarded(*p, defs, seen, n);
            } else {
                lemma_unfold_leaves_guarded(*q, defs, seen, n);
            }
        },
        Term::Substitution(p, _) => {
            lemma_unfold_leaves_guarded(*p, defs, seen, n);
        },
        Term::Restriction(p, _) => {
            lemma_unfold_leaves_guarded(*p, defs, seen, n);
        },
    }
}

proof fn lemma_unfold_all_leaves_guarded(
    ps: Seq<Term>,
    defs: Definitions,
    seen: Seq<Seq<char>>,
    i: int,
    n: Seq<char>,
)
    requires
        Term::unfold_all(ps, defs, seen) matches Ok(us) && 0 <= i < us.len() && us[i].mentions(n),
    ensures
        seen.contains(n) || defs.names.contains(n),
    decreases unseen(defs.names, seen), ps, 1nat,
{
    let init = Term::unfold_all(ps.drop_last(), defs, seen)->Ok_0;
    if i < init.len() {
        lemma_unfold_all_leaves_guarded(ps.drop_last(), defs, seen, i, n);
    } else {
        lemma_unfold_leaves_guarded(ps.last(), defs, seen, n);
    }
}

/// The definitions are ranked by `rank`: every constant that a body refers to
/// is bound and ranks below the constant of that body. Ranked definitions are
/// not recursive.
pub open spec fn ranked(defs: Definitions, rank: spec_fn(Seq<char>) -> nat) -> bool {
    &&& defs.wf()
    &&& forall|i: int, m: Seq<char>|
        0 <= i < defs.bodies.len() && (#[trigger] defs.bodies[i]).mentions(m)
            ==> defs.names.contains(m) && #[trigger] rank(m) < rank(defs.names[i])
}

/// Every constant that `t` refers to is bound and ranks below all that is
/// being unfolded.
pub open spec fn below(
    t: Term,
    defs: Definitions,
    seen: Seq<Seq<char>>,
    rank: spec_fn(Seq<char>) -> nat,
) -> bool {
    forall|m: Seq<char>| #[trigger]
        t.mentions(m) ==> defs.names.contains(m) && forall|k: int|
            0 <= k < seen.len() ==> rank(m) < rank(#[trigger] seen[k])
}

/// A term that refers to no constant.
pub open spec fn unfolded(t: Term) -> bool {
    forall|n: Seq<char>| !#[trigger] t.mentions(n)
}

/// In ranked definitions unfolding is complete: it succeeds and leaves no
/// constant behind.
pub proof fn lemma_unfold_complete(
    t: Term,
    defs: Definitions,
    seen: Seq<Seq<char>>,
    rank: spec_fn(Seq<char>) -> nat,
)
    requires
        ranked(defs, rank),
        below(t, defs, seen, rank),
    ensures
        t.unfold(defs, seen) matches Ok(u) && unfolded(u),
    decreases unseen(defs.names, seen), t, 0nat,
{
    match t {
        Term::Constant(name) => {
            assert(t.mentions(name));
            defs.names.index_of_first_ensures(name);
            if seen.contains(name) {
                let k = choose|k: int| 0 <= k < seen.len() && seen[k] == name;
                assert(rank(name) < rank(seen[k]));
            }
            let i = defs.names.index_of_first(name)->Some_0;
            let body = defs.bodies[i];
            lemma_unseen_decreases(defs.names, seen, name);
            assert forall|m: Seq<char>| #[trigger] body.mentions(m) implies defs.names.contains(m)
                && forall|k: int|
                0 <= k < seen.push(name).len() ==> rank(m) < rank(#[trigger] seen.push(name)[k]) by {
                assert(rank(m) < rank(defs.names[i]));
                assert forall|k: int| 0 <= k < seen.push(name).len() implies rank(m) < rank(
                    #[trigger] seen.push(name)[k],
                ) by {
                    if k < seen.len() {
                        assert(rank(name) < rank(seen[k]));
                    }
                }
            }
            lemma_unfold_complete(body, defs, seen.push(name), rank);
        },
        Term::Action(l, p) => {
            assert forall|m: Seq<char>| #[trigger] p.mentions(m) implies t.mentions(m) by {}
            lemma_unfold_complete(*p, defs, seen, rank);
            let v = p.unfold(defs, seen)->Ok_0;
            assert forall|n: Seq<char>| !#[trigger] Term::Action(l, Box::new(v)).mentions(n) by {
                assert(!v.mentions(n));
            }
        },
        Term::Sum(ps) => {
            assert forall|i: int| 0 <= i < ps.len() implies below(
                #[trigger] ps[i],
                defs,
                seen,
                rank,
            ) by {
                assert forall|m: Seq<char>| #[trigger] ps[i].mentions(m) implies t.mentions(m) by {}
            }
            lemma_unfold_all_complete(ps, defs, seen, rank);
            let us = Term::unfold_all(ps, defs, seen)->Ok_0;
            assert forall|n: Seq<char>| !#[trigger] Term::Sum(us).mentions(n) by {
                if Term::Sum(us).mentions(n) {
                    let i = choose|i: int| 0 <= i < us.len() && (#[trigger] us[i]).mentions(n);
                    assert(unfolded(us[i]));
                }
            }
        },
        Term::Par(p, q) => {
            assert forall|m: Seq<char>| #[trigger] p.mentions(m) implies t.mentions(m) by {}
            assert forall|m: Seq<char>| #[trigger] q.mentions(m) implies t.mentions(m) by {}
            lemma_unfold_complete(*p, defs, seen, rank);
            lemma_unfold_complete(*q, defs, seen, rank);
            let u = p.unfold(defs, seen)->Ok_0;
            let v = q.unfold(defs, seen)->Ok_0;
            assert forall|n: Seq<char>| !#[trigger] Term::Par(Box::new(u), Box::new(v)).mentions(
                n,
            ) by {
                assert(!u.mentions(n) && !v.mentions(n));
            }
        },
        Term::Substitution(p, subs) => {
            assert forall|m: Seq<char>| #[trigger] p.mentions(m) implies t.mentions(m) by {}
            lemma_unfold_complete(*p, defs, seen, rank);
            let u = p.unfold(defs, seen)->Ok_0;
            assert forall|n: Seq<char>| !#[trigger] Term::Substitution(Box::new(u), subs).mentions(
                n,
            ) by {
                assert(!u.mentions(n));
            }
        },
        Term::Restriction(p, names) => {
            assert forall|m: Seq<char>| #[trigger] p.mentions(m) implies t.mentions(m) by {}
            lemma_unfold_complete(*p, defs, seen, rank);
            let u = p.unfold(defs, seen)->Ok_0;
            assert forall|n: Seq<char>| !#[trigger] Term::Restriction(Box::new(u), names).mentions(
                n,
            ) by {
                assert(!u.mentions(n));
            }
        },
    }
}

proof fn lemma_unfold_all_complete(
    ps: Seq<Term>,
    defs: Definitions,
    seen: Seq<Seq<char>>,
    rank: spec_fn(Seq<char>) -> nat,
)
    requires
        ranked(defs, rank),
        forall|i: int| 0 <= i < ps.len() ==> below(#[trigger] ps[i], defs, seen, rank),
    ensures
        Term::unfold_all(ps, defs, seen) matches Ok(us) && us.len() == ps.len() && forall|i: int|
            0 <= i < us.len() ==> unfolded(#[trigger] us[i]),
    decreases unseen(defs.names, seen), ps, 1nat,
{
    if ps.len() > 0 {
        assert forall|i: int| 0 <= i < ps.drop_last().len() implies below(
            #[trigger] ps.drop_last()[i],
            defs,
            seen,
            rank,
        ) by {
            assert(ps.drop_last()[i] == ps[i]);
        }
        lemma_unfold_all_complete(ps.drop_last(), defs, seen, rank);
        assert(below(ps[ps.len() - 1], defs, seen, rank));
        lemma_unfold_complete(ps.last(), defs, seen, rank);
    }
}

/// A transition of a term that refers to no constant leads to such a term.
pub proof fn lemma_step_keeps_unfolded(p: Term, a: Label, q: Term)
    requires
        p.step(a, q),
        unfolded(p),
    ensures
        unfolded(q),
    decreases p,
{
    assert forall|n: Seq<char>| !#[trigger] q.mentions(n) by {
        if q.mentions(n) {
            lemma_step_mentions(p, a, q, n);
        }
    }
}

/// What the target of a transition refers to, its source refers to.
pub proof fn lemma_step_mentions(p: Term, a: Label, q: Term, n: Seq<char>)
    requires
        p.step(a, q),
        q.mentions(n),
    ensures
        p.mentions(n),
    decreases p,
{
    match p {
        Term::Constant(_) => {},
        Term::Action(_, _) => {},
        Term::Sum(ps) => {
            let i = choose|i: int| 0 <= i < ps.len() && (#[trigger] ps[i]).step(a, q);
            lemma_step_mentions(ps[i], a, q, n);
        },
        Term::Par(l, r) => {
            let l2 = *q->Par_0;
            let r2 = *q->Par_1;
            if a == Label::Tau && exists|b: Label|
                l.step(b, l2) && r.step(#[trigger] b.complement(), r2) {
                let b = choose|b: Label| l.step(b, l2) && r.step(#[trigger] b.complement(), r2);
                if l2.mentions(n) {
                    lemma_step_mentions(*l, b, l2, n);
                } else {
                    lemma_step_mentions(*r, b.complement(), r2, n);
                }
            } else if r2 == *r && l.step(a, l2) && !r.offers(a.complement()) {
                if l2.mentions(n) {
                    lemma_step_mentions(*l, a, l2, n);
                }
            } else {
                if r2.mentions(n) {
                    lemma_step_mentions(*r, a, r2, n);
                }
            }
        },
        Term::Restriction(body, _) => {
            lemma_step_mentions(*body, a, *q->Restriction_0, n);
        },
        Term::Substitution(body, subs) => {
            let q0 = *q->Substitution_0;
            let b = choose|b: Label| body.step(b, q0) && a == #[trigger] replace_label(subs, b);
            lemma_step_mentions(*body, b, q0, n);
        },
    }
}

/// Every term reached from a term that refers to no constant refers to none.
pub proof fn lemma_reach_keeps_unfolded(p: Term, q: Term, n: nat)
    requires
        p.reaches_in(q, n),
        unfolded(p),
    ensures
        unfolded(q),
    decreases n,
{
    if n > 0 {
        let (a, m) = choose|a: Label, m: Term| #[trigger]
            p.step(a, m) && m.reaches_in(q, (n - 1) as nat);
        lemma_step_keeps_unfolded(p, a, m);
        lemma_reach_keeps_unfolded(m, q, (n - 1) as nat);
    }
}

/// In ranked definitions the unfolded seed spans transitions between terms
/// that refer to no constant: unfolding is complete along every run. (In
/// recursive definitions a constant that is being unfolded is left as it is
/// where it is met again, and is then the target of a transition.)
pub proof fn lemma_derived_targets_are_unfolded(
    seed: Term,
    defs: Definitions,
    rank: spec_fn(Seq<char>) -> nat,
    s: Step,
)
    requires
        ranked(defs, rank),
        forall|m: Seq<char>| #[trigger] seed.mentions(m) ==> defs.names.contains(m),
        seed.unfold_consts(defs) matches Ok(root) && root.span().contains(s),
    ensures
        unfolded(s.0),
        unfolded(s.2),
{
    let seen = match defs.name_of(seed) {
        Some(name) => seq![name],
        None => Seq::empty(),
    };
    assert(below(seed, defs, seen, rank)) by {
        defs.bodies.index_of_first_ensures(seed);
        assert forall|m: Seq<char>| #[trigger] seed.mentions(m) implies defs.names.contains(m)
            && forall|k: int| 0 <= k < seen.len() ==> rank(m) < rank(#[trigger] seen[k]) by {
            if defs.name_of(seed) is Some {
                let i = defs.bodies.index_of_first(seed)->Some_0;
                assert(defs.bodies[i].mentions(m));
                assert(rank(m) < rank(defs.names[i]));
            }
        }
    }
    lemma_unfold_complete(seed, defs, seen, rank);
    let root = seed.unfold_consts(defs)->Ok_0;
    let n = choose|n: nat| root.reaches_in(s.0, n);
    lemma_reach_keeps_unfolded(root, s.0, n);
    lemma_step_keeps_unfolded(s.0, s.1, s.2);
}

} // verus!
