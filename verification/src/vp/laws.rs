//! What holds of every compiled program: the definitions that compiling
//! leaves refer to no constant that they do not bind.
use vstd::prelude::*;

use crate::context::Definitions;
use crate::laws::{lemma_flatten_mentions, resolves};
use crate::process::Term;
use crate::vp::context::Scope;
use crate::vp::process::{
    instance_name, lemma_replace_keeps_size, lemma_size_positive, Agent, Prefix,
};
use crate::vp::values::Val;

verus! {

/// Every body that `defs` binds resolves: the definitions refer to no
/// constant but those that they bind and those that are being compiled.
pub open spec fn closed(defs: Definitions, seen: Seq<Seq<char>>) -> bool {
    &&& defs.wf()
    &&& forall|i: int| 0 <= i < defs.bodies.len() ==> resolves(defs, seen, #[trigger] defs.bodies[i])
}

/// Binding a body that resolves keeps definitions closed, where the body is
/// bound under the name of the instance that was being compiled.
proof fn lemma_bind_closed(defs: Definitions, seen: Seq<Seq<char>>, name: Seq<char>, body: Term)
    requires
        closed(defs, seen.push(name)),
        resolves(defs, seen.push(name), body),
    ensures
        closed(defs.bind(name, body), seen),
        defs.bind(name, body).names.contains(name),
        forall|n: Seq<char>| defs.names.contains(n) ==> defs.bind(name, body).names.contains(n),
{
    let after = defs.bind(name, body);
    defs.names.index_of_first_ensures(name);
    assert forall|n: Seq<char>| defs.names.contains(n) implies after.names.contains(n) by {
        let k = choose|k: int| 0 <= k < defs.names.len() && defs.names[k] == n;
        assert(after.names[k] == n);
    }
    match defs.names.index_of_first(name) {
        Some(i) => {},
        None => {
            assert(after.names[defs.names.len() as int] == name);
        },
    }
    assert forall|i: int| 0 <= i < after.bodies.len() implies resolves(
        after,
        seen,
        #[trigger] after.bodies[i],
    ) by {
        let b = after.bodies[i];
        assert forall|n: Seq<char>| #[trigger] b.mentions(n) implies after.names.contains(n)
            || seen.contains(n) by {
            if b == body {
                assert(defs.names.contains(n) || seen.push(name).contains(n));
            } else {
                assert(b == defs.bodies[i]);
                assert(resolves(defs, seen.push(name), defs.bodies[i]));
                assert(defs.names.contains(n) || seen.push(name).contains(n));
            }
            if seen.push(name).contains(n) && !seen.contains(n) {
                let k = choose|k: int| 0 <= k < seen.push(name).len() && seen.push(name)[k] == n;
                assert(n == name);
            }
        }
    }
}

/// Definitions that are closed stay closed when more is being compiled or
/// bound.
proof fn lemma_closed_weakens(defs: Definitions, seen: Seq<Seq<char>>, name: Seq<char>)
    requires
        closed(defs, seen),
    ensures
        closed(defs, seen.push(name)),
{
    assert forall|i: int| 0 <= i < defs.bodies.len() implies resolves(
        defs,
        seen.push(name),
        #[trigger] defs.bodies[i],
    ) by {
        let b = defs.bodies[i];
        assert(resolves(defs, seen, b));
        assert forall|n: Seq<char>| #[trigger] b.mentions(n) implies defs.names.contains(n)
            || seen.push(name).contains(n) by {
            if seen.contains(n) {
                let k = choose|k: int| 0 <= k < seen.len() && seen[k] == n;
                assert(seen.push(name)[k] == n);
            }
        }
    }
}

/// What compiling leaves behind: the definitions are closed, they bind what
/// was bound before, and the compiled term resolves in them.
pub open spec fn sound(
    before: Definitions,
    seen: Seq<Seq<char>>,
    result: Result<Term, crate::error::Error>,
    after: Definitions,
) -> bool {
    result matches Ok(t) ==> {
        &&& closed(after, seen)
        &&& resolves(after, seen, t)
        &&& forall|n: Seq<char>| before.names.contains(n) ==> after.names.contains(n)
    }
}

/// What compiling a list leaves behind.
pub open spec fn sound_list(
    before: Definitions,
    seen: Seq<Seq<char>>,
    result: Result<Seq<Term>, crate::error::Error>,
    after: Definitions,
) -> bool {
    result matches Ok(ts) ==> {
        &&& closed(after, seen)
        &&& forall|i: int| 0 <= i < ts.len() ==> resolves(after, seen, #[trigger] ts[i])
        &&& forall|n: Seq<char>| before.names.contains(n) ==> after.names.contains(n)
    }
}

/// A term that resolves in some definitions resolves in those that bind
/// more.
proof fn lemma_resolves_grows(a: Definitions, b: Definitions, seen: Seq<Seq<char>>, t: Term)
    requires
        resolves(a, seen, t),
        forall|n: Seq<char>| a.names.contains(n) ==> b.names.contains(n),
    ensures
        resolves(b, seen, t),
{
}


/// A prefix before a term that resolves resolves.
proof fn lemma_prefix_resolves(
    defs: Definitions,
    seen: Seq<Seq<char>>,
    l: crate::process::Label,
    t: Term,
)
    requires
        resolves(defs, seen, t),
    ensures
        resolves(defs, seen, Term::Action(l, Box::new(t))),
{
    let a = Term::Action(l, Box::new(t));
    assert forall|n: Seq<char>| #[trigger] a.mentions(n) implies defs.names.contains(n)
        || seen.contains(n) by {
        assert(t.mentions(n));
    }
}

/// A sum of terms that resolve resolves.
proof fn lemma_sum_resolves(defs: Definitions, seen: Seq<Seq<char>>, ts: Seq<Term>)
    requires
        forall|i: int| 0 <= i < ts.len() ==> resolves(defs, seen, #[trigger] ts[i]),
    ensures
        resolves(defs, seen, Term::Sum(ts)),
{
    let s = Term::Sum(ts);
    assert forall|n: Seq<char>| #[trigger] s.mentions(n) implies defs.names.contains(n)
        || seen.contains(n) by {
        let i = choose|i: int| 0 <= i < ts.len() && (#[trigger] ts[i]).mentions(n);
        assert(resolves(defs, seen, ts[i]));
    }
}

/// Compiling an agent in closed definitions leaves closed definitions in
/// which the compiled term resolves.
pub proof fn lemma_compile_sound(p: Agent, scope: Scope, defs: Definitions, seen: Seq<Seq<char>>)
    requires
        closed(defs, seen),
    ensures
        sound(
            defs,
            seen,
            p.compile(scope, defs, seen).result,
            p.compile(scope, defs, seen).defs,
        ),
    decreases usize::MAX - seen.len(), p.size(), 0nat,
{
    let c = p.compile(scope, defs, seen);
    if c.result is Ok {
        let t = c.result->Ok_0;
        match p {
            Agent::Constant(name, args) => {
                let vs = Val::eval_all(args, scope)->Ok_0;
                let encoded = instance_name(name, vs);
                if seen.contains(encoded) {
                    assert forall|n: Seq<char>| #[trigger] t.mentions(n) implies defs.names.contains(
                        n,
                    ) || seen.contains(n) by {}
                } else {
                    let decl = scope.constants.lookup(name)->Some_0;
                    let body = decl.1.instantiate(decl.0, vs).0;
                    let inner = body.compile(scope, defs, seen.push(encoded));
                    lemma_closed_weakens(defs, seen, encoded);
                    lemma_compile_sound(body, scope, defs, seen.push(encoded));
                    let u = inner.result->Ok_0;
                    assert forall|n: Seq<char>| #[trigger] u.flatten().mentions(n) implies inner.defs.names.contains(
                        n,
                    ) || seen.push(encoded).contains(n) by {
                        lemma_flatten_mentions(u, n);
                    }
                    lemma_bind_closed(inner.defs, seen, encoded, u.flatten());
                    assert forall|n: Seq<char>| #[trigger] t.mentions(n) implies c.defs.names.contains(
                        n,
                    ) || seen.contains(n) by {}
                }
            },
            Agent::Action(ch, q) => {
                match ch {
                    Prefix::Recv(name, Some(var)) => {
                        let universe = scope.universe()->Ok_0;
                        lemma_compile_inputs_sound(*q, name, var, universe, scope, defs, seen);
                        let l = Agent::compile_inputs(*q, name, var, universe, scope, defs, seen);
                        lemma_sum_resolves(l.defs, seen, l.result->Ok_0);
                    },
                    _ => {
                        lemma_compile_sound(*q, scope, defs, seen);
                        let inner = q.compile(scope, defs, seen);
                        lemma_prefix_resolves(inner.defs, seen, t->Action_0, inner.result->Ok_0);
                    },
                }
            },
            Agent::Sum(ps) => {
                lemma_compile_all_sound(ps, scope, defs, seen);
                let l = Agent::compile_all(ps, scope, defs, seen);
                lemma_sum_resolves(l.defs, seen, l.result->Ok_0);
            },
            Agent::Par(l, r) => {
                lemma_compile_sound(*l, scope, defs, seen);
                let a = l.compile(scope, defs, seen);
                lemma_compile_sound(*r, scope, a.defs, seen);
                let b = r.compile(scope, a.defs, seen);
                let t1 = a.result->Ok_0;
                let t2 = b.result->Ok_0;
                assert forall|n: Seq<char>| #[trigger] t.mentions(n) implies b.defs.names.contains(
                    n,
                ) || seen.contains(n) by {
                    if t1.mentions(n) {
                    } else {
                        assert(t2.mentions(n));
                    }
                }
            },
            Agent::IfThen(b, q) => {
                if b.eval(scope)->Ok_0 {
                    lemma_compile_sound(*q, scope, defs, seen);
                } else {
                    assert forall|n: Seq<char>| #[trigger] t.mentions(n) implies defs.names.contains(
                        n,
                    ) || seen.contains(n) by {}
                }
            },
            Agent::Restriction(q, _) => {
                lemma_compile_sound(*q, scope, defs, seen);
                let inner = q.compile(scope, defs, seen);
                let u = inner.result->Ok_0;
                assert forall|n: Seq<char>| #[trigger] t.mentions(n) implies inner.defs.names.contains(
                    n,
                ) || seen.contains(n) by {
                    assert(u.mentions(n));
                }
            },
            Agent::Substitution(q, _) => {
                lemma_compile_sound(*q, scope, defs, seen);
                let inner = q.compile(scope, defs, seen);
                let u = inner.result->Ok_0;
                assert forall|n: Seq<char>| #[trigger] t.mentions(n) implies inner.defs.names.contains(
                    n,
                ) || seen.contains(n) by {
                    assert(u.mentions(n));
                }
            },
        }
    }
}

/// Compiling a list of agents in closed definitions leaves closed
/// definitions in which every compiled term resolves.
pub proof fn lemma_compile_all_sound(
    ps: Seq<Agent>,
    scope: Scope,
    defs: Definitions,
    seen: Seq<Seq<char>>,
)
    requires
        closed(defs, seen),
    ensures
        sound_list(
            defs,
            seen,
            Agent::compile_all(ps, scope, defs, seen).result,
            Agent::compile_all(ps, scope, defs, seen).defs,
        ),
    decreases usize::MAX - seen.len(), Agent::total_size(ps), 1nat,
{
    let c = Agent::compile_all(ps, scope, defs, seen);
    if ps.len() > 0 && c.result is Ok {
        lemma_size_positive(ps.last());
        lemma_compile_all_sound(ps.drop_last(), scope, defs, seen);
        let a = Agent::compile_all(ps.drop_last(), scope, defs, seen);
        lemma_compile_sound(ps.last(), scope, a.defs, seen);
        let b = ps.last().compile(scope, a.defs, seen);
        let ts = c.result->Ok_0;
        let init = a.result->Ok_0;
        assert forall|i: int| 0 <= i < ts.len() implies resolves(c.defs, seen, #[trigger] ts[i]) by {
            if i < init.len() {
                assert(ts[i] == init[i]);
                lemma_resolves_grows(a.defs, b.defs, seen, init[i]);
            }
        }
    }
}

/// Compiling the alternatives of an input in closed definitions leaves
/// closed definitions in which every alternative resolves.
pub proof fn lemma_compile_inputs_sound(
    p: Agent,
    name: Seq<char>,
    var: Seq<char>,
    universe: Seq<Val>,
    scope: Scope,
    defs: Definitions,
    seen: Seq<Seq<char>>,
)
    requires
        closed(defs, seen),
    ensures
        sound_list(
            defs,
            seen,
            Agent::compile_inputs(p, name, var, universe, scope, defs, seen).result,
            Agent::compile_inputs(p, name, var, universe, scope, defs, seen).defs,
        ),
    decreases usize::MAX - seen.len(), p.size(), 2 + universe.len(),
{
    let c = Agent::compile_inputs(p, name, var, universe, scope, defs, seen);
    if universe.len() > 0 && c.result is Ok {
        lemma_compile_inputs_sound(p, name, var, universe.drop_last(), scope, defs, seen);
        let a = Agent::compile_inputs(p, name, var, universe.drop_last(), scope, defs, seen);
        let val = universe.last();
        let (q, ok) = p.replace(var, val);
        if ok {
            lemma_replace_keeps_size(p, var, val);
            lemma_compile_sound(q, scope, a.defs, seen);
            let b = q.compile(scope, a.defs, seen);
            let v = val.eval(scope)->Ok_0;
            let ts = c.result->Ok_0;
            let init = a.result->Ok_0;
            lemma_prefix_resolves(
                b.defs,
                seen,
                crate::process::Label::Recv(v.mangle(name)),
                b.result->Ok_0,
            );
            assert forall|i: int| 0 <= i < ts.len() implies resolves(
                c.defs,
                seen,
                #[trigger] ts[i],
            ) by {
                if i < init.len() {
                    assert(ts[i] == init[i]);
                    lemma_resolves_grows(a.defs, b.defs, seen, init[i]);
                }
            }
        }
    }
}

/// The definitions that a program compiles to are closed: they bind the
/// entry constant, and with a constant every constant that its body refers
/// to. Every instance of a constant that compiling meets is bound under its
/// mangled name.
pub proof fn lemma_compiled_program_is_closed(scope: Scope)
    requires
        scope.to_ccs() is Ok,
    ensures
        closed(scope.to_ccs()->Ok_0, Seq::empty()),
        scope.to_ccs()->Ok_0.names.contains(scope.main),
{
    let start = Definitions::empty().with_main(scope.main);
    let entry = Agent::Constant(scope.main, Seq::empty());
    assert(closed(start, Seq::empty()));
    lemma_compile_sound(entry, scope, start, Seq::empty());
    let c = entry.compile(scope, start, Seq::empty());
    let t = c.result->Ok_0;
    assert(Val::eval_all(Seq::empty(), scope) == Ok::<Seq<Val>, crate::error::Error>(Seq::empty()));
    assert(instance_name(scope.main, Seq::empty()) == scope.main);
    assert(t == Term::Constant(scope.main));
    assert(t.mentions(scope.main));
}

} // verus!
