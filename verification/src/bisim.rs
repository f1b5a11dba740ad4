//! Strong bisimilarity of two transition systems, as the greatest fixed point
//! of the refinement of relations between their nodes.
use itertools::Itertools;
use vstd::prelude::*;

use crate::lts::{node_views, nodes_of, step_of, step_views, steps_from, Lts};
use crate::process::{Label, Process, Step, Term, Transition};

verus! {

/// A relation between the nodes of two systems.
pub type Relation = Set<(Term, Term)>;

/// Pairs of nodes of two systems, the first of the first system.
pub type Bisimulation<'a, 'b> = Vec<(&'a Process, &'b Process)>;

/// The values of a list of pairs of nodes.
pub open spec fn pair_views(pairs: Seq<(&Process, &Process)>) -> Seq<(Term, Term)> {
    Seq::new(pairs.len(), |i: int| (pairs[i].0@, pairs[i].1@))
}

/// Every transition of `p` in `l1` is answered by a transition of `q` in `l2`
/// with the same label, into a pair of `r`.
#[verifier::opaque]
pub open spec fn answers_forth(l1: Set<Step>, l2: Set<Step>, r: Relation, p: Term, q: Term) -> bool {
    forall|a: Label, p2: Term| #[trigger]
        l1.contains((p, a, p2)) ==> exists|q2: Term| #[trigger]
            l2.contains((q, a, q2)) && r.contains((p2, q2))
}

/// Every transition of `q` in `l2` is answered by a transition of `p` in `l1`
/// with the same label, into a pair of `r`.
#[verifier::opaque]
pub open spec fn answers_back(l1: Set<Step>, l2: Set<Step>, r: Relation, p: Term, q: Term) -> bool {
    forall|a: Label, q2: Term| #[trigger]
        l2.contains((q, a, q2)) ==> exists|p2: Term| #[trigger]
            l1.contains((p, a, p2)) && r.contains((p2, q2))
}

/// The answer of `q` to one transition of `p`.
pub proof fn lemma_answer_forth(
    l1: Set<Step>,
    l2: Set<Step>,
    r: Relation,
    p: Term,
    q: Term,
    a: Label,
    p2: Term,
) -> (q2: Term)
    requires
        answers_forth(l1, l2, r, p, q),
        l1.contains((p, a, p2)),
    ensures
        l2.contains((q, a, q2)),
        r.contains((p2, q2)),
{
    reveal(answers_forth);
    choose|q2: Term| #[trigger] l2.contains((q, a, q2)) && r.contains((p2, q2))
}

/// The answer of `p` to one transition of `q`.
pub proof fn lemma_answer_back(
    l1: Set<Step>,
    l2: Set<Step>,
    r: Relation,
    p: Term,
    q: Term,
    a: Label,
    q2: Term,
) -> (p2: Term)
    requires
        answers_back(l1, l2, r, p, q),
        l2.contains((q, a, q2)),
    ensures
        l1.contains((p, a, p2)),
        r.contains((p2, q2)),
{
    reveal(answers_back);
    choose|p2: Term| #[trigger] l1.contains((p, a, p2)) && r.contains((p2, q2))
}

/// The refinement of a relation: its pairs whose two nodes answer each
/// other's transitions into the relation.
pub open spec fn refine(l1: Set<Step>, l2: Set<Step>, r: Relation) -> Relation {
    Set::new(
        |pq: (Term, Term)|
            r.contains(pq) && answers_forth(l1, l2, r, pq.0, pq.1) && answers_back(
                l1,
                l2,
                r,
                pq.0,
                pq.1,
            ),
    )
}

/// A relation is a bisimulation when refining it takes nothing away.
pub open spec fn is_bisimulation(l1: Set<Step>, l2: Set<Step>, r: Relation) -> bool {
    r.subset_of(refine(l1, l2, r))
}

/// Two terms are bisimilar when some bisimulation relates them.
pub open spec fn bisimilar(l1: Set<Step>, l2: Set<Step>, p: Term, q: Term) -> bool {
    exists|r: Relation| is_bisimulation(l1, l2, r) && #[trigger] r.contains((p, q))
}

/// All pairs of a node of the first system with a node of the second.
pub open spec fn all_pairs(l1: Set<Step>, l2: Set<Step>) -> Relation {
    Set::new(|pq: (Term, Term)| nodes_of(l1).contains(pq.0) && nodes_of(l2).contains(pq.1))
}

/// Bisimilarity: the pairs of nodes of the two systems that are bisimilar. It
/// is the largest bisimulation between the nodes, and the greatest fixed
/// point of [`refine`] below [`all_pairs`].
pub open spec fn bisimilarity(l1: Set<Step>, l2: Set<Step>) -> Relation {
    Set::new(|pq: (Term, Term)| all_pairs(l1, l2).contains(pq) && bisimilar(l1, l2, pq.0, pq.1))
}

/// Bisimilarity is itself a bisimulation.
pub proof fn lemma_bisimilarity_is_bisimulation(l1: Set<Step>, l2: Set<Step>)
    ensures
        is_bisimulation(l1, l2, bisimilarity(l1, l2)),
{
    let b = bisimilarity(l1, l2);
    assert forall|pq: (Term, Term)| b.contains(pq) implies refine(l1, l2, b).contains(pq) by {
        lemma_refine_keeps_bisimilar(l1, l2, b);
    }
}

/// Refining a relation that holds bisimilarity leaves bisimilarity in it.
pub proof fn lemma_refine_keeps_bisimilar(l1: Set<Step>, l2: Set<Step>, r: Relation)
    requires
        bisimilarity(l1, l2).subset_of(r),
    ensures
        bisimilarity(l1, l2).subset_of(refine(l1, l2, r)),
{
    let b = bisimilarity(l1, l2);
    assert forall|pq: (Term, Term)| b.contains(pq) implies refine(l1, l2, r).contains(pq) by {
        let w = choose|w: Relation| is_bisimulation(l1, l2, w) && #[trigger] w.contains(pq);
        assert(refine(l1, l2, w).contains(pq));
        assert(answers_forth(l1, l2, r, pq.0, pq.1)) by {
            reveal(answers_forth);
            assert forall|a: Label, p2: Term| #[trigger] l1.contains((pq.0, a, p2)) implies exists|
                q2: Term,
            | #[trigger] l2.contains((pq.1, a, q2)) && r.contains((p2, q2)) by {
                let q2 = choose|q2: Term| #[trigger]
                    l2.contains((pq.1, a, q2)) && w.contains((p2, q2));
                assert(nodes_of(l1).contains(p2));
                assert(nodes_of(l2).contains(q2));
                assert(b.contains((p2, q2)));
            }
        }
        assert(answers_back(l1, l2, r, pq.0, pq.1)) by {
            reveal(answers_back);
            assert forall|a: Label, q2: Term| #[trigger] l2.contains((pq.1, a, q2)) implies exists|
                p2: Term,
            | #[trigger] l1.contains((pq.0, a, p2)) && r.contains((p2, q2)) by {
                let p2 = choose|p2: Term| #[trigger]
                    l1.contains((pq.0, a, p2)) && w.contains((p2, q2));
                assert(nodes_of(l1).contains(p2));
                assert(nodes_of(l2).contains(q2));
                assert(b.contains((p2, q2)));
            }
        }
    }
}

/// A relation between nodes that refinement leaves as it is lies within
/// bisimilarity.
pub proof fn lemma_fixed_point_is_bisimilar(l1: Set<Step>, l2: Set<Step>, r: Relation)
    requires
        r.subset_of(all_pairs(l1, l2)),
        r.subset_of(refine(l1, l2, r)),
    ensures
        r.subset_of(bisimilarity(l1, l2)),
{
    assert forall|pq: (Term, Term)| r.contains(pq) implies bisimilarity(l1, l2).contains(pq) by {
        assert(is_bisimulation(l1, l2, r) && r.contains((pq.0, pq.1)));
    }
}

/// Bisimilarity is reflexive: every node of a system is bisimilar to itself.
pub proof fn lemma_bisimilarity_reflexive(l: Set<Step>, n: Term)
    requires
        nodes_of(l).contains(n),
    ensures
        bisimilarity(l, l).contains((n, n)),
{
    let id = Set::new(|pq: (Term, Term)| pq.0 == pq.1);
    assert forall|pq: (Term, Term)| id.contains(pq) implies refine(l, l, id).contains(pq) by {
        assert(answers_forth(l, l, id, pq.0, pq.1)) by {
            reveal(answers_forth);
            assert forall|a: Label, p2: Term| #[trigger] l.contains((pq.0, a, p2)) implies exists|
                q2: Term,
            | #[trigger] l.contains((pq.1, a, q2)) && id.contains((p2, q2)) by {
                assert(l.contains((pq.1, a, p2)) && id.contains((p2, p2)));
            }
        }
        assert(answers_back(l, l, id, pq.0, pq.1)) by {
            reveal(answers_back);
            assert forall|a: Label, q2: Term| #[trigger] l.contains((pq.1, a, q2)) implies exists|
                p2: Term,
            | #[trigger] l.contains((pq.0, a, p2)) && id.contains((p2, q2)) by {
                assert(l.contains((pq.0, a, q2)) && id.contains((q2, q2)));
            }
        }
    }
    assert(is_bisimulation(l, l, id) && id.contains((n, n)));
}

/// The converse of a relation.
pub open spec fn converse(r: Relation) -> Relation {
    Set::new(|qp: (Term, Term)| r.contains((qp.1, qp.0)))
}

proof fn lemma_converse_bisimulation(l1: Set<Step>, l2: Set<Step>, r: Relation)
    requires
        is_bisimulation(l1, l2, r),
    ensures
        is_bisimulation(l2, l1, converse(r)),
{
    let c = converse(r);
    assert forall|qp: (Term, Term)| c.contains(qp) implies refine(l2, l1, c).contains(qp) by {
        let pq = (qp.1, qp.0);
        assert(refine(l1, l2, r).contains(pq));
        assert(answers_forth(l2, l1, c, qp.0, qp.1)) by {
            reveal(answers_forth);
            assert forall|a: Label, q2: Term| #[trigger] l2.contains((qp.0, a, q2)) implies exists|
                p2: Term,
            | #[trigger] l1.contains((qp.1, a, p2)) && c.contains((q2, p2)) by {
                let p2 = lemma_answer_back(l1, l2, r, pq.0, pq.1, a, q2);
                assert(l1.contains((qp.1, a, p2)) && c.contains((q2, p2)));
            }
        }
        assert(answers_back(l2, l1, c, qp.0, qp.1)) by {
            reveal(answers_back);
            assert forall|a: Label, p2: Term| #[trigger] l1.contains((qp.1, a, p2)) implies exists|
                q2: Term,
            | #[trigger] l2.contains((qp.0, a, q2)) && c.contains((q2, p2)) by {
                let q2 = lemma_answer_forth(l1, l2, r, pq.0, pq.1, a, p2);
                assert(l2.contains((qp.0, a, q2)) && c.contains((q2, p2)));
            }
        }
    }
}

/// Bisimilarity is symmetric: a pair is bisimilar between two systems exactly
/// when the converse pair is bisimilar between them taken the other way
/// round.
pub proof fn lemma_bisimilarity_symmetric(l1: Set<Step>, l2: Set<Step>, p: Term, q: Term)
    ensures
        bisimilarity(l1, l2).contains((p, q)) <==> bisimilarity(l2, l1).contains((q, p)),
{
    if bisimilarity(l1, l2).contains((p, q)) {
        let w = choose|w: Relation| is_bisimulation(l1, l2, w) && #[trigger] w.contains((p, q));
        lemma_converse_bisimulation(l1, l2, w);
        assert(converse(w).contains((q, p)));
    }
    if bisimilarity(l2, l1).contains((q, p)) {
        let w = choose|w: Relation| is_bisimulation(l2, l1, w) && #[trigger] w.contains((q, p));
        lemma_converse_bisimulation(l2, l1, w);
        assert(converse(w).contains((p, q)));
    }
}


/// `Itertools::cartesian_product` of itertools on two lists of nodes,
/// collected: every pair of a node of `xs` with a node of `ys`. The pairs of
/// one node of `xs` stand together, in the order of `ys`, and these runs in
/// the order of `xs`. The number of pairs must fit the machine.
#[verifier::external_body]
fn cartesian_product<'a, 'b>(xs: &Vec<&'a Process>, ys: &Vec<&'b Process>) -> (r: Bisimulation<
    'a,
    'b,
>)
    requires
        xs.len() * ys.len() <= usize::MAX,
    ensures
        r.len() == xs.len() * ys.len(),
        forall|i: int, j: int|
            #![trigger xs[i], ys[j]]
            0 <= i < xs.len() && 0 <= j < ys.len() ==> r[i * ys.len() + j] == (xs[i], ys[j]),
{
    xs.iter().copied().cartesian_product(ys.iter().copied()).collect()
}

/// Whether a list of pairs holds the pair of `p` and `q`.
fn related(r: &Bisimulation, p: &Process, q: &Process) -> (b: bool)
    ensures
        b == pair_views(r@).contains((p@, q@)),
{
    let mut i: usize = 0;
    while i < r.len()
        invariant
            i <= r.len(),
            forall|k: int| 0 <= k < i ==> pair_views(r@)[k] != (p@, q@),
        decreases r.len() - i,
    {
        if *r[i].0 == *p && *r[i].1 == *q {
            assert(pair_views(r@)[i as int] == (p@, q@));
            return true;
        }
        i += 1;
    }
    false
}

/// The pair of targets that a relation is asked for: those of `x` and `y`,
/// the other way round where the transitions were handed over swapped.
pub open spec fn targets(x: Step, y: Step, swapped: bool) -> (Term, Term) {
    if swapped {
        (y.2, x.2)
    } else {
        (x.2, y.2)
    }
}

/// Whether the transition `x` has an answer among `ys`: a transition with the
/// same label, into a pair of `rel`.
pub open spec fn answered_by(x: Step, ys: Seq<Step>, rel: Seq<(Term, Term)>, swapped: bool) -> bool {
    exists|j: int|
        0 <= j < ys.len() && x.1 == (#[trigger] ys[j]).1 && rel.contains(targets(x, ys[j], swapped))
}

/// Whether every transition of `xs` has an answer among `ys`.
pub open spec fn all_answered_by(
    xs: Seq<Step>,
    ys: Seq<Step>,
    rel: Seq<(Term, Term)>,
    swapped: bool,
) -> bool {
    forall|i: int| 0 <= i < xs.len() ==> answered_by(#[trigger] xs[i], ys, rel, swapped)
}

/// Whether every transition of `xs` has an answer among `ys`: one with the
/// same label, into a pair of `r`.
#[verifier::loop_isolation(false)]
fn all_answered(xs: &Vec<&Transition>, ys: &Vec<&Transition>, r: &Bisimulation, swapped: bool) -> (b:
    bool)
    ensures
        b == all_answered_by(step_views(xs@), step_views(ys@), pair_views(r@), swapped),
{
    let ghost sx = step_views(xs@);
    let ghost sy = step_views(ys@);
    let ghost rel = pair_views(r@);
    let mut i: usize = 0;
    while i < xs.len()
        invariant
            i <= xs.len(),
            forall|k: int| 0 <= k < i ==> answered_by(#[trigger] sx[k], sy, rel, swapped),
        decreases xs.len() - i,
    {
        let x = xs[i];
        let mut found = false;
        let mut j: usize = 0;
        while j < ys.len()
            invariant
                j <= ys.len(),
                found <==> exists|m: int|
                    0 <= m < j && sx[i as int].1 == (#[trigger] sy[m]).1 && rel.contains(
                        targets(sx[i as int], sy[m], swapped),
                    ),
            decreases ys.len() - j,
        {
            let y = ys[j];
            assert(step_of(*y) == sy[j as int]);
            assert(step_of(*x) == sx[i as int]);
            if x.1 == y.1 {
                let hit = if swapped {
                    related(r, &y.2, &x.2)
                } else {
                    related(r, &x.2, &y.2)
                };
                if hit {
                    found = true;
                }
            }
            j += 1;
        }
        if !found {
            assert(!answered_by(sx[i as int], sy, rel, swapped));
            return false;
        }
        i += 1;
    }
    true
}

/// Answering forth, told from the lists of the transitions that leave the two
/// nodes.
proof fn lemma_forth_by_lists(
    l1: Set<Step>,
    l2: Set<Step>,
    rel: Seq<(Term, Term)>,
    p: Term,
    q: Term,
    sp: Seq<Step>,
    sq: Seq<Step>,
)
    requires
        sp.to_set() == steps_from(l1, p),
        sq.to_set() == steps_from(l2, q),
    ensures
        answers_forth(l1, l2, rel.to_set(), p, q) <==> all_answered_by(sp, sq, rel, false),
{
    reveal(answers_forth);
    if all_answered_by(sp, sq, rel, false) {
        assert forall|a: Label, p2: Term| #[trigger] l1.contains((p, a, p2)) implies exists|
            q2: Term,
        | #[trigger] l2.contains((q, a, q2)) && rel.to_set().contains((p2, q2)) by {
            assert(steps_from(l1, p).contains((p, a, p2)));
            assert(sp.to_set().contains((p, a, p2)));
            let i = choose|i: int| 0 <= i < sp.len() && sp[i] == (p, a, p2);
            assert(answered_by(sp[i], sq, rel, false));
            let j = choose|j: int|
                0 <= j < sq.len() && sp[i].1 == (#[trigger] sq[j]).1 && rel.contains(
                    targets(sp[i], sq[j], false),
                );
            assert(sq.to_set().contains(sq[j]));
            assert(steps_from(l2, q).contains(sq[j]));
            assert(l2.contains((q, a, sq[j].2)));
        }
    }
    if answers_forth(l1, l2, rel.to_set(), p, q) {
        assert forall|i: int| 0 <= i < sp.len() implies answered_by(
            #[trigger] sp[i],
            sq,
            rel,
            false,
        ) by {
            assert(sp.to_set().contains(sp[i]));
            assert(steps_from(l1, p).contains(sp[i]));
            assert(l1.contains((p, sp[i].1, sp[i].2)));
            let q2 = choose|q2: Term| #[trigger]
                l2.contains((q, sp[i].1, q2)) && rel.to_set().contains((sp[i].2, q2));
            assert(steps_from(l2, q).contains((q, sp[i].1, q2)));
            assert(sq.to_set().contains((q, sp[i].1, q2)));
            let j = choose|j: int| 0 <= j < sq.len() && sq[j] == (q, sp[i].1, q2);
            assert(sp[i].1 == sq[j].1 && rel.contains(targets(sp[i], sq[j], false)));
        }
    }
}

/// Answering back, told from the lists of the transitions that leave the two
/// nodes.
proof fn lemma_back_by_lists(
    l1: Set<Step>,
    l2: Set<Step>,
    rel: Seq<(Term, Term)>,
    p: Term,
    q: Term,
    sp: Seq<Step>,
    sq: Seq<Step>,
)
    requires
        sp.to_set() == steps_from(l1, p),
        sq.to_set() == steps_from(l2, q),
    ensures
        answers_back(l1, l2, rel.to_set(), p, q) <==> all_answered_by(sq, sp, rel, true),
{
    reveal(answers_back);
    if all_answered_by(sq, sp, rel, true) {
        assert forall|a: Label, q2: Term| #[trigger] l2.contains((q, a, q2)) implies exists|
            p2: Term,
        | #[trigger] l1.contains((p, a, p2)) && rel.to_set().contains((p2, q2)) by {
            assert(steps_from(l2, q).contains((q, a, q2)));
            assert(sq.to_set().contains((q, a, q2)));
            let i = choose|i: int| 0 <= i < sq.len() && sq[i] == (q, a, q2);
            assert(answered_by(sq[i], sp, rel, true));
            let j = choose|j: int|
                0 <= j < sp.len() && sq[i].1 == (#[trigger] sp[j]).1 && rel.contains(
                    targets(sq[i], sp[j], true),
                );
            assert(sp.to_set().contains(sp[j]));
            assert(steps_from(l1, p).contains(sp[j]));
            assert(l1.contains((p, a, sp[j].2)));
        }
    }
    if answers_back(l1, l2, rel.to_set(), p, q) {
        assert forall|i: int| 0 <= i < sq.len() implies answered_by(
            #[trigger] sq[i],
            sp,
            rel,
            true,
        ) by {
            assert(sq.to_set().contains(sq[i]));
            assert(steps_from(l2, q).contains(sq[i]));
            assert(l2.contains((q, sq[i].1, sq[i].2)));
            let p2 = choose|p2: Term| #[trigger]
                l1.contains((p, sq[i].1, p2)) && rel.to_set().contains((p2, sq[i].2));
            assert(steps_from(l1, p).contains((p, sq[i].1, p2)));
            assert(sp.to_set().contains((p, sq[i].1, p2)));
            let j = choose|j: int| 0 <= j < sp.len() && sp[j] == (p, sq[i].1, p2);
            assert(sq[i].1 == sp[j].1 && rel.contains(targets(sq[i], sp[j], true)));
        }
    }
}

/// Whether `p` and `q` answer each other's transitions into `r`.
fn is_similar(l1: &Lts, l2: &Lts, r: &Bisimulation, p: &Process, q: &Process) -> (b: bool)
    ensures
        b == (answers_forth(l1@, l2@, pair_views(r@).to_set(), p@, q@) && answers_back(
            l1@,
            l2@,
            pair_views(r@).to_set(),
            p@,
            q@,
        )),
{
    let from_p = l1.transitions_from(p);
    let from_q = l2.transitions_from(q);
    proof {
        lemma_forth_by_lists(
            l1@,
            l2@,
            pair_views(r@),
            p@,
            q@,
            step_views(from_p@),
            step_views(from_q@),
        );
        lemma_back_by_lists(
            l1@,
            l2@,
            pair_views(r@),
            p@,
            q@,
            step_views(from_p@),
            step_views(from_q@),
        );
    }
    all_answered(&from_p, &from_q, r, false) && all_answered(&from_q, &from_p, r, true)
}


/// The pairs of `r` whose two nodes answer each other's transitions into `r`,
/// in the order of `r`.
#[verifier::loop_isolation(false)]
fn refined<'a, 'b>(l1: &Lts, l2: &Lts, r: &Bisimulation<'a, 'b>) -> (out: Bisimulation<'a, 'b>)
    ensures
        pair_views(out@).to_set() == refine(l1@, l2@, pair_views(r@).to_set()),
        out.len() <= r.len(),
        out.len() == r.len() ==> pair_views(out@) == pair_views(r@),
        out.len() < r.len() ==> !pair_views(r@).to_set().subset_of(
            refine(l1@, l2@, pair_views(r@).to_set()),
        ),
        pair_views(r@).no_duplicates() ==> pair_views(out@).no_duplicates(),
{
    let ghost rv = pair_views(r@);
    let ghost goal = refine(l1@, l2@, rv.to_set());
    let mut out: Bisimulation<'a, 'b> = Vec::new();
    let ghost mut from: Seq<int> = Seq::empty();
    let mut i: usize = 0;
    while i < r.len()
        invariant
            i <= r.len(),
            out.len() <= i,
            out.len() == i ==> pair_views(out@) =~= rv.take(i as int),
            from.len() == out.len(),
            forall|k: int|
                0 <= k < out.len() ==> 0 <= #[trigger] from[k] < i && pair_views(out@)[k]
                    == rv[from[k]] && goal.contains(rv[from[k]]),
            forall|k: int, m: int| 0 <= k < m < out.len() ==> from[k] < from[m],
            forall|m: int|
                0 <= m < i && goal.contains(#[trigger] rv[m]) ==> pair_views(out@).contains(rv[m]),
            out.len() < i ==> exists|m: int| 0 <= m < i && !goal.contains(#[trigger] rv[m]),
        decreases r.len() - i,
    {
        assert(rv.to_set().contains(rv[i as int]));
        if is_similar(l1, l2, r, r[i].0, r[i].1) {
            let ghost before = out@;
            out.push(r[i]);
            proof {
                from = from.push(i as int);
                assert(pair_views(out@) =~= pair_views(before).push(rv[i as int]));
                assert forall|m: int|
                    0 <= m < i + 1 && goal.contains(#[trigger] rv[m]) implies pair_views(
                    out@,
                ).contains(rv[m]) by {
                    if m < i {
                        let k = choose|k: int|
                            0 <= k < before.len() && pair_views(before)[k] == rv[m];
                        assert(pair_views(out@)[k] == rv[m]);
                    } else {
                        assert(pair_views(out@)[before.len() as int] == rv[m]);
                    }
                }
            }
        }
        i += 1;
    }
    proof {
        assert(rv.take(r.len() as int) =~= rv);
        if out.len() < r.len() {
            let m = choose|m: int| 0 <= m < r.len() && !goal.contains(#[trigger] rv[m]);
            assert(rv.to_set().contains(rv[m]));
        }
        assert forall|pq: (Term, Term)| pair_views(out@).to_set().contains(pq) <==> goal.contains(
            pq,
        ) by {
            if pair_views(out@).contains(pq) {
                let k = choose|k: int| 0 <= k < out.len() && pair_views(out@)[k] == pq;
                assert(goal.contains(rv[from[k]]));
            }
            if goal.contains(pq) {
                assert(rv.contains(pq));
                let m = choose|m: int| 0 <= m < rv.len() && rv[m] == pq;
                assert(pair_views(out@).contains(rv[m]));
            }
        }
        assert(pair_views(out@).to_set() =~= goal);
        if rv.no_duplicates() {
            assert forall|k: int, m: int|
                0 <= k < out.len() && 0 <= m < out.len() && k != m implies pair_views(out@)[k]
                != pair_views(out@)[m] by {
                assert(from[k] != from[m]);
            }
        }
    }
    out
}

/// The greatest fixed point of refinement below `top`: the relation is
/// refined until refining takes nothing away.
fn gfp<'a, 'b>(l1: &Lts, l2: &Lts, top: Bisimulation<'a, 'b>) -> (r: Bisimulation<'a, 'b>)
    requires
        bisimilarity(l1@, l2@).subset_of(pair_views(top@).to_set()),
        pair_views(top@).to_set().subset_of(all_pairs(l1@, l2@)),
    ensures
        pair_views(r@).to_set() == bisimilarity(l1@, l2@),
        pair_views(top@).no_duplicates() ==> pair_views(r@).no_duplicates(),
{
    let mut curr = top;
    loop
        invariant
            bisimilarity(l1@, l2@).subset_of(pair_views(curr@).to_set()),
            pair_views(curr@).to_set().subset_of(all_pairs(l1@, l2@)),
            pair_views(top@).no_duplicates() ==> pair_views(curr@).no_duplicates(),
        decreases curr.len(),
    {
        let new = refined(l1, l2, &curr);
        proof {
            lemma_refine_keeps_bisimilar(l1@, l2@, pair_views(curr@).to_set());
        }
        if new.len() == curr.len() {
            proof {
                lemma_fixed_point_is_bisimilar(l1@, l2@, pair_views(curr@).to_set());
                assert(pair_views(curr@).to_set() =~= bisimilarity(l1@, l2@));
            }
            return curr;
        }
        curr = new;
    }
}

/// Every pair of the product of two lists of nodes is a pair of nodes, and
/// the other way round.
proof fn lemma_product_is_all_pairs(
    l1: Set<Step>,
    l2: Set<Step>,
    xs: Seq<Term>,
    ys: Seq<Term>,
    top: Seq<(Term, Term)>,
)
    requires
        xs.to_set() == nodes_of(l1),
        ys.to_set() == nodes_of(l2),
        xs.no_duplicates(),
        ys.no_duplicates(),
        top.len() == xs.len() * ys.len(),
        forall|i: int, j: int|
            #![trigger xs[i], ys[j]]
            0 <= i < xs.len() && 0 <= j < ys.len() ==> top[i * ys.len() + j] == (xs[i], ys[j]),
    ensures
        top.to_set() == all_pairs(l1, l2),
        top.no_duplicates(),
{
    let n = xs.len() as int;
    let m = ys.len() as int;
    assert forall|k: int| 0 <= k < top.len() implies 0 <= k / m < n && 0 <= k % m < m && #[trigger] top[k]
        == (xs[k / m], ys[k % m]) by {
        assert(m > 0) by (nonlinear_arith)
            requires
                0 <= k < n * m,
                n >= 0,
                m >= 0,
        ;
        vstd::arithmetic::div_mod::lemma_fundamental_div_mod(k, m);
        vstd::arithmetic::div_mod::lemma_mod_bound(k, m);
        vstd::arithmetic::div_mod::lemma_div_pos_is_pos(k, m);
        assert(k < m * n) by (nonlinear_arith)
            requires
                k < n * m,
        ;
        vstd::arithmetic::div_mod::lemma_multiply_divide_lt(k, m, n);
        assert((k / m) * m + k % m == k) by (nonlinear_arith)
            requires
                k == m * (k / m) + (k % m),
        ;
        let i = k / m;
        let j = k % m;
        assert(top[i * ys.len() + j] == (xs[i], ys[j]));
    }
    assert forall|pq: (Term, Term)| top.to_set().contains(pq) <==> all_pairs(l1, l2).contains(
        pq,
    ) by {
        if top.contains(pq) {
            let k = choose|k: int| 0 <= k < top.len() && top[k] == pq;
            assert(top[k] == (xs[k / m], ys[k % m]));
            assert(xs.to_set().contains(xs[k / m]));
            assert(ys.to_set().contains(ys[k % m]));
        }
        if all_pairs(l1, l2).contains(pq) {
            assert(xs.to_set().contains(pq.0));
            assert(ys.to_set().contains(pq.1));
            let i = choose|i: int| 0 <= i < xs.len() && xs[i] == pq.0;
            let j = choose|j: int| 0 <= j < ys.len() && ys[j] == pq.1;
            assert(0 <= i * m + j < n * m) by (nonlinear_arith)
                requires
                    0 <= i < n,
                    0 <= j < m,
            ;
            assert(top[i * ys.len() + j] == (xs[i], ys[j]));
        }
    }
    assert(top.to_set() =~= all_pairs(l1, l2));
    assert forall|k: int, l: int| 0 <= k < top.len() && 0 <= l < top.len() && k != l implies top[k]
        != top[l] by {
        assert(top[k] == (xs[k / m], ys[k % m]));
        assert(top[l] == (xs[l / m], ys[l % m]));
        if top[k] == top[l] {
            assert(k / m == l / m);
            assert(k % m == l % m);
            vstd::arithmetic::div_mod::lemma_fundamental_div_mod(k, m);
            vstd::arithmetic::div_mod::lemma_fundamental_div_mod(l, m);
        }
    }
}

impl Lts {
    /// The strong bisimilarity of two systems, where the number of pairs of
    /// their nodes fits the machine; see [`Lts::bisimilarity`].
    pub fn checked_bisimilarity<'a, 'b>(&'a self, other: &'b Lts) -> (r: Option<
        Bisimulation<'a, 'b>,
    >)
        ensures
            match r {
                Some(b) => pair_views(b@).to_set() == bisimilarity(self@, other@) && pair_views(
                    b@,
                ).no_duplicates(),
                None => nodes_of(self@).len() * nodes_of(other@).len() > usize::MAX,
            },
    {
        let xs = self.nodes();
        let ys = other.nodes();
        proof {
            node_views(xs@).unique_seq_to_set();
            node_views(ys@).unique_seq_to_set();
        }
        match xs.len().checked_mul(ys.len()) {
            Some(_) => Some(self.bisimilarity(other)),
            None => None,
        }
    }

    /// The strong bisimilarity of two systems: the pairs of a node of `self`
    /// and a node of `other` that some bisimulation relates, each once; see
    /// [`bisimilarity`]. The number of pairs of nodes must fit the machine.
    pub fn bisimilarity<'a, 'b>(&'a self, other: &'b Lts) -> (r: Bisimulation<'a, 'b>)
        requires
            nodes_of(self@).len() * nodes_of(other@).len() <= usize::MAX,
        ensures
            pair_views(r@).to_set() == bisimilarity(self@, other@),
            pair_views(r@).no_duplicates(),
    {
        let xs = self.nodes();
        let ys = other.nodes();
        proof {
            node_views(xs@).unique_seq_to_set();
            node_views(ys@).unique_seq_to_set();
        }
        let top = cartesian_product(&xs, &ys);
        proof {
            assert forall|i: int, j: int|
                #![trigger node_views(xs@)[i], node_views(ys@)[j]]
                0 <= i < xs.len() && 0 <= j < ys.len() implies pair_views(top@)[i * ys.len() + j]
                == (node_views(xs@)[i], node_views(ys@)[j]) by {
                assert(0 <= i * ys.len() + j < xs.len() * ys.len()) by (nonlinear_arith)
                    requires
                        0 <= i < xs.len(),
                        0 <= j < ys.len(),
                ;
                let x = xs[i];
                let y = ys[j];
                assert(top[i * ys.len() + j] == (x, y));
            }
            lemma_product_is_all_pairs(
                self@,
                other@,
                node_views(xs@),
                node_views(ys@),
                pair_views(top@),
            );
        }
        gfp(self, other, top)
    }
}


/// Whether a list of pairs holds the pair of `p` and `q`, in that order or the
/// other way round.
fn related_either_way(r: &Bisimulation, p: &Process, q: &Process) -> (b: bool)
    ensures
        b == (pair_views(r@).contains((p@, q@)) || pair_views(r@).contains((q@, p@))),
{
    related(r, p, q) || related(r, q, p)
}

/// The relation with every pair also taken the other way round.
pub open spec fn symmetric_closure(r: Relation) -> Relation {
    Set::new(|pq: (Term, Term)| r.contains(pq) || r.contains((pq.1, pq.0)))
}

/// Whether every pair of `a` is in `b`, in its own order or the other way
/// round.
fn within_either_way(a: &Bisimulation, b: &Bisimulation) -> (r: bool)
    ensures
        r == pair_views(a@).to_set().subset_of(symmetric_closure(pair_views(b@).to_set())),
{
    let ghost av = pair_views(a@);
    let ghost goal = symmetric_closure(pair_views(b@).to_set());
    let mut i: usize = 0;
    while i < a.len()
        invariant
            i <= a.len(),
            av == pair_views(a@),
            goal == symmetric_closure(pair_views(b@).to_set()),
            forall|k: int| 0 <= k < i ==> goal.contains(#[trigger] av[k]),
        decreases a.len() - i,
    {
        if !related_either_way(b, a[i].0, a[i].1) {
            assert(av.to_set().contains(av[i as int]));
            assert(!goal.contains(av[i as int]));
            return false;
        }
        i += 1;
    }
    proof {
        assert forall|pq: (Term, Term)| av.to_set().contains(pq) implies goal.contains(pq) by {
            let k = choose|k: int| 0 <= k < av.len() && av[k] == pq;
            assert(goal.contains(av[k]));
        }
    }
    true
}

/// Whether the relation `r` is a bisimulation between `l1` and `l2`: whether
/// refining it takes nothing away; see [`is_bisimulation`].
pub fn check_bisimulation(l1: &Lts, l2: &Lts, r: &Bisimulation) -> (b: bool)
    ensures
        b == is_bisimulation(l1@, l2@, pair_views(r@).to_set()),
{
    let kept = refined(l1, l2, r);
    kept.len() == r.len()
}

/// Whether two bisimulations are the same relation, a pair and its converse
/// counting as one: whether each holds every pair of the other in one of the
/// two orders.
pub fn same_bisimulation(a: &Bisimulation, b: &Bisimulation) -> (r: bool)
    ensures
        r == (symmetric_closure(pair_views(a@).to_set()) == symmetric_closure(
            pair_views(b@).to_set(),
        )),
{
    let forth = within_either_way(a, b);
    let back = within_either_way(b, a);
    proof {
        let sa = pair_views(a@).to_set();
        let sb = pair_views(b@).to_set();
        if forth && back {
            assert forall|pq: (Term, Term)|
                symmetric_closure(sa).contains(pq) <==> symmetric_closure(sb).contains(pq) by {
                if sa.contains(pq) {
                    assert(symmetric_closure(sb).contains(pq));
                }
                if sa.contains((pq.1, pq.0)) {
                    assert(symmetric_closure(sb).contains((pq.1, pq.0)));
                }
                if sb.contains(pq) {
                    assert(symmetric_closure(sa).contains(pq));
                }
                if sb.contains((pq.1, pq.0)) {
                    assert(symmetric_closure(sa).contains((pq.1, pq.0)));
                }
            }
            assert(symmetric_closure(sa) =~= symmetric_closure(sb));
        }
        if symmetric_closure(sa) == symmetric_closure(sb) {
            assert forall|pq: (Term, Term)| sa.contains(pq) implies symmetric_closure(sb).contains(
                pq,
            ) by {
                assert(symmetric_closure(sa).contains(pq));
            }
            assert forall|pq: (Term, Term)| sb.contains(pq) implies symmetric_closure(sa).contains(
                pq,
            ) by {
                assert(symmetric_closure(sb).contains(pq));
            }
        }
    }
    forth && back
}

} // verus!
