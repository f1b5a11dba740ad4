//! The product of lists of values: every way to pick one value of each list.
use vstd::prelude::*;

use crate::vp::process::clone_values;
use crate::vp::values::{vals, Val, Value};

verus! {

/// The values of a list of lists of values.
pub open spec fn lists(vs: Seq<Vec<Value>>) -> Seq<Seq<Val>> {
    Seq::new(vs.len(), |i: int| vals(vs[i]@))
}

/// The first `n` extensions of `prefix` by one element of `xs`, in the order
/// of `xs`.
pub open spec fn each<A>(prefix: Seq<A>, xs: Seq<A>, n: int) -> Seq<Seq<A>> {
    Seq::new(n as nat, |j: int| prefix.push(xs[j]))
}

/// Every extension of a prefix by one element of `xs`: the extensions of one
/// prefix stand together, in the order of `xs`, and these runs in the order
/// of the prefixes.
pub open spec fn extend<A>(prefixes: Seq<Seq<A>>, xs: Seq<A>) -> Seq<Seq<A>>
    decreases prefixes.len(),
{
    if prefixes.len() == 0 {
        Seq::empty()
    } else {
        extend(prefixes.drop_last(), xs) + each(prefixes.last(), xs, xs.len() as int)
    }
}

/// The product of lists: every list that holds one element of each, in the
/// order of the lists. The picks from the first list change slowest. The
/// product of no list is the one empty list.
pub open spec fn product<A>(ls: Seq<Seq<A>>) -> Seq<Seq<A>>
    decreases ls.len(),
{
    if ls.len() == 0 {
        seq![Seq::empty()]
    } else {
        extend(product(ls.drop_last()), ls.last())
    }
}

/// The lengths of lists, multiplied.
pub open spec fn count<A>(ls: Seq<Seq<A>>) -> nat
    decreases ls.len(),
{
    if ls.len() == 0 {
        1
    } else {
        count(ls.drop_last()) * ls.last().len()
    }
}

/// There are as many extensions as prefixes times elements.
pub proof fn lemma_extend_len<A>(prefixes: Seq<Seq<A>>, xs: Seq<A>)
    ensures
        extend(prefixes, xs).len() == prefixes.len() * xs.len(),
    decreases prefixes.len(),
{
    if prefixes.len() > 0 {
        lemma_extend_len(prefixes.drop_last(), xs);
        assert((prefixes.len() - 1) * xs.len() + xs.len() == prefixes.len() * xs.len())
            by (nonlinear_arith);
    }
}

/// The product of lists has as many members as the lengths of the lists
/// multiplied.
pub proof fn lemma_product_len<A>(ls: Seq<Seq<A>>)
    ensures
        product(ls).len() == count(ls),
    decreases ls.len(),
{
    if ls.len() > 0 {
        lemma_product_len(ls.drop_last());
        lemma_extend_len(product(ls.drop_last()), ls.last());
    }
}

/// The product of the lists `vals`; see [`product`].
pub fn permute(vals: Vec<Vec<Value>>) -> (r: Vec<Vec<Value>>)
    ensures
        lists(r@) == product(lists(vals@)),
{
    let ghost ls = lists(vals@);
    let mut perms: Vec<Vec<Value>> = Vec::new();
    perms.push(Vec::new());
    assert(lists(perms@) =~= seq![Seq::<Val>::empty()]) by {
        assert(crate::vp::values::vals(perms@[0]@) =~= Seq::<Val>::empty());
    }
    assert(ls.take(0).len() == 0);
    let mut i: usize = 0;
    while i < vals.len()
        invariant
            i <= vals.len(),
            ls == lists(vals@),
            lists(perms@) == product(ls.take(i as int)),
        decreases vals.len() - i,
    {
        let xs = &vals[i];
        let ghost prefixes = lists(perms@);
        let ghost elems = crate::vp::values::vals(xs@);
        let mut next: Vec<Vec<Value>> = Vec::new();
        let mut p: usize = 0;
        assert(lists(next@) =~= extend(prefixes.take(0), elems));
        while p < perms.len()
            invariant
                p <= perms.len(),
                prefixes == lists(perms@),
                elems == crate::vp::values::vals(xs@),
                lists(next@) == extend(prefixes.take(p as int), elems),
            decreases perms.len() - p,
        {
            let ghost base = lists(next@);
            let mut j: usize = 0;
            assert(lists(next@) =~= base + each(prefixes[p as int], elems, 0));
            while j < xs.len()
                invariant
                    j <= xs.len(),
                    p < perms.len(),
                    prefixes == lists(perms@),
                    elems == crate::vp::values::vals(xs@),
                    lists(next@) == base + each(prefixes[p as int], elems, j as int),
                decreases xs.len() - j,
            {
                let mut c = clone_values(&perms[p]);
                let ghost stem = c@;
                c.push(xs[j].clone());
                assert(crate::vp::values::vals(c@) =~= prefixes[p as int].push(elems[j as int])) by {
                    assert(crate::vp::values::vals(c@) =~= crate::vp::values::vals(stem).push(
                        elems[j as int],
                    ));
                }
                let ghost before = next@;
                next.push(c);
                assert(lists(next@) =~= lists(before).push(crate::vp::values::vals(c@)));
                assert(lists(next@) =~= base + each(prefixes[p as int], elems, j + 1));
                j += 1;
            }
            proof {
                let upto = prefixes.take(p + 1);
                assert(upto.drop_last() =~= prefixes.take(p as int));
                assert(upto.last() == prefixes[p as int]);
            }
            p += 1;
        }
        proof {
            assert(prefixes.take(perms.len() as int) =~= prefixes);
            let upto = ls.take(i + 1);
            assert(upto.drop_last() =~= ls.take(i as int));
            assert(upto.last() == elems);
        }
        perms = next;
        i += 1;
    }
    assert(ls.take(vals.len() as int) =~= ls);
    perms
}

} // verus!
