//! The tables in which a transition system and a bisimulation are shown: a
//! header row, then one row of texts for each item.
use vstd::prelude::*;

use crate::bisim::{pair_views, Bisimulation};
use crate::lts::{edge_views, edges_of, node_views, nodes_of, steps, Lts};
use crate::process::{Label, Step, Term};
use crate::table::names_view;

verus! {

/// The texts of the rows of a table.
pub open spec fn rows_view(rows: Seq<Vec<String>>) -> Seq<Seq<Seq<char>>> {
    Seq::new(rows.len(), |i: int| names_view(rows[i]@))
}

/// The row of a pair of a bisimulation: `=` stands between two nodes that are
/// the same term, `~` between two that are not.
pub open spec fn bisimulation_row(pq: (Term, Term)) -> Seq<Seq<char>> {
    seq![
        pq.0.text(),
        if pq.0 == pq.1 {
            "="@
        } else {
            "~"@
        },
        pq.1.text(),
    ]
}

/// The row of a transition: source, label and target.
pub open spec fn transition_row(s: Step) -> Seq<Seq<char>> {
    seq![s.0.text(), s.1.text(), s.2.text()]
}

fn header3(a: &str, b: &str, c: &str) -> (r: Vec<String>)
    ensures
        names_view(r@) == seq![a@, b@, c@],
{
    let mut row: Vec<String> = Vec::new();
    row.push(String::from_str(a));
    row.push(String::from_str(b));
    row.push(String::from_str(c));
    assert(names_view(row@) =~= seq![a@, b@, c@]);
    row
}

fn single(a: String) -> (r: Vec<String>)
    ensures
        names_view(r@) == seq![a@],
{
    let mut row: Vec<String> = Vec::new();
    row.push(a);
    assert(names_view(row@) =~= seq![a@]);
    row
}

/// The table of a bisimulation: the header `State`, empty, `State`, then the
/// row of each pair, in order.
pub fn print_bisimulation(b: &Bisimulation) -> (r: Vec<Vec<String>>)
    ensures
        r.len() == b.len() + 1,
        rows_view(r@)[0] == seq!["State"@, ""@, "State"@],
        forall|i: int|
            1 <= i <= b.len() ==> #[trigger] rows_view(r@)[i] == bisimulation_row(
                pair_views(b@)[i - 1],
            ),
{
    let mut out: Vec<Vec<String>> = Vec::new();
    out.push(header3("State", "", "State"));
    let mut i: usize = 0;
    while i < b.len()
        invariant
            i <= b.len(),
            out.len() == i + 1,
            rows_view(out@)[0] == seq!["State"@, ""@, "State"@],
            forall|k: int|
                1 <= k <= i ==> #[trigger] rows_view(out@)[k] == bisimulation_row(
                    pair_views(b@)[k - 1],
                ),
        decreases b.len() - i,
    {
        let (p, q) = b[i];
        let mark = if *p == *q {
            "="
        } else {
            "~"
        };
        let mut row: Vec<String> = Vec::new();
        row.push(p.to_text());
        row.push(String::from_str(mark));
        row.push(q.to_text());
        assert(names_view(row@) =~= bisimulation_row(pair_views(b@)[i as int]));
        let ghost before = out@;
        out.push(row);
        assert(rows_view(out@) =~= rows_view(before).push(names_view(row@)));
        i += 1;
    }
    out
}

/// The table of a system's transitions: the header `State`, `Action`,
/// `Next state`, then the row of each transition, each once.
pub fn print_transitions(lts: &Lts) -> (r: Vec<Vec<String>>)
    ensures
        r.len() == lts@.len() + 1,
        rows_view(r@)[0] == seq!["State"@, "Action"@, "Next state"@],
        forall|row: Seq<Seq<char>>|
            rows_view(r@).skip(1).contains(row) <==> exists|s: Step| #[trigger]
                lts@.contains(s) && row == transition_row(s),
{
    let ts = lts.transitions();
    let n = lts.len();
    let ghost ds = steps(ts@);
    proof {
        ds.unique_seq_to_set();
    }
    let mut out: Vec<Vec<String>> = Vec::new();
    out.push(header3("State", "Action", "Next state"));
    let mut i: usize = 0;
    while i < ts.len()
        invariant
            i <= ts.len(),
            ds == steps(ts@),
            out.len() == i + 1,
            rows_view(out@)[0] == seq!["State"@, "Action"@, "Next state"@],
            forall|k: int| 1 <= k <= i ==> #[trigger] rows_view(out@)[k] == transition_row(ds[k - 1]),
        decreases ts.len() - i,
    {
        let t = &ts[i];
        let mut row: Vec<String> = Vec::new();
        row.push(t.0.to_text());
        row.push(t.1.to_text());
        row.push(t.2.to_text());
        assert(names_view(row@) =~= transition_row(ds[i as int]));
        let ghost before = out@;
        out.push(row);
        assert(rows_view(out@) =~= rows_view(before).push(names_view(row@)));
        i += 1;
    }
    proof {
        let rows = rows_view(out@).skip(1);
        assert forall|row: Seq<Seq<char>>| rows.contains(row) <==> exists|s: Step| #[trigger]
            lts@.contains(s) && row == transition_row(s) by {
            if rows.contains(row) {
                let k = choose|k: int| 0 <= k < rows.len() && rows[k] == row;
                assert(rows_view(out@)[k + 1] == transition_row(ds[k]));
                assert(ds.to_set().contains(ds[k]));
            }
            if exists|s: Step| #[trigger] lts@.contains(s) && row == transition_row(s) {
                let s = choose|s: Step| #[trigger] lts@.contains(s) && row == transition_row(s);
                assert(ds.to_set().contains(s));
                let k = choose|k: int| 0 <= k < ds.len() && ds[k] == s;
                assert(rows_view(out@)[k + 1] == transition_row(ds[k]));
                assert(rows[k] == row);
            }
        }
    }
    out
}

/// The table of a system's nodes: the header `State`, then the text of each
/// node, each node once.
pub fn print_states(lts: &Lts) -> (r: Vec<Vec<String>>)
    ensures
        r.len() == nodes_of(lts@).len() + 1,
        rows_view(r@)[0] == seq!["State"@],
        forall|row: Seq<Seq<char>>|
            rows_view(r@).skip(1).contains(row) <==> exists|n: Term| #[trigger]
                nodes_of(lts@).contains(n) && row == seq![n.text()],
{
    let ns = lts.nodes();
    let ghost vs = node_views(ns@);
    proof {
        vs.unique_seq_to_set();
    }
    let mut out: Vec<Vec<String>> = Vec::new();
    out.push(single(String::from_str("State")));
    let mut i: usize = 0;
    while i < ns.len()
        invariant
            i <= ns.len(),
            vs == node_views(ns@),
            out.len() == i + 1,
            rows_view(out@)[0] == seq!["State"@],
            forall|k: int| 1 <= k <= i ==> #[trigger] rows_view(out@)[k] == seq![vs[k - 1].text()],
        decreases ns.len() - i,
    {
        let ghost before = out@;
        let row = single(ns[i].to_text());
        out.push(row);
        assert(rows_view(out@) =~= rows_view(before).push(names_view(row@)));
        i += 1;
    }
    proof {
        let rows = rows_view(out@).skip(1);
        assert forall|row: Seq<Seq<char>>| rows.contains(row) <==> exists|n: Term| #[trigger]
            nodes_of(lts@).contains(n) && row == seq![n.text()] by {
            if rows.contains(row) {
                let k = choose|k: int| 0 <= k < rows.len() && rows[k] == row;
                assert(rows_view(out@)[k + 1] == seq![vs[k].text()]);
                assert(vs.to_set().contains(vs[k]));
            }
            if exists|n: Term| #[trigger] nodes_of(lts@).contains(n) && row == seq![n.text()] {
                let n = choose|n: Term| #[trigger]
                    nodes_of(lts@).contains(n) && row == seq![n.text()];
                assert(vs.to_set().contains(n));
                let k = choose|k: int| 0 <= k < vs.len() && vs[k] == n;
                assert(rows_view(out@)[k + 1] == seq![vs[k].text()]);
                assert(rows[k] == row);
            }
        }
    }
    out
}

/// The table of a system's labels: the header `Action`, then the text of each
/// label, each label once.
pub fn print_actions(lts: &Lts) -> (r: Vec<Vec<String>>)
    ensures
        r.len() == edges_of(lts@).len() + 1,
        rows_view(r@)[0] == seq!["Action"@],
        forall|row: Seq<Seq<char>>|
            rows_view(r@).skip(1).contains(row) <==> exists|l: Label| #[trigger]
                edges_of(lts@).contains(l) && row == seq![l.text()],
{
    let es = lts.edges();
    let ghost vs = edge_views(es@);
    proof {
        vs.unique_seq_to_set();
    }
    let mut out: Vec<Vec<String>> = Vec::new();
    out.push(single(String::from_str("Action")));
    let mut i: usize = 0;
    while i < es.len()
        invariant
            i <= es.len(),
            vs == edge_views(es@),
            out.len() == i + 1,
            rows_view(out@)[0] == seq!["Action"@],
            forall|k: int| 1 <= k <= i ==> #[trigger] rows_view(out@)[k] == seq![vs[k - 1].text()],
        decreases es.len() - i,
    {
        let ghost before = out@;
        let row = single(es[i].to_text());
        out.push(row);
        assert(rows_view(out@) =~= rows_view(before).push(names_view(row@)));
        i += 1;
    }
    proof {
        let rows = rows_view(out@).skip(1);
        assert forall|row: Seq<Seq<char>>| rows.contains(row) <==> exists|l: Label| #[trigger]
            edges_of(lts@).contains(l) && row == seq![l.text()] by {
            if rows.contains(row) {
                let k = choose|k: int| 0 <= k < rows.len() && rows[k] == row;
                assert(rows_view(out@)[k + 1] == seq![vs[k].text()]);
                assert(vs.to_set().contains(vs[k]));
            }
            if exists|l: Label| #[trigger] edges_of(lts@).contains(l) && row == seq![l.text()] {
                let l = choose|l: Label| #[trigger]
                    edges_of(lts@).contains(l) && row == seq![l.text()];
                assert(vs.to_set().contains(l));
                let k = choose|k: int| 0 <= k < vs.len() && vs[k] == l;
                assert(rows_view(out@)[k + 1] == seq![vs[k].text()]);
                assert(rows[k] == row);
            }
        }
    }
    out
}

} // verus!
