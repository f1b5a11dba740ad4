use ccs::bisim::{check_bisimulation, same_bisimulation, Bisimulation};
use ccs::context::Context;
use ccs::lts::Lts;
use ccs::pretty_print::{print_actions, print_bisimulation, print_states, print_transitions};
use ccs::process::{Channel, Process};

fn send(name: &str, then: Process) -> Process {
    Process::action(Channel::send(name), then)
}

fn relates(b: &Bisimulation, p: &Process, q: &Process) -> bool {
    b.iter().any(|(x, y)| *x == p && *y == q)
}

fn system(defs: Vec<(&str, Process)>, main: &str) -> Lts {
    let mut ctx = Context::new();
    for (name, body) in defs {
        ctx.bind_process(name.to_string(), body);
    }
    ctx.set_main(main.to_string());
    ctx.to_lts().unwrap()
}

#[test]
fn prefix_system_is_bisimilar_to_itself() {
    let lts = system(vec![("main", send("a", Process::nil()))], "main");
    let b = lts.bisimilarity(&lts);
    assert_eq!(b.len(), 2);
    assert!(relates(&b, &Process::constant("main"), &Process::constant("main")));
    assert!(relates(&b, &Process::nil(), &Process::nil()));
}

#[test]
fn loop_is_bisimilar_to_itself_alone() {
    let lts = system(
        vec![
            ("P", send("a", Process::constant("P"))),
            ("main", Process::constant("P")),
        ],
        "main",
    );
    let b = lts.bisimilarity(&lts);
    assert_eq!(b.len(), 1);
    assert!(relates(&b, &Process::constant("main"), &Process::constant("main")));
}

#[test]
fn equal_bodies_under_two_names_are_bisimilar() {
    let l1 = system(vec![("A", send("a", Process::nil()))], "A");
    let l2 = system(vec![("B", send("a", Process::nil()))], "B");
    let b = l1.bisimilarity(&l2);
    assert_eq!(b.len(), 2);
    assert!(relates(&b, &Process::constant("A"), &Process::constant("B")));
    assert!(relates(&b, &Process::nil(), &Process::nil()));
    assert!(!relates(&b, &Process::constant("A"), &Process::nil()));
}

#[test]
fn system_without_transitions_has_no_pairs() {
    let lts = system(
        vec![(
            "main",
            Process::restriction(send("a", Process::nil()), vec!["a".to_string()]),
        )],
        "main",
    );
    assert_eq!(lts.len(), 0);
    assert!(lts.bisimilarity(&lts).is_empty());
}

#[test]
fn different_labels_are_not_bisimilar() {
    let a = Process::constant("a");
    let b = Process::constant("b");
    let c = Process::constant("c");
    let d = Process::constant("d");
    let ch1 = Channel::send("ch1");
    let ch2 = Channel::send("ch2");
    let lts1 = Lts::from_array([(&a, &ch1, &b)]);
    let lts2 = Lts::from_array([(&c, &ch2, &d)]);
    let r = lts1.bisimilarity(&lts2);
    assert_eq!(r.len(), 1);
    assert!(relates(&r, &b, &d));
}

#[test]
fn bisimilarity_is_reflexive() {
    let p = Process::constant("p");
    let q = Process::constant("q");
    let r = Process::constant("r");
    let a = Channel::send("a");
    let b = Channel::recv("b");
    let lts = Lts::from_array([(&p, &a, &q), (&q, &b, &r), (&r, &a, &p), (&p, &b, &p)]);
    let rel = lts.bisimilarity(&lts);
    for n in lts.nodes() {
        assert!(relates(&rel, n, n));
    }
}

#[test]
fn bisimilarity_is_symmetric() {
    let p = Process::constant("p");
    let q = Process::constant("q");
    let r = Process::constant("r");
    let s = Process::constant("s");
    let a = Channel::send("a");
    let b = Channel::send("b");
    let l1 = Lts::from_array([(&p, &a, &q), (&q, &b, &p)]);
    let l2 = Lts::from_array([(&r, &a, &s), (&s, &b, &r), (&s, &a, &s)]);
    let forth = l1.bisimilarity(&l2);
    let back = l2.bisimilarity(&l1);
    assert_eq!(forth.len(), back.len());
    for (x, y) in forth.iter() {
        assert!(relates(&back, y, x));
    }
    assert!(relates(&forth, &q, &r) == relates(&back, &r, &q));
}

#[test]
fn a_choice_made_early_is_told_from_one_made_late() {
    let p0 = Process::constant("p0");
    let p1 = Process::constant("p1");
    let p2 = Process::constant("p2");
    let p3 = Process::constant("p3");
    let q0 = Process::constant("q0");
    let q1 = Process::constant("q1");
    let q2 = Process::constant("q2");
    let q3 = Process::constant("q3");
    let q4 = Process::constant("q4");
    let a = Channel::send("a");
    let b = Channel::send("b");
    let c = Channel::send("c");
    let late = Lts::from_array([(&p0, &a, &p1), (&p1, &b, &p2), (&p1, &c, &p3)]);
    let early = Lts::from_array([
        (&q0, &a, &q1),
        (&q0, &a, &q2),
        (&q1, &b, &q3),
        (&q2, &c, &q4),
    ]);
    let rel = late.bisimilarity(&early);
    assert!(!relates(&rel, &p0, &q0));
    assert!(relates(&rel, &p2, &q3));
    assert!(relates(&rel, &p3, &q4));
    assert!(!relates(&rel, &p1, &q1));
    assert_eq!(rel.len(), 4);
}

#[test]
fn product_of_nodes_is_refined_pair_by_pair() {
    let p = Process::constant("p");
    let q = Process::constant("q");
    let a = Channel::send("a");
    let lts = Lts::from_array([(&p, &a, &q)]);
    let rel = lts.bisimilarity(&lts);
    assert_eq!(rel.len(), 2);
    assert!(relates(&rel, &p, &p));
    assert!(relates(&rel, &q, &q));
    assert!(!relates(&rel, &p, &q));
    assert!(!relates(&rel, &q, &p));
}

#[test]
fn table_of_a_bisimulation() {
    let l1 = system(vec![("A", send("a", Process::nil()))], "A");
    let l2 = system(vec![("B", send("a", Process::nil()))], "B");
    let b = l1.bisimilarity(&l2);
    let table = print_bisimulation(&b);
    assert_eq!(table.len(), 3);
    assert_eq!(table[0], vec!["State", "", "State"]);
    assert!(table[1..].contains(&vec!["A".to_string(), "~".to_string(), "B".to_string()]));
    assert!(table[1..].contains(&vec![
        "NIL".to_string(),
        "=".to_string(),
        "NIL".to_string()
    ]));
}

#[test]
fn tables_of_a_system() {
    let lts = system(vec![("main", send("a", Process::nil()))], "main");
    let transitions = print_transitions(&lts);
    assert_eq!(
        transitions,
        vec![
            vec!["State", "Action", "Next state"],
            vec!["main", "a!", "NIL"]
        ]
    );
    let states = print_states(&lts);
    assert_eq!(states.len(), 3);
    assert_eq!(states[0], vec!["State"]);
    assert!(states[1..].contains(&vec!["main".to_string()]));
    assert!(states[1..].contains(&vec!["NIL".to_string()]));
    let actions = print_actions(&lts);
    assert_eq!(actions, vec![vec!["Action"], vec!["a!"]]);
}

#[test]
fn bisimulations_are_told_from_other_relations() {
    let p = Process::constant("p");
    let q = Process::constant("q");
    let a = Channel::send("a");
    let lts = Lts::from_array([(&p, &a, &q)]);
    let identity: Bisimulation = vec![(&p, &p), (&q, &q)];
    assert!(check_bisimulation(&lts, &lts, &identity));
    let empty: Bisimulation = vec![];
    assert!(check_bisimulation(&lts, &lts, &empty));
    let loose: Bisimulation = vec![(&p, &q)];
    assert!(!check_bisimulation(&lts, &lts, &loose));
    let partial: Bisimulation = vec![(&p, &p)];
    assert!(!check_bisimulation(&lts, &lts, &partial));
    let ends: Bisimulation = vec![(&q, &q)];
    assert!(check_bisimulation(&lts, &lts, &ends));
    assert!(check_bisimulation(&lts, &lts, &lts.bisimilarity(&lts)));
    let swapped: Bisimulation = vec![(&q, &p)];
    assert!(same_bisimulation(&loose, &swapped));
    assert!(same_bisimulation(&identity, &identity));
    assert!(!same_bisimulation(&identity, &partial));
    assert!(!same_bisimulation(&loose, &identity));
    let both: Bisimulation = vec![(&p, &q), (&q, &p)];
    assert!(same_bisimulation(&both, &loose));
}

#[test]
fn systems_are_equal_as_sets() {
    let p = Process::constant("p");
    let q = Process::constant("q");
    let a = Channel::send("a");
    let b = Channel::recv("b");
    let one = Lts::from_array([(&p, &a, &q), (&q, &b, &p)]);
    let other = Lts::from_array([(&q, &b, &p), (&p, &a, &q), (&q, &b, &p)]);
    let less = Lts::from_array([(&p, &a, &q)]);
    let different = Lts::from_array([(&p, &a, &q), (&q, &a, &p)]);
    assert!(one == other);
    assert!(one != less);
    assert!(one != different);
    let copy = one.clone();
    assert!(copy == one);
    assert_eq!(copy.len(), 2);
    let mut grown = one.clone();
    assert!(grown.insert((q.clone(), a.clone(), q.clone())));
    assert!(!grown.insert((q.clone(), a.clone(), q.clone())));
    assert_eq!(grown.len(), 3);
    assert!(Lts::empty().len() == 0);
}

#[test]
fn bisimilarity_where_the_pairs_can_be_counted() {
    let lts = system(vec![("main", send("a", Process::nil()))], "main");
    let b = lts.checked_bisimilarity(&lts).unwrap();
    assert_eq!(b.len(), 2);
    assert!(same_bisimulation(&b, &lts.bisimilarity(&lts)));
}
