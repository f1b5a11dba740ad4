use ccs::context::Context;
use ccs::lts::Lts;
use ccs::process::{Channel, Process};
use ccs::vp::context::Context as ContextVp;
use ccs::vp::process::{Channel as ChannelVp, Process as ProcessVp};
use ccs::vp::values::{AExpr, BExpr, Value};
use std::collections::HashSet;

fn send(name: &str, then: Process) -> Process {
    Process::action(Channel::send(name), then)
}

fn constants_of(p: &Process, out: &mut Vec<String>) {
    match p {
        Process::Constant(name) => out.push(name.clone()),
        Process::Action(_, q) => constants_of(q, out),
        Process::Sum(ps) => ps.iter().for_each(|q| constants_of(q, out)),
        Process::Par(l, r) => {
            constants_of(l, out);
            constants_of(r, out);
        }
        Process::Substitution(q, _) => constants_of(q, out),
        Process::Restriction(q, _) => constants_of(q, out),
    }
}

fn constants(p: &Process) -> Vec<String> {
    let mut out = vec![];
    constants_of(p, &mut out);
    out
}

fn reached(root: &Process) -> Vec<Process> {
    let mut states = vec![root.clone()];
    let mut i = 0;
    while i < states.len() {
        for t in states[i].derive().transitions() {
            if !states.contains(&t.2) {
                states.push(t.2.clone());
            }
        }
        i += 1;
    }
    states
}

#[test]
fn unfolding_is_complete_where_nothing_recurs() {
    let mut ctx = Context::new();
    ctx.bind_process("C".to_string(), send("c", Process::nil()));
    ctx.bind_process(
        "B".to_string(),
        Process::sum(vec![send("b", Process::constant("C")), Process::constant("C")]),
    );
    ctx.bind_process(
        "A".to_string(),
        Process::par(Process::constant("B"), send("a", Process::constant("C"))),
    );
    let root = Process::constant("A").unfold_consts(&ctx).unwrap();
    assert!(constants(&root).is_empty());
    for state in reached(&root) {
        assert!(constants(&state).is_empty());
    }
}

#[test]
fn unfolding_leaves_only_constants_that_were_entered() {
    let mut ctx = Context::new();
    ctx.bind_process(
        "P".to_string(),
        send("a", Process::par(Process::constant("Q"), Process::constant("P"))),
    );
    ctx.bind_process("Q".to_string(), send("b", Process::constant("P")));
    let root = Process::constant("P").unfold_consts(&ctx).unwrap();
    assert_eq!(
        root,
        send(
            "a",
            Process::par(send("b", Process::constant("P")), Process::constant("P"))
        )
    );
    for name in constants(&root) {
        assert!(ctx.get_process(&name).is_some());
    }
}

#[test]
fn every_run_of_an_unfolded_term_ends() {
    let p = Process::par(
        send("a", send("b", Process::nil())),
        Process::sum(vec![
            Process::action(Channel::recv("a"), Process::nil()),
            send("c", Process::nil()),
        ]),
    );
    let states = reached(&p);
    assert!(states.len() > 3);
    assert!(states.iter().any(|s| s.derive().len() == 0));
}

#[test]
fn compiled_definitions_bind_what_they_refer_to() {
    let ping = ProcessVp::if_then_else(
        BExpr::NumLt(AExpr::Var("n".to_string()), AExpr::Lit(2)),
        ProcessVp::action(
            ChannelVp::Send(
                "ping".to_string(),
                Some(Value::AExpr(AExpr::Var("n".to_string()))),
            ),
            ProcessVp::constant(
                "Pong",
                vec![Value::AExpr(AExpr::Add(
                    Box::new(AExpr::Var("n".to_string())),
                    Box::new(AExpr::Lit(1)),
                ))],
            ),
        ),
        ProcessVp::constant("Ping", vec![Value::AExpr(AExpr::Lit(0))]),
    );
    let pong = ProcessVp::action(
        ChannelVp::Recv("pong".to_string(), None),
        ProcessVp::constant("Ping", vec![Value::AExpr(AExpr::Var("n".to_string()))]),
    );
    let mut ctx = ContextVp::default();
    ctx.set_bounds((0, 3)).unwrap();
    ctx.bind_process("Ping".to_string(), (vec!["n".to_string()], ping));
    ctx.bind_process("Pong".to_string(), (vec!["n".to_string()], pong));
    ctx.bind_process(
        "main".to_string(),
        (
            vec![],
            ProcessVp::constant("Ping", vec![Value::AExpr(AExpr::Lit(0))]),
        ),
    );
    ctx.set_main("main".to_string());
    ctx.gen_values().unwrap();
    let ccs = ctx.to_ccs().unwrap();
    let table = ccs.constants();
    let bound: HashSet<String> = (0..table.len())
        .map(|i| table.entry(i).unwrap().0.clone())
        .collect();
    assert!(bound.contains("main"));
    for name in ["Ping#0", "Pong#1", "Ping#1", "Pong#2", "Ping#2"] {
        assert!(bound.contains(name));
    }
    assert_eq!(bound.len(), 6);
    for i in 0..table.len() {
        for name in constants(table.entry(i).unwrap().1) {
            assert!(bound.contains(&name));
        }
    }
    let lts = ccs.to_lts().unwrap();
    assert!(lts.len() > 0);
}

#[test]
fn weak_bisimilarity_is_strong_bisimilarity_of_the_weakened_systems() {
    let p: Vec<Process> = (0..4).map(|i| Process::constant(&format!("p{i}"))).collect();
    let q: Vec<Process> = (0..3).map(|i| Process::constant(&format!("q{i}"))).collect();
    let a = Channel::send("a");
    let b = Channel::send("b");
    let t = Channel::tau();
    let l1 = Lts::from_array([(&p[0], &a, &p[1]), (&p[1], &t, &p[2]), (&p[2], &b, &p[3])]);
    let l2 = Lts::from_array([(&q[0], &a, &q[1]), (&q[1], &b, &q[2])]);
    let strong = l1.bisimilarity(&l2);
    assert!(!strong.iter().any(|(x, y)| **x == p[0] && **y == q[0]));
    let w1 = l1.clone().weaken();
    let w2 = l2.clone().weaken();
    let weak = w1.bisimilarity(&w2);
    assert!(weak.iter().any(|(x, y)| **x == p[0] && **y == q[0]));
    assert!(weak.iter().any(|(x, y)| **x == p[1] && **y == q[1]));
    assert!(weak.iter().any(|(x, y)| **x == p[2] && **y == q[1]));
    assert!(!weak.iter().any(|(x, y)| **x == p[0] && **y == q[1]));
}

#[test]
fn processes_can_be_hashed() {
    let mut set = HashSet::new();
    set.insert(send("a", Process::nil()));
    set.insert(send("a", Process::nil()));
    set.insert(send("b", Process::nil()));
    assert_eq!(set.len(), 2);
}
