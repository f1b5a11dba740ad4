use ccs::context::Context;
use ccs::error::Error;
use ccs::lts::Lts;
use ccs::process::{Channel, Process, Substitution, Transition};

fn send(name: &str, then: Process) -> Process {
    Process::action(Channel::send(name), then)
}

fn recv(name: &str, then: Process) -> Process {
    Process::action(Channel::recv(name), then)
}

fn tau(then: Process) -> Process {
    Process::action(Channel::tau(), then)
}

fn context(defs: Vec<(&str, Process)>, main: &str) -> Context {
    let mut ctx = Context::new();
    for (name, body) in defs {
        ctx.bind_process(name.to_string(), body);
    }
    ctx.set_main(main.to_string());
    ctx
}

fn has(lts: &Lts, source: Process, label: Channel, target: Process) -> bool {
    let t: Transition = (source, label, target);
    lts.contains(&t)
}

#[test]
fn prefix_system_has_one_transition() {
    let ctx = context(vec![("main", send("a", Process::nil()))], "main");
    let lts = ctx.to_lts().unwrap();
    assert_eq!(lts.len(), 1);
    assert!(has(
        &lts,
        Process::constant("main"),
        Channel::send("a"),
        Process::nil()
    ));
}

#[test]
fn handshake_is_consumed_from_the_interleavings() {
    let body = Process::par(send("a", Process::nil()), recv("a", Process::nil()));
    let ctx = context(vec![("main", body)], "main");
    let lts = ctx.to_lts().unwrap();
    assert_eq!(lts.len(), 1);
    assert!(has(
        &lts,
        Process::constant("main"),
        Channel::tau(),
        Process::par(Process::nil(), Process::nil())
    ));
    let flat = lts.flatten();
    assert_eq!(flat.len(), 1);
    assert!(has(
        &flat,
        Process::constant("main"),
        Channel::tau(),
        Process::nil()
    ));
}

#[test]
fn recursive_constant_collapses_into_a_loop() {
    let ctx = context(
        vec![
            ("P", send("a", Process::constant("P"))),
            ("main", Process::constant("P")),
        ],
        "main",
    );
    let lts = ctx.to_lts().unwrap();
    assert_eq!(lts.len(), 1);
    assert!(has(
        &lts,
        Process::constant("main"),
        Channel::send("a"),
        Process::constant("main")
    ));
}

#[test]
fn restriction_hides_its_ports() {
    let body = Process::restriction(send("a", Process::nil()), vec!["a".to_string()]);
    let ctx = context(vec![("main", body)], "main");
    let lts = ctx.to_lts().unwrap();
    assert_eq!(lts.len(), 0);
    assert!(lts.nodes().is_empty());
}

#[test]
fn restriction_lets_other_ports_through() {
    let body = Process::restriction(
        Process::sum(vec![send("a", Process::nil()), send("b", Process::nil())]),
        vec!["a".to_string()],
    );
    let d = body.derive();
    assert_eq!(d.len(), 1);
    assert!(has(
        &d,
        body.clone(),
        Channel::send("b"),
        Process::restriction(Process::nil(), vec!["a".to_string()])
    ));
}

#[test]
fn unmatched_transitions_interleave() {
    let l = send("a", Process::nil());
    let r = send("b", Process::nil());
    let p = Process::par(l.clone(), r.clone());
    let d = p.derive();
    assert_eq!(d.len(), 2);
    assert!(has(
        &d,
        p.clone(),
        Channel::send("a"),
        Process::par(Process::nil(), r.clone())
    ));
    assert!(has(
        &d,
        p.clone(),
        Channel::send("b"),
        Process::par(l.clone(), Process::nil())
    ));
}

#[test]
fn every_complementary_pair_synchronises_once() {
    let l = Process::sum(vec![
        send("a", Process::constant("X")),
        send("a", Process::constant("Y")),
    ]);
    let r = recv("a", Process::constant("Z"));
    let p = Process::par(l, r);
    let d = p.derive();
    assert_eq!(d.len(), 2);
    assert!(has(
        &d,
        p.clone(),
        Channel::tau(),
        Process::par(Process::constant("X"), Process::constant("Z"))
    ));
    assert!(has(
        &d,
        p.clone(),
        Channel::tau(),
        Process::par(Process::constant("Y"), Process::constant("Z"))
    ));
}

#[test]
fn internal_actions_of_both_sides_synchronise() {
    let p = Process::par(tau(Process::nil()), tau(Process::nil()));
    let d = p.derive();
    assert_eq!(d.len(), 1);
    assert!(has(
        &d,
        p.clone(),
        Channel::tau(),
        Process::par(Process::nil(), Process::nil())
    ));
}

#[test]
fn substitution_relabels_transitions() {
    let subs = Substitution::new(vec![("b".to_string(), "a".to_string())]).unwrap();
    let p = Process::substitution(send("a", Process::nil()), subs.clone());
    let d = p.derive();
    assert_eq!(d.len(), 1);
    assert!(has(
        &d,
        p.clone(),
        Channel::send("b"),
        Process::substitution(Process::nil(), subs)
    ));
}

#[test]
fn sum_has_the_transitions_of_its_alternatives() {
    let p = Process::sum(vec![
        send("a", Process::nil()),
        recv("b", Process::constant("K")),
    ]);
    let d = p.derive();
    assert_eq!(d.len(), 2);
    assert!(has(&d, p.clone(), Channel::send("a"), Process::nil()));
    assert!(has(
        &d,
        p.clone(),
        Channel::recv("b"),
        Process::constant("K")
    ));
}

#[test]
fn constant_has_no_transition() {
    assert_eq!(Process::constant("K").derive().len(), 0);
    assert_eq!(Process::nil().derive().len(), 0);
}

#[test]
fn derivation_spans_every_reachable_state() {
    let ctx = context(
        vec![(
            "main",
            send("a", send("b", send("c", Process::nil()))),
        )],
        "main",
    );
    let lts = ctx.to_lts().unwrap();
    assert_eq!(lts.len(), 3);
    assert_eq!(lts.nodes().len(), 4);
    assert_eq!(lts.edges().len(), 3);
    assert!(has(
        &lts,
        send("c", Process::nil()),
        Channel::send("c"),
        Process::nil()
    ));
}

#[test]
fn reached_bodies_are_shown_by_their_constants() {
    let ctx = context(
        vec![
            ("Q", send("b", Process::nil())),
            ("main", send("a", Process::constant("Q"))),
        ],
        "main",
    );
    let lts = ctx.to_lts().unwrap();
    assert_eq!(lts.len(), 2);
    assert!(has(
        &lts,
        Process::constant("main"),
        Channel::send("a"),
        Process::constant("Q")
    ));
    assert!(has(
        &lts,
        Process::constant("Q"),
        Channel::send("b"),
        Process::nil()
    ));
}

#[test]
fn missing_main_is_an_error() {
    let ctx = context(vec![("P", Process::nil())], "main");
    assert_eq!(ctx.to_lts().err(), Some(Error::MainMissing));
}

#[test]
fn unknown_constant_is_an_error() {
    let ctx = context(vec![("main", send("a", Process::constant("Q")))], "main");
    assert_eq!(ctx.to_lts().err(), Some(Error::UnknownConstant));
}

#[test]
fn reserved_port_is_refused_in_a_substitution() {
    let r = Substitution::new(vec![("tau".to_string(), "a".to_string())]);
    assert_eq!(r.err(), Some(Error::ReservedName));
    let r = Substitution::new(vec![
        ("b".to_string(), "a".to_string()),
        ("c".to_string(), "tau".to_string()),
    ]);
    assert_eq!(r.err(), Some(Error::ReservedName));
    assert!(Substitution::new(vec![("taut".to_string(), "a".to_string())]).is_ok());
}

#[test]
fn substitution_takes_the_first_matching_pair() {
    let subs = Substitution::new(vec![
        ("x".to_string(), "a".to_string()),
        ("y".to_string(), "a".to_string()),
        ("z".to_string(), "b".to_string()),
    ])
    .unwrap();
    assert_eq!(subs.replace("a".to_string()), "x");
    assert_eq!(subs.replace("b".to_string()), "z");
    assert_eq!(subs.replace("c".to_string()), "c");
    assert_eq!(subs.replace_channel(Channel::recv("b")), Channel::recv("z"));
    assert_eq!(subs.replace_channel(Channel::tau()), Channel::tau());
    assert_eq!(subs.pairs().len(), 3);
}

#[test]
fn renaming_a_process_renames_every_prefix() {
    let subs = Substitution::new(vec![("x".to_string(), "a".to_string())]).unwrap();
    let p = Process::par(
        send("a", Process::constant("a")),
        Process::restriction(recv("a", Process::nil()), vec!["a".to_string()]),
    );
    let q = Process::par(
        send("x", Process::constant("a")),
        Process::restriction(recv("x", Process::nil()), vec!["a".to_string()]),
    );
    assert_eq!(subs.replace_process(p.clone()), q);
    let t = subs.replace_transition((p.clone(), Channel::send("a"), p));
    assert_eq!(t.0, q);
    assert_eq!(t.1, Channel::send("x"));
    assert_eq!(t.2, q);
}

#[test]
fn flatten_drops_terminated_parts() {
    let p = Process::sum(vec![
        Process::nil(),
        send("a", Process::par(Process::nil(), Process::nil())),
        Process::sum(vec![]),
    ]);
    assert_eq!(p.flatten(), send("a", Process::nil()));
    let q = Process::par(Process::nil(), send("b", Process::nil()));
    assert_eq!(q.flatten(), send("b", Process::nil()));
    let r = Process::par(send("b", Process::nil()), Process::nil());
    assert_eq!(r.flatten(), send("b", Process::nil()));
    let s = Process::sum(vec![send("a", Process::nil()), send("b", Process::nil())]);
    assert_eq!(s.clone().flatten(), s);
    let k = Process::restriction(
        Process::sum(vec![Process::constant("K")]),
        vec!["a".to_string()],
    );
    assert_eq!(
        k.flatten(),
        Process::restriction(Process::constant("K"), vec!["a".to_string()])
    );
}

#[test]
fn flatten_is_idempotent() {
    let p = Process::sum(vec![
        Process::par(
            Process::sum(vec![Process::nil(), send("a", Process::nil())]),
            Process::nil(),
        ),
        Process::nil(),
        tau(Process::sum(vec![recv("b", Process::par(Process::nil(), Process::nil()))])),
    ]);
    let once = p.flatten();
    let twice = once.clone().flatten();
    assert_eq!(once, twice);
}

#[test]
fn nil_is_the_empty_sum_or_a_composition_of_nils() {
    assert!(Process::nil().is_nil());
    assert!(Process::sum(vec![]).is_nil());
    assert!(Process::par(Process::nil(), Process::nil()).is_nil());
    assert!(!Process::constant("NIL").is_nil());
    assert!(!send("a", Process::nil()).is_nil());
    assert!(!Process::sum(vec![Process::nil()]).is_nil());
}

#[test]
fn unfolding_stops_at_constants_that_are_being_unfolded() {
    let ctx = context(
        vec![
            ("P", send("a", Process::constant("Q"))),
            ("Q", send("b", Process::constant("P"))),
        ],
        "P",
    );
    let u = Process::constant("P").unfold_consts(&ctx).unwrap();
    assert_eq!(u, send("a", send("b", Process::constant("P"))));
    let v = send("a", Process::constant("Q")).unfold_consts(&ctx).unwrap();
    assert_eq!(v, send("a", send("b", Process::constant("P"))));
    assert_eq!(
        Process::constant("R").unfold_consts(&ctx).err(),
        Some(Error::UnknownConstant)
    );
}

#[test]
fn folding_names_the_first_constant_with_that_body() {
    let ctx = context(
        vec![
            ("A", send("a", Process::nil())),
            ("B", send("a", Process::nil())),
            ("C", send("c", Process::constant("A"))),
        ],
        "A",
    );
    assert_eq!(
        send("a", Process::nil()).fold_consts(&ctx),
        Process::constant("A")
    );
    assert_eq!(
        send("c", send("a", Process::nil())).fold_consts(&ctx),
        Process::constant("C")
    );
    assert_eq!(Process::nil().fold_consts(&ctx), Process::nil());
    assert_eq!(ctx.name_of(&send("a", Process::nil())), Some("A"));
    assert_eq!(ctx.name_of(&Process::nil()), None);
    assert_eq!(
        ctx.process_to_const(&send("c", Process::constant("A"))),
        Some(Process::constant("C"))
    );
    assert_eq!(ctx.get_process("B"), Some(&send("a", Process::nil())));
    assert_eq!(ctx.get_process("D"), None);
    assert_eq!(ctx.constants().len(), 3);
}

#[test]
fn binding_a_name_again_replaces_its_body() {
    let mut ctx = Context::new();
    ctx.bind_process("A".to_string(), Process::nil());
    ctx.bind_process("B".to_string(), Process::constant("A"));
    ctx.bind_process("A".to_string(), send("a", Process::nil()));
    assert_eq!(ctx.constants().len(), 2);
    assert_eq!(ctx.constants().entry(0).unwrap().0, "A");
    assert!(ctx.constants().entry(2).is_none());
    assert_eq!(ctx.get_process("A"), Some(&send("a", Process::nil())));
}

#[test]
fn channel_basics() {
    assert_eq!(Channel::send("a").name(), "a");
    assert_eq!(Channel::recv("b").name(), "b");
    assert_eq!(Channel::tau().name(), "tau");
    assert!(Channel::tau().is_tau());
    assert!(!Channel::send("tau").is_tau());
    assert!(Channel::send("a").is_synched_with(&Channel::recv("a")));
    assert!(Channel::recv("a").is_synched_with(&Channel::send("a")));
    assert!(Channel::tau().is_synched_with(&Channel::tau()));
    assert!(!Channel::send("a").is_synched_with(&Channel::send("a")));
    assert!(!Channel::send("a").is_synched_with(&Channel::recv("b")));
    assert!(!Channel::tau().is_synched_with(&Channel::recv("tau")));
}

#[test]
fn lts_from_array_and_lookups() {
    let a = Process::constant("a");
    let b = Process::constant("b");
    let c = Process::constant("c");
    let x = Channel::send("x");
    let y = Channel::recv("y");
    let lts = Lts::from_array([(&a, &x, &b), (&b, &y, &c), (&a, &x, &b), (&a, &y, &c)]);
    assert_eq!(lts.len(), 3);
    assert_eq!(lts.transitions().len(), 3);
    assert_eq!(lts.nodes().len(), 3);
    assert_eq!(lts.edges().len(), 2);
    assert_eq!(lts.transitions_from(&a).len(), 2);
    assert_eq!(lts.transitions_from(&c).len(), 0);
    assert_eq!(lts.transitions_to(&c).len(), 2);
    assert_eq!(lts.transitions_to(&a).len(), 0);
    let again = Lts::new(vec![
        (a.clone(), x.clone(), b.clone()),
        (a.clone(), x.clone(), b.clone()),
    ]);
    assert_eq!(again.len(), 1);
}

#[test]
fn weakening_adds_loops_and_steps_over_internal_transitions() {
    let a = Process::constant("a");
    let p = Process::constant("p");
    let q = Process::constant("q");
    let b = Process::constant("b");
    let x = Channel::send("x");
    let y = Channel::send("y");
    let t = Channel::tau();
    let lts = Lts::from_array([(&a, &x, &p), (&p, &t, &q), (&q, &y, &b)]);
    let w = lts.weaken();
    assert_eq!(w.len(), 3 + 4 + 2);
    assert!(has(&w, a.clone(), x.clone(), q.clone()));
    assert!(has(&w, p.clone(), y.clone(), b.clone()));
    assert!(has(&w, b.clone(), t.clone(), b.clone()));
    assert!(!has(&w, a.clone(), y.clone(), b.clone()));
}

#[test]
fn weakening_twice_changes_nothing_without_internal_chains() {
    let a = Process::constant("a");
    let b = Process::constant("b");
    let x = Channel::send("x");
    let lts = Lts::from_array([(&a, &x, &b)]);
    let once = lts.weaken();
    let n = once.len();
    let twice = once.weaken();
    assert_eq!(twice.len(), n);
    assert_eq!(n, 3);
}

#[test]
fn weakening_is_one_pass_over_internal_chains() {
    let x = Process::constant("x");
    let p = Process::constant("p");
    let q = Process::constant("q");
    let r = Process::constant("r");
    let a = Channel::send("a");
    let t = Channel::tau();
    let lts = Lts::from_array([(&x, &a, &p), (&p, &t, &q), (&q, &t, &r)]);
    let once = lts.weaken();
    assert!(!has(&once, x.clone(), a.clone(), r.clone()));
    let twice = once.weaken();
    assert!(has(&twice, x.clone(), a.clone(), r.clone()));
}

#[test]
fn symbolic_systems_show_bodies_by_their_constants() {
    let mut ctx = Context::new();
    ctx.bind_process("Q".to_string(), send("b", Process::nil()));
    let a = send("a", send("b", Process::nil()));
    let lts = Lts::from_array([(&a, &Channel::send("a"), &send("b", Process::nil()))]);
    let shown = lts.symbolic(&ctx);
    assert_eq!(shown.len(), 1);
    assert!(has(
        &shown,
        send("a", Process::constant("Q")),
        Channel::send("a"),
        Process::constant("Q")
    ));
}
