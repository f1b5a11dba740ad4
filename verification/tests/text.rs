use ccs::process::{Channel, Process, Substitution};
use ccs::text::{decimal_text, truth_text};

#[test]
fn channel_text() {
    assert_eq!(Channel::send("a").to_text(), "a!");
    assert_eq!(Channel::recv("bc").to_text(), "bc?");
    assert_eq!(Channel::tau().to_text(), "Tau");
}

#[test]
fn process_text() {
    let a = Process::action(Channel::send("a"), Process::nil());
    assert_eq!(a.to_text(), "a!.NIL");
    assert_eq!(Process::constant("K").to_text(), "K");
    assert_eq!(Process::nil().to_text(), "NIL");
    let sum = Process::sum(vec![
        a.clone(),
        Process::constant("K"),
        Process::action(Channel::tau(), Process::constant("L")),
    ]);
    assert_eq!(sum.to_text(), "(a!.NIL + K + Tau.L)");
    assert_eq!(Process::sum(vec![a.clone()]).to_text(), "(a!.NIL)");
    let par = Process::par(a.clone(), Process::constant("K"));
    assert_eq!(par.to_text(), "(a!.NIL | K)");
    let res = Process::restriction(par.clone(), vec!["a".to_string(), "b".to_string()]);
    assert_eq!(res.to_text(), "((a!.NIL | K) \\ { a, b })");
    let none = Process::restriction(a.clone(), vec![]);
    assert_eq!(none.to_text(), "(a!.NIL \\ {  })");
    let subs = Substitution::new(vec![
        ("x".to_string(), "a".to_string()),
        ("y".to_string(), "b".to_string()),
    ])
    .unwrap();
    assert_eq!(subs.pair_texts(), vec!["x/a", "y/b"]);
    let sub = Process::substitution(a, subs);
    assert_eq!(sub.to_text(), "(a!.NIL[x/a, y/b])");
}

#[test]
fn decimal_numerals() {
    assert_eq!(decimal_text(0), "0");
    assert_eq!(decimal_text(7), "7");
    assert_eq!(decimal_text(10), "10");
    assert_eq!(decimal_text(409), "409");
    assert_eq!(decimal_text(u32::MAX), "4294967295");
}

#[test]
fn truth_values() {
    assert_eq!(truth_text(true), "true");
    assert_eq!(truth_text(false), "false");
}
