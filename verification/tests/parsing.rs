use ccs::ast::{Command, Program, Statement};
use ccs::context::Context;
use ccs::error::Error;
use ccs::lts::Lts;
use ccs::process::{Channel, Process, Substitution};
use ccs::syntax::{tokens, Sym, Token};
use ccs::vp::ast::{
    Command as CommandVp, Program as ProgramVp, Statement as StatementVp,
};
use ccs::vp::context::Context as ContextVp;
use ccs::vp::process::{Channel as ChannelVp, Process as ProcessVp};
use ccs::vp::values::{AExpr, BExpr, Enum, Value};

fn send(name: &str, then: Process) -> Process {
    Process::action(Channel::send(name), then)
}

fn recv(name: &str, then: Process) -> Process {
    Process::action(Channel::recv(name), then)
}

fn body(source: &str) -> Result<Process, Error> {
    let program = Program::parse(&format!("fn main {{ {source} }}"))?;
    match program.0.into_iter().next() {
        Some(Statement::DefConstant(_, p)) => Ok(p),
        _ => unreachable!(),
    }
}

fn body_vp(source: &str) -> Result<ProcessVp, Error> {
    let program = ProgramVp::parse(&format!("fn main {{ {source} }}"))?;
    match program.0.into_iter().next() {
        Some(StatementVp::DefConstant(_, (_, p))) => Ok(p),
        _ => unreachable!(),
    }
}

fn system(source: &str) -> Lts {
    Context::parse(source).unwrap().to_lts().unwrap()
}

fn has(lts: &Lts, source: Process, label: Channel, target: Process) -> bool {
    lts.contains(&(source, label, target))
}

fn var(x: &str) -> AExpr {
    AExpr::Var(x.to_string())
}

#[test]
fn words_of_a_text() {
    let ts = tokens("fn a1_b{(x!.NIL\t+ 42)}\n#![<=>=!= = ==&&||::\\]").unwrap();
    let kinds: Vec<String> = ts
        .iter()
        .map(|t| match t {
            Token::Ident(s) => s.clone(),
            Token::Number(n) => format!("{n}"),
            Token::Symbol(s) => format!("{s:?}"),
        })
        .collect();
    assert_eq!(
        kinds,
        vec![
            "fn", "a1_b", "LBrace", "LParen", "x", "Bang", "Dot", "NIL", "Plus", "42", "RParen",
            "RBrace", "Hash", "Bang", "LBracket", "LtEq", "GtEq", "NotEq", "Assign", "Eq", "And",
            "Or", "PathSep", "Backslash", "RBracket"
        ]
    );
    assert!(tokens("").unwrap().is_empty());
    assert!(tokens(" \n\t ").unwrap().is_empty());
    assert_eq!(tokens("a & b").err(), Some(Error::ParseError));
    assert_eq!(tokens("a : b").err(), Some(Error::ParseError));
    assert_eq!(tokens("a $").err(), Some(Error::ParseError));
    assert_eq!(tokens("4294967296").err(), Some(Error::ParseError));
    assert!(matches!(
        tokens("4294967295").unwrap()[0],
        Token::Number(u32::MAX)
    ));
    assert!(matches!(tokens("007").unwrap()[0], Token::Number(7)));
    assert!(matches!(tokens("<").unwrap()[0], Token::Symbol(Sym::Lt)));
}

#[test]
fn processes_of_the_pure_calculus() {
    assert_eq!(body("NIL"), Ok(Process::nil()));
    assert_eq!(body("()"), Ok(Process::nil()));
    assert_eq!(body("K"), Ok(Process::constant("K")));
    assert_eq!(body("a!.NIL"), Ok(send("a", Process::nil())));
    assert_eq!(body("a?.b!.K"), Ok(recv("a", send("b", Process::constant("K")))));
    assert_eq!(
        body("tau.K"),
        Ok(Process::action(Channel::tau(), Process::constant("K")))
    );
    assert_eq!(
        body("(a!.NIL + K + b?.NIL)"),
        Ok(Process::sum(vec![
            send("a", Process::nil()),
            Process::constant("K"),
            recv("b", Process::nil())
        ]))
    );
    assert_eq!(body("(K)"), Ok(Process::sum(vec![Process::constant("K")])));
    assert_eq!(
        body("(a!.NIL | (K | L))"),
        Ok(Process::par(
            send("a", Process::nil()),
            Process::par(Process::constant("K"), Process::constant("L"))
        ))
    );
    assert_eq!(
        body("(K \\ { a, b })"),
        Ok(Process::restriction(
            Process::constant("K"),
            vec!["a".to_string(), "b".to_string()]
        ))
    );
    assert_eq!(
        body("(K \\ {})"),
        Ok(Process::restriction(Process::constant("K"), vec![]))
    );
    assert_eq!(
        body("(K[x/a, y/b])"),
        Ok(Process::substitution(
            Process::constant("K"),
            Substitution::new(vec![
                ("x".to_string(), "a".to_string()),
                ("y".to_string(), "b".to_string())
            ])
            .unwrap()
        ))
    );
    assert_eq!(
        body("a!.(K | L)"),
        Ok(send(
            "a",
            Process::par(Process::constant("K"), Process::constant("L"))
        ))
    );
}

#[test]
fn texts_that_are_no_process() {
    for bad in [
        "", "a!", "a!.", "a.NIL", "(K", "(K + )", "(K + L | M)", "(K | L | M)", "K L", "(K \\ a)",
        "(K \\ { a, })", "(K[x a])", "(K[x/a,])", "tau", "tau K", "+", "(K \\ { a } ", "12",
    ] {
        assert_eq!(body(bad).err(), Some(Error::ParseError), "{bad}");
    }
    assert_eq!(body("(K[tau/a])").err(), Some(Error::ReservedName));
    assert_eq!(body("(K[x/a, b/tau])").err(), Some(Error::ReservedName));
}

#[test]
fn printed_processes_read_back() {
    for p in [
        Process::nil(),
        send("a", recv("b", Process::constant("K"))),
        Process::sum(vec![send("a", Process::nil()), Process::constant("K")]),
        Process::sum(vec![Process::constant("K")]),
        Process::par(Process::nil(), Process::constant("K")),
        Process::restriction(send("a", Process::nil()), vec!["a".to_string()]),
        Process::substitution(
            Process::constant("K"),
            Substitution::new(vec![("x".to_string(), "a".to_string())]).unwrap(),
        ),
    ] {
        assert_eq!(body(&p.to_text()), Ok(p));
    }
}

#[test]
fn programs_of_the_pure_calculus() {
    let program = Program::parse("fn P { a!.P }\nfn main() { P }\n#![set_main(main)]").unwrap();
    assert_eq!(program.0.len(), 3);
    assert!(matches!(&program.0[0], Statement::DefConstant(n, _) if n == "P"));
    assert!(matches!(&program.0[1], Statement::DefConstant(n, _) if n == "main"));
    assert!(matches!(&program.0[2], Statement::Exec(Command::SetMain(n)) if n == "main"));
    assert!(Program::parse("").unwrap().0.is_empty());
    for bad in [
        "fn",
        "fn main",
        "fn main { NIL",
        "fn main { NIL } }",
        "fn main( { NIL }",
        "main { NIL }",
        "#![set_main(main)",
        "#![set_main()]",
        "#[set_main(main)]",
        "#![set_bounds(0, 2)]",
        "fn main { NIL } ?",
    ] {
        assert_eq!(Program::parse(bad).err(), Some(Error::ParseError), "{bad}");
    }
}

#[test]
fn prefix_program() {
    let lts = system("fn main { a!.NIL }\n#![set_main(main)]");
    assert_eq!(lts.len(), 1);
    assert!(has(
        &lts,
        Process::constant("main"),
        Channel::send("a"),
        Process::nil()
    ));
    let b = lts.bisimilarity(&lts);
    assert!(b
        .iter()
        .any(|(p, q)| **p == Process::constant("main") && **q == Process::constant("main")));
    assert!(b.iter().any(|(p, q)| p.is_nil() && q.is_nil()));
}

#[test]
fn handshake_program() {
    let lts = system("fn main { (a!.NIL | a?.NIL) }\n#![set_main(main)]");
    assert!(has(
        &lts,
        Process::constant("main"),
        Channel::tau(),
        Process::par(Process::nil(), Process::nil())
    ));
    assert_eq!(lts.len(), 1);
    assert!(has(
        &lts.flatten(),
        Process::constant("main"),
        Channel::tau(),
        Process::nil()
    ));
}

#[test]
fn loop_program() {
    let lts = system("fn P { a!.P }  fn main { P }\n#![set_main(main)]");
    assert_eq!(lts.len(), 1);
    assert!(has(
        &lts,
        Process::constant("main"),
        Channel::send("a"),
        Process::constant("main")
    ));
    let b = lts.bisimilarity(&lts);
    assert_eq!(b.len(), 1);
    assert_eq!(*b[0].0, Process::constant("main"));
}

#[test]
fn guarded_input_program() {
    let source = "#![set_bounds(0,2)]  fn main { a?(x); if x == 1 then { b!.NIL } }\n#![set_main(main)]";
    let ccs = ContextVp::parse(source).unwrap().to_ccs().unwrap();
    let b = send("b", Process::nil());
    assert_eq!(
        ccs.get_process("main"),
        Some(&Process::sum(vec![
            recv("a#0", Process::nil()),
            recv("a#1", b.clone())
        ]))
    );
    let lts = ccs.to_lts().unwrap().flatten();
    assert!(has(
        &lts,
        Process::constant("main"),
        Channel::recv("a#0"),
        Process::nil()
    ));
    assert!(has(
        &lts,
        Process::constant("main"),
        Channel::recv("a#1"),
        b.clone()
    ));
    assert!(has(&lts, b, Channel::send("b"), Process::nil()));
    assert_eq!(lts.len(), 3);
}

#[test]
fn two_programs_with_equal_bodies() {
    let l1 = system("fn A { a!.NIL }\n#![set_main(A)]");
    let l2 = system("fn B { a!.NIL }\n#![set_main(B)]");
    let b = l1.bisimilarity(&l2);
    assert_eq!(b.len(), 2);
    assert!(b
        .iter()
        .any(|(p, q)| **p == Process::constant("A") && **q == Process::constant("B")));
    assert!(b.iter().any(|(p, q)| p.is_nil() && q.is_nil()));
}

#[test]
fn restricted_program() {
    let lts = system("fn main { (a!.NIL \\ { a }) }\n#![set_main(main)]");
    assert_eq!(lts.len(), 0);
}

#[test]
fn missing_main_in_a_program() {
    let ctx = Context::parse("fn P { a!.NIL }").unwrap();
    assert_eq!(ctx.to_lts().err(), Some(Error::MainMissing));
    let ctx = Context::parse("fn P { a!.NIL }\n#![set_main(Q)]").unwrap();
    assert_eq!(ctx.to_lts().err(), Some(Error::MainMissing));
    assert_eq!(Context::parse("fn P { a! }").err(), Some(Error::ParseError));
}

#[test]
fn processes_of_the_value_passing_calculus() {
    assert_eq!(body_vp("NIL"), Ok(ProcessVp::nil()));
    assert_eq!(
        body_vp("a!(x + 1 * 2).K"),
        Ok(ProcessVp::action(
            ChannelVp::Send(
                "a".to_string(),
                Some(Value::AExpr(AExpr::Add(
                    Box::new(var("x")),
                    Box::new(AExpr::Mul(Box::new(AExpr::Lit(1)), Box::new(AExpr::Lit(2))))
                )))
            ),
            ProcessVp::constant("K", vec![])
        ))
    );
    assert_eq!(
        body_vp("a!(x); b?(y). c!. d?; tau; K(y, 3 - 2 - 1, true, T::A, T::B(x, 1))"),
        Ok(ProcessVp::action(
            ChannelVp::Send("a".to_string(), Some(Value::Any("x".to_string()))),
            ProcessVp::action(
                ChannelVp::Recv("b".to_string(), Some("y".to_string())),
                ProcessVp::action(
                    ChannelVp::Send("c".to_string(), None),
                    ProcessVp::action(
                        ChannelVp::Recv("d".to_string(), None),
                        ProcessVp::action(
                            ChannelVp::tau(),
                            ProcessVp::constant(
                                "K",
                                vec![
                                    Value::Any("y".to_string()),
                                    Value::AExpr(AExpr::Sub(
                                        Box::new(AExpr::Sub(
                                            Box::new(AExpr::Lit(3)),
                                            Box::new(AExpr::Lit(2))
                                        )),
                                        Box::new(AExpr::Lit(1))
                                    )),
                                    Value::BExpr(BExpr::Lit(true)),
                                    Value::Enum(Enum::Lit(
                                        "T".to_string(),
                                        "A".to_string(),
                                        vec![]
                                    )),
                                    Value::Enum(Enum::Lit(
                                        "T".to_string(),
                                        "B".to_string(),
                                        vec![Value::Any("x".to_string()), Value::AExpr(AExpr::Lit(1))]
                                    )),
                                ]
                            )
                        )
                    )
                )
            )
        ))
    );
    assert_eq!(
        body_vp("if !b && x <= 2 || e is T::A then { K } else { (L | M) }"),
        Ok(ProcessVp::if_then_else(
            BExpr::Or(
                Box::new(BExpr::And(
                    Box::new(BExpr::Not(Box::new(BExpr::Var("b".to_string())))),
                    Box::new(BExpr::NumLtEq(var("x"), AExpr::Lit(2)))
                )),
                Box::new(BExpr::EnumIs(
                    Enum::Var("e".to_string()),
                    Enum::Lit("T".to_string(), "A".to_string(), vec![])
                ))
            ),
            ProcessVp::constant("K", vec![]),
            ProcessVp::par(
                ProcessVp::constant("L", vec![]),
                ProcessVp::constant("M", vec![])
            )
        ))
    );
    assert_eq!(
        body_vp("if (x + 1) / 2 != y then { (K + L \\ { a }) }").err(),
        Some(Error::ParseError)
    );
    assert_eq!(
        body_vp("if (x + 1) / 2 != y then { ((K + L) \\ { a }) }"),
        Ok(ProcessVp::if_then(
            BExpr::NumNotEq(
                AExpr::Div(
                    Box::new(AExpr::Add(Box::new(var("x")), Box::new(AExpr::Lit(1)))),
                    Box::new(AExpr::Lit(2))
                ),
                var("y")
            ),
            ProcessVp::restriction(
                ProcessVp::sum(vec![
                    ProcessVp::constant("K", vec![]),
                    ProcessVp::constant("L", vec![])
                ]),
                vec!["a".to_string()]
            )
        ))
    );
}

#[test]
fn texts_that_are_no_value_passing_process() {
    for bad in [
        "a!(x) K",
        "a!(x",
        "a?(1).K",
        "a?(x, y).K",
        "if x then K",
        "if x + 1 then { K }",
        "if x then { K } else K",
        "K(x,)",
        "K(x",
        "a!(true + 1).K",
        "a!(1 < 2 < 3).K",
        "a!(T::).K",
        "if x is 1 then { K }",
        "a!(1 && 2).K",
    ] {
        assert_eq!(body_vp(bad).err(), Some(Error::ParseError), "{bad}");
    }
    assert_eq!(body_vp("(K[tau/a])").err(), Some(Error::ReservedName));
}

#[test]
fn programs_of_the_value_passing_calculus() {
    let source = "
        #![set_bounds(1, 4)]
        enum Colour { Red, Rgb(int, int, int), Mix(Colour2, bool), Grey() }
        type Colour2 = Colour;
        fn Show(c, n) { out!(c); Show(c, n) }
        fn main { Show(Colour::Red, 1) }
        #![set_main(main)]
    ";
    let program = ProgramVp::parse(source).unwrap();
    assert_eq!(program.0.len(), 6);
    assert!(matches!(
        &program.0[0],
        StatementVp::Exec(CommandVp::SetBounds(1, 4))
    ));
    match &program.0[1] {
        StatementVp::DefEnum(name, tags) => {
            assert_eq!(name, "Colour");
            assert_eq!(
                tags,
                &vec![
                    ("Red".to_string(), vec![]),
                    (
                        "Rgb".to_string(),
                        vec!["int".to_string(), "int".to_string(), "int".to_string()]
                    ),
                    (
                        "Mix".to_string(),
                        vec!["Colour2".to_string(), "bool".to_string()]
                    ),
                    ("Grey".to_string(), vec![]),
                ]
            );
        }
        _ => unreachable!(),
    }
    assert!(matches!(
        &program.0[2],
        StatementVp::DefAlias(a, t) if a == "Colour2" && t == "Colour"
    ));
    match &program.0[3] {
        StatementVp::DefConstant(name, (params, _)) => {
            assert_eq!(name, "Show");
            assert_eq!(params, &vec!["c".to_string(), "n".to_string()]);
        }
        _ => unreachable!(),
    }
    assert!(matches!(
        &program.0[5],
        StatementVp::Exec(CommandVp::SetMain(m)) if m == "main"
    ));
    for bad in [
        "enum E { A, }",
        "enum E { A(int }",
        "enum { A }",
        "type A = B",
        "type A B;",
        "#![set_bounds(1)]",
        "#![set_bounds(a, b)]",
        "fn P(x { NIL }",
        "fn P(x,) { NIL }",
    ] {
        assert_eq!(ProgramVp::parse(bad).err(), Some(Error::ParseError), "{bad}");
    }
    assert_eq!(
        ContextVp::parse("#![set_bounds(3, 3)]").err(),
        Some(Error::InvalidBounds)
    );
    assert_eq!(
        ContextVp::parse("enum any { A }").err(),
        Some(Error::InvalidType)
    );
    assert_eq!(
        ContextVp::parse("type A = Nowhere;").err(),
        Some(Error::InvalidType)
    );
    assert_eq!(ContextVp::parse("fn main {").err(), Some(Error::ParseError));
    let ctx = ContextVp::parse("#![set_bounds(0, 2)] enum E { A, B(bool) }").unwrap();
    assert_eq!(ctx.values().unwrap().len(), 2 + 2 + 3);
}

#[test]
fn counter_program() {
    let source = "
        #![set_bounds(0, 3)]
        fn Count(n) { if n < 2 then { tick!(n); Count(n + 1) } else { done!. NIL } }
        fn main { Count(0) }
        #![set_main(main)]
    ";
    let ccs = ContextVp::parse(source).unwrap().to_ccs().unwrap();
    let lts = ccs.to_lts().unwrap().flatten();
    assert_eq!(lts.len(), 3);
    assert!(has(
        &lts,
        Process::constant("main"),
        Channel::send("tick#0"),
        Process::constant("Count#1")
    ));
    assert!(has(
        &lts,
        Process::constant("Count#1"),
        Channel::send("tick#1"),
        Process::constant("Count#2")
    ));
    assert!(has(
        &lts,
        Process::constant("Count#2"),
        Channel::send("done"),
        Process::nil()
    ));
}

#[test]
fn printed_programs_read_back() {
    let source = "fn P() { (a!.P + b?.NIL) }\nfn main() { ((P | a?.NIL) \\ { a }) }\n#![set_main(main)]\n";
    let program = Program::parse(source).unwrap();
    assert_eq!(program.to_text(), source);
    assert_eq!(program.0[2].to_text(), "#![set_main(main)]");
    let again = Program::parse(&program.to_text()).unwrap();
    assert_eq!(again.to_text(), source);
}

#[test]
fn printed_value_passing_programs_read_back() {
    let source = "
        #![set_bounds(0, 3)]
        enum E { A, B(int, bool) }
        type I = int;
        fn P(x, y) { if !(x < 2) && true then { a!(E::B(x, y)). ((P(x + 1, y) | b?(z); NIL) \\ { a, b }) } }
        fn main { (P(0, false) [c/a]) }
        #![set_main(main)]
    ";
    let program = ProgramVp::parse(source).unwrap();
    let text = program.to_text();
    assert_eq!(
        text,
        "#![set_bounds(0, 3)]\n\
         enum E { A(),B(int,bool) }\n\
         type I = int;\n\
         fn P(x,y) { if (!(x < 2) && true) then { a!(E::B(x,y)); ((P((x + 1),y) | b?(z); NIL) \\ [a, b]) } }\n\
         fn main() { (P(0,false) [c/a]) }\n\
         #![set_main(main)]\n"
    );
    let again = ProgramVp::parse(&text).unwrap();
    assert_eq!(again.to_text(), text);
    assert_eq!(again.0.len(), program.0.len());
    for (a, b) in again.0.iter().zip(program.0.iter()) {
        match (a, b) {
            (StatementVp::DefConstant(n, (ps, p)), StatementVp::DefConstant(m, (qs, q))) => {
                assert_eq!(n, m);
                assert_eq!(ps, qs);
                assert_eq!(p, q);
            }
            _ => assert_eq!(a.to_text(), b.to_text()),
        }
    }
}
