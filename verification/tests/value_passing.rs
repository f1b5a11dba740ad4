use ccs::error::Error;
use ccs::lts::Lts;
use ccs::process::{Channel as ChannelCcs, Process as ProcessCcs, Substitution};
use ccs::vp::ast::{Command, Program, Statement};
use ccs::vp::context::Context;
use ccs::vp::process::{encode_action, encode_constant, Channel, Process};
use ccs::vp::utils::permute;
use ccs::vp::values::{AExpr, BExpr, Enum, Value};

fn lit(n: u32) -> AExpr {
    AExpr::Lit(n)
}

fn var(x: &str) -> AExpr {
    AExpr::Var(x.to_string())
}

fn num(n: u32) -> Value {
    Value::AExpr(lit(n))
}

fn truth(b: bool) -> Value {
    Value::BExpr(BExpr::Lit(b))
}

fn tagged(ty: &str, tag: &str, fields: Vec<Value>) -> Value {
    Value::Enum(Enum::Lit(ty.to_string(), tag.to_string(), fields))
}

fn bounded(min: u32, max: u32) -> Context {
    let mut ctx = Context::default();
    ctx.set_bounds((min, max)).unwrap();
    ctx
}

fn program(statements: Vec<Statement>) -> Result<Context, Error> {
    Context::from_program(Program(statements))
}

fn has(lts: &Lts, source: ProcessCcs, label: ChannelCcs, target: ProcessCcs) -> bool {
    lts.contains(&(source, label, target))
}

#[test]
fn guarded_input_is_expanded_over_the_integers() {
    let body = Process::action(
        Channel::Recv("a".to_string(), Some("x".to_string())),
        Process::if_then(
            BExpr::NumEq(var("x"), lit(1)),
            Process::action(Channel::Send("b".to_string(), None), Process::nil()),
        ),
    );
    let ctx = program(vec![
        Statement::Exec(Command::SetBounds(0, 2)),
        Statement::DefConstant("main".to_string(), (vec![], body)),
        Statement::Exec(Command::SetMain("main".to_string())),
    ])
    .unwrap();
    let ccs = ctx.to_ccs().unwrap();
    let b = ProcessCcs::action(ChannelCcs::send("b"), ProcessCcs::nil());
    let expected = ProcessCcs::sum(vec![
        ProcessCcs::action(ChannelCcs::recv("a#0"), ProcessCcs::nil()),
        ProcessCcs::action(ChannelCcs::recv("a#1"), b.clone()),
    ]);
    assert_eq!(ccs.get_process("main"), Some(&expected));
    let lts = ccs.to_lts().unwrap().flatten();
    assert_eq!(lts.len(), 3);
    assert!(has(
        &lts,
        ProcessCcs::constant("main"),
        ChannelCcs::recv("a#0"),
        ProcessCcs::nil()
    ));
    assert!(has(
        &lts,
        ProcessCcs::constant("main"),
        ChannelCcs::recv("a#1"),
        b.clone()
    ));
    assert!(has(&lts, b, ChannelCcs::send("b"), ProcessCcs::nil()));
}

#[test]
fn integers_are_those_within_the_bounds() {
    let ctx = bounded(3, 7);
    let ints = ctx.values_of("int").unwrap();
    assert_eq!(ints, vec![num(3), num(4), num(5), num(6)]);
    assert_eq!(ints.len() as u32, 7 - 3);
    assert_eq!(ctx.bounds(), (3, 7));
    assert_eq!(Context::default().values_of("int").unwrap().len(), 0);
}

#[test]
fn truth_values_are_two() {
    let ctx = bounded(0, 1);
    assert_eq!(ctx.values_of("bool").unwrap(), vec![truth(true), truth(false)]);
}

#[test]
fn enum_values_are_counted_by_tags_and_fields() {
    let mut ctx = bounded(0, 3);
    ctx.bind_enum(
        "E".to_string(),
        vec![
            ("A".to_string(), vec![]),
            ("B".to_string(), vec!["int".to_string(), "bool".to_string()]),
            ("C".to_string(), vec!["bool".to_string()]),
        ],
    )
    .unwrap();
    let vs = ctx.values_of("E").unwrap();
    assert_eq!(vs.len(), 1 + 3 * 2 + 2);
    assert_eq!(vs[0], tagged("E", "A", vec![]));
    assert_eq!(vs[1], tagged("E", "B", vec![num(0), truth(true)]));
    assert_eq!(vs[2], tagged("E", "B", vec![num(0), truth(false)]));
    assert_eq!(vs[3], tagged("E", "B", vec![num(1), truth(true)]));
    assert_eq!(vs[6], tagged("E", "B", vec![num(2), truth(false)]));
    assert_eq!(vs[7], tagged("E", "C", vec![truth(true)]));
    assert_eq!(vs[8], tagged("E", "C", vec![truth(false)]));
}

#[test]
fn nested_enums_and_aliases() {
    let mut ctx = bounded(0, 2);
    ctx.bind_enum(
        "Inner".to_string(),
        vec![("X".to_string(), vec![]), ("Y".to_string(), vec!["int".to_string()])],
    )
    .unwrap();
    ctx.bind_alias("I".to_string(), "Inner".to_string());
    ctx.bind_enum(
        "Outer".to_string(),
        vec![("W".to_string(), vec!["I".to_string(), "Inner".to_string()])],
    )
    .unwrap();
    assert_eq!(ctx.values_of("Inner").unwrap().len(), 3);
    assert_eq!(ctx.values_of("I").unwrap(), ctx.values_of("Inner").unwrap());
    assert_eq!(ctx.values_of("Outer").unwrap().len(), 9);
    assert_eq!(
        ctx.types(),
        vec!["int", "bool", "Inner", "Outer", "I"]
    );
}

#[test]
fn unknown_and_circular_types_have_no_values() {
    let mut ctx = bounded(0, 2);
    assert_eq!(ctx.values_of("Nope").err(), Some(Error::InvalidType));
    ctx.bind_alias("A".to_string(), "B".to_string());
    ctx.bind_alias("B".to_string(), "A".to_string());
    assert_eq!(ctx.values_of("A").err(), Some(Error::InvalidType));
    ctx.bind_enum(
        "L".to_string(),
        vec![("Cons".to_string(), vec!["M".to_string()])],
    )
    .unwrap();
    ctx.bind_enum(
        "M".to_string(),
        vec![("Back".to_string(), vec!["L".to_string()])],
    )
    .unwrap();
    assert_eq!(ctx.values_of("L").err(), Some(Error::InvalidType));
    assert_eq!(ctx.gen_values().err(), Some(Error::InvalidType));
    assert_eq!(ctx.values().err(), Some(Error::ValuesNotGenerated));
}

#[test]
fn declarations_that_are_not_admitted() {
    let mut ctx = bounded(0, 2);
    assert_eq!(
        ctx.bind_enum("any".to_string(), vec![]).err(),
        Some(Error::InvalidType)
    );
    assert_eq!(
        ctx.bind_enum(
            "E".to_string(),
            vec![("A".to_string(), vec!["E".to_string()])]
        )
        .err(),
        Some(Error::InvalidType)
    );
    assert_eq!(
        ctx.bind_enum(
            "E".to_string(),
            vec![("A".to_string(), vec!["any".to_string()])]
        )
        .err(),
        Some(Error::InvalidType)
    );
    assert!(ctx
        .bind_enum(
            "E".to_string(),
            vec![("A".to_string(), vec!["int".to_string(), "Later".to_string()])]
        )
        .is_ok());
    assert_eq!(ctx.enums().len(), 1);
    assert_eq!(ctx.set_bounds((2, 2)).err(), Some(Error::InvalidBounds));
    assert_eq!(ctx.set_bounds((3, 2)).err(), Some(Error::InvalidBounds));
    assert_eq!(ctx.bounds(), (0, 2));
}

#[test]
fn generated_values_form_the_universe() {
    let mut ctx = bounded(0, 2);
    ctx.bind_enum("E".to_string(), vec![("A".to_string(), vec![])])
        .unwrap();
    ctx.bind_alias("I".to_string(), "int".to_string());
    assert_eq!(ctx.values().err(), Some(Error::ValuesNotGenerated));
    ctx.gen_values().unwrap();
    assert_eq!(
        ctx.values().unwrap(),
        vec![
            num(0),
            num(1),
            truth(true),
            truth(false),
            tagged("E", "A", vec![]),
            num(0),
            num(1),
        ]
    );
}

#[test]
fn product_of_lists() {
    assert_eq!(permute(vec![]), vec![Vec::<Value>::new()]);
    assert_eq!(
        permute(vec![vec![num(1), num(2)], vec![truth(true), truth(false)]]),
        vec![
            vec![num(1), truth(true)],
            vec![num(1), truth(false)],
            vec![num(2), truth(true)],
            vec![num(2), truth(false)],
        ]
    );
    assert_eq!(
        permute(vec![vec![num(1), num(2)], vec![], vec![num(3)]]),
        Vec::<Vec<Value>>::new()
    );
    assert_eq!(
        permute(vec![vec![num(1)], vec![num(2)], vec![num(3), num(4)]]).len(),
        2
    );
}

#[test]
fn arithmetic_is_evaluated_within_the_bounds() {
    let ctx = bounded(0, 10);
    let add = AExpr::Add(Box::new(lit(2)), Box::new(lit(3)));
    assert_eq!(add.eval(&ctx), Ok(5));
    let sub = AExpr::Sub(Box::new(lit(7)), Box::new(lit(3)));
    assert_eq!(sub.eval(&ctx), Ok(4));
    let mul = AExpr::Mul(Box::new(lit(3)), Box::new(lit(3)));
    assert_eq!(mul.eval(&ctx), Ok(9));
    let div = AExpr::Div(Box::new(lit(9)), Box::new(lit(2)));
    assert_eq!(div.eval(&ctx), Ok(4));
    let nested = AExpr::Mul(Box::new(add), Box::new(lit(1)));
    assert_eq!(nested.eval(&ctx), Ok(5));
}

#[test]
fn integers_out_of_bounds_are_refused() {
    let ctx = bounded(2, 10);
    assert_eq!(lit(10).eval(&ctx), Err(Error::IntegerOutOfBounds));
    assert_eq!(lit(9).eval(&ctx), Ok(9));
    assert_eq!(lit(2).eval(&ctx), Ok(2));
    assert_eq!(lit(1).eval(&ctx), Err(Error::IntegerOutOfBounds));
    let over = AExpr::Add(Box::new(lit(5)), Box::new(lit(5)));
    assert_eq!(over.eval(&ctx), Err(Error::IntegerOutOfBounds));
    let under = AExpr::Sub(Box::new(lit(3)), Box::new(lit(5)));
    assert_eq!(under.eval(&ctx), Err(Error::IntegerOutOfBounds));
    let part = AExpr::Sub(
        Box::new(AExpr::Add(Box::new(lit(6)), Box::new(lit(6)))),
        Box::new(lit(6)),
    );
    assert_eq!(part.eval(&ctx), Err(Error::IntegerOutOfBounds));
    let wide = bounded(0, u32::MAX);
    let big = AExpr::Mul(Box::new(lit(70000)), Box::new(lit(70000)));
    assert_eq!(big.eval(&wide), Err(Error::IntegerOutOfBounds));
}

#[test]
fn unbound_variables_and_zero_divisors_are_refused() {
    let ctx = bounded(0, 10);
    assert_eq!(var("x").eval(&ctx), Err(Error::UnboundVariable));
    let div = AExpr::Div(Box::new(lit(4)), Box::new(lit(0)));
    assert_eq!(div.eval(&ctx), Err(Error::DivisionByZero));
    assert_eq!(
        BExpr::Var("b".to_string()).eval(&ctx),
        Err(Error::UnboundVariable)
    );
    assert_eq!(
        Enum::Var("e".to_string()).eval(&ctx).err(),
        Some(Error::UnboundVariable)
    );
    let first = AExpr::Add(Box::new(var("x")), Box::new(div));
    assert_eq!(first.eval(&ctx), Err(Error::UnboundVariable));
}

#[test]
fn boolean_expressions() {
    let ctx = bounded(0, 10);
    let t = BExpr::Lit(true);
    let f = BExpr::Lit(false);
    assert_eq!(BExpr::Not(Box::new(f.clone())).eval(&ctx), Ok(true));
    assert_eq!(
        BExpr::And(Box::new(t.clone()), Box::new(f.clone())).eval(&ctx),
        Ok(false)
    );
    assert_eq!(
        BExpr::Or(Box::new(f.clone()), Box::new(t.clone())).eval(&ctx),
        Ok(true)
    );
    let unbound = BExpr::Var("b".to_string());
    assert_eq!(
        BExpr::And(Box::new(f.clone()), Box::new(unbound.clone())).eval(&ctx),
        Ok(false)
    );
    assert_eq!(
        BExpr::Or(Box::new(t.clone()), Box::new(unbound.clone())).eval(&ctx),
        Ok(true)
    );
    assert_eq!(
        BExpr::And(Box::new(t), Box::new(unbound)).eval(&ctx),
        Err(Error::UnboundVariable)
    );
    assert_eq!(BExpr::NumEq(lit(2), lit(2)).eval(&ctx), Ok(true));
    assert_eq!(BExpr::NumNotEq(lit(2), lit(2)).eval(&ctx), Ok(false));
    assert_eq!(BExpr::NumLt(lit(2), lit(3)).eval(&ctx), Ok(true));
    assert_eq!(BExpr::NumGt(lit(2), lit(3)).eval(&ctx), Ok(false));
    assert_eq!(BExpr::NumLtEq(lit(3), lit(3)).eval(&ctx), Ok(true));
    assert_eq!(BExpr::NumGtEq(lit(2), lit(3)).eval(&ctx), Ok(false));
}

#[test]
fn enum_literals_are_checked_against_their_declaration() {
    let mut ctx = bounded(0, 10);
    ctx.bind_enum(
        "E".to_string(),
        vec![
            ("A".to_string(), vec![]),
            ("B".to_string(), vec!["int".to_string()]),
        ],
    )
    .unwrap();
    let ok = Enum::Lit(
        "E".to_string(),
        "B".to_string(),
        vec![Value::AExpr(AExpr::Add(Box::new(lit(1)), Box::new(lit(2))))],
    );
    assert_eq!(
        ok.eval(&ctx),
        Ok(Enum::Lit("E".to_string(), "B".to_string(), vec![num(3)]))
    );
    let no_type = Enum::Lit("F".to_string(), "A".to_string(), vec![]);
    assert_eq!(no_type.eval(&ctx).err(), Some(Error::InvalidType));
    let no_tag = Enum::Lit("E".to_string(), "C".to_string(), vec![]);
    assert_eq!(no_tag.eval(&ctx).err(), Some(Error::InvalidType));
    let arity = Enum::Lit("E".to_string(), "B".to_string(), vec![]);
    assert_eq!(arity.eval(&ctx).err(), Some(Error::TypeMismatch));
    let kind = Enum::Lit("E".to_string(), "B".to_string(), vec![truth(true)]);
    assert_eq!(kind.eval(&ctx).err(), Some(Error::TypeMismatch));
    let is = BExpr::EnumIs(
        ok.clone(),
        Enum::Lit("E".to_string(), "B".to_string(), vec![num(3)]),
    );
    assert_eq!(is.eval(&ctx), Ok(true));
    let is_not = BExpr::EnumIs(ok, Enum::Lit("E".to_string(), "A".to_string(), vec![]));
    assert_eq!(is_not.eval(&ctx), Ok(false));
    assert_eq!(ctx.type_of(&num(1)), Ok("int"));
    assert_eq!(ctx.type_of(&truth(true)), Ok("bool"));
    assert_eq!(ctx.type_of(&tagged("E", "A", vec![])), Ok("E"));
    assert_eq!(ctx.type_of(&Value::Any("x".to_string())), Ok("any"));
    assert_eq!(
        ctx.type_of(&Value::Enum(Enum::Var("x".to_string()))),
        Err(Error::UnboundVariable)
    );
}

#[test]
fn values_evaluate_to_literals() {
    let ctx = bounded(0, 10);
    let v = Value::AExpr(AExpr::Add(Box::new(lit(1)), Box::new(lit(2))));
    assert_eq!(v.eval(&ctx), Ok(num(3)));
    let b = Value::BExpr(BExpr::NumLt(lit(1), lit(2)));
    assert_eq!(b.eval(&ctx), Ok(truth(true)));
    let any = Value::Any("x".to_string());
    assert_eq!(any.eval(&ctx), Ok(Value::Any("x".to_string())));
}

#[test]
fn variables_take_values_of_their_kind() {
    let mut e = AExpr::Add(Box::new(var("x")), Box::new(var("y")));
    assert!(e.try_replace("x", &num(4)));
    assert_eq!(e, AExpr::Add(Box::new(lit(4)), Box::new(var("y"))));
    assert!(!e.try_replace("y", &truth(true)));
    assert_eq!(e, AExpr::Add(Box::new(lit(4)), Box::new(var("y"))));
    let mut unrelated = var("z");
    assert!(!unrelated.try_replace("x", &truth(true)));
    let mut b = BExpr::And(
        Box::new(BExpr::Var("p".to_string())),
        Box::new(BExpr::NumEq(var("x"), lit(1))),
    );
    assert!(!b.try_replace("p", &truth(false)));
    assert_eq!(
        b,
        BExpr::And(
            Box::new(BExpr::Lit(false)),
            Box::new(BExpr::NumEq(var("x"), lit(1))),
        )
    );
    let mut en = Enum::Lit(
        "E".to_string(),
        "B".to_string(),
        vec![Value::Any("x".to_string()), Value::Any("y".to_string())],
    );
    assert!(en.try_replace("x", &num(1)));
    assert_eq!(
        en,
        Enum::Lit(
            "E".to_string(),
            "B".to_string(),
            vec![num(1), Value::Any("y".to_string())]
        )
    );
    let mut ev = Enum::Var("x".to_string());
    assert!(ev.try_replace("x", &tagged("E", "A", vec![])));
    assert_eq!(ev, Enum::Lit("E".to_string(), "A".to_string(), vec![]));
    assert!(!Enum::Var("x".to_string()).try_replace("x", &num(1)));
    let mut any = Value::Any("x".to_string());
    assert!(any.try_replace("x", &truth(true)));
    assert_eq!(any, truth(true));
    let mut other = Value::Any("y".to_string());
    assert!(other.try_replace("x", &truth(true)));
    assert_eq!(other, Value::Any("y".to_string()));
}

#[test]
fn inputs_shadow_the_variable_they_bind() {
    let inner = Process::action(
        Channel::Send("b".to_string(), Some(Value::Any("x".to_string()))),
        Process::nil(),
    );
    let mut shadowed = Process::action(
        Channel::Recv("a".to_string(), Some("x".to_string())),
        inner.clone(),
    );
    assert!(shadowed.try_replace("x", &num(1)));
    let ctx = {
        let mut c = bounded(0, 1);
        c.bind_process("main".to_string(), (vec![], shadowed));
        c.set_main("main".to_string());
        c.gen_values().unwrap();
        c
    };
    let ccs = ctx.to_ccs().unwrap();
    let on = |v: &str| {
        ProcessCcs::action(
            ChannelCcs::recv(&format!("a#{v}")),
            ProcessCcs::action(ChannelCcs::send(&format!("b#{v}")), ProcessCcs::nil()),
        )
    };
    assert_eq!(
        ccs.get_process("main"),
        Some(&ProcessCcs::sum(vec![on("0"), on("true"), on("false")]))
    );
}

#[test]
fn value_texts_and_mangling() {
    assert_eq!(num(42).to_text(), "42");
    assert_eq!(truth(true).to_text(), "true");
    assert_eq!(Value::Any("x".to_string()).to_text(), "x");
    assert_eq!(tagged("E", "A", vec![]).to_text(), "E::A");
    assert_eq!(
        tagged("E", "B", vec![num(1), truth(false)]).to_text(),
        "E::B(1,false)"
    );
    assert_eq!(Enum::Var("x".to_string()).to_text(), "enum::x");
    let e = AExpr::Div(
        Box::new(AExpr::Mul(Box::new(var("x")), Box::new(lit(2)))),
        Box::new(AExpr::Sub(Box::new(lit(3)), Box::new(lit(1)))),
    );
    assert_eq!(e.to_text(), "((x * 2) / (3 - 1))");
    assert_eq!(
        AExpr::Add(Box::new(lit(1)), Box::new(lit(2))).to_text(),
        "(1 + 2)"
    );
    let b = BExpr::Not(Box::new(BExpr::Or(
        Box::new(BExpr::And(
            Box::new(BExpr::Var("p".to_string())),
            Box::new(BExpr::Lit(true)),
        )),
        Box::new(BExpr::NumLtEq(var("x"), lit(3))),
    )));
    assert_eq!(b.to_text(), "!((p && true) || (x <= 3))");
    assert_eq!(BExpr::NumEq(lit(1), lit(2)).to_text(), "(1 == 2)");
    assert_eq!(BExpr::NumNotEq(lit(1), lit(2)).to_text(), "(1 != 2)");
    assert_eq!(BExpr::NumLt(lit(1), lit(2)).to_text(), "(1 < 2)");
    assert_eq!(BExpr::NumGt(lit(1), lit(2)).to_text(), "(1 > 2)");
    assert_eq!(BExpr::NumGtEq(lit(1), lit(2)).to_text(), "(1 >= 2)");
    assert_eq!(
        BExpr::EnumIs(
            Enum::Var("e".to_string()),
            Enum::Lit("E".to_string(), "A".to_string(), vec![])
        )
        .to_text(),
        "(enum::e is E::A)"
    );
    assert_eq!(num(3).mangle("a".to_string()), "a#3");
    assert_eq!(encode_action("port".to_string(), &truth(false)), "port#false");
    assert_eq!(encode_constant("P".to_string(), &vec![]), "P");
    assert_eq!(
        encode_constant("P".to_string(), &vec![num(1), tagged("E", "A", vec![])]),
        "P#1#E::A"
    );
}

#[test]
fn constants_are_instantiated_under_mangled_names() {
    let count = Process::if_then(
        BExpr::NumLt(var("n"), lit(2)),
        Process::action(
            Channel::Send("tick".to_string(), Some(Value::AExpr(var("n")))),
            Process::constant(
                "Count",
                vec![Value::AExpr(AExpr::Add(Box::new(var("n")), Box::new(lit(1))))],
            ),
        ),
    );
    let ctx = program(vec![
        Statement::Exec(Command::SetBounds(0, 3)),
        Statement::DefConstant("Count".to_string(), (vec!["n".to_string()], count)),
        Statement::DefConstant(
            "main".to_string(),
            (vec![], Process::constant("Count", vec![num(0)])),
        ),
        Statement::Exec(Command::SetMain("main".to_string())),
    ])
    .unwrap();
    let ccs = ctx.to_ccs().unwrap();
    let names: Vec<String> = (0..ccs.constants().len())
        .map(|i| ccs.constants().entry(i).unwrap().0.clone())
        .collect();
    assert_eq!(names, vec!["Count#2", "Count#1", "Count#0", "main"]);
    assert_eq!(ccs.get_process("Count#2"), Some(&ProcessCcs::nil()));
    assert_eq!(
        ccs.get_process("Count#1"),
        Some(&ProcessCcs::action(
            ChannelCcs::send("tick#1"),
            ProcessCcs::constant("Count#2")
        ))
    );
    assert_eq!(
        ccs.get_process("main"),
        Some(&ProcessCcs::constant("Count#0"))
    );
    let lts = ccs.to_lts().unwrap();
    assert_eq!(lts.len(), 2);
}

#[test]
fn recursive_instances_are_left_as_references() {
    let body = Process::action(
        Channel::Send("a".to_string(), None),
        Process::constant("Loop", vec![Value::AExpr(var("n"))]),
    );
    let mut ctx = bounded(0, 2);
    ctx.bind_process("Loop".to_string(), (vec!["n".to_string()], body));
    ctx.bind_process(
        "main".to_string(),
        (vec![], Process::constant("Loop", vec![num(1)])),
    );
    ctx.set_main("main".to_string());
    let ccs = ctx.to_ccs().unwrap();
    assert_eq!(
        ccs.get_process("Loop#1"),
        Some(&ProcessCcs::action(
            ChannelCcs::send("a"),
            ProcessCcs::constant("Loop#1")
        ))
    );
    assert_eq!(ccs.constants().len(), 2);
}

#[test]
fn restrictions_and_substitutions_are_mangled_with_every_value() {
    let inner = Process::action(Channel::Send("a".to_string(), Some(truth(true))), Process::nil());
    let restricted = Process::restriction(inner.clone(), vec!["a".to_string(), "b".to_string()]);
    let mut ctx = Context::default();
    ctx.bind_process("main".to_string(), (vec![], restricted));
    ctx.set_main("main".to_string());
    assert_eq!(ctx.to_ccs().err(), Some(Error::ValuesNotGenerated));
    ctx.gen_values().unwrap();
    let ccs = ctx.to_ccs().unwrap();
    assert_eq!(
        ccs.get_process("main"),
        Some(&ProcessCcs::restriction(
            ProcessCcs::action(ChannelCcs::send("a#true"), ProcessCcs::nil()),
            vec![
                "a#true".to_string(),
                "a#false".to_string(),
                "b#true".to_string(),
                "b#false".to_string()
            ]
        ))
    );
    let subs = Substitution::new(vec![("c".to_string(), "a".to_string())]).unwrap();
    let renamed = Process::substitution(inner, subs);
    let mut ctx = Context::default();
    ctx.bind_process("main".to_string(), (vec![], renamed));
    ctx.set_main("main".to_string());
    ctx.gen_values().unwrap();
    let ccs = ctx.to_ccs().unwrap();
    let expected = Substitution::new(vec![
        ("c#true".to_string(), "a#true".to_string()),
        ("c#false".to_string(), "a#false".to_string()),
    ])
    .unwrap();
    assert_eq!(
        ccs.get_process("main"),
        Some(&ProcessCcs::substitution(
            ProcessCcs::action(ChannelCcs::send("a#true"), ProcessCcs::nil()),
            expected
        ))
    );
    let lts = ccs.to_lts().unwrap();
    assert_eq!(lts.len(), 1);
    assert_eq!(lts.edges()[0], &ChannelCcs::send("c#true"));
}

#[test]
fn compilation_errors() {
    let mut ctx = bounded(0, 2);
    ctx.set_main("main".to_string());
    assert_eq!(ctx.to_ccs().err(), Some(Error::MainMissing));
    ctx.bind_process(
        "main".to_string(),
        (vec![], Process::constant("Missing", vec![])),
    );
    assert_eq!(ctx.to_ccs().err(), Some(Error::UnknownConstant));
    ctx.bind_process(
        "P".to_string(),
        (
            vec!["n".to_string()],
            Process::action(
                Channel::Send("a".to_string(), Some(Value::AExpr(var("n")))),
                Process::nil(),
            ),
        ),
    );
    ctx.bind_process(
        "main".to_string(),
        (vec![], Process::constant("P", vec![truth(true)])),
    );
    assert_eq!(ctx.to_ccs().err(), Some(Error::TypeMismatch));
    ctx.bind_process(
        "main".to_string(),
        (vec![], Process::constant("P", vec![num(5)])),
    );
    assert_eq!(ctx.to_ccs().err(), Some(Error::IntegerOutOfBounds));
    ctx.bind_process(
        "main".to_string(),
        (
            vec![],
            Process::if_then(BExpr::Var("b".to_string()), Process::nil()),
        ),
    );
    assert_eq!(ctx.to_ccs().err(), Some(Error::UnboundVariable));
}

#[test]
fn choice_between_two_branches() {
    let p = Process::if_then_else(
        BExpr::NumLt(lit(1), lit(2)),
        Process::action(Channel::Send("yes".to_string(), None), Process::nil()),
        Process::action(Channel::Send("no".to_string(), None), Process::nil()),
    );
    let par = Process::par(
        p,
        Process::action(Channel::tau(), Process::sum(vec![Process::nil()])),
    );
    let mut ctx = bounded(0, 3);
    ctx.bind_process("main".to_string(), (vec![], par));
    ctx.set_main("main".to_string());
    let ccs = ctx.to_ccs().unwrap();
    assert_eq!(
        ccs.get_process("main"),
        Some(&ProcessCcs::par(
            ProcessCcs::action(ChannelCcs::send("yes"), ProcessCcs::nil()),
            ProcessCcs::action(ChannelCcs::tau(), ProcessCcs::nil()),
        ))
    );
    assert_eq!(ctx.constants().len(), 1);
    assert!(ctx.get_process("main").is_some());
    assert!(ctx.get_process("other").is_none());
}

#[test]
fn program_errors_are_reported_in_order() {
    let bad_bounds = program(vec![
        Statement::Exec(Command::SetBounds(4, 4)),
        Statement::DefEnum("any".to_string(), vec![]),
    ]);
    assert_eq!(bad_bounds.err(), Some(Error::InvalidBounds));
    let bad_enum = program(vec![
        Statement::DefEnum("any".to_string(), vec![]),
        Statement::Exec(Command::SetBounds(4, 4)),
    ]);
    assert_eq!(bad_enum.err(), Some(Error::InvalidType));
    let no_values = program(vec![
        Statement::Exec(Command::SetBounds(0, 4)),
        Statement::DefAlias("A".to_string(), "Nowhere".to_string()),
    ]);
    assert_eq!(no_values.err(), Some(Error::InvalidType));
}

#[test]
fn process_texts() {
    let send = Process::action(
        Channel::Send(
            "a".to_string(),
            Some(Value::AExpr(AExpr::Add(Box::new(var("x")), Box::new(lit(1))))),
        ),
        Process::nil(),
    );
    assert_eq!(send.to_text(), "a!((x + 1)); NIL");
    let recv = Process::action(
        Channel::Recv("a".to_string(), Some("x".to_string())),
        Process::constant("P", vec![Value::Any("x".to_string()), num(2)]),
    );
    assert_eq!(recv.to_text(), "a?(x); P(x,2)");
    assert_eq!(Channel::Send("c".to_string(), None).to_text(), "c!");
    assert_eq!(Channel::Recv("c".to_string(), None).to_text(), "c?");
    assert_eq!(Channel::tau().to_text(), "Tau");
    assert_eq!(Process::constant("K", vec![]).to_text(), "K");
    let guard = Process::if_then(BExpr::NumEq(var("x"), lit(1)), Process::constant("K", vec![]));
    assert_eq!(guard.to_text(), "if (x == 1) then { K }");
    let sum = Process::sum(vec![send.clone(), guard.clone()]);
    assert_eq!(sum.to_text(), "(a!((x + 1)); NIL + if (x == 1) then { K })");
    let par = Process::par(Process::nil(), Process::constant("K", vec![]));
    assert_eq!(par.to_text(), "(NIL | K)");
    let res = Process::restriction(par.clone(), vec!["a".to_string(), "b".to_string()]);
    assert_eq!(res.to_text(), "((NIL | K) \\ [a, b])");
    let subs = Substitution::new(vec![("x".to_string(), "a".to_string())]).unwrap();
    assert_eq!(Process::substitution(par, subs).to_text(), "((NIL | K) [x/a])");
}
