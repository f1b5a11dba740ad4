use ccs::cli::{Arg, Cli, Dialect};
use ccs::error::Error;

fn flag(name: &str) -> Arg {
    Arg::Flag(name.to_string())
}

fn value(name: &str, v: &str) -> Arg {
    Arg::Value(name.to_string(), v.to_string())
}

#[test]
fn nothing_is_asked_for_at_first() {
    let cli = Cli::default();
    assert_eq!(cli.source(), "");
    assert!(!cli.ccs() && !cli.bisim() && !cli.lts() && !cli.render());
    assert_eq!(cli.dialect(), Err(Error::ExtensionMismatch));
}

#[test]
fn flags_switch_on_what_they_name() {
    let cli = Cli::default().apply_arg(flag("lts"));
    assert!(cli.lts() && !cli.ccs() && !cli.bisim() && !cli.render());
    let cli = cli.apply_arg(flag("bisim")).apply_arg(flag("unknown"));
    assert!(cli.lts() && cli.bisim() && !cli.ccs() && !cli.render());
    let cli = cli.apply_arg(flag("ccs")).apply_arg(flag("render"));
    assert!(cli.lts() && cli.bisim() && cli.ccs() && cli.render());
    let cli = cli.apply_arg(flag("source"));
    assert_eq!(cli.source(), "");
}

#[test]
fn source_is_named_by_a_value() {
    let cli = Cli::default()
        .apply_arg(value("source", "a.ccs"))
        .apply_arg(value("lts", "yes"))
        .apply_arg(value("source", "b.ccsvp"));
    assert_eq!(cli.source(), "b.ccsvp");
    assert!(!cli.lts());
}

#[test]
fn arguments_are_applied_in_order() {
    let cli = Cli::parse_args(vec![
        value("source", "x.ccs"),
        flag("bisim"),
        value("source", "y.ccs"),
        flag("ccs"),
    ]);
    assert_eq!(cli.source(), "y.ccs");
    assert!(cli.bisim() && cli.ccs() && !cli.lts());
    let none = Cli::parse_args(vec![]);
    assert_eq!(none.source(), "");
}

#[test]
fn extension_names_the_dialect() {
    let of = |s: &str| Cli::default().apply_arg(value("source", s)).dialect();
    assert_eq!(of("prog.ccs"), Ok(Dialect::Ccs));
    assert_eq!(of("dir/prog.ccsvp"), Ok(Dialect::CcsVp));
    assert_eq!(of(".ccs"), Ok(Dialect::Ccs));
    assert_eq!(of("prog.txt"), Err(Error::ExtensionMismatch));
    assert_eq!(of("prog.ccs.bak"), Err(Error::ExtensionMismatch));
    assert_eq!(of("ccs"), Err(Error::ExtensionMismatch));
    assert_eq!(of("prog.ccsv"), Err(Error::ExtensionMismatch));
    assert_eq!(of("prog.CCS"), Err(Error::ExtensionMismatch));
}
