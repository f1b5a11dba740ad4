//! The options of the command line: which source to read and what to show of
//! it.
use vstd::prelude::*;

use crate::error::Error;

verus! {

/// One argument of the command line: a flag, or a name with a value.
#[derive(Debug)]
pub enum Arg {
    Flag(String),
    Value(String, String),
}

/// The mathematical value of an [`Arg`].
pub enum Argument {
    Flag(Seq<char>),
    Value(Seq<char>, Seq<char>),
}

impl View for Arg {
    type V = Argument;

    open spec fn view(&self) -> Argument {
        match self {
            Arg::Flag(name) => Argument::Flag(name@),
            Arg::Value(name, value) => Argument::Value(name@, value@),
        }
    }
}

/// The dialect of a source.
#[derive(Debug, Clone, Copy, PartialEq, Eq, Structural)]
pub enum Dialect {
    /// The pure calculus.
    Ccs,
    /// The value-passing calculus.
    CcsVp,
}

/// The mathematical value of a [`Cli`].
pub struct Options {
    pub source: Seq<char>,
    pub ccs: bool,
    pub bisim: bool,
    pub lts: bool,
    pub render: bool,
}

/// Whether `s` ends with `suffix`.
pub open spec fn ends_with(s: Seq<char>, suffix: Seq<char>) -> bool {
    s.len() >= suffix.len() && s.subrange(s.len() - suffix.len(), s.len() as int) == suffix
}

impl Options {
    /// No source is named and nothing is shown.
    pub open spec fn initial() -> Options {
        Options { source: Seq::empty(), ccs: false, bisim: false, lts: false, render: false }
    }

    /// The options after an argument: the flags `ccs`, `bisim`, `lts` and
    /// `render` switch on what they name, `source` with a value names the
    /// source, and every other argument is passed over.
    pub open spec fn apply(self, arg: Argument) -> Options {
        match arg {
            Argument::Flag(name) => if name == "ccs"@ {
                Options { ccs: true, ..self }
            } else if name == "bisim"@ {
                Options { bisim: true, ..self }
            } else if name == "lts"@ {
                Options { lts: true, ..self }
            } else if name == "render"@ {
                Options { render: true, ..self }
            } else {
                self
            },
            Argument::Value(name, value) => if name == "source"@ {
                Options { source: value, ..self }
            } else {
                self
            },
        }
    }

    /// The options after the first `n` of the arguments, in order.
    pub open spec fn apply_all(self, args: Seq<Arg>, n: int) -> Options
        decreases n,
    {
        if n <= 0 {
            self
        } else {
            self.apply_all(args, n - 1).apply(args[n - 1]@)
        }
    }

    /// The dialect that the extension of the source names, if it names one.
    pub open spec fn dialect(self) -> Result<Dialect, Error> {
        if ends_with(self.source, ".ccs"@) {
            Ok(Dialect::Ccs)
        } else if ends_with(self.source, ".ccsvp"@) {
            Ok(Dialect::CcsVp)
        } else {
            Err(Error::ExtensionMismatch)
        }
    }
}

/// The options of a run.
#[derive(Debug)]
pub struct Cli {
    source: String,
    ccs: bool,
    bisim: bool,
    lts: bool,
    render: bool,
}

impl View for Cli {
    type V = Options;

    closed spec fn view(&self) -> Options {
        Options {
            source: self.source@,
            ccs: self.ccs,
            bisim: self.bisim,
            lts: self.lts,
            render: self.render,
        }
    }
}

/// Whether `s` ends with `suffix`.
fn has_suffix(s: &str, suffix: &str) -> (r: bool)
    ensures
        r == ends_with(s@, suffix@),
{
    let n = s.unicode_len();
    let k = suffix.unicode_len();
    if n < k {
        return false;
    }
    let mut i: usize = 0;
    while i < k
        invariant
            i <= k,
            k <= n,
            n == s@.len(),
            k == suffix@.len(),
            forall|j: int| 0 <= j < i ==> s@[n - k + j] == suffix@[j],
        decreases k - i,
    {
        if s.get_char(n - k + i) != suffix.get_char(i) {
            assert(s@.subrange(n - k, n as int)[i as int] != suffix@[i as int]);
            return false;
        }
        i += 1;
    }
    assert(s@.subrange(n - k, n as int) =~= suffix@);
    true
}

impl Cli {
    /// The options before any argument; see [`Options::initial`].
    pub fn default() -> (r: Self)
        ensures
            r@ == Options::initial(),
    {
        Cli { source: String::new(), ccs: false, bisim: false, lts: false, render: false }
    }

    /// The options after the argument `arg`; see [`Options::apply`].
    pub fn apply_arg(self, arg: Arg) -> (r: Self)
        ensures
            r@ == self@.apply(arg@),
    {
        let mut cli = self;
        match arg {
            Arg::Flag(name) => {
                if *name.as_str() == *"ccs" {
                    cli.ccs = true;
                } else if *name.as_str() == *"bisim" {
                    cli.bisim = true;
                } else if *name.as_str() == *"lts" {
                    cli.lts = true;
                } else if *name.as_str() == *"render" {
                    cli.render = true;
                }
            },
            Arg::Value(name, value) => {
                if *name.as_str() == *"source" {
                    cli.source = value;
                }
            },
        }
        cli
    }

    /// The options after the arguments `args`, applied in order from the
    /// initial options.
    pub fn parse_args(args: Vec<Arg>) -> (r: Self)
        ensures
            r@ == Options::initial().apply_all(args@, args.len() as int),
    {
        let mut cli = Cli::default();
        let mut args = args;
        let ghost all = args@;
        let mut rest: Vec<Arg> = Vec::new();
        while args.len() > 0
            invariant
                args.len() + rest.len() == all.len(),
                args@ =~= all.take(args.len() as int),
                forall|k: int| 0 <= k < rest.len() ==> rest[k] == all[all.len() - 1 - k],
            decreases args.len(),
        {
            let ghost whole = args@;
            let a = args.pop().unwrap();
            assert(a == whole[whole.len() - 1]);
            rest.push(a);
        }
        let mut n: usize = 0;
        let total = rest.len();
        while rest.len() > 0
            invariant
                rest.len() + n == total,
                total == all.len(),
                forall|k: int| 0 <= k < rest.len() ==> rest[k] == all[all.len() - 1 - k],
                cli@ == Options::initial().apply_all(all, n as int),
            decreases rest.len(),
        {
            let ghost whole = rest@;
            let a = rest.pop().unwrap();
            assert(a == whole[whole.len() - 1]);
            assert(a == all[n as int]);
            cli = cli.apply_arg(a);
            n += 1;
        }
        cli
    }

    /// The dialect of the source, told by its extension: `.ccs` names the
    /// pure calculus and `.ccsvp` the value-passing one; any other extension
    /// is an error.
    pub fn dialect(&self) -> (r: Result<Dialect, Error>)
        ensures
            r == self@.dialect(),
    {
        if has_suffix(self.source.as_str(), ".ccs") {
            Ok(Dialect::Ccs)
        } else if has_suffix(self.source.as_str(), ".ccsvp") {
            Ok(Dialect::CcsVp)
        } else {
            Err(Error::ExtensionMismatch)
        }
    }

    /// The source to read.
    pub fn source(&self) -> (r: &str)
        ensures
            r@ == self@.source,
    {
        self.source.as_str()
    }

    /// Whether to show the program of the pure calculus.
    pub fn ccs(&self) -> (r: bool)
        ensures
            r == self@.ccs,
    {
        self.ccs
    }

    /// Whether to show the bisimilarity of the transition system.
    pub fn bisim(&self) -> (r: bool)
        ensures
            r == self@.bisim,
    {
        self.bisim
    }

    /// Whether to show the transition system.
    pub fn lts(&self) -> (r: bool)
        ensures
            r == self@.lts,
    {
        self.lts
    }

    /// Whether to draw the transition system.
    pub fn render(&self) -> (r: bool)
        ensures
            r == self@.render,
    {
        self.render
    }
}

} // verus!
