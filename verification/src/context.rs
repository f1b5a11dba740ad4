//! The constants of a program and its entry constant.
use vstd::prelude::*;

use crate::ast::{clauses, Clause, Command, Program, Statement};
use crate::error::Error;
use crate::lts::Lts;
use crate::process::Step;
use crate::process::{terms, Process, Term};
use crate::table::Table;

verus! {

/// The mathematical value of a [`Context`]: the entry constant and the bound
/// constants with their bodies, in binding order.
pub struct Definitions {
    pub main: Seq<char>,
    pub names: Seq<Seq<char>>,
    pub bodies: Seq<Term>,
}

impl Definitions {
    /// No constant is bound and the entry constant has the empty name.
    pub open spec fn empty() -> Definitions {
        Definitions { main: Seq::empty(), names: Seq::empty(), bodies: Seq::empty() }
    }

    /// The body that `name` is bound to.
    pub open spec fn lookup(self, name: Seq<char>) -> Option<Term> {
        match self.names.index_of_first(name) {
            Some(i) => Some(self.bodies[i]),
            None => None,
        }
    }

    /// The first constant, in binding order, whose body is `body`.
    pub open spec fn name_of(self, body: Term) -> Option<Seq<char>> {
        match self.bodies.index_of_first(body) {
            Some(i) => Some(self.names[i]),
            None => None,
        }
    }

    /// The definitions after `name` was bound to `body`: a bound name keeps its
    /// place and gets the new body, a new name goes to the end.
    pub open spec fn bind(self, name: Seq<char>, body: Term) -> Definitions {
        match self.names.index_of_first(name) {
            Some(i) => Definitions { bodies: self.bodies.update(i, body), ..self },
            None => Definitions {
                names: self.names.push(name),
                bodies: self.bodies.push(body),
                ..self
            },
        }
    }

    /// The definitions with another entry constant.
    pub open spec fn with_main(self, main: Seq<char>) -> Definitions {
        Definitions { main, ..self }
    }

    /// The transition system of the entry constant.
    pub open spec fn to_lts(self) -> Result<Set<Step>, Error> {
        if self.lookup(self.main) is None {
            Err(Error::MainMissing)
        } else {
            Term::Constant(self.main).derive_lts(self)
        }
    }

    /// Every name has a body.
    pub open spec fn wf(self) -> bool {
        self.names.len() == self.bodies.len()
    }
}

/// The constants of a program, each bound to its body, and the name of the
/// entry constant.
#[derive(Debug)]
pub struct Context {
    main: String,
    constants: Table<Process>,
}

impl View for Context {
    type V = Definitions;

    closed spec fn view(&self) -> Definitions {
        Definitions {
            main: self.main@,
            names: self.constants.keys(),
            bodies: terms(self.constants.values()),
        }
    }
}

impl Default for Context {
    fn default() -> (r: Self)
        ensures
            r@ == Definitions::empty(),
    {
        let r = Context { main: String::new(), constants: Table::new() };
        assert(r@.bodies =~= Seq::<Term>::empty());
        r
    }
}

impl Context {
    /// A context that binds nothing.
    pub fn new() -> (r: Self)
        ensures
            r@ == Definitions::empty(),
    {
        Context::default()
    }

    /// The bound constants, in binding order.
    pub fn constants(&self) -> (r: &Table<Process>)
        ensures
            r.keys() == self@.names,
            terms(r.values()) == self@.bodies,
            self@.wf(),
    {
        proof {
            use_type_invariant(&self.constants);
        }
        &self.constants
    }

    /// Binds `name` to the body `p`, in place of an earlier body if there is one.
    pub fn bind_process(&mut self, name: String, p: Process)
        ensures
            final(self)@ == old(self)@.bind(name@, p@),
    {
        let ghost before = self.constants.values();
        let ghost found = self.constants.index_of(name@);
        proof {
            use_type_invariant(&self.constants);
            self.constants.keys().index_of_first_ensures(name@);
        }
        let mut constants: Table<Process> = Table::new();
        std::mem::swap(&mut constants, &mut self.constants);
        constants.insert(name, p);
        self.constants = constants;
        proof {
            match found {
                Some(i) => {
                    assert(terms(before.update(i, p)) =~= terms(before).update(i, p@));
                },
                None => {
                    assert(terms(before.push(p)) =~= terms(before).push(p@));
                },
            }
        }
    }

    /// The body of the constant `name`.
    pub fn get_process(&self, name: &str) -> (r: Option<&Process>)
        ensures
            match r {
                Some(p) => self@.lookup(name@) == Some(p@),
                None => self@.lookup(name@) is None,
            },
    {
        proof {
            use_type_invariant(&self.constants);
            self.constants.keys().index_of_first_ensures(name@);
        }
        self.constants.get(name)
    }

    /// The name of the first constant whose body is `p`.
    pub fn name_of(&self, p: &Process) -> (r: Option<&str>)
        ensures
            match r {
                Some(n) => self@.name_of(p@) == Some(n@),
                None => self@.name_of(p@) is None,
            },
    {
        let ghost bodies = self@.bodies;
        proof {
            use_type_invariant(&self.constants);
        }
        let mut i: usize = 0;
        while i < self.constants.len()
            invariant
                i <= self.constants.keys().len(),
                bodies == self@.bodies,
                bodies.len() == self.constants.values().len(),
                self.constants.keys().len() == self.constants.values().len(),
                forall|k: int| 0 <= k < i ==> bodies[k] != p@,
            decreases self.constants.keys().len() - i,
        {
            if *self.constants.value(i) == *p {
                proof {
                    assert(bodies[i as int] == p@);
                    bodies.index_of_first_ensures(p@);
                }
                return Some(self.constants.key(i).as_str());
            }
            i += 1;
        }
        proof {
            bodies.index_of_first_ensures(p@);
        }
        None
    }

    /// The reference to the first constant whose body is `p`.
    pub fn process_to_const(&self, p: &Process) -> (r: Option<Process>)
        ensures
            match r {
                Some(c) => self@.name_of(p@) matches Some(n) && c@ == Term::Constant(n),
                None => self@.name_of(p@) is None,
            },
    {
        match self.name_of(p) {
            Some(name) => Some(Process::constant(name)),
            None => None,
        }
    }

    /// The transition system of the entry constant. It fails where the entry
    /// constant is not bound, or where a constant that is reached is not.
    pub fn to_lts(&self) -> (r: Result<Lts, Error>)
        ensures
            match r {
                Ok(lts) => self@.to_lts() == Ok::<Set<Step>, Error>(lts@),
                Err(e) => self@.to_lts() == Err::<Set<Step>, Error>(e),
            },
    {
        if self.get_process(self.main.as_str()).is_none() {
            return Err(Error::MainMissing);
        }
        Process::constant(self.main.as_str()).derive_lts(self)
    }

    /// Names the entry constant.
    pub fn set_main(&mut self, main: String)
        ensures
            final(self)@ == old(self)@.with_main(main@),
    {
        self.main = main;
    }
}

/// The definitions that a list of statements leaves behind, taken in order
/// from the empty context.
pub open spec fn definitions_of(statements: Seq<Clause>) -> Definitions
    decreases statements.len(),
{
    if statements.len() == 0 {
        Definitions::empty()
    } else {
        let before = definitions_of(statements.drop_last());
        match statements.last() {
            Clause::DefConstant(name, body) => before.bind(name, body),
            Clause::SetMain(main) => before.with_main(main),
        }
    }
}

impl From<Program> for Context {
    /// The context in which the statements of `value` have been run, in order.
    fn from(value: Program) -> (r: Self)
        ensures
            r@ == definitions_of(clauses(value.0@)),
    {
        let mut ctx = Context::default();
        let ghost all = clauses(value.0@);
        let mut i: usize = 0;
        assert(all.take(0).len() == 0);
        while i < value.0.len()
            invariant
                i <= value.0.len(),
                all == clauses(value.0@),
                ctx@ == definitions_of(all.take(i as int)),
            decreases value.0.len() - i,
        {
            proof {
                let next = all.take(i + 1);
                assert(next.drop_last() =~= all.take(i as int));
                assert(next.last() == value.0@[i as int]@);
            }
            match &value.0[i] {
                Statement::DefConstant(name, def) => ctx.bind_process(name.clone(), def.clone()),
                Statement::Exec(cmd) => match cmd {
                    Command::SetMain(main) => ctx.set_main(main.clone()),
                },
            }
            i += 1;
        }
        assert(all.take(value.0.len() as int) =~= all);
        ctx
    }
}

impl vstd::std_specs::convert::FromSpecImpl<Program> for Context {
    open spec fn obeys_from_spec() -> bool {
        false
    }

    open spec fn from_spec(value: Program) -> Self {
        choose|c: Context| #[trigger] c.view() == definitions_of(clauses(value.0@))
    }
}

} // verus!
