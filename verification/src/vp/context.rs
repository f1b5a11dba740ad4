//! The declarations of a value-passing program: constants with parameters,
//! enum types, type aliases, the bounds of the integers, and the values of
//! each type.
use vstd::prelude::*;

use crate::context::{Context as ContextCcs, Definitions};
use crate::error::Error;
use crate::process::{contains_name, lemma_unseen_decreases, unseen};
use crate::table::{names_view, Table};
use crate::vp::ast::{declarations, Command, Declaration, Program, Statement};
use crate::vp::process::{clone_values, Agent, Process};
use crate::vp::utils::{count, lemma_product_len, lists, permute, product};
use crate::vp::values::{vals, vals_result, AExpr, Arith, BExpr, Enum, Logic, Val, Value, Variant};

verus! {

/// Names bound to values, in binding order.
pub struct Bindings<V> {
    pub names: Seq<Seq<char>>,
    pub values: Seq<V>,
}

impl<V> Bindings<V> {
    /// No name is bound.
    pub open spec fn empty() -> Bindings<V> {
        Bindings { names: Seq::empty(), values: Seq::empty() }
    }

    /// Whether `name` is bound.
    pub open spec fn binds(self, name: Seq<char>) -> bool {
        self.names.contains(name)
    }

    /// The value that `name` is bound to.
    pub open spec fn lookup(self, name: Seq<char>) -> Option<V> {
        match self.names.index_of_first(name) {
            Some(i) => Some(self.values[i]),
            None => None,
        }
    }

    /// The bindings after `name` was bound to `value`: a bound name keeps its
    /// place, a new name goes to the end.
    pub open spec fn bind(self, name: Seq<char>, value: V) -> Bindings<V> {
        match self.names.index_of_first(name) {
            Some(i) => Bindings { names: self.names, values: self.values.update(i, value) },
            None => Bindings { names: self.names.push(name), values: self.values.push(value) },
        }
    }
}

/// The declaration of a tag of an enum: its name and the types of its fields.
pub type TagDecl = (Seq<char>, Seq<Seq<char>>);

/// The value of the declaration of a tag.
pub open spec fn tag_view(tag: (String, Vec<String>)) -> TagDecl {
    (tag.0@, names_view(tag.1@))
}

/// The values of the declarations of the tags of an enum.
pub open spec fn tag_views(tags: Seq<(String, Vec<String>)>) -> Seq<TagDecl> {
    Seq::new(tags.len(), |i: int| tag_view(tags[i]))
}

/// The mathematical value of a [`Context`].
pub struct Scope {
    /// The entry constant.
    pub main: Seq<char>,
    /// The constants: their parameters and their bodies.
    pub constants: Bindings<(Seq<Seq<char>>, Agent)>,
    /// The enum types: their tags.
    pub enums: Bindings<Seq<TagDecl>>,
    /// The aliases: the types they stand for.
    pub aliases: Bindings<Seq<char>>,
    /// The least integer and the integer above the greatest.
    pub bounds: (u32, u32),
    /// The values of the types, as they were last generated.
    pub cache: Bindings<Seq<Val>>,
}

/// The name of the type of the integers.
pub open spec fn int_type() -> Seq<char> {
    "int"@
}

/// The name of the type of the truth values.
pub open spec fn bool_type() -> Seq<char> {
    "bool"@
}

/// The name that stands for the type of a variable of no kind.
pub open spec fn any_type() -> Seq<char> {
    "any"@
}

/// The type that a value shows by its form: an enum variable shows none.
pub open spec fn type_of(v: Val) -> Result<Seq<char>, Error> {
    match v {
        Val::AExpr(_) => Ok(int_type()),
        Val::BExpr(_) => Ok(bool_type()),
        Val::Enum(Variant::Var(_)) => Err(Error::UnboundVariable),
        Val::Enum(Variant::Lit(ty, _, _)) => Ok(ty),
        Val::Any(_) => Ok(any_type()),
    }
}

impl Scope {
    /// Nothing is declared; the bounds are both zero.
    pub open spec fn empty() -> Scope {
        Scope {
            main: Seq::empty(),
            constants: Bindings::empty(),
            enums: Bindings::empty(),
            aliases: Bindings::empty(),
            bounds: (0u32, 0u32),
            cache: Bindings::empty(),
        }
    }

    /// The names of the types: the integers, the truth values, the enums and
    /// the aliases.
    pub open spec fn types(self) -> Seq<Seq<char>> {
        seq![int_type(), bool_type()] + self.enums.names + self.aliases.names
    }

    /// The names that are declared as types: the aliases and the enums.
    pub open spec fn declared(self) -> Seq<Seq<char>> {
        self.aliases.names + self.enums.names
    }

    /// The values of the type `ty`, while the types `visiting` are being
    /// worked out around it.
    ///
    /// - Values that were generated for the type are taken as they are.
    /// - An alias has the values of the type it stands for.
    /// - The truth values are two, the integers those within the bounds.
    /// - An enum has, for each tag in declaration order, one literal for every
    ///   way to pick a value for each field.
    /// - A name that is not declared has no values, nor has a type that is
    ///   declared through itself.
    pub open spec fn values_of(self, ty: Seq<char>, visiting: Seq<Seq<char>>) -> Result<
        Seq<Val>,
        Error,
    >
        decreases unseen(self.declared(), visiting), 0nat, 0nat,
    {
        match self.cache.lookup(ty) {
            Some(vs) => Ok(vs),
            None => match self.aliases.lookup(ty) {
                Some(target) => if visiting.contains(ty) {
                    Err(Error::InvalidType)
                } else {
                    proof {
                        self.aliases.names.index_of_first_ensures(ty);
                        let i = self.aliases.names.index_of_first(ty)->Some_0;
                        assert(self.declared()[i] == ty);
                        lemma_unseen_decreases(self.declared(), visiting, ty);
                    }
                    self.values_of(target, visiting.push(ty))
                },
                None => if ty == bool_type() {
                    Ok(bool_values())
                } else if ty == int_type() {
                    Ok(int_values(self.bounds))
                } else {
                    match self.enums.lookup(ty) {
                        Some(tags) => if visiting.contains(ty) {
                            Err(Error::InvalidType)
                        } else {
                            proof {
                                self.enums.names.index_of_first_ensures(ty);
                                let i = self.enums.names.index_of_first(ty)->Some_0;
                                assert(self.declared()[self.aliases.names.len() + i] == ty);
                                lemma_unseen_decreases(self.declared(), visiting, ty);
                            }
                            self.tags_values(ty, tags, visiting.push(ty))
                        },
                        None => Err(Error::InvalidType),
                    }
                },
            },
        }
    }

    /// The literals of the tags `tags` of the enum `ty`, tag after tag.
    pub open spec fn tags_values(
        self,
        ty: Seq<char>,
        tags: Seq<TagDecl>,
        visiting: Seq<Seq<char>>,
    ) -> Result<Seq<Val>, Error>
        decreases unseen(self.declared(), visiting), 2nat, tags.len(),
    {
        if tags.len() == 0 {
            Ok(Seq::empty())
        } else {
            match self.tags_values(ty, tags.drop_last(), visiting) {
                Err(e) => Err(e),
                Ok(init) => match self.fields_values(tags.last().1, visiting) {
                    Err(e) => Err(e),
                    Ok(ls) => Ok(init + literals(ty, tags.last().0, product(ls))),
                },
            }
        }
    }

    /// The values of each of the types `fields`, in order.
    pub open spec fn fields_values(self, fields: Seq<Seq<char>>, visiting: Seq<Seq<char>>) -> Result<
        Seq<Seq<Val>>,
        Error,
    >
        decreases unseen(self.declared(), visiting), 1nat, fields.len(),
    {
        if fields.len() == 0 {
            Ok(Seq::empty())
        } else {
            match self.fields_values(fields.drop_last(), visiting) {
                Err(e) => Err(e),
                Ok(init) => match self.values_of(fields.last(), visiting) {
                    Err(e) => Err(e),
                    Ok(vs) => Ok(init.push(vs)),
                },
            }
        }
    }

    /// The value universe: the generated values of every type, type after
    /// type.
    pub open spec fn values(self) -> Seq<Val> {
        concat(self.cache.values)
    }

    /// The scope after the values of the first types of `types` were
    /// generated, one type after the other, each with the values of the
    /// types before it at hand.
    pub open spec fn filled(self, types: Seq<Seq<char>>) -> Result<Scope, Error>
        decreases types.len(),
    {
        if types.len() == 0 {
            Ok(self)
        } else {
            match self.filled(types.drop_last()) {
                Err(e) => Err(e),
                Ok(s) => match s.values_of(types.last(), Seq::empty()) {
                    Err(e) => Err(e),
                    Ok(vs) => Ok(Scope { cache: s.cache.bind(types.last(), vs), ..s }),
                },
            }
        }
    }

    /// The scope without generated values.
    pub open spec fn cleared(self) -> Scope {
        Scope { cache: Bindings::empty(), ..self }
    }

    /// The scope with the values of all its types generated afresh.
    pub open spec fn generated(self) -> Result<Scope, Error> {
        self.cleared().filled(self.types())
    }

    /// Whether a field of the type `field` may be declared in the enum `ty`: a
    /// field may not be of the enum itself nor of no kind, unless that name
    /// is declared as a type.
    pub open spec fn admits_field(self, ty: Seq<char>, field: Seq<char>) -> bool {
        ||| field != ty && field != any_type()
        ||| field == int_type()
        ||| field == bool_type()
        ||| self.enums.binds(field)
        ||| self.aliases.binds(field)
    }

    /// Whether the enum `ty` may be declared with the tags `tags`.
    pub open spec fn admits_enum(self, ty: Seq<char>, tags: Seq<TagDecl>) -> bool {
        &&& ty != any_type()
        &&& forall|i: int, j: int|
            0 <= i < tags.len() && 0 <= j < tags[i].1.len() ==> self.admits_field(
                ty,
                #[trigger] tags[i].1[j],
            )
    }
}

/// The declarations of a value-passing program.
#[derive(Debug)]
pub struct Context {
    main: String,
    constants: Table<(Vec<String>, Process)>,
    enums: Table<Vec<(String, Vec<String>)>>,
    aliases: Table<String>,
    int_bounds: (u32, u32),
    cached_values: Table<Vec<Value>>,
}

/// The values of the declarations of constants.
pub open spec fn constant_views(cs: Seq<(Vec<String>, Process)>) -> Seq<(Seq<Seq<char>>, Agent)> {
    Seq::new(cs.len(), |i: int| (names_view(cs[i].0@), cs[i].1@))
}

/// The values of the declarations of enums.
pub open spec fn enum_views(es: Seq<Vec<(String, Vec<String>)>>) -> Seq<Seq<TagDecl>> {
    Seq::new(es.len(), |i: int| tag_views(es[i]@))
}

/// The values of a list of strings, each taken as one name.
pub open spec fn alias_views(targets: Seq<String>) -> Seq<Seq<char>> {
    names_view(targets)
}

/// The values of lists of values.
pub open spec fn cache_views(ls: Seq<Vec<Value>>) -> Seq<Seq<Val>> {
    lists(ls)
}

/// The two truth values, the true one first.
pub open spec fn bool_values() -> Seq<Val> {
    seq![Val::BExpr(Logic::Lit(true)), Val::BExpr(Logic::Lit(false))]
}

/// The integers within the bounds, from the lower one up to but not
/// including the upper one.
pub open spec fn int_values(bounds: (u32, u32)) -> Seq<Val> {
    Seq::new(
        if bounds.0 <= bounds.1 {
            (bounds.1 - bounds.0) as nat
        } else {
            0
        },
        |k: int| Val::AExpr(Arith::Lit((bounds.0 + k) as u32)),
    )
}

/// The literals of a tag of an enum, one for each list of fields.
pub open spec fn literals(ty: Seq<char>, tag: Seq<char>, fields: Seq<Seq<Val>>) -> Seq<Val> {
    Seq::new(fields.len(), |k: int| Val::Enum(Variant::Lit(ty, tag, fields[k])))
}

/// The lists of a list, one after the other.
pub open spec fn concat<A>(ls: Seq<Seq<A>>) -> Seq<A>
    decreases ls.len(),
{
    if ls.len() == 0 {
        Seq::empty()
    } else {
        concat(ls.drop_last()) + ls.last()
    }
}

impl View for Context {
    type V = Scope;

    closed spec fn view(&self) -> Scope {
        Scope {
            main: self.main@,
            constants: Bindings {
                names: self.constants.keys(),
                values: constant_views(self.constants.values()),
            },
            enums: Bindings { names: self.enums.keys(), values: enum_views(self.enums.values()) },
            aliases: Bindings {
                names: self.aliases.keys(),
                values: alias_views(self.aliases.values()),
            },
            bounds: self.int_bounds,
            cache: Bindings {
                names: self.cached_values.keys(),
                values: cache_views(self.cached_values.values()),
            },
        }
    }
}

impl Default for Context {
    fn default() -> (r: Self)
        ensures
            r@ == Scope::empty(),
    {
        let r = Context {
            main: String::new(),
            constants: Table::new(),
            enums: Table::new(),
            aliases: Table::new(),
            int_bounds: (0, 0),
            cached_values: Table::new(),
        };
        assert(r@.constants.values =~= Seq::empty());
        assert(r@.enums.values =~= Seq::empty());
        assert(r@.aliases.values =~= Seq::empty());
        assert(r@.cache.values =~= Seq::empty());
        r
    }
}

impl Context {
    /// The enum types, in declaration order.
    pub fn enums(&self) -> (r: &Table<Vec<(String, Vec<String>)>>)
        ensures
            r.keys() == self@.enums.names,
            enum_views(r.values()) == self@.enums.values,
            r.keys().len() == r.values().len(),
    {
        proof {
            use_type_invariant(&self.enums);
        }
        &self.enums
    }

    /// The constants, in declaration order.
    pub fn constants(&self) -> (r: &Table<(Vec<String>, Process)>)
        ensures
            r.keys() == self@.constants.names,
            constant_views(r.values()) == self@.constants.values,
            r.keys().len() == r.values().len(),
    {
        proof {
            use_type_invariant(&self.constants);
        }
        &self.constants
    }

    /// The names of the types; see [`Scope::types`].
    pub fn types(&self) -> (r: Vec<String>)
        ensures
            names_view(r@) == self@.types(),
    {
        let mut out: Vec<String> = Vec::new();
        out.push(String::from_str("int"));
        out.push(String::from_str("bool"));
        assert(names_view(out@) =~= seq![int_type(), bool_type()]);
        let mut i: usize = 0;
        while i < self.enums.len()
            invariant
                i <= self.enums.keys().len(),
                names_view(out@) == seq![int_type(), bool_type()] + self.enums.keys().take(
                    i as int,
                ),
            decreases self.enums.keys().len() - i,
        {
            let ghost before = out@;
            out.push(self.enums.key(i).clone());
            assert(names_view(out@) =~= names_view(before).push(self.enums.keys()[i as int]));
            assert(self.enums.keys().take(i + 1) =~= self.enums.keys().take(i as int).push(
                self.enums.keys()[i as int],
            ));
            assert(names_view(out@) =~= seq![int_type(), bool_type()] + self.enums.keys().take(
                i + 1,
            ));
            i += 1;
        }
        assert(self.enums.keys().take(i as int) =~= self.enums.keys());
        let mut j: usize = 0;
        while j < self.aliases.len()
            invariant
                j <= self.aliases.keys().len(),
                names_view(out@) == seq![int_type(), bool_type()] + self.enums.keys()
                    + self.aliases.keys().take(j as int),
            decreases self.aliases.keys().len() - j,
        {
            let ghost before = out@;
            out.push(self.aliases.key(j).clone());
            assert(names_view(out@) =~= names_view(before).push(self.aliases.keys()[j as int]));
            assert(self.aliases.keys().take(j + 1) =~= self.aliases.keys().take(j as int).push(
                self.aliases.keys()[j as int],
            ));
            assert(names_view(out@) =~= seq![int_type(), bool_type()] + self.enums.keys()
                + self.aliases.keys().take(j + 1));
            j += 1;
        }
        assert(self.aliases.keys().take(j as int) =~= self.aliases.keys());
        out
    }

    /// The type that `v` shows by its form; see [`type_of`].
    pub fn type_of<'a>(&self, v: &'a Value) -> (r: Result<&'a str, Error>)
        ensures
            match r {
                Ok(ty) => type_of(v@) == Ok::<Seq<char>, Error>(ty@),
                Err(e) => type_of(v@) == Err::<Seq<char>, Error>(e),
            },
    {
        match v {
            Value::AExpr(_) => Ok("int"),
            Value::BExpr(_) => Ok("bool"),
            Value::Enum(Enum::Var(_)) => Err(Error::UnboundVariable),
            Value::Enum(Enum::Lit(ty, tag, fields)) => {
                proof {
                    crate::vp::values::lemma_enum_view(*ty, *tag, *fields);
                }
                Ok(ty.as_str())
            },
            Value::Any(_) => Ok("any"),
        }
    }

    fn admits_field(&self, ty: &String, field: &String) -> (r: bool)
        ensures
            r == self@.admits_field(ty@, field@),
    {
        proof {
            self.enums.keys().index_of_first_ensures(field@);
            self.aliases.keys().index_of_first_ensures(field@);
        }
        (*field != *ty && *field.as_str() != *"any") || *field.as_str() == *"int" || *field.as_str()
            == *"bool" || self.enums.find(field.as_str()).is_some() || self.aliases.find(
            field.as_str(),
        ).is_some()
    }

    /// Declares the enum `ty` with its tags, unless the declaration is not
    /// admitted; see [`Scope::admits_enum`].
    pub fn bind_enum(&mut self, ty: String, tags: Vec<(String, Vec<String>)>) -> (r: Result<
        (),
        Error,
    >)
        ensures
            match r {
                Ok(_) => old(self)@.admits_enum(ty@, tag_views(tags@)) && final(self)@ == (Scope {
                    enums: old(self)@.enums.bind(ty@, tag_views(tags@)),
                    ..old(self)@
                }),
                Err(e) => e == Error::InvalidType && !old(self)@.admits_enum(ty@, tag_views(tags@))
                    && final(self)@ == old(self)@,
            },
    {
        let ghost decls = tag_views(tags@);
        if *ty.as_str() == *"any" {
            return Err(Error::InvalidType);
        }
        let mut i: usize = 0;
        while i < tags.len()
            invariant
                i <= tags.len(),
                decls == tag_views(tags@),
                *self == *old(self),
                forall|a: int, b: int|
                    0 <= a < i && 0 <= b < decls[a].1.len() ==> self@.admits_field(
                        ty@,
                        #[trigger] decls[a].1[b],
                    ),
            decreases tags.len() - i,
        {
            let fields = &tags[i].1;
            let mut j: usize = 0;
            while j < fields.len()
                invariant
                    j <= fields.len(),
                    i < tags.len(),
                    decls == tag_views(tags@),
                    fields == &tags[i as int].1,
                    *self == *old(self),
                    forall|b: int|
                        0 <= b < j ==> self@.admits_field(ty@, #[trigger] decls[i as int].1[b]),
                decreases fields.len() - j,
            {
                assert(decls[i as int].1[j as int] == fields[j as int]@);
                if !self.admits_field(&ty, &fields[j]) {
                    return Err(Error::InvalidType);
                }
                j += 1;
            }
            i += 1;
        }
        let ghost before = self.enums.values();
        let ghost found = self.enums.index_of(ty@);
        proof {
            use_type_invariant(&self.enums);
            self.enums.keys().index_of_first_ensures(ty@);
        }
        let mut enums: Table<Vec<(String, Vec<String>)>> = Table::new();
        std::mem::swap(&mut enums, &mut self.enums);
        enums.insert(ty, tags);
        self.enums = enums;
        proof {
            match found {
                Some(k) => {
                    assert(enum_views(before.update(k, tags)) =~= enum_views(before).update(
                        k,
                        decls,
                    ));
                },
                None => {
                    assert(enum_views(before.push(tags)) =~= enum_views(before).push(decls));
                },
            }
        }
        Ok(())
    }

    /// Declares the constant `name` with its parameters and its body.
    pub fn bind_process(&mut self, name: String, p: (Vec<String>, Process))
        ensures
            final(self)@ == (Scope {
                constants: old(self)@.constants.bind(name@, (names_view(p.0@), p.1@)),
                ..old(self)@
            }),
    {
        let ghost before = self.constants.values();
        let ghost found = self.constants.index_of(name@);
        proof {
            use_type_invariant(&self.constants);
            self.constants.keys().index_of_first_ensures(name@);
        }
        let mut constants: Table<(Vec<String>, Process)> = Table::new();
        std::mem::swap(&mut constants, &mut self.constants);
        constants.insert(name, p);
        self.constants = constants;
        proof {
            let v = (names_view(p.0@), p.1@);
            match found {
                Some(i) => {
                    assert(constant_views(before.update(i, p)) =~= constant_views(before).update(
                        i,
                        v,
                    ));
                },
                None => {
                    assert(constant_views(before.push(p)) =~= constant_views(before).push(v));
                },
            }
        }
    }

    /// Declares `alias` as another name of the type `ty`.
    pub fn bind_alias(&mut self, alias: String, ty: String)
        ensures
            final(self)@ == (Scope {
                aliases: old(self)@.aliases.bind(alias@, ty@),
                ..old(self)@
            }),
    {
        let ghost before = self.aliases.values();
        let ghost found = self.aliases.index_of(alias@);
        proof {
            use_type_invariant(&self.aliases);
            self.aliases.keys().index_of_first_ensures(alias@);
        }
        let mut aliases: Table<String> = Table::new();
        std::mem::swap(&mut aliases, &mut self.aliases);
        aliases.insert(alias, ty);
        self.aliases = aliases;
        proof {
            match found {
                Some(i) => {
                    assert(alias_views(before.update(i, ty)) =~= alias_views(before).update(
                        i,
                        ty@,
                    ));
                },
                None => {
                    assert(alias_views(before.push(ty)) =~= alias_views(before).push(ty@));
                },
            }
        }
    }

    /// The parameters and the body of the constant `name`.
    pub fn get_process(&self, name: &str) -> (r: Option<&(Vec<String>, Process)>)
        ensures
            match r {
                Some(p) => self@.constants.lookup(name@) == Some((names_view(p.0@), p.1@)),
                None => self@.constants.lookup(name@) is None,
            },
    {
        proof {
            use_type_invariant(&self.constants);
            self.constants.keys().index_of_first_ensures(name@);
        }
        self.constants.get(name)
    }

    /// Sets the bounds of the integers: `min` is the least, `max` the one
    /// above the greatest. Bounds that leave no integer are refused.
    pub fn set_bounds(&mut self, bounds: (u32, u32)) -> (r: Result<(), Error>)
        ensures
            match r {
                Ok(_) => bounds.0 < bounds.1 && final(self)@ == (Scope { bounds, ..old(self)@ }),
                Err(e) => e == Error::InvalidBounds && bounds.0 >= bounds.1 && final(self)@ == old(
                    self,
                )@,
            },
    {
        if bounds.0 < bounds.1 {
            self.int_bounds = bounds;
            Ok(())
        } else {
            Err(Error::InvalidBounds)
        }
    }

    /// Names the entry constant.
    pub fn set_main(&mut self, main: String)
        ensures
            final(self)@ == (Scope { main: main@, ..old(self)@ }),
    {
        self.main = main;
    }

    /// The bounds of the integers.
    pub fn bounds(&self) -> (r: (u32, u32))
        ensures
            r == self@.bounds,
    {
        self.int_bounds
    }
}


/// An error among the values of the first fields is the error of all.
proof fn lemma_fields_error(scope: Scope, fields: Seq<Seq<char>>, i: int, visiting: Seq<Seq<char>>)
    requires
        0 <= i < fields.len(),
        scope.fields_values(fields.take(i + 1), visiting) is Err,
    ensures
        scope.fields_values(fields, visiting) == scope.fields_values(fields.take(i + 1), visiting),
    decreases fields.len(),
{
    if i + 1 == fields.len() {
        assert(fields.take(i + 1) =~= fields);
    } else {
        assert(fields.drop_last().take(i + 1) =~= fields.take(i + 1));
        lemma_fields_error(scope, fields.drop_last(), i, visiting);
    }
}

/// An error among the literals of the first tags is the error of all.
proof fn lemma_tags_error(
    scope: Scope,
    ty: Seq<char>,
    tags: Seq<TagDecl>,
    i: int,
    visiting: Seq<Seq<char>>,
)
    requires
        0 <= i < tags.len(),
        scope.tags_values(ty, tags.take(i + 1), visiting) is Err,
    ensures
        scope.tags_values(ty, tags, visiting) == scope.tags_values(ty, tags.take(i + 1), visiting),
    decreases tags.len(),
{
    if i + 1 == tags.len() {
        assert(tags.take(i + 1) =~= tags);
    } else {
        assert(tags.drop_last().take(i + 1) =~= tags.take(i + 1));
        lemma_tags_error(scope, ty, tags.drop_last(), i, visiting);
    }
}

/// The result of a computation that gives lists of values.
pub open spec fn lists_result(r: Result<Vec<Vec<Value>>, Error>) -> Result<Seq<Seq<Val>>, Error> {
    match r {
        Ok(v) => Ok(lists(v@)),
        Err(e) => Err(e),
    }
}

impl Context {
    /// The integers within the bounds, in order.
    fn int_values(&self) -> (r: Vec<Value>)
        ensures
            vals(r@) == int_values(self@.bounds),
    {
        let (min, max) = self.int_bounds;
        let mut out: Vec<Value> = Vec::new();
        let mut n: u32 = min;
        while n < max
            invariant
                min <= n,
                min <= max ==> n <= max,
                min > max ==> n == min,
                out.len() == n - min,
                forall|k: int| 0 <= k < out.len() ==> out[k]@ == Val::AExpr(Arith::Lit((min + k) as u32)),
            decreases max - n,
        {
            out.push(Value::AExpr(AExpr::Lit(n)));
            n += 1;
        }
        assert(vals(out@) =~= int_values(self@.bounds));
        out
    }

    /// The literals of one tag, one for each list of fields.
    fn literals(ty: &str, tag: &String, fields: Vec<Vec<Value>>, out: &mut Vec<Value>)
        ensures
            vals(final(out)@) == vals(old(out)@) + literals(ty@, tag@, lists(fields@)),
    {
        let ghost base = vals(out@);
        let ghost ls = lists(fields@);
        let mut fields = fields;
        let mut rev: Vec<Value> = Vec::new();
        while fields.len() > 0
            invariant
                fields.len() <= ls.len(),
                lists(fields@) =~= ls.take(fields.len() as int),
                rev.len() == ls.len() - fields.len(),
                forall|k: int|
                    0 <= k < rev.len() ==> rev[k]@ == Val::Enum(
                        Variant::Lit(ty@, tag@, ls[ls.len() - 1 - k]),
                    ),
            decreases fields.len(),
        {
            let ghost n = fields.len() as int;
            let ghost whole = fields@;
            let f = fields.pop().unwrap();
            assert(vals(f@) == lists(whole)[n - 1]);
            let ty2 = String::from_str(ty);
            let tag2 = tag.clone();
            proof {
                crate::vp::values::lemma_enum_view(ty2, tag2, f);
            }
            rev.push(Value::Enum(Enum::Lit(ty2, tag2, f)));
        }
        let count = rev.len();
        let mut k: usize = 0;
        while rev.len() > 0
            invariant
                rev.len() + k == count,
                count == ls.len(),
                forall|m: int|
                    0 <= m < rev.len() ==> rev[m]@ == Val::Enum(
                        Variant::Lit(ty@, tag@, ls[ls.len() - 1 - m]),
                    ),
                vals(out@) == base + literals(ty@, tag@, ls).take(k as int),
            decreases rev.len(),
        {
            let ghost before = out@;
            let ghost m = rev.len() - 1;
            let v = rev.pop().unwrap();
            assert(v@ == Val::Enum(Variant::Lit(ty@, tag@, ls[ls.len() - 1 - m])));
            out.push(v);
            assert(vals(out@) =~= vals(before).push(v@));
            assert(literals(ty@, tag@, ls).take(k + 1) =~= literals(ty@, tag@, ls).take(
                k as int,
            ).push(v@));
            assert(vals(out@) =~= base + literals(ty@, tag@, ls).take(k + 1));
            k += 1;
        }
        assert(literals(ty@, tag@, ls).take(count as int) =~= literals(ty@, tag@, ls));
    }

    /// The values of each of the types `fields`; see [`Scope::fields_values`].
    #[verifier::loop_isolation(false)]
    fn fields_within(&self, fields: &Vec<String>, visiting: &mut Vec<String>) -> (r: Result<
        Vec<Vec<Value>>,
        Error,
    >)
        ensures
            names_view(final(visiting)@) == names_view(old(visiting)@),
            lists_result(r) == self@.fields_values(names_view(fields@), names_view(old(visiting)@)),
        decreases unseen(self@.declared(), names_view(old(visiting)@)), 1nat, fields.len(),
    {
        let ghost seen0 = names_view(visiting@);
        let ghost fs = names_view(fields@);
        let mut out: Vec<Vec<Value>> = Vec::new();
        let mut i: usize = 0;
        assert(lists(out@) =~= Seq::<Seq<Val>>::empty());
        assert(fs.take(0).len() == 0);
        while i < fields.len()
            invariant
                i <= fields.len(),
                names_view(visiting@) == seen0,
                self@.fields_values(fs.take(i as int), seen0) == Ok::<Seq<Seq<Val>>, Error>(
                    lists(out@),
                ),
            decreases fields.len() - i,
        {
            proof {
                let next = fs.take(i + 1);
                assert(next.drop_last() =~= fs.take(i as int));
                assert(next.last() == fields[i as int]@);
            }
            match self.values_within(fields[i].as_str(), visiting) {
                Ok(vs) => {
                    let ghost before = out@;
                    out.push(vs);
                    assert(lists(out@) =~= lists(before).push(vals(vs@)));
                },
                Err(e) => {
                    proof {
                        lemma_fields_error(self@, fs, i as int, seen0);
                    }
                    return Err(e);
                },
            }
            i += 1;
        }
        assert(fs.take(fields.len() as int) =~= fs);
        Ok(out)
    }

    /// The literals of the tags of an enum; see [`Scope::tags_values`].
    #[verifier::loop_isolation(false)]
    fn tags_within(
        &self,
        ty: &str,
        tags: &Vec<(String, Vec<String>)>,
        visiting: &mut Vec<String>,
    ) -> (r: Result<Vec<Value>, Error>)
        ensures
            names_view(final(visiting)@) == names_view(old(visiting)@),
            vals_result(r) == self@.tags_values(
                ty@,
                tag_views(tags@),
                names_view(old(visiting)@),
            ),
        decreases unseen(self@.declared(), names_view(old(visiting)@)), 2nat, tags.len(),
    {
        let ghost seen0 = names_view(visiting@);
        let ghost decls = tag_views(tags@);
        let mut out: Vec<Value> = Vec::new();
        let mut i: usize = 0;
        assert(vals(out@) =~= Seq::<Val>::empty());
        assert(decls.take(0).len() == 0);
        while i < tags.len()
            invariant
                i <= tags.len(),
                names_view(visiting@) == seen0,
                self@.tags_values(ty@, decls.take(i as int), seen0) == Ok::<Seq<Val>, Error>(
                    vals(out@),
                ),
            decreases tags.len() - i,
        {
            proof {
                let next = decls.take(i + 1);
                assert(next.drop_last() =~= decls.take(i as int));
                assert(next.last() == tag_view(tags[i as int]));
            }
            match self.fields_within(&tags[i].1, visiting) {
                Ok(ls) => {
                    let perms = permute(ls);
                    Context::literals(ty, &tags[i].0, perms, &mut out);
                },
                Err(e) => {
                    proof {
                        lemma_tags_error(self@, ty@, decls, i as int, seen0);
                    }
                    return Err(e);
                },
            }
            i += 1;
        }
        assert(decls.take(tags.len() as int) =~= decls);
        Ok(out)
    }

    /// The values of the type `ty` while `visiting` is being worked out; see
    /// [`Scope::values_of`].
    fn values_within(&self, ty: &str, visiting: &mut Vec<String>) -> (r: Result<Vec<Value>, Error>)
        ensures
            names_view(final(visiting)@) == names_view(old(visiting)@),
            vals_result(r) == self@.values_of(ty@, names_view(old(visiting)@)),
        decreases unseen(self@.declared(), names_view(old(visiting)@)), 0nat, 0nat,
    {
        let ghost seen0 = names_view(visiting@);
        proof {
            use_type_invariant(&self.cached_values);
            use_type_invariant(&self.aliases);
            use_type_invariant(&self.enums);
            self.cached_values.keys().index_of_first_ensures(ty@);
            self.aliases.keys().index_of_first_ensures(ty@);
            self.enums.keys().index_of_first_ensures(ty@);
            reveal_strlit("bool");
            reveal_strlit("int");
        }
        match self.cached_values.get(ty) {
            Some(vs) => {
                return Ok(clone_values(vs));
            },
            None => {},
        }
        match self.aliases.get(ty) {
            Some(target) => {
                if contains_name(visiting, ty) {
                    return Err(Error::InvalidType);
                }
                proof {
                    let i = self.aliases.keys().index_of_first(ty@)->Some_0;
                    assert(self@.declared()[i] == ty@);
                    lemma_unseen_decreases(self@.declared(), seen0, ty@);
                }
                visiting.push(String::from_str(ty));
                assert(names_view(visiting@) =~= seen0.push(ty@));
                let r = self.values_within(target.as_str(), visiting);
                let ghost grown = visiting@;
                visiting.pop();
                assert(names_view(visiting@) =~= names_view(grown).drop_last());
                assert(seen0.push(ty@).drop_last() =~= seen0);
                return r;
            },
            None => {},
        }
        if *ty == *"bool" {
            let mut out: Vec<Value> = Vec::new();
            out.push(Value::BExpr(BExpr::Lit(true)));
            out.push(Value::BExpr(BExpr::Lit(false)));
            assert(vals(out@) =~= bool_values());
            return Ok(out);
        }
        if *ty == *"int" {
            return Ok(self.int_values());
        }
        match self.enums.get(ty) {
            Some(tags) => {
                if contains_name(visiting, ty) {
                    return Err(Error::InvalidType);
                }
                proof {
                    let i = self.enums.keys().index_of_first(ty@)->Some_0;
                    assert(self@.declared()[self.aliases.keys().len() + i] == ty@);
                    lemma_unseen_decreases(self@.declared(), seen0, ty@);
                    assert(enum_views(self.enums.values())[i] == tag_views(self.enums.values()[i]@));
                }
                visiting.push(String::from_str(ty));
                assert(names_view(visiting@) =~= seen0.push(ty@));
                let r = self.tags_within(ty, tags, visiting);
                let ghost grown = visiting@;
                visiting.pop();
                assert(names_view(visiting@) =~= names_view(grown).drop_last());
                assert(seen0.push(ty@).drop_last() =~= seen0);
                r
            },
            None => Err(Error::InvalidType),
        }
    }

    /// The values of the type `ty`; see [`Scope::values_of`].
    pub fn values_of(&self, ty: &str) -> (r: Result<Vec<Value>, Error>)
        ensures
            vals_result(r) == self@.values_of(ty@, Seq::empty()),
    {
        let mut visiting: Vec<String> = Vec::new();
        assert(names_view(visiting@) =~= Seq::<Seq<char>>::empty());
        self.values_within(ty, &mut visiting)
    }
}


impl Context {
    fn clear_values(&mut self)
        ensures
            final(self)@ == old(self)@.cleared(),
    {
        self.cached_values = Table::new();
        assert(self@.cache.values =~= Seq::<Seq<Val>>::empty());
    }

    fn keep_values(&mut self, ty: String, values: Vec<Value>)
        ensures
            final(self)@ == (Scope {
                cache: old(self)@.cache.bind(ty@, vals(values@)),
                ..old(self)@
            }),
    {
        let ghost before = self.cached_values.values();
        let ghost found = self.cached_values.index_of(ty@);
        proof {
            use_type_invariant(&self.cached_values);
            self.cached_values.keys().index_of_first_ensures(ty@);
        }
        let mut cache: Table<Vec<Value>> = Table::new();
        std::mem::swap(&mut cache, &mut self.cached_values);
        cache.insert(ty, values);
        self.cached_values = cache;
        proof {
            match found {
                Some(i) => {
                    assert(cache_views(before.update(i, values)) =~= cache_views(before).update(
                        i,
                        vals(values@),
                    ));
                },
                None => {
                    assert(cache_views(before.push(values)) =~= cache_views(before).push(
                        vals(values@),
                    ));
                },
            }
        }
    }

    /// Generates the values of every type afresh; see [`Scope::generated`].
    /// Where a type has no values, none are kept for any type.
    pub fn gen_values(&mut self) -> (r: Result<(), Error>)
        ensures
            match r {
                Ok(_) => old(self)@.generated() == Ok::<Scope, Error>(final(self)@),
                Err(e) => old(self)@.generated() == Err::<Scope, Error>(e) && final(self)@ == old(
                    self,
                )@.cleared(),
            },
    {
        let ghost start = self@.cleared();
        self.clear_values();
        let types = self.types();
        let ghost names = names_view(types@);
        let mut i: usize = 0;
        assert(names.take(0).len() == 0);
        while i < types.len()
            invariant
                i <= types.len(),
                names == names_view(types@),
                names == start.types(),
                start == old(self)@.cleared(),
                start.filled(names.take(i as int)) == Ok::<Scope, Error>(self@),
                self@.cleared() == start,
            decreases types.len() - i,
        {
            proof {
                let next = names.take(i + 1);
                assert(next.drop_last() =~= names.take(i as int));
                assert(next.last() == types[i as int]@);
            }
            match self.values_of(types[i].as_str()) {
                Ok(vs) => {
                    self.keep_values(types[i].clone(), vs);
                },
                Err(e) => {
                    proof {
                        lemma_filled_error(start, names, i as int);
                    }
                    self.clear_values();
                    return Err(e);
                },
            }
            i += 1;
        }
        assert(names.take(types.len() as int) =~= names);
        Ok(())
    }

    /// The value universe: the generated values of all types; see
    /// [`Scope::values`]. It fails where no values were generated.
    pub fn values(&self) -> (r: Result<Vec<Value>, Error>)
        ensures
            match r {
                Ok(vs) => self@.cache.names.len() > 0 && vals(vs@) == self@.values(),
                Err(e) => e == Error::ValuesNotGenerated && self@.cache.names.len() == 0,
            },
    {
        if self.cached_values.len() == 0 {
            return Err(Error::ValuesNotGenerated);
        }
        let ghost ls = self@.cache.values;
        let mut out: Vec<Value> = Vec::new();
        let mut i: usize = 0;
        assert(vals(out@) =~= concat(ls.take(0)));
        while i < self.cached_values.len()
            invariant
                i <= self.cached_values.values().len(),
                self.cached_values.values().len() == self.cached_values.keys().len(),
                ls == self@.cache.values,
                vals(out@) == concat(ls.take(i as int)),
            decreases self.cached_values.values().len() - i,
        {
            let vs = self.cached_values.value(i);
            proof {
                let next = ls.take(i + 1);
                assert(next.drop_last() =~= ls.take(i as int));
                assert(next.last() == vals(vs@));
            }
            let mut j: usize = 0;
            let ghost base = vals(out@);
            assert(vals(vs@).take(0).len() == 0);
            assert(vals(out@) =~= base + vals(vs@).take(0));
            while j < vs.len()
                invariant
                    j <= vs.len(),
                    vals(out@) == base + vals(vs@).take(j as int),
                decreases vs.len() - j,
            {
                let ghost before = out@;
                out.push(vs[j].clone());
                assert(vals(out@) =~= vals(before).push(vs[j as int]@));
                assert(vals(vs@).take(j + 1) =~= vals(vs@).take(j as int).push(vs[j as int]@));
                assert(vals(out@) =~= base + vals(vs@).take(j + 1));
                j += 1;
            }
            assert(vals(vs@).take(vs.len() as int) =~= vals(vs@));
            i += 1;
        }
        assert(ls.take(i as int) =~= ls);
        Ok(out)
    }
}

/// An error in generating the values of the first types is the error of the
/// whole generation.
proof fn lemma_filled_error(scope: Scope, types: Seq<Seq<char>>, i: int)
    requires
        0 <= i < types.len(),
        scope.filled(types.take(i + 1)) is Err,
    ensures
        scope.filled(types) == scope.filled(types.take(i + 1)),
    decreases types.len(),
{
    if i + 1 == types.len() {
        assert(types.take(i + 1) =~= types);
    } else {
        assert(types.drop_last().take(i + 1) =~= types.take(i + 1));
        lemma_filled_error(scope, types.drop_last(), i);
    }
}

/// There are as many integers as the upper bound lies above the lower one,
/// unless values were generated for the integers before or their name was
/// given to an alias.
pub proof fn lemma_int_cardinality(scope: Scope, visiting: Seq<Seq<char>>)
    requires
        scope.cache.lookup(int_type()) is None,
        scope.aliases.lookup(int_type()) is None,
        scope.bounds.0 <= scope.bounds.1,
    ensures
        scope.values_of(int_type(), visiting) matches Ok(vs) && vs.len() == scope.bounds.1
            - scope.bounds.0,
{
    reveal_strlit("int");
    reveal_strlit("bool");
    assert(int_type() != bool_type()) by {
        assert(int_type().len() != bool_type().len());
    }
}

impl Scope {
    /// In how many ways a value can be picked for each of the types `fields`.
    pub open spec fn fields_count(self, fields: Seq<Seq<char>>, visiting: Seq<Seq<char>>) -> nat
        decreases fields.len(),
    {
        if fields.len() == 0 {
            1
        } else {
            self.fields_count(fields.drop_last(), visiting) * (match self.values_of(
                fields.last(),
                visiting,
            ) {
                Ok(vs) => vs.len(),
                Err(_) => 0,
            })
        }
    }

    /// The ways to fill the fields of a tag, added up over the tags.
    pub open spec fn tags_count(self, tags: Seq<TagDecl>, visiting: Seq<Seq<char>>) -> nat
        decreases tags.len(),
    {
        if tags.len() == 0 {
            0
        } else {
            self.tags_count(tags.drop_last(), visiting) + self.fields_count(
                tags.last().1,
                visiting,
            )
        }
    }
}

proof fn lemma_fields_count(scope: Scope, fields: Seq<Seq<char>>, visiting: Seq<Seq<char>>)
    requires
        scope.fields_values(fields, visiting) is Ok,
    ensures
        count(scope.fields_values(fields, visiting)->Ok_0) == scope.fields_count(fields, visiting),
    decreases fields.len(),
{
    if fields.len() > 0 {
        lemma_fields_count(scope, fields.drop_last(), visiting);
        let init = scope.fields_values(fields.drop_last(), visiting)->Ok_0;
        let vs = scope.values_of(fields.last(), visiting)->Ok_0;
        assert(init.push(vs).drop_last() =~= init);
    }
}

proof fn lemma_tags_count(scope: Scope, ty: Seq<char>, tags: Seq<TagDecl>, visiting: Seq<Seq<char>>)
    requires
        scope.tags_values(ty, tags, visiting) is Ok,
    ensures
        scope.tags_values(ty, tags, visiting)->Ok_0.len() == scope.tags_count(tags, visiting),
    decreases tags.len(),
{
    if tags.len() > 0 {
        lemma_tags_count(scope, ty, tags.drop_last(), visiting);
        lemma_fields_count(scope, tags.last().1, visiting);
        lemma_product_len(scope.fields_values(tags.last().1, visiting)->Ok_0);
    }
}

/// An enum has as many values as there are ways, added up over its tags, to
/// pick a value for each field of the tag. The enum must have values, and
/// its name must not stand for anything else: no values were generated for it
/// before, and it is no alias nor a built-in type.
pub proof fn lemma_enum_cardinality(scope: Scope, ty: Seq<char>, visiting: Seq<Seq<char>>)
    requires
        scope.cache.lookup(ty) is None,
        scope.aliases.lookup(ty) is None,
        ty != bool_type(),
        ty != int_type(),
        scope.enums.lookup(ty) is Some,
        scope.values_of(ty, visiting) is Ok,
    ensures
        scope.values_of(ty, visiting)->Ok_0.len() == scope.tags_count(
            scope.enums.lookup(ty)->Some_0,
            visiting.push(ty),
        ),
{
    lemma_tags_count(scope, ty, scope.enums.lookup(ty)->Some_0, visiting.push(ty));
}


impl Scope {
    /// The definitions of the pure calculus that the program compiles to: those
    /// of the instances of constants that the entry constant reaches.
    pub open spec fn to_ccs(self) -> Result<Definitions, Error> {
        if self.constants.lookup(self.main) is None {
            Err(Error::MainMissing)
        } else {
            let c = Agent::Constant(self.main, Seq::empty()).compile(
                self,
                Definitions::empty().with_main(self.main),
                Seq::empty(),
            );
            match c.result {
                Err(e) => Err(e),
                Ok(_) => Ok(c.defs),
            }
        }
    }

    /// The scope after a statement was run, or the error of the statement.
    pub open spec fn run(self, statement: Declaration) -> Result<Scope, Error> {
        match statement {
            Declaration::DefConstant(name, params, body) => Ok(
                Scope { constants: self.constants.bind(name, (params, body)), ..self },
            ),
            Declaration::DefEnum(name, tags) => if self.admits_enum(name, tags) {
                Ok(Scope { enums: self.enums.bind(name, tags), ..self })
            } else {
                Err(Error::InvalidType)
            },
            Declaration::DefAlias(alias, ty) => Ok(
                Scope { aliases: self.aliases.bind(alias, ty), ..self },
            ),
            Declaration::SetBounds(min, max) => if min < max {
                Ok(Scope { bounds: (min, max), ..self })
            } else {
                Err(Error::InvalidBounds)
            },
            Declaration::SetMain(main) => Ok(Scope { main, ..self }),
        }
    }

    /// The scope after the statements were run in order from the empty scope;
    /// the first error wins.
    pub open spec fn declared_by(statements: Seq<Declaration>) -> Result<Scope, Error>
        decreases statements.len(),
    {
        if statements.len() == 0 {
            Ok(Scope::empty())
        } else {
            match Scope::declared_by(statements.drop_last()) {
                Err(e) => Err(e),
                Ok(s) => s.run(statements.last()),
            }
        }
    }

    /// The scope of a program: its statements run in order, then the values
    /// of all types generated.
    pub open spec fn of_program(statements: Seq<Declaration>) -> Result<Scope, Error> {
        match Scope::declared_by(statements) {
            Err(e) => Err(e),
            Ok(s) => s.generated(),
        }
    }
}

/// An error among the first statements is the error of the program.
proof fn lemma_declared_error(statements: Seq<Declaration>, i: int)
    requires
        0 <= i < statements.len(),
        Scope::declared_by(statements.take(i + 1)) is Err,
    ensures
        Scope::declared_by(statements) == Scope::declared_by(statements.take(i + 1)),
    decreases statements.len(),
{
    if i + 1 == statements.len() {
        assert(statements.take(i + 1) =~= statements);
    } else {
        assert(statements.drop_last().take(i + 1) =~= statements.take(i + 1));
        lemma_declared_error(statements.drop_last(), i);
    }
}

/// A copy of the declarations of the tags of an enum.
fn clone_tags(tags: &Vec<(String, Vec<String>)>) -> (r: Vec<(String, Vec<String>)>)
    ensures
        tag_views(r@) == tag_views(tags@),
{
    let mut out: Vec<(String, Vec<String>)> = Vec::new();
    let mut i: usize = 0;
    while i < tags.len()
        invariant
            i <= tags.len(),
            out.len() == i,
            forall|k: int| 0 <= k < i ==> tag_view(out[k]) == tag_view(tags[k]),
        decreases tags.len() - i,
    {
        out.push((tags[i].0.clone(), crate::process::clone_string_list(&tags[i].1)));
        i += 1;
    }
    assert(tag_views(out@) =~= tag_views(tags@));
    out
}

impl Context {
    /// The context of the pure calculus that the program compiles to; see
    /// [`Scope::to_ccs`].
    pub fn to_ccs(&self) -> (r: Result<ContextCcs, Error>)
        ensures
            match r {
                Ok(ccs) => self@.to_ccs() == Ok::<Definitions, Error>(ccs@),
                Err(e) => self@.to_ccs() == Err::<Definitions, Error>(e),
            },
    {
        if self.get_process(self.main.as_str()).is_none() {
            return Err(Error::MainMissing);
        }
        let mut ccs = ContextCcs::default();
        ccs.set_main(self.main.clone());
        let mut seen: Vec<String> = Vec::new();
        assert(names_view(seen@) =~= Seq::<Seq<char>>::empty());
        let args: Vec<Value> = Vec::new();
        assert(vals(args@) =~= Seq::<Val>::empty());
        let entry = Process::constant(self.main.as_str(), args);
        match entry.to_ccs(self, &mut ccs, &mut seen) {
            Err(e) => Err(e),
            Ok(_) => Ok(ccs),
        }
    }

    /// The context of a program: its statements are run in order, then the
    /// values of all types are generated; see [`Scope::of_program`].
    pub fn from_program(value: Program) -> (r: Result<Self, Error>)
        ensures
            match r {
                Ok(ctx) => Scope::of_program(declarations(value.0@)) == Ok::<Scope, Error>(ctx@),
                Err(e) => Scope::of_program(declarations(value.0@)) == Err::<Scope, Error>(e),
            },
    {
        let mut ctx = Context::default();
        let ghost all = declarations(value.0@);
        let mut i: usize = 0;
        assert(all.take(0).len() == 0);
        while i < value.0.len()
            invariant
                i <= value.0.len(),
                all == declarations(value.0@),
                Scope::declared_by(all.take(i as int)) == Ok::<Scope, Error>(ctx@),
            decreases value.0.len() - i,
        {
            proof {
                let next = all.take(i + 1);
                assert(next.drop_last() =~= all.take(i as int));
                assert(next.last() == value.0@[i as int]@);
            }
            let done = match &value.0[i] {
                Statement::DefConstant(name, decl) => {
                    ctx.bind_process(
                        name.clone(),
                        (crate::process::clone_string_list(&decl.0), decl.1.clone()),
                    );
                    Ok(())
                },
                Statement::DefEnum(name, tags) => ctx.bind_enum(name.clone(), clone_tags(tags)),
                Statement::DefAlias(alias, ty) => {
                    ctx.bind_alias(alias.clone(), ty.clone());
                    Ok(())
                },
                Statement::Exec(Command::SetBounds(min, max)) => ctx.set_bounds((*min, *max)),
                Statement::Exec(Command::SetMain(main)) => {
                    ctx.set_main(main.clone());
                    Ok(())
                },
            };
            match done {
                Err(e) => {
                    proof {
                        lemma_declared_error(all, i as int);
                    }
                    return Err(e);
                },
                Ok(_) => {},
            }
            i += 1;
        }
        assert(all.take(value.0.len() as int) =~= all);
        match ctx.gen_values() {
            Err(e) => Err(e),
            Ok(_) => Ok(ctx),
        }
    }
}


/// Every name of `small` is a name of `big`.
pub open spec fn within(small: Seq<Seq<char>>, big: Seq<Seq<char>>) -> bool {
    forall|n: Seq<char>| small.contains(n) ==> big.contains(n)
}

proof fn lemma_within_push(small: Seq<Seq<char>>, big: Seq<Seq<char>>, ty: Seq<char>)
    requires
        within(small, big),
    ensures
        within(small.push(ty), big.push(ty)),
{
    assert forall|n: Seq<char>| small.push(ty).contains(n) implies big.push(ty).contains(n) by {
        let k = choose|k: int| 0 <= k < small.push(ty).len() && small.push(ty)[k] == n;
        if k < small.len() {
            assert(small[k] == n);
            assert(small.contains(n));
            let m = choose|m: int| 0 <= m < big.len() && big[m] == n;
            assert(big.push(ty)[m] == n);
        } else {
            assert(big.push(ty)[big.len() as int] == n);
        }
    }
}

/// The values of a type do not depend on what is being worked out around it:
/// where a type has values while more types are being worked out, it has the
/// same values while fewer are.
pub proof fn lemma_values_independent(
    scope: Scope,
    ty: Seq<char>,
    big: Seq<Seq<char>>,
    small: Seq<Seq<char>>,
)
    requires
        scope.values_of(ty, big) is Ok,
        within(small, big),
    ensures
        scope.values_of(ty, small) == scope.values_of(ty, big),
    decreases unseen(scope.declared(), big), 0nat, 0nat,
{
    if scope.cache.lookup(ty) is None {
        if scope.aliases.lookup(ty) is Some {
            let target = scope.aliases.lookup(ty)->Some_0;
            scope.aliases.names.index_of_first_ensures(ty);
            let i = scope.aliases.names.index_of_first(ty)->Some_0;
            assert(scope.declared()[i] == ty);
            lemma_unseen_decreases(scope.declared(), big, ty);
            lemma_within_push(small, big, ty);
            lemma_values_independent(scope, target, big.push(ty), small.push(ty));
        } else if ty != bool_type() && ty != int_type() && scope.enums.lookup(ty) is Some {
            let tags = scope.enums.lookup(ty)->Some_0;
            scope.enums.names.index_of_first_ensures(ty);
            let i = scope.enums.names.index_of_first(ty)->Some_0;
            assert(scope.declared()[scope.aliases.names.len() + i] == ty);
            lemma_unseen_decreases(scope.declared(), big, ty);
            lemma_within_push(small, big, ty);
            lemma_tags_independent(scope, ty, tags, big.push(ty), small.push(ty));
        }
    }
}

proof fn lemma_tags_independent(
    scope: Scope,
    ty: Seq<char>,
    tags: Seq<TagDecl>,
    big: Seq<Seq<char>>,
    small: Seq<Seq<char>>,
)
    requires
        scope.tags_values(ty, tags, big) is Ok,
        within(small, big),
    ensures
        scope.tags_values(ty, tags, small) == scope.tags_values(ty, tags, big),
        scope.tags_count(tags, small) == scope.tags_count(tags, big),
    decreases unseen(scope.declared(), big), 2nat, tags.len(),
{
    if tags.len() > 0 {
        lemma_tags_independent(scope, ty, tags.drop_last(), big, small);
        lemma_fields_independent(scope, tags.last().1, big, small);
    }
}

proof fn lemma_fields_independent(
    scope: Scope,
    fields: Seq<Seq<char>>,
    big: Seq<Seq<char>>,
    small: Seq<Seq<char>>,
)
    requires
        scope.fields_values(fields, big) is Ok,
        within(small, big),
    ensures
        scope.fields_values(fields, small) == scope.fields_values(fields, big),
        scope.fields_count(fields, small) == scope.fields_count(fields, big),
    decreases unseen(scope.declared(), big), 1nat, fields.len(),
{
    if fields.len() > 0 {
        lemma_fields_independent(scope, fields.drop_last(), big, small);
        lemma_values_independent(scope, fields.last(), big, small);
    }
}

/// An enum has as many values as there are ways, added up over its tags, to
/// pick a value for each field of the tag: the sum over the tags of the
/// product over the fields of the number of values of the field's type. The
/// enum must have values, and its name must not stand for anything else.
pub proof fn lemma_enum_cardinality_of_fields(scope: Scope, ty: Seq<char>)
    requires
        scope.cache.lookup(ty) is None,
        scope.aliases.lookup(ty) is None,
        ty != bool_type(),
        ty != int_type(),
        scope.enums.lookup(ty) is Some,
        scope.values_of(ty, Seq::empty()) is Ok,
    ensures
        scope.values_of(ty, Seq::empty())->Ok_0.len() == scope.tags_count(
            scope.enums.lookup(ty)->Some_0,
            Seq::empty(),
        ),
{
    let tags = scope.enums.lookup(ty)->Some_0;
    let visiting = Seq::<Seq<char>>::empty().push(ty);
    lemma_enum_cardinality(scope, ty, Seq::empty());
    assert(within(Seq::<Seq<char>>::empty(), visiting));
    lemma_tags_independent(scope, ty, tags, visiting, Seq::empty());
}

} // verus!
