//! The values that processes pass: arithmetic and boolean expressions, tagged
//! enum literals, and variables that stand for a value yet to come.
use vstd::prelude::*;

use crate::error::Error;
use crate::table::names_view;
use crate::text::{decimal, decimal_text, join, joined, truth, truth_text};
use crate::vp::context::{enum_views, tag_views, type_of, Context, Scope, TagDecl};

verus! {

/// The mathematical value of an [`AExpr`].
pub enum Arith {
    Var(Seq<char>),
    Lit(u32),
    Add(Box<Arith>, Box<Arith>),
    Sub(Box<Arith>, Box<Arith>),
    Mul(Box<Arith>, Box<Arith>),
    Div(Box<Arith>, Box<Arith>),
}

/// The mathematical value of a [`BExpr`].
pub enum Logic {
    Lit(bool),
    Var(Seq<char>),
    Not(Box<Logic>),
    And(Box<Logic>, Box<Logic>),
    Or(Box<Logic>, Box<Logic>),
    NumEq(Arith, Arith),
    NumNotEq(Arith, Arith),
    NumLt(Arith, Arith),
    NumGt(Arith, Arith),
    NumLtEq(Arith, Arith),
    NumGtEq(Arith, Arith),
    EnumIs(Variant, Variant),
}

/// The mathematical value of an [`Enum`].
pub enum Variant {
    Var(Seq<char>),
    Lit(Seq<char>, Seq<char>, Seq<Val>),
}

/// The mathematical value of a [`Value`].
pub enum Val {
    AExpr(Arith),
    BExpr(Logic),
    Enum(Variant),
    Any(Seq<char>),
}

/// An arithmetic expression over unsigned integers.
#[derive(Debug)]
pub enum AExpr {
    Var(String),
    Lit(u32),
    Add(Box<AExpr>, Box<AExpr>),
    Sub(Box<AExpr>, Box<AExpr>),
    Mul(Box<AExpr>, Box<AExpr>),
    Div(Box<AExpr>, Box<AExpr>),
}

/// A boolean expression.
#[derive(Debug)]
pub enum BExpr {
    Lit(bool),
    Var(String),
    Not(Box<BExpr>),
    And(Box<BExpr>, Box<BExpr>),
    Or(Box<BExpr>, Box<BExpr>),
    NumEq(AExpr, AExpr),
    NumNotEq(AExpr, AExpr),
    NumLt(AExpr, AExpr),
    NumGt(AExpr, AExpr),
    NumLtEq(AExpr, AExpr),
    NumGtEq(AExpr, AExpr),
    EnumIs(Enum, Enum),
}

/// A value of an enum type: a variable, or a literal of a type and a tag with
/// its fields.
#[derive(Debug)]
pub enum Enum {
    Var(String),
    Lit(String, String, Vec<Value>),
}

/// A value: an expression of one of the three kinds, or a variable of no
/// kind yet.
#[derive(Debug)]
pub enum Value {
    AExpr(AExpr),
    BExpr(BExpr),
    Enum(Enum),
    Any(String),
}

impl AExpr {
    /// The expression this stands for.
    pub open spec fn model(&self) -> Arith
        decreases self,
    {
        match self {
            AExpr::Var(x) => Arith::Var(x@),
            AExpr::Lit(n) => Arith::Lit(*n),
            AExpr::Add(l, r) => Arith::Add(Box::new((**l).model()), Box::new((**r).model())),
            AExpr::Sub(l, r) => Arith::Sub(Box::new((**l).model()), Box::new((**r).model())),
            AExpr::Mul(l, r) => Arith::Mul(Box::new((**l).model()), Box::new((**r).model())),
            AExpr::Div(l, r) => Arith::Div(Box::new((**l).model()), Box::new((**r).model())),
        }
    }
}

impl View for AExpr {
    type V = Arith;

    open spec fn view(&self) -> Arith {
        self.model()
    }
}

impl BExpr {
    /// The expression this stands for.
    pub open spec fn model(&self) -> Logic
        decreases self, 0nat,
    {
        match self {
            BExpr::Lit(b) => Logic::Lit(*b),
            BExpr::Var(x) => Logic::Var(x@),
            BExpr::Not(e) => Logic::Not(Box::new((**e).model())),
            BExpr::And(l, r) => Logic::And(Box::new((**l).model()), Box::new((**r).model())),
            BExpr::Or(l, r) => Logic::Or(Box::new((**l).model()), Box::new((**r).model())),
            BExpr::NumEq(l, r) => Logic::NumEq(l.model(), r.model()),
            BExpr::NumNotEq(l, r) => Logic::NumNotEq(l.model(), r.model()),
            BExpr::NumLt(l, r) => Logic::NumLt(l.model(), r.model()),
            BExpr::NumGt(l, r) => Logic::NumGt(l.model(), r.model()),
            BExpr::NumLtEq(l, r) => Logic::NumLtEq(l.model(), r.model()),
            BExpr::NumGtEq(l, r) => Logic::NumGtEq(l.model(), r.model()),
            BExpr::EnumIs(l, r) => Logic::EnumIs(l.model(), r.model()),
        }
    }
}

impl View for BExpr {
    type V = Logic;

    open spec fn view(&self) -> Logic {
        self.model()
    }
}

impl Enum {
    /// The value this stands for.
    pub open spec fn model(&self) -> Variant
        decreases self, 0nat,
    {
        match self {
            Enum::Var(x) => Variant::Var(x@),
            Enum::Lit(ty, tag, vals) => Variant::Lit(
                ty@,
                tag@,
                Seq::new(
                    vals.len() as nat,
                    |i: int|
                        if 0 <= i < vals.len() {
                            vals[i].model()
                        } else {
                            Val::Any(Seq::empty())
                        },
                ),
            ),
        }
    }
}

impl View for Enum {
    type V = Variant;

    open spec fn view(&self) -> Variant {
        self.model()
    }
}

impl Value {
    /// The value this stands for.
    pub open spec fn model(&self) -> Val
        decreases self, 0nat,
    {
        match self {
            Value::AExpr(e) => Val::AExpr(e.model()),
            Value::BExpr(e) => Val::BExpr(e.model()),
            Value::Enum(e) => Val::Enum(e.model()),
            Value::Any(x) => Val::Any(x@),
        }
    }
}

impl View for Value {
    type V = Val;

    open spec fn view(&self) -> Val {
        self.model()
    }
}

/// The values of a list of values.
pub open spec fn vals(vs: Seq<Value>) -> Seq<Val> {
    Seq::new(vs.len(), |i: int| vs[i]@)
}

/// An enum literal stands for the literal of the values of its fields.
pub proof fn lemma_enum_view(ty: String, tag: String, fields: Vec<Value>)
    ensures
        Enum::Lit(ty, tag, fields)@ == Variant::Lit(ty@, tag@, vals(fields@)),
{
    let a = Enum::Lit(ty, tag, fields)@;
    assert(a->Lit_2 =~= vals(fields@));
}

impl Clone for AExpr {
    fn clone(&self) -> (r: Self)
        ensures
            r@ == self@,
        decreases self,
    {
        match self {
            AExpr::Var(x) => AExpr::Var(x.clone()),
            AExpr::Lit(n) => AExpr::Lit(*n),
            AExpr::Add(l, r) => AExpr::Add(Box::new((**l).clone()), Box::new((**r).clone())),
            AExpr::Sub(l, r) => AExpr::Sub(Box::new((**l).clone()), Box::new((**r).clone())),
            AExpr::Mul(l, r) => AExpr::Mul(Box::new((**l).clone()), Box::new((**r).clone())),
            AExpr::Div(l, r) => AExpr::Div(Box::new((**l).clone()), Box::new((**r).clone())),
        }
    }
}

impl Clone for BExpr {
    fn clone(&self) -> (r: Self)
        ensures
            r@ == self@,
        decreases self, 0nat,
    {
        match self {
            BExpr::Lit(b) => BExpr::Lit(*b),
            BExpr::Var(x) => BExpr::Var(x.clone()),
            BExpr::Not(e) => BExpr::Not(Box::new((**e).clone())),
            BExpr::And(l, r) => BExpr::And(Box::new((**l).clone()), Box::new((**r).clone())),
            BExpr::Or(l, r) => BExpr::Or(Box::new((**l).clone()), Box::new((**r).clone())),
            BExpr::NumEq(l, r) => BExpr::NumEq(l.clone(), r.clone()),
            BExpr::NumNotEq(l, r) => BExpr::NumNotEq(l.clone(), r.clone()),
            BExpr::NumLt(l, r) => BExpr::NumLt(l.clone(), r.clone()),
            BExpr::NumGt(l, r) => BExpr::NumGt(l.clone(), r.clone()),
            BExpr::NumLtEq(l, r) => BExpr::NumLtEq(l.clone(), r.clone()),
            BExpr::NumGtEq(l, r) => BExpr::NumGtEq(l.clone(), r.clone()),
            BExpr::EnumIs(l, r) => BExpr::EnumIs(l.clone(), r.clone()),
        }
    }
}

impl Clone for Enum {
    #[verifier::loop_isolation(false)]
    fn clone(&self) -> (r: Self)
        ensures
            r@ == self@,
        decreases self, 0nat,
    {
        match self {
            Enum::Var(x) => Enum::Var(x.clone()),
            Enum::Lit(ty, tag, fields) => {
                let mut out: Vec<Value> = Vec::new();
                let mut i: usize = 0;
                while i < fields.len()
                    invariant
                        i <= fields.len(),
                        out.len() == i,
                        forall|k: int| 0 <= k < i ==> out[k]@ == fields[k]@,
                    decreases fields.len() - i,
                {
                    out.push(fields[i].clone());
                    i += 1;
                }
                let ty2 = ty.clone();
                let tag2 = tag.clone();
                proof {
                    lemma_enum_view(*ty, *tag, *fields);
                    lemma_enum_view(ty2, tag2, out);
                    assert(vals(out@) =~= vals(fields@));
                }
                Enum::Lit(ty2, tag2, out)
            },
        }
    }
}

impl Clone for Value {
    fn clone(&self) -> (r: Self)
        ensures
            r@ == self@,
        decreases self, 0nat,
    {
        match self {
            Value::AExpr(e) => Value::AExpr(e.clone()),
            Value::BExpr(e) => Value::BExpr(e.clone()),
            Value::Enum(e) => Value::Enum(e.clone()),
            Value::Any(x) => Value::Any(x.clone()),
        }
    }
}

impl PartialEq for AExpr {
    fn eq(&self, other: &Self) -> (r: bool)
        decreases self,
    {
        match (self, other) {
            (AExpr::Var(x), AExpr::Var(y)) => *x == *y,
            (AExpr::Lit(m), AExpr::Lit(n)) => *m == *n,
            (AExpr::Add(a, b), AExpr::Add(c, d)) => (**a).eq(&**c) && (**b).eq(&**d),
            (AExpr::Sub(a, b), AExpr::Sub(c, d)) => (**a).eq(&**c) && (**b).eq(&**d),
            (AExpr::Mul(a, b), AExpr::Mul(c, d)) => (**a).eq(&**c) && (**b).eq(&**d),
            (AExpr::Div(a, b), AExpr::Div(c, d)) => (**a).eq(&**c) && (**b).eq(&**d),
            _ => false,
        }
    }
}

impl vstd::std_specs::cmp::PartialEqSpecImpl for AExpr {
    open spec fn obeys_eq_spec() -> bool {
        true
    }

    open spec fn eq_spec(&self, other: &Self) -> bool {
        self@ == other@
    }
}

impl Eq for AExpr {}

impl PartialEq for BExpr {
    fn eq(&self, other: &Self) -> (r: bool)
        decreases self, 0nat,
    {
        match (self, other) {
            (BExpr::Lit(a), BExpr::Lit(b)) => *a == *b,
            (BExpr::Var(x), BExpr::Var(y)) => *x == *y,
            (BExpr::Not(a), BExpr::Not(b)) => (**a).eq(&**b),
            (BExpr::And(a, b), BExpr::And(c, d)) => (**a).eq(&**c) && (**b).eq(&**d),
            (BExpr::Or(a, b), BExpr::Or(c, d)) => (**a).eq(&**c) && (**b).eq(&**d),
            (BExpr::NumEq(a, b), BExpr::NumEq(c, d)) => a.eq(c) && b.eq(d),
            (BExpr::NumNotEq(a, b), BExpr::NumNotEq(c, d)) => a.eq(c) && b.eq(d),
            (BExpr::NumLt(a, b), BExpr::NumLt(c, d)) => a.eq(c) && b.eq(d),
            (BExpr::NumGt(a, b), BExpr::NumGt(c, d)) => a.eq(c) && b.eq(d),
            (BExpr::NumLtEq(a, b), BExpr::NumLtEq(c, d)) => a.eq(c) && b.eq(d),
            (BExpr::NumGtEq(a, b), BExpr::NumGtEq(c, d)) => a.eq(c) && b.eq(d),
            (BExpr::EnumIs(a, b), BExpr::EnumIs(c, d)) => a.eq(c) && b.eq(d),
            _ => false,
        }
    }
}

impl vstd::std_specs::cmp::PartialEqSpecImpl for BExpr {
    open spec fn obeys_eq_spec() -> bool {
        true
    }

    open spec fn eq_spec(&self, other: &Self) -> bool {
        self@ == other@
    }
}

impl PartialEq for Enum {
    #[verifier::loop_isolation(false)]
    fn eq(&self, other: &Self) -> (r: bool)
        decreases self, 0nat,
    {
        match (self, other) {
            (Enum::Var(x), Enum::Var(y)) => *x == *y,
            (Enum::Lit(ty, tag, fields), Enum::Lit(ty2, tag2, fields2)) => {
                proof {
                    lemma_enum_view(*ty, *tag, *fields);
                    lemma_enum_view(*ty2, *tag2, *fields2);
                }
                if *ty != *ty2 || *tag != *tag2 {
                    return false;
                }
                if fields.len() != fields2.len() {
                    assert(vals(fields@).len() != vals(fields2@).len());
                    return false;
                }
                let mut i: usize = 0;
                while i < fields.len()
                    invariant
                        i <= fields.len(),
                        forall|k: int| 0 <= k < i ==> fields[k]@ == fields2[k]@,
                    decreases fields.len() - i,
                {
                    if !fields[i].eq(&fields2[i]) {
                        assert(vals(fields@)[i as int] != vals(fields2@)[i as int]);
                        return false;
                    }
                    i += 1;
                }
                assert(vals(fields@) =~= vals(fields2@));
                true
            },
            _ => false,
        }
    }
}

impl vstd::std_specs::cmp::PartialEqSpecImpl for Enum {
    open spec fn obeys_eq_spec() -> bool {
        true
    }

    open spec fn eq_spec(&self, other: &Self) -> bool {
        self@ == other@
    }
}

impl PartialEq for Value {
    fn eq(&self, other: &Self) -> (r: bool)
        decreases self, 0nat,
    {
        match (self, other) {
            (Value::AExpr(a), Value::AExpr(b)) => a.eq(b),
            (Value::BExpr(a), Value::BExpr(b)) => a.eq(b),
            (Value::Enum(a), Value::Enum(b)) => a.eq(b),
            (Value::Any(x), Value::Any(y)) => *x == *y,
            _ => false,
        }
    }
}

impl vstd::std_specs::cmp::PartialEqSpecImpl for Value {
    open spec fn obeys_eq_spec() -> bool {
        true
    }

    open spec fn eq_spec(&self, other: &Self) -> bool {
        self@ == other@
    }
}


/// The text of a binary expression: both sides in brackets, the operator
/// between two blanks.
pub open spec fn infix(l: Seq<char>, op: Seq<char>, r: Seq<char>) -> Seq<char> {
    "("@ + l + " "@ + op + " "@ + r + ")"@
}

fn infix_text(l: String, op: &str, r: String) -> (s: String)
    ensures
        s@ == infix(l@, op@, r@),
{
    let mut s = String::from_str("(");
    s.append(l.as_str());
    s.append(" ");
    s.append(op);
    s.append(" ");
    s.append(r.as_str());
    s.append(")");
    s
}

impl Arith {
    /// The text of an arithmetic expression: a literal is its decimal
    /// numeral.
    pub open spec fn text(self) -> Seq<char>
        decreases self,
    {
        match self {
            Arith::Var(x) => x,
            Arith::Lit(n) => decimal(n as nat),
            Arith::Add(l, r) => infix(l.text(), "+"@, r.text()),
            Arith::Sub(l, r) => infix(l.text(), "-"@, r.text()),
            Arith::Mul(l, r) => infix(l.text(), "*"@, r.text()),
            Arith::Div(l, r) => infix(l.text(), "/"@, r.text()),
        }
    }
}

impl Logic {
    /// The text of a boolean expression.
    pub open spec fn text(self) -> Seq<char>
        decreases self, 0nat,
    {
        match self {
            Logic::Lit(b) => truth(b),
            Logic::Var(x) => x,
            Logic::Not(e) => "!"@ + e.text(),
            Logic::And(l, r) => infix(l.text(), "&&"@, r.text()),
            Logic::Or(l, r) => infix(l.text(), "||"@, r.text()),
            Logic::NumEq(l, r) => infix(l.text(), "=="@, r.text()),
            Logic::NumNotEq(l, r) => infix(l.text(), "!="@, r.text()),
            Logic::NumLt(l, r) => infix(l.text(), "<"@, r.text()),
            Logic::NumGt(l, r) => infix(l.text(), ">"@, r.text()),
            Logic::NumLtEq(l, r) => infix(l.text(), "<="@, r.text()),
            Logic::NumGtEq(l, r) => infix(l.text(), ">="@, r.text()),
            Logic::EnumIs(l, r) => infix(l.text(), "is"@, r.text()),
        }
    }
}

impl Variant {
    /// The text of an enum value: `ty::tag`, with the fields in brackets and
    /// commas between them where there are any.
    pub open spec fn text(self) -> Seq<char>
        decreases self, 0nat,
    {
        match self {
            Variant::Var(x) => "enum::"@ + x,
            Variant::Lit(ty, tag, fields) => if fields.len() == 0 {
                ty + "::"@ + tag
            } else {
                ty + "::"@ + tag + "("@ + joined(Val::texts(fields), ","@) + ")"@
            },
        }
    }
}

impl Val {
    /// The text of a value: that of the expression it holds, or the name of
    /// the variable.
    pub open spec fn text(self) -> Seq<char>
        decreases self, 0nat,
    {
        match self {
            Val::AExpr(e) => e.text(),
            Val::BExpr(e) => e.text(),
            Val::Enum(e) => e.text(),
            Val::Any(x) => x,
        }
    }

    /// The texts of a list of values.
    pub open spec fn texts(vs: Seq<Val>) -> Seq<Seq<char>>
        decreases vs, 1nat,
    {
        Seq::new(
            vs.len(),
            |i: int|
                if 0 <= i < vs.len() {
                    vs[i].text()
                } else {
                    Seq::empty()
                },
        )
    }

    /// The name under which a port or a constant carries the value.
    pub open spec fn mangle(self, name: Seq<char>) -> Seq<char> {
        name + "#"@ + self.text()
    }
}

impl AExpr {
    /// The text of the expression; see [`Arith::text`].
    pub fn to_text(&self) -> (r: String)
        ensures
            r@ == self@.text(),
        decreases self,
    {
        match self {
            AExpr::Var(x) => x.clone(),
            AExpr::Lit(n) => decimal_text(*n),
            AExpr::Add(l, r) => infix_text((**l).to_text(), "+", (**r).to_text()),
            AExpr::Sub(l, r) => infix_text((**l).to_text(), "-", (**r).to_text()),
            AExpr::Mul(l, r) => infix_text((**l).to_text(), "*", (**r).to_text()),
            AExpr::Div(l, r) => infix_text((**l).to_text(), "/", (**r).to_text()),
        }
    }
}

impl BExpr {
    /// The text of the expression; see [`Logic::text`].
    pub fn to_text(&self) -> (r: String)
        ensures
            r@ == self@.text(),
        decreases self, 0nat,
    {
        match self {
            BExpr::Lit(b) => truth_text(*b),
            BExpr::Var(x) => x.clone(),
            BExpr::Not(e) => {
                let mut s = String::from_str("!");
                s.append((**e).to_text().as_str());
                s
            },
            BExpr::And(l, r) => infix_text((**l).to_text(), "&&", (**r).to_text()),
            BExpr::Or(l, r) => infix_text((**l).to_text(), "||", (**r).to_text()),
            BExpr::NumEq(l, r) => infix_text(l.to_text(), "==", r.to_text()),
            BExpr::NumNotEq(l, r) => infix_text(l.to_text(), "!=", r.to_text()),
            BExpr::NumLt(l, r) => infix_text(l.to_text(), "<", r.to_text()),
            BExpr::NumGt(l, r) => infix_text(l.to_text(), ">", r.to_text()),
            BExpr::NumLtEq(l, r) => infix_text(l.to_text(), "<=", r.to_text()),
            BExpr::NumGtEq(l, r) => infix_text(l.to_text(), ">=", r.to_text()),
            BExpr::EnumIs(l, r) => infix_text(l.to_text(), "is", r.to_text()),
        }
    }
}

/// The texts of the values of a list.
#[verifier::loop_isolation(false)]
pub fn value_texts(values: &Vec<Value>) -> (r: Vec<String>)
    ensures
        names_view(r@) == Val::texts(vals(values@)),
    decreases values, 1nat,
{
    let mut parts: Vec<String> = Vec::new();
    let mut i: usize = 0;
    while i < values.len()
        invariant
            i <= values.len(),
            parts.len() == i,
            forall|k: int| 0 <= k < i ==> parts[k]@ == values[k]@.text(),
        decreases values.len() - i,
    {
        parts.push(values[i].to_text());
        i += 1;
    }
    assert(names_view(parts@) =~= Val::texts(vals(values@)));
    parts
}

impl Enum {
    /// The text of the value; see [`Variant::text`].
    pub fn to_text(&self) -> (r: String)
        ensures
            r@ == self@.text(),
        decreases self, 0nat,
    {
        match self {
            Enum::Var(x) => {
                let mut s = String::from_str("enum::");
                s.append(x.as_str());
                s
            },
            Enum::Lit(ty, tag, fields) => {
                proof {
                    lemma_enum_view(*ty, *tag, *fields);
                }
                let mut s = ty.clone();
                s.append("::");
                s.append(tag.as_str());
                if fields.len() > 0 {
                    s.append("(");
                    s.append(join(&value_texts(fields), ",").as_str());
                    s.append(")");
                }
                s
            },
        }
    }
}

impl Value {
    /// The text of the value; see [`Val::text`].
    pub fn to_text(&self) -> (r: String)
        ensures
            r@ == self@.text(),
        decreases self, 0nat,
    {
        match self {
            Value::AExpr(e) => e.to_text(),
            Value::BExpr(e) => e.to_text(),
            Value::Enum(e) => e.to_text(),
            Value::Any(x) => x.clone(),
        }
    }

    /// The name `s` as it carries the value: `s`, a hash sign and the text of
    /// the value.
    pub fn mangle(&self, s: String) -> (r: String)
        ensures
            r@ == self@.mangle(s@),
    {
        let mut out = s;
        out.append("#");
        out.append(self.to_text().as_str());
        out
    }
}


/// An integer as the result of an evaluation: it must lie within the bounds,
/// from the lower one up to but not including the upper one.
pub open spec fn within(n: int, bounds: (u32, u32)) -> Result<u32, Error> {
    if bounds.0 <= n < bounds.1 {
        Ok(n as u32)
    } else {
        Err(Error::IntegerOutOfBounds)
    }
}

/// The fields of the first declaration of `tag` among `tags`.
pub open spec fn fields_of(tags: Seq<TagDecl>, tag: Seq<char>) -> Option<Seq<Seq<char>>>
    decreases tags.len(),
{
    if tags.len() == 0 {
        None
    } else if tags[0].0 == tag {
        Some(tags[0].1)
    } else {
        fields_of(tags.drop_first(), tag)
    }
}

/// Whether each value shows the type declared for its field. The first value
/// that does not decides: an enum variable is unbound, another type is a
/// mismatch.
pub open spec fn check_fields(values: Seq<Val>, types: Seq<Seq<char>>) -> Result<(), Error>
    decreases values.len(),
{
    if values.len() == 0 || types.len() == 0 {
        Ok(())
    } else {
        match type_of(values[0]) {
            Err(e) => Err(e),
            Ok(ty) => if ty == types[0] {
                check_fields(values.drop_first(), types.drop_first())
            } else {
                Err(Error::TypeMismatch)
            },
        }
    }
}

impl Arith {
    /// The integer an expression evaluates to. The operands are evaluated
    /// from left to right, and every result, also that of a part, must lie
    /// within the bounds.
    pub open spec fn eval(self, bounds: (u32, u32)) -> Result<u32, Error>
        decreases self,
    {
        match self {
            Arith::Var(_) => Err(Error::UnboundVariable),
            Arith::Lit(n) => within(n as int, bounds),
            Arith::Add(l, r) => match l.eval(bounds) {
                Err(e) => Err(e),
                Ok(a) => match r.eval(bounds) {
                    Err(e) => Err(e),
                    Ok(b) => within(a + b, bounds),
                },
            },
            Arith::Sub(l, r) => match l.eval(bounds) {
                Err(e) => Err(e),
                Ok(a) => match r.eval(bounds) {
                    Err(e) => Err(e),
                    Ok(b) => within(a - b, bounds),
                },
            },
            Arith::Mul(l, r) => match l.eval(bounds) {
                Err(e) => Err(e),
                Ok(a) => match r.eval(bounds) {
                    Err(e) => Err(e),
                    Ok(b) => within(a * b, bounds),
                },
            },
            Arith::Div(l, r) => match l.eval(bounds) {
                Err(e) => Err(e),
                Ok(a) => match r.eval(bounds) {
                    Err(e) => Err(e),
                    Ok(b) => if b == 0 {
                        Err(Error::DivisionByZero)
                    } else {
                        within(a as int / b as int, bounds)
                    },
                },
            },
        }
    }
}

/// The result of comparing two evaluated integers.
pub open spec fn compare(
    l: Result<u32, Error>,
    r: Result<u32, Error>,
    test: spec_fn(u32, u32) -> bool,
) -> Result<bool, Error> {
    match l {
        Err(e) => Err(e),
        Ok(a) => match r {
            Err(e) => Err(e),
            Ok(b) => Ok(test(a, b)),
        },
    }
}

impl Logic {
    /// The truth value an expression evaluates to. A conjunction whose left
    /// side is false, and a disjunction whose left side is true, do not
    /// evaluate their right side.
    pub open spec fn eval(self, scope: Scope) -> Result<bool, Error>
        decreases self, 0nat,
    {
        match self {
            Logic::Lit(b) => Ok(b),
            Logic::Var(_) => Err(Error::UnboundVariable),
            Logic::Not(e) => match e.eval(scope) {
                Err(e) => Err(e),
                Ok(b) => Ok(!b),
            },
            Logic::And(l, r) => match l.eval(scope) {
                Err(e) => Err(e),
                Ok(a) => if a {
                    r.eval(scope)
                } else {
                    Ok(false)
                },
            },
            Logic::Or(l, r) => match l.eval(scope) {
                Err(e) => Err(e),
                Ok(a) => if a {
                    Ok(true)
                } else {
                    r.eval(scope)
                },
            },
            Logic::NumEq(l, r) => compare(
                l.eval(scope.bounds),
                r.eval(scope.bounds),
                |a: u32, b: u32| a == b,
            ),
            Logic::NumNotEq(l, r) => compare(
                l.eval(scope.bounds),
                r.eval(scope.bounds),
                |a: u32, b: u32| a != b,
            ),
            Logic::NumLt(l, r) => compare(
                l.eval(scope.bounds),
                r.eval(scope.bounds),
                |a: u32, b: u32| a < b,
            ),
            Logic::NumGt(l, r) => compare(
                l.eval(scope.bounds),
                r.eval(scope.bounds),
                |a: u32, b: u32| a > b,
            ),
            Logic::NumLtEq(l, r) => compare(
                l.eval(scope.bounds),
                r.eval(scope.bounds),
                |a: u32, b: u32| a <= b,
            ),
            Logic::NumGtEq(l, r) => compare(
                l.eval(scope.bounds),
                r.eval(scope.bounds),
                |a: u32, b: u32| a >= b,
            ),
            Logic::EnumIs(l, r) => match l.eval(scope) {
                Err(e) => Err(e),
                Ok(a) => match r.eval(scope) {
                    Err(e) => Err(e),
                    Ok(b) => Ok(a == b),
                },
            },
        }
    }
}

impl Variant {
    /// The literal an enum value evaluates to. The type and the tag must be
    /// declared, there must be as many fields as the tag declares, and each
    /// must show the declared type; then the fields are evaluated in order.
    pub open spec fn eval(self, scope: Scope) -> Result<Variant, Error>
        decreases self, 0nat,
    {
        match self {
            Variant::Var(_) => Err(Error::UnboundVariable),
            Variant::Lit(ty, tag, fields) => match scope.enums.lookup(ty) {
                None => Err(Error::InvalidType),
                Some(tags) => match fields_of(tags, tag) {
                    None => Err(Error::InvalidType),
                    Some(types) => if fields.len() != types.len() {
                        Err(Error::TypeMismatch)
                    } else {
                        match check_fields(fields, types) {
                            Err(e) => Err(e),
                            Ok(_) => match Val::eval_all(fields, scope) {
                                Err(e) => Err(e),
                                Ok(vs) => Ok(Variant::Lit(ty, tag, vs)),
                            },
                        }
                    },
                },
            },
        }
    }
}

impl Val {
    /// The literal a value evaluates to; a variable of no kind is left as it
    /// is.
    pub open spec fn eval(self, scope: Scope) -> Result<Val, Error>
        decreases self, 0nat,
    {
        match self {
            Val::AExpr(e) => match e.eval(scope.bounds) {
                Err(e) => Err(e),
                Ok(n) => Ok(Val::AExpr(Arith::Lit(n))),
            },
            Val::BExpr(e) => match e.eval(scope) {
                Err(e) => Err(e),
                Ok(b) => Ok(Val::BExpr(Logic::Lit(b))),
            },
            Val::Enum(e) => match e.eval(scope) {
                Err(e) => Err(e),
                Ok(v) => Ok(Val::Enum(v)),
            },
            Val::Any(_) => Ok(self),
        }
    }

    /// The values of a list, each evaluated; the first error, in list order,
    /// wins.
    pub open spec fn eval_all(vs: Seq<Val>, scope: Scope) -> Result<Seq<Val>, Error>
        decreases vs, 1nat,
    {
        if vs.len() == 0 {
            Ok(Seq::empty())
        } else {
            match Val::eval_all(vs.drop_last(), scope) {
                Err(e) => Err(e),
                Ok(init) => match vs.last().eval(scope) {
                    Err(e) => Err(e),
                    Ok(v) => Ok(init.push(v)),
                },
            }
        }
    }
}

/// An error among the first values of a list is the error of the whole list.
pub proof fn lemma_eval_all_error(vs: Seq<Val>, i: int, scope: Scope)
    requires
        0 <= i < vs.len(),
        Val::eval_all(vs.take(i + 1), scope) is Err,
    ensures
        Val::eval_all(vs, scope) == Val::eval_all(vs.take(i + 1), scope),
    decreases vs.len(),
{
    if i + 1 == vs.len() {
        assert(vs.take(i + 1) =~= vs);
    } else {
        assert(vs.drop_last().take(i + 1) =~= vs.take(i + 1));
        lemma_eval_all_error(vs.drop_last(), i, scope);
    }
}

fn checked_within(n: u64, bounds: (u32, u32)) -> (r: Result<u32, Error>)
    ensures
        r == within(n as int, bounds),
{
    if (bounds.0 as u64) <= n && n < (bounds.1 as u64) {
        Ok(n as u32)
    } else {
        Err(Error::IntegerOutOfBounds)
    }
}

impl AExpr {
    /// Evaluates the expression within the bounds of `ctx`; see
    /// [`Arith::eval`].
    pub fn eval(&self, ctx: &Context) -> (r: Result<u32, Error>)
        ensures
            r == self@.eval(ctx@.bounds),
        decreases self,
    {
        let bounds = ctx.bounds();
        match self {
            AExpr::Var(_) => Err(Error::UnboundVariable),
            AExpr::Lit(n) => checked_within(*n as u64, bounds),
            AExpr::Add(l, r) => {
                let a = (**l).eval(ctx)?;
                let b = (**r).eval(ctx)?;
                checked_within(a as u64 + b as u64, bounds)
            },
            AExpr::Sub(l, r) => {
                let a = (**l).eval(ctx)?;
                let b = (**r).eval(ctx)?;
                if a < b {
                    Err(Error::IntegerOutOfBounds)
                } else {
                    checked_within((a - b) as u64, bounds)
                }
            },
            AExpr::Mul(l, r) => {
                let a = (**l).eval(ctx)?;
                let b = (**r).eval(ctx)?;
                assert(a as u64 * b as u64 <= u64::MAX) by (nonlinear_arith)
                    requires
                        a <= u32::MAX,
                        b <= u32::MAX,
                ;
                checked_within(a as u64 * b as u64, bounds)
            },
            AExpr::Div(l, r) => {
                let a = (**l).eval(ctx)?;
                let b = (**r).eval(ctx)?;
                if b == 0 {
                    Err(Error::DivisionByZero)
                } else {
                    checked_within((a / b) as u64, bounds)
                }
            },
        }
    }
}


/// The fields of the first declaration of `tag` among `tags`.
fn find_fields<'a>(tags: &'a Vec<(String, Vec<String>)>, tag: &String) -> (r: Option<
    &'a Vec<String>,
>)
    ensures
        match r {
            Some(fields) => fields_of(tag_views(tags@), tag@) == Some(names_view(fields@)),
            None => fields_of(tag_views(tags@), tag@) is None,
        },
{
    let ghost decls = tag_views(tags@);
    let mut i: usize = 0;
    assert(decls.skip(0) =~= decls);
    while i < tags.len()
        invariant
            i <= tags.len(),
            decls == tag_views(tags@),
            fields_of(decls, tag@) == fields_of(decls.skip(i as int), tag@),
        decreases tags.len() - i,
    {
        proof {
            let rest = decls.skip(i as int);
            assert(rest[0] == decls[i as int]);
            assert(rest.drop_first() =~= decls.skip(i + 1));
        }
        if tags[i].0 == *tag {
            return Some(&tags[i].1);
        }
        i += 1;
    }
    assert(decls.skip(tags.len() as int).len() == 0);
    None
}

/// Whether each value shows the type declared for its field.
fn check_field_types(ctx: &Context, values: &Vec<Value>, types: &Vec<String>) -> (r: Result<
    (),
    Error,
>)
    requires
        values.len() == types.len(),
    ensures
        r == check_fields(vals(values@), names_view(types@)),
{
    let ghost vs = vals(values@);
    let ghost ts = names_view(types@);
    let mut i: usize = 0;
    assert(vs.skip(0) =~= vs);
    assert(ts.skip(0) =~= ts);
    while i < values.len()
        invariant
            i <= values.len(),
            values.len() == types.len(),
            vs == vals(values@),
            ts == names_view(types@),
            check_fields(vs, ts) == check_fields(vs.skip(i as int), ts.skip(i as int)),
        decreases values.len() - i,
    {
        proof {
            assert(vs.skip(i as int)[0] == vs[i as int]);
            assert(ts.skip(i as int)[0] == ts[i as int]);
            assert(vs.skip(i as int).drop_first() =~= vs.skip(i + 1));
            assert(ts.skip(i as int).drop_first() =~= ts.skip(i + 1));
        }
        match ctx.type_of(&values[i]) {
            Err(e) => {
                return Err(e);
            },
            Ok(ty) => {
                if *ty != *types[i].as_str() {
                    return Err(Error::TypeMismatch);
                }
            },
        }
        i += 1;
    }
    assert(vs.skip(values.len() as int).len() == 0);
    Ok(())
}

/// The result of an evaluation that gives a value.
pub open spec fn val_result(r: Result<Value, Error>) -> Result<Val, Error> {
    match r {
        Ok(v) => Ok(v@),
        Err(e) => Err(e),
    }
}

/// The result of an evaluation that gives an enum value.
pub open spec fn variant_result(r: Result<Enum, Error>) -> Result<Variant, Error> {
    match r {
        Ok(v) => Ok(v@),
        Err(e) => Err(e),
    }
}

/// The result of an evaluation that gives a list of values.
pub open spec fn vals_result(r: Result<Vec<Value>, Error>) -> Result<Seq<Val>, Error> {
    match r {
        Ok(v) => Ok(vals(v@)),
        Err(e) => Err(e),
    }
}

/// Evaluates the values of a list in order; see [`Val::eval_all`].
#[verifier::loop_isolation(false)]
pub fn eval_values(values: &Vec<Value>, ctx: &Context) -> (r: Result<Vec<Value>, Error>)
    ensures
        vals_result(r) == Val::eval_all(vals(values@), ctx@),
    decreases values, 1nat,
{
    let ghost vs = vals(values@);
    let mut out: Vec<Value> = Vec::new();
    let mut i: usize = 0;
    assert(vals(out@) =~= Seq::<Val>::empty());
    assert(vs.take(0).len() == 0);
    while i < values.len()
        invariant
            i <= values.len(),
            Val::eval_all(vs.take(i as int), ctx@) == Ok::<Seq<Val>, Error>(vals(out@)),
        decreases values.len() - i,
    {
        proof {
            let next = vs.take(i + 1);
            assert(next.drop_last() =~= vs.take(i as int));
            assert(next.last() == values[i as int]@);
        }
        match values[i].eval(ctx) {
            Ok(v) => {
                let ghost before = out@;
                out.push(v);
                assert(vals(out@) =~= vals(before).push(v@));
            },
            Err(e) => {
                proof {
                    lemma_eval_all_error(vs, i as int, ctx@);
                }
                return Err(e);
            },
        }
        i += 1;
    }
    assert(vs.take(values.len() as int) =~= vs);
    Ok(out)
}

impl BExpr {
    /// Evaluates the expression in `ctx`; see [`Logic::eval`].
    pub fn eval(&self, ctx: &Context) -> (r: Result<bool, Error>)
        ensures
            r == self@.eval(ctx@),
        decreases self, 0nat,
    {
        match self {
            BExpr::Lit(b) => Ok(*b),
            BExpr::Var(_) => Err(Error::UnboundVariable),
            BExpr::Not(e) => {
                let b = (**e).eval(ctx)?;
                Ok(!b)
            },
            BExpr::And(l, r) => {
                let a = (**l).eval(ctx)?;
                if a {
                    (**r).eval(ctx)
                } else {
                    Ok(false)
                }
            },
            BExpr::Or(l, r) => {
                let a = (**l).eval(ctx)?;
                if a {
                    Ok(true)
                } else {
                    (**r).eval(ctx)
                }
            },
            BExpr::NumEq(l, r) => {
                let a = l.eval(ctx)?;
                let b = r.eval(ctx)?;
                Ok(a == b)
            },
            BExpr::NumNotEq(l, r) => {
                let a = l.eval(ctx)?;
                let b = r.eval(ctx)?;
                Ok(a != b)
            },
            BExpr::NumLt(l, r) => {
                let a = l.eval(ctx)?;
                let b = r.eval(ctx)?;
                Ok(a < b)
            },
            BExpr::NumGt(l, r) => {
                let a = l.eval(ctx)?;
                let b = r.eval(ctx)?;
                Ok(a > b)
            },
            BExpr::NumLtEq(l, r) => {
                let a = l.eval(ctx)?;
                let b = r.eval(ctx)?;
                Ok(a <= b)
            },
            BExpr::NumGtEq(l, r) => {
                let a = l.eval(ctx)?;
                let b = r.eval(ctx)?;
                Ok(a >= b)
            },
            BExpr::EnumIs(l, r) => {
                let a = l.eval(ctx)?;
                let b = r.eval(ctx)?;
                Ok(a == b)
            },
        }
    }
}

impl Enum {
    /// Evaluates the enum value in `ctx`; see [`Variant::eval`].
    pub fn eval(&self, ctx: &Context) -> (r: Result<Self, Error>)
        ensures
            variant_result(r) == self@.eval(ctx@),
        decreases self, 0nat,
    {
        match self {
            Enum::Var(_) => Err(Error::UnboundVariable),
            Enum::Lit(ty, tag, fields) => {
                proof {
                    lemma_enum_view(*ty, *tag, *fields);
                    ctx@.enums.names.index_of_first_ensures(ty@);
                }
                let enums = ctx.enums();
                let tags = match enums.get(ty.as_str()) {
                    None => {
                        return Err(Error::InvalidType);
                    },
                    Some(tags) => tags,
                };
                assert(ctx@.enums.lookup(ty@) == Some(tag_views(tags@))) by {
                    let i = enums.index_of(ty@)->Some_0;
                    assert(enum_views(enums.values())[i] == tag_views(enums.values()[i]@));
                }
                let types = match find_fields(tags, tag) {
                    None => {
                        return Err(Error::InvalidType);
                    },
                    Some(types) => types,
                };
                if fields.len() != types.len() {
                    return Err(Error::TypeMismatch);
                }
                check_field_types(ctx, fields, types)?;
                let values = eval_values(fields, ctx)?;
                let ty2 = ty.clone();
                let tag2 = tag.clone();
                proof {
                    lemma_enum_view(ty2, tag2, values);
                }
                Ok(Enum::Lit(ty2, tag2, values))
            },
        }
    }
}

impl Value {
    /// Evaluates the value in `ctx`; see [`Val::eval`].
    pub fn eval(&self, ctx: &Context) -> (r: Result<Self, Error>)
        ensures
            val_result(r) == self@.eval(ctx@),
        decreases self, 0nat,
    {
        match self {
            Value::AExpr(e) => {
                let n = e.eval(ctx)?;
                Ok(Value::AExpr(AExpr::Lit(n)))
            },
            Value::BExpr(e) => {
                let b = e.eval(ctx)?;
                Ok(Value::BExpr(BExpr::Lit(b)))
            },
            Value::Enum(e) => {
                let v = e.eval(ctx)?;
                Ok(Value::Enum(v))
            },
            Value::Any(x) => Ok(Value::Any(x.clone())),
        }
    }
}


impl Arith {
    /// The expression with the variable `var` replaced by `val`, and whether
    /// that went well: a variable of an arithmetic expression takes no value
    /// but an arithmetic one, whatever its name. Where a part fails, what
    /// follows it is left as it was.
    pub open spec fn replace(self, var: Seq<char>, val: Val) -> (Arith, bool)
        decreases self,
    {
        match self {
            Arith::Var(x) => match val {
                Val::AExpr(e) => (
                    if x == var {
                        e
                    } else {
                        self
                    },
                    true,
                ),
                _ => (self, false),
            },
            Arith::Lit(_) => (self, true),
            Arith::Add(l, r) => {
                let (l2, ok) = l.replace(var, val);
                let (r2, ok2) = if ok {
                    r.replace(var, val)
                } else {
                    (*r, false)
                };
                (Arith::Add(Box::new(l2), Box::new(r2)), ok2)
            },
            Arith::Sub(l, r) => {
                let (l2, ok) = l.replace(var, val);
                let (r2, ok2) = if ok {
                    r.replace(var, val)
                } else {
                    (*r, false)
                };
                (Arith::Sub(Box::new(l2), Box::new(r2)), ok2)
            },
            Arith::Mul(l, r) => {
                let (l2, ok) = l.replace(var, val);
                let (r2, ok2) = if ok {
                    r.replace(var, val)
                } else {
                    (*r, false)
                };
                (Arith::Mul(Box::new(l2), Box::new(r2)), ok2)
            },
            Arith::Div(l, r) => {
                let (l2, ok) = l.replace(var, val);
                let (r2, ok2) = if ok {
                    r.replace(var, val)
                } else {
                    (*r, false)
                };
                (Arith::Div(Box::new(l2), Box::new(r2)), ok2)
            },
        }
    }
}

impl AExpr {
    /// Replaces the variable `var` by `val`; see [`Arith::replace`].
    pub fn try_replace(&mut self, var: &str, val: &Value) -> (r: bool)
        ensures
            (final(self)@, r) == old(self)@.replace(var@, val@),
        decreases *old(self),
    {
        match self {
            AExpr::Var(x) => {
                match val {
                    Value::AExpr(e) => {
                        if *var == *x.as_str() {
                            *self = e.clone();
                        }
                        true
                    },
                    _ => false,
                }
            },
            AExpr::Lit(_) => true,
            AExpr::Add(l, r) => l.try_replace(var, val) && r.try_replace(var, val),
            AExpr::Sub(l, r) => l.try_replace(var, val) && r.try_replace(var, val),
            AExpr::Mul(l, r) => l.try_replace(var, val) && r.try_replace(var, val),
            AExpr::Div(l, r) => l.try_replace(var, val) && r.try_replace(var, val),
        }
    }
}


/// Two arithmetic expressions with a variable replaced, the second only
/// where the first went well.
pub open spec fn replace_both(l: Arith, r: Arith, var: Seq<char>, val: Val) -> (Arith, Arith, bool) {
    let (l2, ok) = l.replace(var, val);
    if ok {
        let (r2, ok2) = r.replace(var, val);
        (l2, r2, ok2)
    } else {
        (l2, r, false)
    }
}

impl Logic {
    /// The expression with the variable `var` replaced by `val`, and whether
    /// that went well; a boolean variable takes no value but a boolean one.
    pub open spec fn replace(self, var: Seq<char>, val: Val) -> (Logic, bool)
        decreases self, 0nat,
    {
        match self {
            Logic::Lit(_) => (self, true),
            Logic::Var(x) => match val {
                Val::BExpr(e) => (
                    if x == var {
                        e
                    } else {
                        self
                    },
                    true,
                ),
                _ => (self, false),
            },
            Logic::Not(e) => {
                let (e2, ok) = e.replace(var, val);
                (Logic::Not(Box::new(e2)), ok)
            },
            Logic::And(l, r) => {
                let (l2, ok) = l.replace(var, val);
                let (r2, ok2) = if ok {
                    r.replace(var, val)
                } else {
                    (*r, false)
                };
                (Logic::And(Box::new(l2), Box::new(r2)), ok2)
            },
            Logic::Or(l, r) => {
                let (l2, ok) = l.replace(var, val);
                let (r2, ok2) = if ok {
                    r.replace(var, val)
                } else {
                    (*r, false)
                };
                (Logic::Or(Box::new(l2), Box::new(r2)), ok2)
            },
            Logic::NumEq(l, r) => {
                let (l2, r2, ok) = replace_both(l, r, var, val);
                (Logic::NumEq(l2, r2), ok)
            },
            Logic::NumNotEq(l, r) => {
                let (l2, r2, ok) = replace_both(l, r, var, val);
                (Logic::NumNotEq(l2, r2), ok)
            },
            Logic::NumLt(l, r) => {
                let (l2, r2, ok) = replace_both(l, r, var, val);
                (Logic::NumLt(l2, r2), ok)
            },
            Logic::NumGt(l, r) => {
                let (l2, r2, ok) = replace_both(l, r, var, val);
                (Logic::NumGt(l2, r2), ok)
            },
            Logic::NumLtEq(l, r) => {
                let (l2, r2, ok) = replace_both(l, r, var, val);
                (Logic::NumLtEq(l2, r2), ok)
            },
            Logic::NumGtEq(l, r) => {
                let (l2, r2, ok) = replace_both(l, r, var, val);
                (Logic::NumGtEq(l2, r2), ok)
            },
            Logic::EnumIs(l, r) => {
                let (l2, ok) = l.replace(var, val);
                let (r2, ok2) = if ok {
                    r.replace(var, val)
                } else {
                    (r, false)
                };
                (Logic::EnumIs(l2, r2), ok2)
            },
        }
    }
}

impl Variant {
    /// The enum value with the variable `var` replaced by `val`, and whether
    /// that went well; an enum variable takes no value but an enum one.
    pub open spec fn replace(self, var: Seq<char>, val: Val) -> (Variant, bool)
        decreases self, 0nat,
    {
        match self {
            Variant::Var(x) => match val {
                Val::Enum(e) => (
                    if x == var {
                        e
                    } else {
                        self
                    },
                    true,
                ),
                _ => (self, false),
            },
            Variant::Lit(ty, tag, fields) => {
                let (fs, ok) = Val::replace_all(fields, var, val);
                (Variant::Lit(ty, tag, fs), ok)
            },
        }
    }
}

impl Val {
    /// The value with the variable `var` replaced by `val`, and whether that
    /// went well; a variable of no kind takes any value.
    pub open spec fn replace(self, var: Seq<char>, val: Val) -> (Val, bool)
        decreases self, 0nat,
    {
        match self {
            Val::AExpr(e) => {
                let (e2, ok) = e.replace(var, val);
                (Val::AExpr(e2), ok)
            },
            Val::BExpr(e) => {
                let (e2, ok) = e.replace(var, val);
                (Val::BExpr(e2), ok)
            },
            Val::Enum(e) => {
                let (e2, ok) = e.replace(var, val);
                (Val::Enum(e2), ok)
            },
            Val::Any(x) => (
                if x == var {
                    val
                } else {
                    self
                },
                true,
            ),
        }
    }

    /// The values of a list with the variable replaced, from the first on;
    /// after one that fails the rest is left as it was.
    pub open spec fn replace_all(vs: Seq<Val>, var: Seq<char>, val: Val) -> (Seq<Val>, bool)
        decreases vs, 1nat,
    {
        if vs.len() == 0 {
            (Seq::empty(), true)
        } else {
            let (init, ok) = Val::replace_all(vs.drop_last(), var, val);
            if ok {
                let (v, ok2) = vs.last().replace(var, val);
                (init.push(v), ok2)
            } else {
                (init.push(vs.last()), false)
            }
        }
    }
}

/// Where replacing fails within the first values of a list, the rest of the
/// list is left as it was.
pub proof fn lemma_replace_all_fails(vs: Seq<Val>, i: int, var: Seq<char>, val: Val)
    requires
        0 <= i < vs.len(),
        !Val::replace_all(vs.take(i + 1), var, val).1,
    ensures
        Val::replace_all(vs, var, val) == (
            Val::replace_all(vs.take(i + 1), var, val).0 + vs.skip(i + 1),
            false,
        ),
    decreases vs.len(),
{
    let head = Val::replace_all(vs.take(i + 1), var, val).0;
    if i + 1 == vs.len() {
        assert(vs.take(i + 1) =~= vs);
        assert(head + vs.skip(i + 1) =~= head);
    } else {
        assert(vs.drop_last().take(i + 1) =~= vs.take(i + 1));
        lemma_replace_all_fails(vs.drop_last(), i, var, val);
        assert((head + vs.drop_last().skip(i + 1)).push(vs.last()) =~= head + vs.skip(i + 1));
    }
}

/// Replaces the variable `var` by `val` in the values of a list, from the
/// first on; see [`Val::replace_all`].
pub fn replace_in_values(values: &mut Vec<Value>, var: &str, val: &Value) -> (r: bool)
    ensures
        (vals(final(values)@), r) == Val::replace_all(vals(old(values)@), var@, val@),
    decreases *old(values), 1nat,
{
    let ghost whole = *values;
    let ghost olds = values@;
    let ghost vs = vals(olds);
    let n = values.len();
    let mut i: usize = 0;
    assert(vs.take(0).len() == 0);
    assert(vals(values@) =~= Seq::<Val>::empty() + vs.skip(0));
    while i < n
        invariant
            i <= n,
            n == olds.len(),
            values.len() == n,
            whole == *old(values),
            olds == whole@,
            vs == vals(olds),
            forall|k: int| i <= k < n ==> values[k] == olds[k],
            Val::replace_all(vs.take(i as int), var@, val@).1,
            vals(values@) == Val::replace_all(vs.take(i as int), var@, val@).0 + vs.skip(i as int),
        decreases n - i,
    {
        let ghost before = values@;
        let ghost done = Val::replace_all(vs.take(i as int), var@, val@).0;
        proof {
            let next = vs.take(i + 1);
            assert(next.drop_last() =~= vs.take(i as int));
            assert(next.last() == olds[i as int]@);
            vstd::std_specs::vec::axiom_vec_index_decreases(whole, i as int);
        }
        let ok = values[i].try_replace(var, val);
        proof {
            let v = values[i as int]@;
            assert(Val::replace_all(vs.take(i + 1), var@, val@) == (done.push(v), ok));
            assert(vals(values@) =~= done.push(v) + vs.skip(i + 1)) by {
                assert(done.len() == i) by {
                    lemma_replace_all_len(vs.take(i as int), var@, val@);
                }
                assert forall|k: int| 0 <= k < n implies vals(values@)[k] == (done.push(v)
                    + vs.skip(i + 1))[k] by {
                    if k < i {
                        assert(vals(before)[k] == (done + vs.skip(i as int))[k]);
                    } else if k > i {
                        assert(vals(before)[k] == (done + vs.skip(i as int))[k]);
                    }
                }
            }
        }
        if !ok {
            proof {
                lemma_replace_all_fails(vs, i as int, var@, val@);
            }
            return false;
        }
        i += 1;
    }
    proof {
        assert(vs.take(n as int) =~= vs);
        assert(vs.skip(n as int).len() == 0);
        assert(vals(values@) =~= Val::replace_all(vs, var@, val@).0);
    }
    true
}

/// Replacing leaves a list as long as it was.
pub proof fn lemma_replace_all_len(vs: Seq<Val>, var: Seq<char>, val: Val)
    ensures
        Val::replace_all(vs, var, val).0.len() == vs.len(),
    decreases vs.len(),
{
    if vs.len() > 0 {
        lemma_replace_all_len(vs.drop_last(), var, val);
    }
}

impl BExpr {
    /// Replaces the variable `var` by `val`; see [`Logic::replace`].
    pub fn try_replace(&mut self, var: &str, val: &Value) -> (r: bool)
        ensures
            (final(self)@, r) == old(self)@.replace(var@, val@),
        decreases *old(self), 0nat,
    {
        match self {
            BExpr::Lit(_) => true,
            BExpr::Var(name) => {
                match val {
                    Value::BExpr(e) => {
                        if *name.as_str() == *var {
                            *self = e.clone();
                        }
                        true
                    },
                    _ => false,
                }
            },
            BExpr::Not(e) => e.try_replace(var, val),
            BExpr::And(l, r) => l.try_replace(var, val) && r.try_replace(var, val),
            BExpr::Or(l, r) => l.try_replace(var, val) && r.try_replace(var, val),
            BExpr::NumEq(l, r) => l.try_replace(var, val) && r.try_replace(var, val),
            BExpr::NumNotEq(l, r) => l.try_replace(var, val) && r.try_replace(var, val),
            BExpr::NumLt(l, r) => l.try_replace(var, val) && r.try_replace(var, val),
            BExpr::NumGt(l, r) => l.try_replace(var, val) && r.try_replace(var, val),
            BExpr::NumLtEq(l, r) => l.try_replace(var, val) && r.try_replace(var, val),
            BExpr::NumGtEq(l, r) => l.try_replace(var, val) && r.try_replace(var, val),
            BExpr::EnumIs(l, r) => l.try_replace(var, val) && r.try_replace(var, val),
        }
    }
}

impl Enum {
    /// Replaces the variable `var` by `val`; see [`Variant::replace`].
    pub fn try_replace(&mut self, var: &str, val: &Value) -> (r: bool)
        ensures
            (final(self)@, r) == old(self)@.replace(var@, val@),
        decreases *old(self), 0nat,
    {
        match self {
            Enum::Var(x) => {
                match val {
                    Value::Enum(e) => {
                        if *var == *x.as_str() {
                            *self = e.clone();
                        }
                        true
                    },
                    _ => false,
                }
            },
            Enum::Lit(ty, tag, fields) => {
                proof {
                    lemma_enum_view(*ty, *tag, *fields);
                }
                let ok = replace_in_values(fields, var, val);
                proof {
                    lemma_enum_view(*ty, *tag, *fields);
                }
                ok
            },
        }
    }
}

impl Value {
    /// Replaces the variable `var` by `val`; see [`Val::replace`].
    pub fn try_replace(&mut self, var: &str, val: &Value) -> (r: bool)
        ensures
            (final(self)@, r) == old(self)@.replace(var@, val@),
        decreases *old(self), 0nat,
    {
        match self {
            Value::AExpr(e) => e.try_replace(var, val),
            Value::BExpr(e) => e.try_replace(var, val),
            Value::Enum(e) => e.try_replace(var, val),
            Value::Any(x) => {
                if *x.as_str() == *var {
                    *self = val.clone();
                }
                true
            },
        }
    }
}

} // verus!
