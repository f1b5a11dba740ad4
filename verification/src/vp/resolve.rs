//! The kind of a written expression: the place it stands in decides whether
//! it is read as an arithmetic expression, a boolean expression, an enum
//! value or a value of any kind.
use vstd::prelude::*;

use crate::vp::expr::{lemma_lit_view, phrases, Expr, Op, Phrase};
use crate::vp::values::{
    lemma_enum_view, vals, AExpr, Arith, BExpr, Enum, Logic, Val, Value, Variant,
};

verus! {

/// Whether an operator is one of arithmetic.
pub open spec fn is_arithmetic(op: Op) -> bool {
    op == Op::Add || op == Op::Sub || op == Op::Mul || op == Op::Div
}

impl Phrase {
    /// The phrase as an arithmetic expression: a number, a name as a
    /// variable, or an operator of arithmetic between two such.
    pub open spec fn arith(self) -> Option<Arith>
        decreases self,
    {
        match self {
            Phrase::Num(n) => Some(Arith::Lit(n)),
            Phrase::Name(x) => Some(Arith::Var(x)),
            Phrase::Bin(op, l, r) => match (l.arith(), r.arith()) {
                (Some(a), Some(b)) => if op == Op::Add {
                    Some(Arith::Add(Box::new(a), Box::new(b)))
                } else if op == Op::Sub {
                    Some(Arith::Sub(Box::new(a), Box::new(b)))
                } else if op == Op::Mul {
                    Some(Arith::Mul(Box::new(a), Box::new(b)))
                } else if op == Op::Div {
                    Some(Arith::Div(Box::new(a), Box::new(b)))
                } else {
                    None
                },
                _ => None,
            },
            _ => None,
        }
    }

    /// The phrase as a boolean expression: a truth value, a name as a
    /// variable, a negation, a conjunction or a disjunction of such, a
    /// comparison of two arithmetic expressions, or `is` between two enum
    /// values.
    pub open spec fn logic(self) -> Option<Logic>
        decreases self, 0nat,
    {
        match self {
            Phrase::Bool(b) => Some(Logic::Lit(b)),
            Phrase::Name(x) => Some(Logic::Var(x)),
            Phrase::Not(e) => match e.logic() {
                Some(b) => Some(Logic::Not(Box::new(b))),
                None => None,
            },
            Phrase::Bin(op, l, r) => if op == Op::And || op == Op::Or {
                match (l.logic(), r.logic()) {
                    (Some(a), Some(b)) => if op == Op::And {
                        Some(Logic::And(Box::new(a), Box::new(b)))
                    } else {
                        Some(Logic::Or(Box::new(a), Box::new(b)))
                    },
                    _ => None,
                }
            } else if op == Op::Is {
                match (l.variant(), r.variant()) {
                    (Some(a), Some(b)) => Some(Logic::EnumIs(a, b)),
                    _ => None,
                }
            } else {
                match (l.arith(), r.arith()) {
                    (Some(a), Some(b)) => if op == Op::Eq {
                        Some(Logic::NumEq(a, b))
                    } else if op == Op::NotEq {
                        Some(Logic::NumNotEq(a, b))
                    } else if op == Op::Lt {
                        Some(Logic::NumLt(a, b))
                    } else if op == Op::Gt {
                        Some(Logic::NumGt(a, b))
                    } else if op == Op::LtEq {
                        Some(Logic::NumLtEq(a, b))
                    } else if op == Op::GtEq {
                        Some(Logic::NumGtEq(a, b))
                    } else {
                        None
                    },
                    _ => None,
                }
            },
            _ => None,
        }
    }

    /// The phrase as an enum value: a name as a variable, or a literal whose
    /// fields are values.
    pub open spec fn variant(self) -> Option<Variant>
        decreases self, 0nat,
    {
        match self {
            Phrase::Name(x) => Some(Variant::Var(x)),
            Phrase::Lit(ty, tag, fields) => match Phrase::values(fields) {
                Some(vs) => Some(Variant::Lit(ty, tag, vs)),
                None => None,
            },
            _ => None,
        }
    }

    /// The phrase as a value: a name alone is a variable of no kind, and
    /// every other phrase is of the kind that its form shows.
    pub open spec fn value(self) -> Option<Val>
        decreases self, 1nat,
    {
        match self {
            Phrase::Name(x) => Some(Val::Any(x)),
            Phrase::Num(_) => match self.arith() {
                Some(a) => Some(Val::AExpr(a)),
                None => None,
            },
            Phrase::Lit(_, _, _) => match self.variant() {
                Some(e) => Some(Val::Enum(e)),
                None => None,
            },
            Phrase::Bin(op, _, _) => if is_arithmetic(op) {
                match self.arith() {
                    Some(a) => Some(Val::AExpr(a)),
                    None => None,
                }
            } else {
                match self.logic() {
                    Some(b) => Some(Val::BExpr(b)),
                    None => None,
                }
            },
            _ => match self.logic() {
                Some(b) => Some(Val::BExpr(b)),
                None => None,
            },
        }
    }

    /// The phrases of a list as values, where each is one.
    pub open spec fn values(ps: Seq<Phrase>) -> Option<Seq<Val>>
        decreases ps, 2nat,
    {
        if ps.len() == 0 {
            Some(Seq::empty())
        } else {
            match (Phrase::values(ps.drop_last()), ps.last().value()) {
                (Some(init), Some(v)) => Some(init.push(v)),
                _ => None,
            }
        }
    }
}

/// A list that holds a phrase that is no value has no values.
proof fn lemma_values_none(ps: Seq<Phrase>, i: int)
    requires
        0 <= i < ps.len(),
        Phrase::values(ps.take(i + 1)) is None,
    ensures
        Phrase::values(ps) is None,
    decreases ps.len(),
{
    if i + 1 == ps.len() {
        assert(ps.take(i + 1) =~= ps);
    } else {
        assert(ps.drop_last().take(i + 1) =~= ps.take(i + 1));
        lemma_values_none(ps.drop_last(), i);
    }
}

/// The value of an arithmetic expression that was resolved.
pub open spec fn arith_view(r: Option<AExpr>) -> Option<Arith> {
    match r {
        Some(e) => Some(e@),
        None => None,
    }
}

/// The value of a boolean expression that was resolved.
pub open spec fn logic_view(r: Option<BExpr>) -> Option<Logic> {
    match r {
        Some(e) => Some(e@),
        None => None,
    }
}

/// The value of an enum value that was resolved.
pub open spec fn variant_view(r: Option<Enum>) -> Option<Variant> {
    match r {
        Some(e) => Some(e@),
        None => None,
    }
}

/// The value of a value that was resolved.
pub open spec fn value_view(r: Option<Value>) -> Option<Val> {
    match r {
        Some(e) => Some(e@),
        None => None,
    }
}

/// The values of a list of values that was resolved.
pub open spec fn values_view(r: Option<Vec<Value>>) -> Option<Seq<Val>> {
    match r {
        Some(vs) => Some(vals(vs@)),
        None => None,
    }
}

impl Expr {
    /// The expression as an arithmetic one; see [`Phrase::arith`].
    pub fn to_aexpr(&self) -> (r: Option<AExpr>)
        ensures
            arith_view(r) == self@.arith(),
        decreases self,
    {
        match self {
            Expr::Num(n) => Some(AExpr::Lit(*n)),
            Expr::Name(x) => Some(AExpr::Var(x.clone())),
            Expr::Bin(op, l, r) => {
                let a = match (**l).to_aexpr() {
                    Some(a) => a,
                    None => {
                        return None;
                    },
                };
                let b = match (**r).to_aexpr() {
                    Some(b) => b,
                    None => {
                        return None;
                    },
                };
                match op {
                    Op::Add => Some(AExpr::Add(Box::new(a), Box::new(b))),
                    Op::Sub => Some(AExpr::Sub(Box::new(a), Box::new(b))),
                    Op::Mul => Some(AExpr::Mul(Box::new(a), Box::new(b))),
                    Op::Div => Some(AExpr::Div(Box::new(a), Box::new(b))),
                    _ => None,
                }
            },
            Expr::Lit(ty, tag, fields) => {
                proof {
                    lemma_lit_view(*ty, *tag, *fields);
                }
                None
            },
            _ => None,
        }
    }

    /// The expression as a boolean one; see [`Phrase::logic`].
    pub fn to_bexpr(&self) -> (r: Option<BExpr>)
        ensures
            logic_view(r) == self@.logic(),
        decreases self, 0nat,
    {
        match self {
            Expr::Bool(b) => Some(BExpr::Lit(*b)),
            Expr::Name(x) => Some(BExpr::Var(x.clone())),
            Expr::Not(e) => match (**e).to_bexpr() {
                Some(b) => Some(BExpr::Not(Box::new(b))),
                None => None,
            },
            Expr::Bin(op, l, r) => {
                match op {
                    Op::And | Op::Or => {
                        let a = match (**l).to_bexpr() {
                            Some(a) => a,
                            None => {
                                return None;
                            },
                        };
                        let b = match (**r).to_bexpr() {
                            Some(b) => b,
                            None => {
                                return None;
                            },
                        };
                        match op {
                            Op::And => Some(BExpr::And(Box::new(a), Box::new(b))),
                            _ => Some(BExpr::Or(Box::new(a), Box::new(b))),
                        }
                    },
                    Op::Is => {
                        let a = match (**l).to_enum() {
                            Some(a) => a,
                            None => {
                                return None;
                            },
                        };
                        let b = match (**r).to_enum() {
                            Some(b) => b,
                            None => {
                                return None;
                            },
                        };
                        Some(BExpr::EnumIs(a, b))
                    },
                    _ => {
                        let a = match (**l).to_aexpr() {
                            Some(a) => a,
                            None => {
                                return None;
                            },
                        };
                        let b = match (**r).to_aexpr() {
                            Some(b) => b,
                            None => {
                                return None;
                            },
                        };
                        match op {
                            Op::Eq => Some(BExpr::NumEq(a, b)),
                            Op::NotEq => Some(BExpr::NumNotEq(a, b)),
                            Op::Lt => Some(BExpr::NumLt(a, b)),
                            Op::Gt => Some(BExpr::NumGt(a, b)),
                            Op::LtEq => Some(BExpr::NumLtEq(a, b)),
                            Op::GtEq => Some(BExpr::NumGtEq(a, b)),
                            _ => None,
                        }
                    },
                }
            },
            Expr::Lit(ty, tag, fields) => {
                proof {
                    lemma_lit_view(*ty, *tag, *fields);
                }
                None
            },
            _ => None,
        }
    }

    /// The expression as an enum value; see [`Phrase::variant`].
    pub fn to_enum(&self) -> (r: Option<Enum>)
        ensures
            variant_view(r) == self@.variant(),
        decreases self, 0nat,
    {
        match self {
            Expr::Name(x) => Some(Enum::Var(x.clone())),
            Expr::Lit(ty, tag, fields) => {
                proof {
                    lemma_lit_view(*ty, *tag, *fields);
                }
                match to_values(fields) {
                    None => None,
                    Some(vs) => {
                        let ty2 = ty.clone();
                        let tag2 = tag.clone();
                        proof {
                            lemma_enum_view(ty2, tag2, vs);
                        }
                        Some(Enum::Lit(ty2, tag2, vs))
                    },
                }
            },
            _ => None,
        }
    }

    /// The expression as a value; see [`Phrase::value`].
    pub fn to_value(&self) -> (r: Option<Value>)
        ensures
            value_view(r) == self@.value(),
        decreases self, 1nat,
    {
        match self {
            Expr::Name(x) => Some(Value::Any(x.clone())),
            Expr::Num(_) => match self.to_aexpr() {
                Some(a) => Some(Value::AExpr(a)),
                None => None,
            },
            Expr::Lit(ty, tag, fields) => {
                proof {
                    lemma_lit_view(*ty, *tag, *fields);
                }
                match self.to_enum() {
                    Some(e) => Some(Value::Enum(e)),
                    None => None,
                }
            },
            Expr::Bin(op, _, _) => {
                match op {
                    Op::Add | Op::Sub | Op::Mul | Op::Div => match self.to_aexpr() {
                        Some(a) => Some(Value::AExpr(a)),
                        None => None,
                    },
                    _ => match self.to_bexpr() {
                        Some(b) => Some(Value::BExpr(b)),
                        None => None,
                    },
                }
            },
            _ => match self.to_bexpr() {
                Some(b) => Some(Value::BExpr(b)),
                None => None,
            },
        }
    }
}

/// The expressions of a list as values; see [`Phrase::values`].
#[verifier::loop_isolation(false)]
pub fn to_values(es: &Vec<Expr>) -> (r: Option<Vec<Value>>)
    ensures
        values_view(r) == Phrase::values(phrases(es@)),
    decreases es, 2nat,
{
    let ghost ps = phrases(es@);
    let mut out: Vec<Value> = Vec::new();
    let mut i: usize = 0;
    assert(vals(out@) =~= Seq::<Val>::empty());
    assert(ps.take(0).len() == 0);
    while i < es.len()
        invariant
            i <= es.len(),
            Phrase::values(ps.take(i as int)) == Some(vals(out@)),
        decreases es.len() - i,
    {
        proof {
            let next = ps.take(i + 1);
            assert(next.drop_last() =~= ps.take(i as int));
            assert(next.last() == es[i as int]@);
        }
        match es[i].to_value() {
            None => {
                proof {
                    lemma_values_none(ps, i as int);
                }
                return None;
            },
            Some(v) => {
                let ghost before = out@;
                out.push(v);
                assert(vals(out@) =~= vals(before).push(v@));
            },
        }
        i += 1;
    }
    assert(ps.take(es.len() as int) =~= ps);
    Some(out)
}

} // verus!
