//! Conversions into expressions, arithmetic operators and the comparisons
//! that build constraints.

use vstd::prelude::*;

use crate::dsl::simplify::{mk_sub, simplify_halts};
use crate::dsl::variables::{
    generalized, Constraint, LpBinary, LpConstraint, LpContinuous, LpExpression, LpInteger, Term,
};
use crate::num::{make, Decimal};

verus! {

impl From<LpBinary> for LpExpression {
    fn from(v: LpBinary) -> (r: LpExpression) {
        LpExpression::ConsBin(v)
    }
}

impl vstd::std_specs::convert::FromSpecImpl<LpBinary> for LpExpression {
    open spec fn obeys_from_spec() -> bool {
        true
    }

    open spec fn from_spec(v: LpBinary) -> LpExpression {
        LpExpression::ConsBin(v)
    }
}

impl From<LpInteger> for LpExpression {
    fn from(v: LpInteger) -> (r: LpExpression) {
        LpExpression::ConsInt(v)
    }
}

impl vstd::std_specs::convert::FromSpecImpl<LpInteger> for LpExpression {
    open spec fn obeys_from_spec() -> bool {
        true
    }

    open spec fn from_spec(v: LpInteger) -> LpExpression {
        LpExpression::ConsInt(v)
    }
}

impl From<LpContinuous> for LpExpression {
    fn from(v: LpContinuous) -> (r: LpExpression) {
        LpExpression::ConsCont(v)
    }
}

impl vstd::std_specs::convert::FromSpecImpl<LpContinuous> for LpExpression {
    open spec fn obeys_from_spec() -> bool {
        true
    }

    open spec fn from_spec(v: LpContinuous) -> LpExpression {
        LpExpression::ConsCont(v)
    }
}

impl From<Decimal> for LpExpression {
    fn from(v: Decimal) -> (r: LpExpression) {
        LpExpression::LitVal(v)
    }
}

impl vstd::std_specs::convert::FromSpecImpl<Decimal> for LpExpression {
    open spec fn obeys_from_spec() -> bool {
        true
    }

    open spec fn from_spec(v: Decimal) -> LpExpression {
        LpExpression::LitVal(v)
    }
}

impl From<i32> for LpExpression {
    fn from(v: i32) -> (r: LpExpression) {
        LpExpression::LitVal(Decimal::from_i32(v))
    }
}

impl vstd::std_specs::convert::FromSpecImpl<i32> for LpExpression {
    open spec fn obeys_from_spec() -> bool {
        true
    }

    open spec fn from_spec(v: i32) -> LpExpression {
        LpExpression::LitVal(make(v < 0, (if v < 0 { -(v as int) } else { v as int }) as nat, 0).unwrap())
    }
}

impl core::ops::Add<LpExpression> for LpExpression {
    type Output = LpExpression;

    fn add(self, rhs: LpExpression) -> (r: LpExpression) {
        LpExpression::AddExpr(Box::new(self), Box::new(rhs))
    }
}

impl vstd::std_specs::ops::AddSpecImpl<LpExpression> for LpExpression {
    open spec fn obeys_add_spec() -> bool {
        true
    }

    open spec fn add_req(self, rhs: LpExpression) -> bool {
        true
    }

    open spec fn add_spec(self, rhs: LpExpression) -> LpExpression {
        LpExpression::AddExpr(Box::new(self), Box::new(rhs))
    }
}

impl core::ops::Add<LpExpression> for Decimal {
    type Output = LpExpression;

    fn add(self, rhs: LpExpression) -> (r: LpExpression) {
        LpExpression::AddExpr(Box::new(LpExpression::LitVal(self)), Box::new(rhs))
    }
}

impl vstd::std_specs::ops::AddSpecImpl<LpExpression> for Decimal {
    open spec fn obeys_add_spec() -> bool {
        true
    }

    open spec fn add_req(self, rhs: LpExpression) -> bool {
        true
    }

    open spec fn add_spec(self, rhs: LpExpression) -> LpExpression {
        LpExpression::AddExpr(Box::new(LpExpression::LitVal(self)), Box::new(rhs))
    }
}

impl core::ops::Sub<LpExpression> for LpExpression {
    type Output = LpExpression;

    fn sub(self, rhs: LpExpression) -> (r: LpExpression) {
        LpExpression::SubExpr(Box::new(self), Box::new(rhs))
    }
}

impl vstd::std_specs::ops::SubSpecImpl<LpExpression> for LpExpression {
    open spec fn obeys_sub_spec() -> bool {
        true
    }

    open spec fn sub_req(self, rhs: LpExpression) -> bool {
        true
    }

    open spec fn sub_spec(self, rhs: LpExpression) -> LpExpression {
        LpExpression::SubExpr(Box::new(self), Box::new(rhs))
    }
}

impl core::ops::Sub<LpExpression> for Decimal {
    type Output = LpExpression;

    fn sub(self, rhs: LpExpression) -> (r: LpExpression) {
        LpExpression::SubExpr(Box::new(LpExpression::LitVal(self)), Box::new(rhs))
    }
}

impl vstd::std_specs::ops::SubSpecImpl<LpExpression> for Decimal {
    open spec fn obeys_sub_spec() -> bool {
        true
    }

    open spec fn sub_req(self, rhs: LpExpression) -> bool {
        true
    }

    open spec fn sub_spec(self, rhs: LpExpression) -> LpExpression {
        LpExpression::SubExpr(Box::new(LpExpression::LitVal(self)), Box::new(rhs))
    }
}

impl core::ops::Mul<LpExpression> for LpExpression {
    type Output = LpExpression;

    fn mul(self, rhs: LpExpression) -> (r: LpExpression) {
        LpExpression::MulExpr(Box::new(self), Box::new(rhs))
    }
}

impl vstd::std_specs::ops::MulSpecImpl<LpExpression> for LpExpression {
    open spec fn obeys_mul_spec() -> bool {
        true
    }

    open spec fn mul_req(self, rhs: LpExpression) -> bool {
        true
    }

    open spec fn mul_spec(self, rhs: LpExpression) -> LpExpression {
        LpExpression::MulExpr(Box::new(self), Box::new(rhs))
    }
}

impl core::ops::Mul<LpExpression> for Decimal {
    type Output = LpExpression;

    fn mul(self, rhs: LpExpression) -> (r: LpExpression) {
        LpExpression::MulExpr(Box::new(LpExpression::LitVal(self)), Box::new(rhs))
    }
}

impl vstd::std_specs::ops::MulSpecImpl<LpExpression> for Decimal {
    open spec fn obeys_mul_spec() -> bool {
        true
    }

    open spec fn mul_req(self, rhs: LpExpression) -> bool {
        true
    }

    open spec fn mul_spec(self, rhs: LpExpression) -> LpExpression {
        LpExpression::MulExpr(Box::new(LpExpression::LitVal(self)), Box::new(rhs))
    }
}

impl core::ops::Add<LpExpression> for LpBinary {
    type Output = LpExpression;

    fn add(self, rhs: LpExpression) -> (r: LpExpression) {
        LpExpression::AddExpr(Box::new(LpExpression::ConsBin(self)), Box::new(rhs))
    }
}

impl vstd::std_specs::ops::AddSpecImpl<LpExpression> for LpBinary {
    open spec fn obeys_add_spec() -> bool {
        true
    }

    open spec fn add_req(self, rhs: LpExpression) -> bool {
        true
    }

    open spec fn add_spec(self, rhs: LpExpression) -> LpExpression {
        LpExpression::AddExpr(Box::new(LpExpression::ConsBin(self)), Box::new(rhs))
    }
}

impl core::ops::Sub<LpExpression> for LpBinary {
    type Output = LpExpression;

    fn sub(self, rhs: LpExpression) -> (r: LpExpression) {
        LpExpression::SubExpr(Box::new(LpExpression::ConsBin(self)), Box::new(rhs))
    }
}

impl vstd::std_specs::ops::SubSpecImpl<LpExpression> for LpBinary {
    open spec fn obeys_sub_spec() -> bool {
        true
    }

    open spec fn sub_req(self, rhs: LpExpression) -> bool {
        true
    }

    open spec fn sub_spec(self, rhs: LpExpression) -> LpExpression {
        LpExpression::SubExpr(Box::new(LpExpression::ConsBin(self)), Box::new(rhs))
    }
}

impl core::ops::Mul<LpExpression> for LpBinary {
    type Output = LpExpression;

    fn mul(self, rhs: LpExpression) -> (r: LpExpression) {
        if let LpExpression::LitVal(_) = rhs {
            LpExpression::MulExpr(Box::new(rhs), Box::new(LpExpression::ConsBin(self)))
        } else {
            LpExpression::MulExpr(Box::new(LpExpression::ConsBin(self)), Box::new(rhs))
        }
    }
}

impl vstd::std_specs::ops::MulSpecImpl<LpExpression> for LpBinary {
    open spec fn obeys_mul_spec() -> bool {
        true
    }

    open spec fn mul_req(self, rhs: LpExpression) -> bool {
        true
    }

    open spec fn mul_spec(self, rhs: LpExpression) -> LpExpression {
        if rhs is LitVal {
            LpExpression::MulExpr(Box::new(rhs), Box::new(LpExpression::ConsBin(self)))
        } else {
            LpExpression::MulExpr(Box::new(LpExpression::ConsBin(self)), Box::new(rhs))
        }
    }
}

impl core::ops::Add<LpExpression> for LpInteger {
    type Output = LpExpression;

    fn add(self, rhs: LpExpression) -> (r: LpExpression) {
        LpExpression::AddExpr(Box::new(LpExpression::ConsInt(self)), Box::new(rhs))
    }
}

impl vstd::std_specs::ops::AddSpecImpl<LpExpression> for LpInteger {
    open spec fn obeys_add_spec() -> bool {
        true
    }

    open spec fn add_req(self, rhs: LpExpression) -> bool {
        true
    }

    open spec fn add_spec(self, rhs: LpExpression) -> LpExpression {
        LpExpression::AddExpr(Box::new(LpExpression::ConsInt(self)), Box::new(rhs))
    }
}

impl core::ops::Sub<LpExpression> for LpInteger {
    type Output = LpExpression;

    fn sub(self, rhs: LpExpression) -> (r: LpExpression) {
        LpExpression::SubExpr(Box::new(LpExpression::ConsInt(self)), Box::new(rhs))
    }
}

impl vstd::std_specs::ops::SubSpecImpl<LpExpression> for LpInteger {
    open spec fn obeys_sub_spec() -> bool {
        true
    }

    open spec fn sub_req(self, rhs: LpExpression) -> bool {
        true
    }

    open spec fn sub_spec(self, rhs: LpExpression) -> LpExpression {
        LpExpression::SubExpr(Box::new(LpExpression::ConsInt(self)), Box::new(rhs))
    }
}

impl core::ops::Mul<LpExpression> for LpInteger {
    type Output = LpExpression;

    fn mul(self, rhs: LpExpression) -> (r: LpExpression) {
        if let LpExpression::LitVal(_) = rhs {
            LpExpression::MulExpr(Box::new(rhs), Box::new(LpExpression::ConsInt(self)))
        } else {
            LpExpression::MulExpr(Box::new(LpExpression::ConsInt(self)), Box::new(rhs))
        }
    }
}

impl vstd::std_specs::ops::MulSpecImpl<LpExpression> for LpInteger {
    open spec fn obeys_mul_spec() -> bool {
        true
    }

    open spec fn mul_req(self, rhs: LpExpression) -> bool {
        true
    }

    open spec fn mul_spec(self, rhs: LpExpression) -> LpExpression {
        if rhs is LitVal {
            LpExpression::MulExpr(Box::new(rhs), Box::new(LpExpression::ConsInt(self)))
        } else {
            LpExpression::MulExpr(Box::new(LpExpression::ConsInt(self)), Box::new(rhs))
        }
    }
}

impl core::ops::Add<LpExpression> for LpContinuous {
    type Output = LpExpression;

    fn add(self, rhs: LpExpression) -> (r: LpExpression) {
        LpExpression::AddExpr(Box::new(LpExpression::ConsCont(self)), Box::new(rhs))
    }
}

impl vstd::std_specs::ops::AddSpecImpl<LpExpression> for LpContinuous {
    open spec fn obeys_add_spec() -> bool {
        true
    }

    open spec fn add_req(self, rhs: LpExpression) -> bool {
        true
    }

    open spec fn add_spec(self, rhs: LpExpression) -> LpExpression {
        LpExpression::AddExpr(Box::new(LpExpression::ConsCont(self)), Box::new(rhs))
    }
}

impl core::ops::Sub<LpExpression> for LpContinuous {
    type Output = LpExpression;

    fn sub(self, rhs: LpExpression) -> (r: LpExpression) {
        LpExpression::SubExpr(Box::new(LpExpression::ConsCont(self)), Box::new(rhs))
    }
}

impl vstd::std_specs::ops::SubSpecImpl<LpExpression> for LpContinuous {
    open spec fn obeys_sub_spec() -> bool {
        true
    }

    open spec fn sub_req(self, rhs: LpExpression) -> bool {
        true
    }

    open spec fn sub_spec(self, rhs: LpExpression) -> LpExpression {
        LpExpression::SubExpr(Box::new(LpExpression::ConsCont(self)), Box::new(rhs))
    }
}

impl core::ops::Mul<LpExpression> for LpContinuous {
    type Output = LpExpression;

    fn mul(self, rhs: LpExpression) -> (r: LpExpression) {
        if let LpExpression::LitVal(_) = rhs {
            LpExpression::MulExpr(Box::new(rhs), Box::new(LpExpression::ConsCont(self)))
        } else {
            LpExpression::MulExpr(Box::new(LpExpression::ConsCont(self)), Box::new(rhs))
        }
    }
}

impl vstd::std_specs::ops::MulSpecImpl<LpExpression> for LpContinuous {
    open spec fn obeys_mul_spec() -> bool {
        true
    }

    open spec fn mul_req(self, rhs: LpExpression) -> bool {
        true
    }

    open spec fn mul_spec(self, rhs: LpExpression) -> LpExpression {
        if rhs is LitVal {
            LpExpression::MulExpr(Box::new(rhs), Box::new(LpExpression::ConsCont(self)))
        } else {
            LpExpression::MulExpr(Box::new(LpExpression::ConsCont(self)), Box::new(rhs))
        }
    }
}

impl core::ops::Neg for LpExpression {
    type Output = LpExpression;

    fn neg(self) -> (r: LpExpression) {
        LpExpression::MulExpr(Box::new(LpExpression::LitVal(Decimal::from_i32(-1))), Box::new(self))
    }
}

impl vstd::std_specs::ops::NegSpecImpl for LpExpression {
    open spec fn obeys_neg_spec() -> bool {
        true
    }

    open spec fn neg_req(self) -> bool {
        true
    }

    open spec fn neg_spec(self) -> LpExpression {
        LpExpression::MulExpr(Box::new(LpExpression::LitVal(make(true, 1, 0).unwrap())), Box::new(self))
    }
}

/// Comparisons that build constraints in the form `e op c`.
pub trait LpOperations {
    /// The expression that the value stands for.
    spec fn as_term(&self) -> Term;

    /// The constraint `self <= rhs`, generalized.
    fn le(&self, rhs: &LpExpression) -> (r: LpConstraint)
        requires
            simplify_halts(mk_sub(self.as_term(), rhs@)),
        ensures
            r@ == generalized(self.as_term(), Constraint::LessOrEqual, rhs@),
    ;

    /// The constraint `self >= rhs`, generalized.
    fn ge(&self, rhs: &LpExpression) -> (r: LpConstraint)
        requires
            simplify_halts(mk_sub(self.as_term(), rhs@)),
        ensures
            r@ == generalized(self.as_term(), Constraint::GreaterOrEqual, rhs@),
    ;

    /// The constraint `self = rhs`, generalized.
    fn equal(&self, rhs: &LpExpression) -> (r: LpConstraint)
        requires
            simplify_halts(mk_sub(self.as_term(), rhs@)),
        ensures
            r@ == generalized(self.as_term(), Constraint::Equal, rhs@),
    ;
}

impl LpOperations for LpExpression {
    open spec fn as_term(&self) -> Term {
        self@
    }

    fn le(&self, rhs: &LpExpression) -> (r: LpConstraint) {
        LpConstraint(self.copy(), Constraint::LessOrEqual, rhs.copy()).generalize()
    }

    fn ge(&self, rhs: &LpExpression) -> (r: LpConstraint) {
        LpConstraint(self.copy(), Constraint::GreaterOrEqual, rhs.copy()).generalize()
    }

    fn equal(&self, rhs: &LpExpression) -> (r: LpConstraint) {
        LpConstraint(self.copy(), Constraint::Equal, rhs.copy()).generalize()
    }
}

impl LpOperations for LpBinary {
    open spec fn as_term(&self) -> Term {
        Term::Bin(self@)
    }

    fn le(&self, rhs: &LpExpression) -> (r: LpConstraint) {
        LpConstraint(LpExpression::ConsBin(self.copy()), Constraint::LessOrEqual, rhs.copy()).generalize()
    }

    fn ge(&self, rhs: &LpExpression) -> (r: LpConstraint) {
        LpConstraint(LpExpression::ConsBin(self.copy()), Constraint::GreaterOrEqual, rhs.copy()).generalize()
    }

    fn equal(&self, rhs: &LpExpression) -> (r: LpConstraint) {
        LpConstraint(LpExpression::ConsBin(self.copy()), Constraint::Equal, rhs.copy()).generalize()
    }
}

impl LpOperations for LpInteger {
    open spec fn as_term(&self) -> Term {
        Term::Int(self@)
    }

    fn le(&self, rhs: &LpExpression) -> (r: LpConstraint) {
        LpConstraint(LpExpression::ConsInt(self.copy()), Constraint::LessOrEqual, rhs.copy()).generalize()
    }

    fn ge(&self, rhs: &LpExpression) -> (r: LpConstraint) {
        LpConstraint(LpExpression::ConsInt(self.copy()), Constraint::GreaterOrEqual, rhs.copy()).generalize()
    }

    fn equal(&self, rhs: &LpExpression) -> (r: LpConstraint) {
        LpConstraint(LpExpression::ConsInt(self.copy()), Constraint::Equal, rhs.copy()).generalize()
    }
}

impl LpOperations for LpContinuous {
    open spec fn as_term(&self) -> Term {
        Term::Cont(self@)
    }

    fn le(&self, rhs: &LpExpression) -> (r: LpConstraint) {
        LpConstraint(LpExpression::ConsCont(self.copy()), Constraint::LessOrEqual, rhs.copy()).generalize()
    }

    fn ge(&self, rhs: &LpExpression) -> (r: LpConstraint) {
        LpConstraint(LpExpression::ConsCont(self.copy()), Constraint::GreaterOrEqual, rhs.copy()).generalize()
    }

    fn equal(&self, rhs: &LpExpression) -> (r: LpConstraint) {
        LpConstraint(LpExpression::ConsCont(self.copy()), Constraint::Equal, rhs.copy()).generalize()
    }
}

impl LpOperations for Decimal {
    open spec fn as_term(&self) -> Term {
        Term::Lit(*self)
    }

    fn le(&self, rhs: &LpExpression) -> (r: LpConstraint) {
        LpConstraint(LpExpression::LitVal(*self), Constraint::LessOrEqual, rhs.copy()).generalize()
    }

    fn ge(&self, rhs: &LpExpression) -> (r: LpConstraint) {
        LpConstraint(LpExpression::LitVal(*self), Constraint::GreaterOrEqual, rhs.copy()).generalize()
    }

    fn equal(&self, rhs: &LpExpression) -> (r: LpConstraint) {
        LpConstraint(LpExpression::LitVal(*self), Constraint::Equal, rhs.copy()).generalize()
    }
}

} // verus!
