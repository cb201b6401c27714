//! Algebraic simplification of expressions: distributivity, associativity,
//! literals placed first in products and last in sums, accumulation of
//! literals, and the trivial rules `0 * x = 0`, `x + 0 = x`, `x - 0 = x`.
//!
//! The rewriting does not stop on every expression (`(1 - a) + 2` rewrites to
//! itself forever), so its model is given with a recursion budget: `simp(e, f)`
//! is `None` when the rewriting of `e` needs more than `f` nested steps.

use vstd::prelude::*;

use crate::dsl::variables::{lit_value, LpExpression, Term};
use crate::num::{dec_add, dec_is_zero, dec_mul, dec_sub, make, Decimal};

verus! {

pub open spec fn mk_mul(a: Term, b: Term) -> Term {
    Term::Mul(Box::new(a), Box::new(b))
}

pub open spec fn mk_add(a: Term, b: Term) -> Term {
    Term::Add(Box::new(a), Box::new(b))
}

pub open spec fn mk_sub(a: Term, b: Term) -> Term {
    Term::Sub(Box::new(a), Box::new(b))
}

/// The literal `0`.
pub open spec fn lit_zero() -> Term {
    Term::Lit(Decimal::spec_zero())
}

/// The literal `-1`.
pub open spec fn lit_minus_one() -> Term {
    Term::Lit(make(true, 1, 0).unwrap())
}

pub open spec fn join_mul(a: Option<Term>, b: Option<Term>) -> Option<Term> {
    match (a, b) {
        (Some(x), Some(y)) => Some(mk_mul(x, y)),
        _ => None,
    }
}

pub open spec fn join_add(a: Option<Term>, b: Option<Term>) -> Option<Term> {
    match (a, b) {
        (Some(x), Some(y)) => Some(mk_add(x, y)),
        _ => None,
    }
}

pub open spec fn join_sub(a: Option<Term>, b: Option<Term>) -> Option<Term> {
    match (a, b) {
        (Some(x), Some(y)) => Some(mk_sub(x, y)),
        _ => None,
    }
}

/// Simplification of `e` with at most `fuel` nested steps: one rewriting
/// step, and a second one when the first changed the expression.
pub open spec fn simp(e: Term, fuel: nat) -> Option<Term>
    decreases fuel, 1nat,
{
    if fuel == 0 {
        None
    } else {
        let f = (fuel - 1) as nat;
        match step(e, f) {
            None => None,
            Some(n) => if n == e {
                Some(n)
            } else {
                step(n, f)
            },
        }
    }
}

/// One rewriting step at the root of `e`.
pub open spec fn step(e: Term, f: nat) -> Option<Term>
    decreases f, 3nat,
{
    match e {
        Term::Mul(l, r) => step_mul(*l, *r, f),
        Term::Add(l, r) => step_add(*l, *r, f),
        Term::Sub(l, r) => step_sub(*l, *r, f),
        Term::Empty => Some(lit_zero()),
        _ => Some(e),
    }
}

/// Rewriting of the product `l * r`.
pub open spec fn step_mul(l: Term, r: Term, f: nat) -> Option<Term>
    decreases f, 2nat,
{
    if r is Add {
        // i*(a+b) = i*a+i*b
        simp(mk_add(mk_mul(l, *r->Add_0), mk_mul(l, *r->Add_1)), f)
    } else if l is Add {
        // (a+b)*i = i*a+i*b
        simp(mk_add(mk_mul(r, *l->Add_0), mk_mul(r, *l->Add_1)), f)
    } else if r is Sub {
        // i*(a-b) = i*a-i*b
        simp(mk_sub(mk_mul(l, *r->Sub_0), mk_mul(l, *r->Sub_1)), f)
    } else if l is Lit && r is Mul {
        // c1*(c2*expr) = (c1*c2)*expr
        let x = *r->Mul_0;
        let y = *r->Mul_1;
        if x is Lit && dec_mul(l->Lit_0, x->Lit_0) is Some {
            simp(mk_mul(Term::Lit(dec_mul(l->Lit_0, x->Lit_0).unwrap()), y), f)
        } else {
            Some(mk_mul(mk_mul(l, x), y))
        }
    } else if r is Mul {
        // a*(b*c) = (a*b)*c
        simp(mk_mul(mk_mul(l, *r->Mul_0), *r->Mul_1), f)
    } else if r is Lit && dec_is_zero(r->Lit_0) {
        Some(lit_zero())
    } else if l is Lit && dec_is_zero(l->Lit_0) {
        Some(lit_zero())
    } else if l is Lit && r is Lit && dec_mul(l->Lit_0, r->Lit_0) is Some {
        Some(Term::Lit(dec_mul(l->Lit_0, r->Lit_0).unwrap()))
    } else if r is Lit && !(l is Lit) {
        // literal first in a product
        simp(mk_mul(r, l), f)
    } else {
        join_mul(simp(l, f), simp(r, f))
    }
}

/// Rewriting of the sum `l + r`.
pub open spec fn step_add(l: Term, r: Term, f: nat) -> Option<Term>
    decreases f, 2nat,
{
    if r is Lit && dec_is_zero(r->Lit_0) {
        simp(l, f)
    } else if r is Add {
        // a + (b+c) = (a+b)+c
        simp(mk_add(mk_add(l, *r->Add_0), *r->Add_1), f)
    } else if r is Sub {
        // a + (b-c) = (a+b) - c
        simp(mk_sub(mk_add(l, *r->Sub_0), *r->Sub_1), f)
    } else if l is Lit && r is Lit && dec_add(l->Lit_0, r->Lit_0) is Some {
        Some(Term::Lit(dec_add(l->Lit_0, r->Lit_0).unwrap()))
    } else if l is Lit && !(r is Lit) {
        // literal last in a sum
        match simp(r, f) {
            None => None,
            Some(r2) => simp(mk_add(r2, l), f),
        }
    } else if l is Add && r is Lit {
        // (expr+c1)+c2 = expr+(c1+c2)
        let rc1 = *l->Add_1;
        if rc1 is Lit && dec_add(rc1->Lit_0, r->Lit_0) is Some {
            simp(mk_add(*l->Add_0, Term::Lit(dec_add(rc1->Lit_0, r->Lit_0).unwrap())), f)
        } else {
            join_add(simp(l, f), simp(r, f))
        }
    } else if l is Sub && r is Lit {
        let a = *l->Sub_0;
        let b = *l->Sub_1;
        if b is Lit {
            // (expr-c1)+c2 = expr+(c2-c1)
            if dec_sub(r->Lit_0, b->Lit_0) is Some {
                simp(mk_add(a, Term::Lit(dec_sub(r->Lit_0, b->Lit_0).unwrap())), f)
            } else {
                join_add(simp(l, f), simp(r, f))
            }
        } else if a is Lit {
            // (c1-expr)+c2 = -expr+(c1+c2)
            if dec_add(a->Lit_0, r->Lit_0) is Some {
                simp(mk_add(mk_sub(lit_zero(), b), Term::Lit(dec_add(a->Lit_0, r->Lit_0).unwrap())), f)
            } else {
                join_add(simp(l, f), simp(r, f))
            }
        } else {
            join_add(simp(l, f), simp(r, f))
        }
    } else if l is Add {
        // (expr1+c)+expr2 = (expr1+expr2)+c
        let rc = *l->Add_1;
        if rc is Lit {
            simp(mk_add(mk_add(*l->Add_0, r), rc), f)
        } else {
            join_add(simp(l, f), simp(r, f))
        }
    } else if l is Sub {
        // (expr1-c)+expr2 = (expr1+expr2)-c
        let rc = *l->Sub_1;
        if rc is Lit {
            simp(mk_sub(mk_add(*l->Sub_0, r), rc), f)
        } else {
            join_add(simp(l, f), simp(r, f))
        }
    } else {
        join_add(simp(l, f), simp(r, f))
    }
}

/// Rewriting of the difference `l - r`.
pub open spec fn step_sub(l: Term, r: Term, f: nat) -> Option<Term>
    decreases f, 2nat,
{
    if r is Lit && dec_is_zero(r->Lit_0) {
        simp(l, f)
    } else if r is Add {
        // a - (b + c) = (a-b)-c
        simp(mk_sub(mk_sub(l, *r->Add_0), *r->Add_1), f)
    } else if r is Sub {
        // a - (b - c) = (a-b)+c
        simp(mk_add(mk_sub(l, *r->Sub_0), *r->Sub_1), f)
    } else if l is Lit {
        // c - expr = -expr + c
        simp(mk_add(mk_mul(lit_minus_one(), r), l), f)
    } else if l is Sub && r is Lit {
        let a = *l->Sub_0;
        let b = *l->Sub_1;
        if b is Lit {
            // (expr-c1)-c2 = expr-(c1+c2)
            if dec_add(b->Lit_0, r->Lit_0) is Some {
                simp(mk_sub(a, Term::Lit(dec_add(b->Lit_0, r->Lit_0).unwrap())), f)
            } else {
                join_sub(simp(l, f), simp(r, f))
            }
        } else if a is Lit {
            // (c1-expr)-c2 = -expr+(c1-c2)
            if dec_sub(a->Lit_0, r->Lit_0) is Some {
                simp(mk_add(mk_sub(lit_zero(), b), Term::Lit(dec_sub(a->Lit_0, r->Lit_0).unwrap())), f)
            } else {
                join_sub(simp(l, f), simp(r, f))
            }
        } else {
            join_sub(simp(l, f), simp(r, f))
        }
    } else if l is Add && r is Lit {
        // (expr+c1)-c2 = expr+(c1-c2)
        let rc1 = *l->Add_1;
        if rc1 is Lit && dec_sub(rc1->Lit_0, r->Lit_0) is Some {
            simp(mk_add(*l->Add_0, Term::Lit(dec_sub(rc1->Lit_0, r->Lit_0).unwrap())), f)
        } else {
            join_sub(simp(l, f), simp(r, f))
        }
    } else if l is Add {
        // (expr1+c)-expr2 = (expr1-expr2)+c
        let rc = *l->Add_1;
        if rc is Lit {
            simp(mk_add(mk_sub(*l->Add_0, r), rc), f)
        } else {
            join_sub(simp(l, f), simp(r, f))
        }
    } else if l is Sub {
        // (expr1-c)-expr2 = (expr1-expr2)-c
        let rc = *l->Sub_1;
        if rc is Lit {
            simp(mk_sub(mk_sub(*l->Sub_0, r), rc), f)
        } else {
            join_sub(simp(l, f), simp(r, f))
        }
    } else {
        join_sub(simp(l, f), simp(r, f))
    }
}

} // verus!

verus! {

/// Model of an optional expression.
pub open spec fn opt_term(o: Option<LpExpression>) -> Option<Term> {
    match o {
        Some(e) => Some(e@),
        None => None,
    }
}

fn mul_of(a: LpExpression, b: LpExpression) -> (r: LpExpression)
    ensures
        r@ == mk_mul(a@, b@),
{
    LpExpression::MulExpr(Box::new(a), Box::new(b))
}

fn add_of(a: LpExpression, b: LpExpression) -> (r: LpExpression)
    ensures
        r@ == mk_add(a@, b@),
{
    LpExpression::AddExpr(Box::new(a), Box::new(b))
}

fn sub_of(a: LpExpression, b: LpExpression) -> (r: LpExpression)
    ensures
        r@ == mk_sub(a@, b@),
{
    LpExpression::SubExpr(Box::new(a), Box::new(b))
}

fn zero_lit() -> (r: LpExpression)
    ensures
        r@ == lit_zero(),
{
    LpExpression::LitVal(Decimal::zero())
}

fn join_mul_exec(a: Option<LpExpression>, b: Option<LpExpression>) -> (r: Option<LpExpression>)
    ensures
        opt_term(r) == join_mul(opt_term(a), opt_term(b)),
{
    match (a, b) {
        (Some(x), Some(y)) => Some(mul_of(x, y)),
        _ => None,
    }
}

fn join_add_exec(a: Option<LpExpression>, b: Option<LpExpression>) -> (r: Option<LpExpression>)
    ensures
        opt_term(r) == join_add(opt_term(a), opt_term(b)),
{
    match (a, b) {
        (Some(x), Some(y)) => Some(add_of(x, y)),
        _ => None,
    }
}

fn join_sub_exec(a: Option<LpExpression>, b: Option<LpExpression>) -> (r: Option<LpExpression>)
    ensures
        opt_term(r) == join_sub(opt_term(a), opt_term(b)),
{
    match (a, b) {
        (Some(x), Some(y)) => Some(sub_of(x, y)),
        _ => None,
    }
}

/// Simplification with a recursion budget; see `simp`.
pub fn simp_exec(e: &LpExpression, fuel: u64) -> (r: Option<LpExpression>)
    ensures
        opt_term(r) == simp(e@, fuel as nat),
    decreases fuel, 1nat,
{
    if fuel == 0 {
        return None;
    }
    let f = fuel - 1;
    match step_exec(e, f) {
        None => None,
        Some(n) => if n.same_as(e) {
            Some(n)
        } else {
            step_exec(&n, f)
        },
    }
}

fn step_exec(e: &LpExpression, f: u64) -> (r: Option<LpExpression>)
    ensures
        opt_term(r) == step(e@, f as nat),
    decreases f, 3nat,
{
    match e {
        LpExpression::MulExpr(l, r) => step_mul_exec(&**l, &**r, f),
        LpExpression::AddExpr(l, r) => step_add_exec(&**l, &**r, f),
        LpExpression::SubExpr(l, r) => step_sub_exec(&**l, &**r, f),
        LpExpression::EmptyExpr => Some(zero_lit()),
        _ => Some(e.copy()),
    }
}

fn step_mul_exec(l: &LpExpression, r: &LpExpression, f: u64) -> (res: Option<LpExpression>)
    ensures
        opt_term(res) == step_mul(l@, r@, f as nat),
    decreases f, 2nat,
{
    if let LpExpression::AddExpr(a, b) = r {
        let e = add_of(mul_of(l.copy(), (**a).copy()), mul_of(l.copy(), (**b).copy()));
        return simp_exec(&e, f);
    }
    if let LpExpression::AddExpr(a, b) = l {
        let e = add_of(mul_of(r.copy(), (**a).copy()), mul_of(r.copy(), (**b).copy()));
        return simp_exec(&e, f);
    }
    if let LpExpression::SubExpr(a, b) = r {
        let e = sub_of(mul_of(l.copy(), (**a).copy()), mul_of(l.copy(), (**b).copy()));
        return simp_exec(&e, f);
    }
    let lc = lit_value(l);
    let rc = lit_value(r);
    if let LpExpression::MulExpr(x, y) = r {
        if let Some(c1) = lc {
            if let Some(c2) = lit_value(&**x) {
                if let Some(p) = c1.checked_mul(&c2) {
                    let e = mul_of(LpExpression::LitVal(p), (**y).copy());
                    return simp_exec(&e, f);
                }
            }
            return Some(mul_of(mul_of(l.copy(), (**x).copy()), (**y).copy()));
        }
        let e = mul_of(mul_of(l.copy(), (**x).copy()), (**y).copy());
        return simp_exec(&e, f);
    }
    if let Some(v) = rc {
        if v.is_zero() {
            return Some(zero_lit());
        }
    }
    if let Some(v) = lc {
        if v.is_zero() {
            return Some(zero_lit());
        }
    }
    if let (Some(c1), Some(c2)) = (lc, rc) {
        if let Some(p) = c1.checked_mul(&c2) {
            return Some(LpExpression::LitVal(p));
        }
    }
    if rc.is_some() && lc.is_none() {
        let e = mul_of(r.copy(), l.copy());
        return simp_exec(&e, f);
    }
    join_mul_exec(simp_exec(l, f), simp_exec(r, f))
}

fn step_add_exec(l: &LpExpression, r: &LpExpression, f: u64) -> (res: Option<LpExpression>)
    ensures
        opt_term(res) == step_add(l@, r@, f as nat),
    decreases f, 2nat,
{
    let lc = lit_value(l);
    let rc = lit_value(r);
    if let Some(v) = rc {
        if v.is_zero() {
            return simp_exec(l, f);
        }
    }
    if let LpExpression::AddExpr(b, c) = r {
        let e = add_of(add_of(l.copy(), (**b).copy()), (**c).copy());
        return simp_exec(&e, f);
    }
    if let LpExpression::SubExpr(b, c) = r {
        let e = sub_of(add_of(l.copy(), (**b).copy()), (**c).copy());
        return simp_exec(&e, f);
    }
    if let (Some(c1), Some(c2)) = (lc, rc) {
        if let Some(s) = c1.checked_add(&c2) {
            return Some(LpExpression::LitVal(s));
        }
    }
    if lc.is_some() && rc.is_none() {
        return match simp_exec(r, f) {
            None => None,
            Some(r2) => {
                let e = add_of(r2, l.copy());
                simp_exec(&e, f)
            },
        };
    }
    if let Some(c2) = rc {
        if let LpExpression::AddExpr(ex, rc1) = l {
            if let Some(c1) = lit_value(&**rc1) {
                if let Some(s) = c1.checked_add(&c2) {
                    let e = add_of((**ex).copy(), LpExpression::LitVal(s));
                    return simp_exec(&e, f);
                }
            }
            return join_add_exec(simp_exec(l, f), simp_exec(r, f));
        }
        if let LpExpression::SubExpr(a, b) = l {
            if let Some(c1) = lit_value(&**b) {
                if let Some(d) = c2.checked_sub(&c1) {
                    let e = add_of((**a).copy(), LpExpression::LitVal(d));
                    return simp_exec(&e, f);
                }
                return join_add_exec(simp_exec(l, f), simp_exec(r, f));
            }
            if let Some(c1) = lit_value(&**a) {
                if let Some(s) = c1.checked_add(&c2) {
                    let e = add_of(sub_of(zero_lit(), (**b).copy()), LpExpression::LitVal(s));
                    return simp_exec(&e, f);
                }
            }
            return join_add_exec(simp_exec(l, f), simp_exec(r, f));
        }
    }
    if let LpExpression::AddExpr(e1, rcx) = l {
        if lit_value(&**rcx).is_some() {
            let e = add_of(add_of((**e1).copy(), r.copy()), (**rcx).copy());
            return simp_exec(&e, f);
        }
        return join_add_exec(simp_exec(l, f), simp_exec(r, f));
    }
    if let LpExpression::SubExpr(e1, rcx) = l {
        if lit_value(&**rcx).is_some() {
            let e = sub_of(add_of((**e1).copy(), r.copy()), (**rcx).copy());
            return simp_exec(&e, f);
        }
        return join_add_exec(simp_exec(l, f), simp_exec(r, f));
    }
    join_add_exec(simp_exec(l, f), simp_exec(r, f))
}

fn step_sub_exec(l: &LpExpression, r: &LpExpression, f: u64) -> (res: Option<LpExpression>)
    ensures
        opt_term(res) == step_sub(l@, r@, f as nat),
    decreases f, 2nat,
{
    let lc = lit_value(l);
    let rc = lit_value(r);
    if let Some(v) = rc {
        if v.is_zero() {
            return simp_exec(l, f);
        }
    }
    if let LpExpression::AddExpr(b, c) = r {
        let e = sub_of(sub_of(l.copy(), (**b).copy()), (**c).copy());
        return simp_exec(&e, f);
    }
    if let LpExpression::SubExpr(b, c) = r {
        let e = add_of(sub_of(l.copy(), (**b).copy()), (**c).copy());
        return simp_exec(&e, f);
    }
    if lc.is_some() {
        let m1 = Decimal::from_i32(-1);
        proof {
            assert(make(true, 1, 0).unwrap() == m1);
        }
        let e = add_of(mul_of(LpExpression::LitVal(m1), r.copy()), l.copy());
        return simp_exec(&e, f);
    }
    if let Some(c2) = rc {
        if let LpExpression::SubExpr(a, b) = l {
            if let Some(c1) = lit_value(&**b) {
                if let Some(s) = c1.checked_add(&c2) {
                    let e = sub_of((**a).copy(), LpExpression::LitVal(s));
                    return simp_exec(&e, f);
                }
                return join_sub_exec(simp_exec(l, f), simp_exec(r, f));
            }
            if let Some(c1) = lit_value(&**a) {
                if let Some(d) = c1.checked_sub(&c2) {
                    let e = add_of(sub_of(zero_lit(), (**b).copy()), LpExpression::LitVal(d));
                    return simp_exec(&e, f);
                }
            }
            return join_sub_exec(simp_exec(l, f), simp_exec(r, f));
        }
        if let LpExpression::AddExpr(ex, rc1) = l {
            if let Some(c1) = lit_value(&**rc1) {
                if let Some(d) = c1.checked_sub(&c2) {
                    let e = add_of((**ex).copy(), LpExpression::LitVal(d));
                    return simp_exec(&e, f);
                }
            }
            return join_sub_exec(simp_exec(l, f), simp_exec(r, f));
        }
    }
    if let LpExpression::AddExpr(e1, rcx) = l {
        if lit_value(&**rcx).is_some() {
            let e = add_of(sub_of((**e1).copy(), r.copy()), (**rcx).copy());
            return simp_exec(&e, f);
        }
        return join_sub_exec(simp_exec(l, f), simp_exec(r, f));
    }
    if let LpExpression::SubExpr(e1, rcx) = l {
        if lit_value(&**rcx).is_some() {
            let e = sub_of(sub_of((**e1).copy(), r.copy()), (**rcx).copy());
            return simp_exec(&e, f);
        }
        return join_sub_exec(simp_exec(l, f), simp_exec(r, f));
    }
    join_sub_exec(simp_exec(l, f), simp_exec(r, f))
}

} // verus!

verus! {

/// Recursion budget of `simplify`.
pub open spec fn simplify_budget() -> nat {
    u64::MAX as nat
}

/// The simplification of `e` stops within the budget.
#[verifier::opaque]
pub open spec fn simplify_halts(e: Term) -> bool {
    simp(e, simplify_budget()) is Some
}

/// The simplification of `e`, where it stops.
#[verifier::opaque]
pub open spec fn simplified(e: Term) -> Term {
    simp(e, simplify_budget()).unwrap()
}

/// Simplifies an expression; see the module documentation for the rules.
pub fn simplify(expr: &LpExpression) -> (r: LpExpression)
    requires
        simplify_halts(expr@),
    ensures
        r@ == simplified(expr@),
{
    proof {
        reveal(simplify_halts);
        reveal(simplified);
    }
    let r = simp_exec(expr, u64::MAX);
    r.unwrap()
}

/// Simplifies an expression, or `None` where the rewriting does not stop
/// within the budget.
pub fn try_simplify(expr: &LpExpression) -> (r: Option<LpExpression>)
    ensures
        r is Some <==> simplify_halts(expr@),
        r matches Some(s) ==> s@ == simplified(expr@),
{
    proof {
        reveal(simplify_halts);
        reveal(simplified);
    }
    simp_exec(expr, u64::MAX)
}

} // verus!
