//! The value of an expression when each variable takes a real value, and
//! the laws that simplification and generalization keep it.
//!
//! Simplification drops a literal whose magnitude is below `0.00001` as if
//! it were zero (see `util::is_zero`). The value is kept exactly when every
//! literal so dropped is zero; `exact_simp` states that of the rewriting
//! that `simp` performs.

use vstd::prelude::*;

use crate::dsl::simplify::{
    join_add, join_mul, join_sub, lit_minus_one, lit_zero, mk_add, mk_mul, mk_sub, simp, simplified,
    simplify_budget, simplify_halts, step, step_add, step_mul, step_sub,
};
use crate::dsl::problem::added_objective;
use crate::format::lp_format::{settled, show_paren};
use crate::dsl::variables::{generalized, split_constant, sum_terms, Constraint, Term};
use crate::num::{
    dec_add, dec_is_zero, dec_mul, dec_neg, dec_sub, lemma_add_real, lemma_mul_real, lemma_neg_real,
    lemma_small_reals, lemma_sub_real, real_value, Decimal,
};

verus! {

/// The value of an expression when each variable takes the value `env`
/// gives its name; the empty expression is zero.
pub open spec fn value(t: Term, env: spec_fn(Seq<char>) -> real) -> real
    decreases t,
{
    match t {
        Term::Int(v) => env(v.name),
        Term::Bin(n) => env(n),
        Term::Cont(v) => env(v.name),
        Term::Mul(a, b) => value(*a, env) * value(*b, env),
        Term::Add(a, b) => value(*a, env) + value(*b, env),
        Term::Sub(a, b) => value(*a, env) - value(*b, env),
        Term::Lit(c) => real_value(c),
        Term::Empty => 0real,
    }
}

/// A literal that simplification takes for zero is zero.
pub open spec fn dropped_exactly(c: Decimal) -> bool {
    dec_is_zero(c) ==> real_value(c) == 0real
}

/// Every literal that `simp(e, fuel)` drops as zero is zero.
pub open spec fn exact_simp(e: Term, fuel: nat) -> bool
    decreases fuel, 1nat,
{
    if fuel == 0 {
        true
    } else {
        let f = (fuel - 1) as nat;
        exact_step(e, f) && match step(e, f) {
            Some(n) => n != e ==> exact_step(n, f),
            None => true,
        }
    }
}

/// Every literal that `step(e, f)` drops as zero is zero.
pub open spec fn exact_step(e: Term, f: nat) -> bool
    decreases f, 3nat,
{
    match e {
        Term::Mul(l, r) => exact_mul(*l, *r, f),
        Term::Add(l, r) => exact_add(*l, *r, f),
        Term::Sub(l, r) => exact_sub(*l, *r, f),
        _ => true,
    }
}

/// Every literal that `step_mul(l, r, f)` drops as zero is zero.
pub open spec fn exact_mul(l: Term, r: Term, f: nat) -> bool
    decreases f, 2nat,
{
    if r is Add {
        exact_simp(mk_add(mk_mul(l, *r->Add_0), mk_mul(l, *r->Add_1)), f)
    } else if l is Add {
        exact_simp(mk_add(mk_mul(r, *l->Add_0), mk_mul(r, *l->Add_1)), f)
    } else if r is Sub {
        exact_simp(mk_sub(mk_mul(l, *r->Sub_0), mk_mul(l, *r->Sub_1)), f)
    } else if l is Lit && r is Mul {
        let x = *r->Mul_0;
        let y = *r->Mul_1;
        if x is Lit && dec_mul(l->Lit_0, x->Lit_0) is Some {
            exact_simp(mk_mul(Term::Lit(dec_mul(l->Lit_0, x->Lit_0).unwrap()), y), f)
        } else {
            true
        }
    } else if r is Mul {
        exact_simp(mk_mul(mk_mul(l, *r->Mul_0), *r->Mul_1), f)
    } else if r is Lit && dec_is_zero(r->Lit_0) {
        dropped_exactly(r->Lit_0)
    } else if l is Lit && dec_is_zero(l->Lit_0) {
        dropped_exactly(l->Lit_0)
    } else if l is Lit && r is Lit && dec_mul(l->Lit_0, r->Lit_0) is Some {
        true
    } else if r is Lit && !(l is Lit) {
        exact_simp(mk_mul(r, l), f)
    } else {
        exact_simp(l, f) && exact_simp(r, f)
    }
}

/// Every literal that `step_add(l, r, f)` drops as zero is zero.
pub open spec fn exact_add(l: Term, r: Term, f: nat) -> bool
    decreases f, 2nat,
{
    if r is Lit && dec_is_zero(r->Lit_0) {
        dropped_exactly(r->Lit_0) && exact_simp(l, f)
    } else if r is Add {
        exact_simp(mk_add(mk_add(l, *r->Add_0), *r->Add_1), f)
    } else if r is Sub {
        exact_simp(mk_sub(mk_add(l, *r->Sub_0), *r->Sub_1), f)
    } else if l is Lit && r is Lit && dec_add(l->Lit_0, r->Lit_0) is Some {
        true
    } else if l is Lit && !(r is Lit) {
        exact_simp(r, f) && match simp(r, f) {
            None => true,
            Some(r2) => exact_simp(mk_add(r2, l), f),
        }
    } else if l is Add && r is Lit {
        let rc1 = *l->Add_1;
        if rc1 is Lit && dec_add(rc1->Lit_0, r->Lit_0) is Some {
            exact_simp(mk_add(*l->Add_0, Term::Lit(dec_add(rc1->Lit_0, r->Lit_0).unwrap())), f)
        } else {
            exact_simp(l, f) && exact_simp(r, f)
        }
    } else if l is Sub && r is Lit {
        let a = *l->Sub_0;
        let b = *l->Sub_1;
        if b is Lit {
            if dec_sub(r->Lit_0, b->Lit_0) is Some {
                exact_simp(mk_add(a, Term::Lit(dec_sub(r->Lit_0, b->Lit_0).unwrap())), f)
            } else {
                exact_simp(l, f) && exact_simp(r, f)
            }
        } else if a is Lit {
            if dec_add(a->Lit_0, r->Lit_0) is Some {
                exact_simp(mk_add(mk_sub(lit_zero(), b), Term::Lit(dec_add(a->Lit_0, r->Lit_0).unwrap())), f)
            } else {
                exact_simp(l, f) && exact_simp(r, f)
            }
        } else {
            exact_simp(l, f) && exact_simp(r, f)
        }
    } else if l is Add {
        let rc = *l->Add_1;
        if rc is Lit {
            exact_simp(mk_add(mk_add(*l->Add_0, r), rc), f)
        } else {
            exact_simp(l, f) && exact_simp(r, f)
        }
    } else if l is Sub {
        let rc = *l->Sub_1;
        if rc is Lit {
            exact_simp(mk_sub(mk_add(*l->Sub_0, r), rc), f)
        } else {
            exact_simp(l, f) && exact_simp(r, f)
        }
    } else {
        exact_simp(l, f) && exact_simp(r, f)
    }
}

/// Every literal that `step_sub(l, r, f)` drops as zero is zero.
pub open spec fn exact_sub(l: Term, r: Term, f: nat) -> bool
    decreases f, 2nat,
{
    if r is Lit && dec_is_zero(r->Lit_0) {
        dropped_exactly(r->Lit_0) && exact_simp(l, f)
    } else if r is Add {
        exact_simp(mk_sub(mk_sub(l, *r->Add_0), *r->Add_1), f)
    } else if r is Sub {
        exact_simp(mk_add(mk_sub(l, *r->Sub_0), *r->Sub_1), f)
    } else if l is Lit {
        exact_simp(mk_add(mk_mul(lit_minus_one(), r), l), f)
    } else if l is Sub && r is Lit {
        let a = *l->Sub_0;
        let b = *l->Sub_1;
        if b is Lit {
            if dec_add(b->Lit_0, r->Lit_0) is Some {
                exact_simp(mk_sub(a, Term::Lit(dec_add(b->Lit_0, r->Lit_0).unwrap())), f)
            } else {
                exact_simp(l, f) && exact_simp(r, f)
            }
        } else if a is Lit {
            if dec_sub(a->Lit_0, r->Lit_0) is Some {
                exact_simp(mk_add(mk_sub(lit_zero(), b), Term::Lit(dec_sub(a->Lit_0, r->Lit_0).unwrap())), f)
            } else {
                exact_simp(l, f) && exact_simp(r, f)
            }
        } else {
            exact_simp(l, f) && exact_simp(r, f)
        }
    } else if l is Add && r is Lit {
        let rc1 = *l->Add_1;
        if rc1 is Lit && dec_sub(rc1->Lit_0, r->Lit_0) is Some {
            exact_simp(mk_add(*l->Add_0, Term::Lit(dec_sub(rc1->Lit_0, r->Lit_0).unwrap())), f)
        } else {
            exact_simp(l, f) && exact_simp(r, f)
        }
    } else if l is Add {
        let rc = *l->Add_1;
        if rc is Lit {
            exact_simp(mk_add(mk_sub(*l->Add_0, r), rc), f)
        } else {
            exact_simp(l, f) && exact_simp(r, f)
        }
    } else if l is Sub {
        let rc = *l->Sub_1;
        if rc is Lit {
            exact_simp(mk_sub(mk_sub(*l->Sub_0, r), rc), f)
        } else {
            exact_simp(l, f) && exact_simp(r, f)
        }
    } else {
        exact_simp(l, f) && exact_simp(r, f)
    }
}

/// Every literal that the simplification of `e` drops as zero is zero.
#[verifier::opaque]
pub open spec fn simplify_exact(e: Term) -> bool {
    exact_simp(e, simplify_budget())
}

proof fn lemma_distr(x: real, y: real, z: real)
    ensures
        x * (y + z) == x * y + x * z,
        (y + z) * x == x * y + x * z,
        x * (y - z) == x * y - x * z,
{
    assert(x * (y + z) == x * y + x * z) by (nonlinear_arith);
    assert((y + z) * x == x * y + x * z) by (nonlinear_arith);
    assert(x * (y - z) == x * y - x * z) by (nonlinear_arith);
}

proof fn lemma_assoc(x: real, y: real, z: real)
    ensures
        x * (y * z) == (x * y) * z,
        x * y == y * x,
{
    assert(x * (y * z) == (x * y) * z) by (nonlinear_arith);
    assert(x * y == y * x) by (nonlinear_arith);
}

proof fn lemma_lit_zero()
    ensures
        forall|env: spec_fn(Seq<char>) -> real| #[trigger] value(lit_zero(), env) == 0real,
{
    lemma_small_reals();
}

proof fn lemma_lit_minus_one()
    ensures
        forall|env: spec_fn(Seq<char>) -> real| #[trigger] value(lit_minus_one(), env) == -1real,
{
    lemma_small_reals();
}

/// Simplification with any budget keeps the value when every literal it
/// drops is zero.
pub proof fn lemma_simp_value(e: Term, f: nat, env: spec_fn(Seq<char>) -> real)
    requires
        exact_simp(e, f),
        simp(e, f) is Some,
    ensures
        value(simp(e, f)->0, env) == value(e, env),
    decreases f, 0nat,
{
    let g = (f - 1) as nat;
    lemma_step_value(e, g, env);
    let n = step(e, g)->0;
    if n != e {
        lemma_step_value(n, g, env);
    }
}

proof fn lemma_step_value(e: Term, f: nat, env: spec_fn(Seq<char>) -> real)
    requires
        exact_step(e, f),
        step(e, f) is Some,
    ensures
        value(step(e, f)->0, env) == value(e, env),
    decreases f, 4nat,
{
    match e {
        Term::Mul(l, r) => lemma_step_mul_value(*l, *r, f, env),
        Term::Add(l, r) => lemma_step_add_value(*l, *r, f, env),
        Term::Sub(l, r) => lemma_step_sub_value(*l, *r, f, env),
        Term::Empty => lemma_lit_zero(),
        _ => {},
    }
}

proof fn lemma_step_mul_value(l: Term, r: Term, f: nat, env: spec_fn(Seq<char>) -> real)
    requires
        exact_mul(l, r, f),
        step_mul(l, r, f) is Some,
    ensures
        value(step_mul(l, r, f)->0, env) == value(l, env) * value(r, env),
    decreases f, 3nat,
{
    if r is Add {
        mul_distribute_right(l, r, f, env);
    } else if l is Add {
        mul_distribute_left(l, r, f, env);
    } else if r is Sub {
        mul_distribute_sub(l, r, f, env);
    } else if l is Lit && r is Mul {
        mul_lit_fold(l, r, f, env);
    } else if r is Mul {
        mul_assoc(l, r, f, env);
    } else {
        mul_rest(l, r, f, env);
    }
}

proof fn mul_distribute_right(l: Term, r: Term, f: nat, env: spec_fn(Seq<char>) -> real)
    requires
        exact_mul(l, r, f),
        step_mul(l, r, f) is Some,
        r is Add,
    ensures
        value(step_mul(l, r, f)->0, env) == value(l, env) * value(r, env),
    decreases f, 2nat,
{
    let a = *r->Add_0;
    let b = *r->Add_1;
    let x = mk_add(mk_mul(l, a), mk_mul(l, b));
    assert(step_mul(l, r, f) == simp(x, f));
    assert(exact_mul(l, r, f) == exact_simp(x, f));
    assert(value(mk_mul(l, a), env) == value(l, env) * value(a, env));
    assert(value(mk_mul(l, b), env) == value(l, env) * value(b, env));
    assert(value(x, env) == value(mk_mul(l, a), env) + value(mk_mul(l, b), env));
    assert(value(r, env) == value(a, env) + value(b, env));
    lemma_distr(value(l, env), value(a, env), value(b, env));
    lemma_simp_value(x, f, env);
}

proof fn mul_distribute_left(l: Term, r: Term, f: nat, env: spec_fn(Seq<char>) -> real)
    requires
        exact_mul(l, r, f),
        step_mul(l, r, f) is Some,
        !(r is Add),
        l is Add,
    ensures
        value(step_mul(l, r, f)->0, env) == value(l, env) * value(r, env),
    decreases f, 2nat,
{
    let a = *l->Add_0;
    let b = *l->Add_1;
    let x = mk_add(mk_mul(r, a), mk_mul(r, b));
    assert(step_mul(l, r, f) == simp(x, f));
    assert(exact_mul(l, r, f) == exact_simp(x, f));
    assert(value(mk_mul(r, a), env) == value(r, env) * value(a, env));
    assert(value(mk_mul(r, b), env) == value(r, env) * value(b, env));
    assert(value(x, env) == value(mk_mul(r, a), env) + value(mk_mul(r, b), env));
    assert(value(l, env) == value(a, env) + value(b, env));
    lemma_distr(value(r, env), value(a, env), value(b, env));
    lemma_simp_value(x, f, env);
}

proof fn mul_distribute_sub(l: Term, r: Term, f: nat, env: spec_fn(Seq<char>) -> real)
    requires
        exact_mul(l, r, f),
        step_mul(l, r, f) is Some,
        !(r is Add),
        !(l is Add),
        r is Sub,
    ensures
        value(step_mul(l, r, f)->0, env) == value(l, env) * value(r, env),
    decreases f, 2nat,
{
    let a = *r->Sub_0;
    let b = *r->Sub_1;
    let x = mk_sub(mk_mul(l, a), mk_mul(l, b));
    assert(step_mul(l, r, f) == simp(x, f));
    assert(exact_mul(l, r, f) == exact_simp(x, f));
    assert(value(mk_mul(l, a), env) == value(l, env) * value(a, env));
    assert(value(mk_mul(l, b), env) == value(l, env) * value(b, env));
    assert(value(x, env) == value(mk_mul(l, a), env) - value(mk_mul(l, b), env));
    assert(value(r, env) == value(a, env) - value(b, env));
    lemma_distr(value(l, env), value(a, env), value(b, env));
    lemma_simp_value(x, f, env);
}

proof fn mul_lit_fold(l: Term, r: Term, f: nat, env: spec_fn(Seq<char>) -> real)
    requires
        exact_mul(l, r, f),
        step_mul(l, r, f) is Some,
        !(r is Add),
        !(l is Add),
        !(r is Sub),
        l is Lit,
        r is Mul,
    ensures
        value(step_mul(l, r, f)->0, env) == value(l, env) * value(r, env),
    decreases f, 2nat,
{
    let x = *r->Mul_0;
    let y = *r->Mul_1;
    assert(value(r, env) == value(x, env) * value(y, env));
    lemma_assoc(value(l, env), value(x, env), value(y, env));
    if x is Lit && dec_mul(l->Lit_0, x->Lit_0) is Some {
        let c = dec_mul(l->Lit_0, x->Lit_0)->0;
        let p = Term::Lit(c);
        assert(step_mul(l, r, f) == simp(mk_mul(p, y), f));
        assert(exact_mul(l, r, f) == exact_simp(mk_mul(p, y), f));
        lemma_mul_real(l->Lit_0, x->Lit_0);
        assert(value(p, env) == value(l, env) * value(x, env));
        assert(value(mk_mul(p, y), env) == value(p, env) * value(y, env));
        lemma_simp_value(mk_mul(p, y), f, env);
    } else {
        let z = mk_mul(mk_mul(l, x), y);
        assert(step_mul(l, r, f) == Some(z));
        assert(value(mk_mul(l, x), env) == value(l, env) * value(x, env));
        assert(value(z, env) == value(mk_mul(l, x), env) * value(y, env));
    }
}

proof fn mul_assoc(l: Term, r: Term, f: nat, env: spec_fn(Seq<char>) -> real)
    requires
        exact_mul(l, r, f),
        step_mul(l, r, f) is Some,
        !(r is Add),
        !(l is Add),
        !(r is Sub),
        !(l is Lit && r is Mul),
        r is Mul,
    ensures
        value(step_mul(l, r, f)->0, env) == value(l, env) * value(r, env),
    decreases f, 2nat,
{
    let x = *r->Mul_0;
    let y = *r->Mul_1;
    let z = mk_mul(mk_mul(l, x), y);
    assert(step_mul(l, r, f) == simp(z, f));
    assert(exact_mul(l, r, f) == exact_simp(z, f));
    assert(value(r, env) == value(x, env) * value(y, env));
    assert(value(mk_mul(l, x), env) == value(l, env) * value(x, env));
    assert(value(z, env) == value(mk_mul(l, x), env) * value(y, env));
    lemma_assoc(value(l, env), value(x, env), value(y, env));
    lemma_simp_value(z, f, env);
}

proof fn mul_rest(l: Term, r: Term, f: nat, env: spec_fn(Seq<char>) -> real)
    requires
        exact_mul(l, r, f),
        step_mul(l, r, f) is Some,
        !(r is Add),
        !(l is Add),
        !(r is Sub),
        !(r is Mul),
    ensures
        value(step_mul(l, r, f)->0, env) == value(l, env) * value(r, env),
    decreases f, 2nat,
{
    let vl = value(l, env);
    let vr = value(r, env);
    if r is Lit && dec_is_zero(r->Lit_0) {
        assert(step_mul(l, r, f) == Some(lit_zero()));
        lemma_lit_zero();
        assert(vr == 0real);
        assert(vl * vr == 0real) by (nonlinear_arith)
            requires
                vr == 0real,
        ;
    } else if l is Lit && dec_is_zero(l->Lit_0) {
        assert(step_mul(l, r, f) == Some(lit_zero()));
        lemma_lit_zero();
        assert(vl == 0real);
        assert(vl * vr == 0real) by (nonlinear_arith)
            requires
                vl == 0real,
        ;
    } else if l is Lit && r is Lit && dec_mul(l->Lit_0, r->Lit_0) is Some {
        assert(step_mul(l, r, f) == Some(Term::Lit(dec_mul(l->Lit_0, r->Lit_0)->0)));
        lemma_mul_real(l->Lit_0, r->Lit_0);
    } else if r is Lit && !(l is Lit) {
        assert(step_mul(l, r, f) == simp(mk_mul(r, l), f));
        assert(exact_mul(l, r, f) == exact_simp(mk_mul(r, l), f));
        lemma_assoc(vl, vr, 0real);
        assert(value(mk_mul(r, l), env) == vr * vl);
        lemma_simp_value(mk_mul(r, l), f, env);
    } else {
        assert(step_mul(l, r, f) == join_mul(simp(l, f), simp(r, f)));
        assert(exact_mul(l, r, f) == (exact_simp(l, f) && exact_simp(r, f)));
        lemma_simp_value(l, f, env);
        lemma_simp_value(r, f, env);
        let l2 = simp(l, f)->0;
        let r2 = simp(r, f)->0;
        assert(value(mk_mul(l2, r2), env) == value(l2, env) * value(r2, env));
    }
}

proof fn lemma_step_add_value(l: Term, r: Term, f: nat, env: spec_fn(Seq<char>) -> real)
    requires
        exact_add(l, r, f),
        step_add(l, r, f) is Some,
    ensures
        value(step_add(l, r, f)->0, env) == value(l, env) + value(r, env),
    decreases f, 3nat,
{
    if r is Lit && dec_is_zero(r->Lit_0) {
        add_zero(l, r, f, env);
    } else if r is Add || r is Sub {
        add_regroup_right(l, r, f, env);
    } else if l is Lit {
        add_lit_left(l, r, f, env);
    } else if l is Add {
        add_left_add(l, r, f, env);
    } else if l is Sub {
        add_left_sub(l, r, f, env);
    } else {
        assert(step_add(l, r, f) == join_add(simp(l, f), simp(r, f)));
        assert(exact_add(l, r, f) == (exact_simp(l, f) && exact_simp(r, f)));
        add_join(l, r, f, env);
    }
}

proof fn add_join(l: Term, r: Term, f: nat, env: spec_fn(Seq<char>) -> real)
    requires
        exact_simp(l, f),
        exact_simp(r, f),
        join_add(simp(l, f), simp(r, f)) is Some,
    ensures
        value(join_add(simp(l, f), simp(r, f))->0, env) == value(l, env) + value(r, env),
    decreases f, 1nat,
{
    lemma_simp_value(l, f, env);
    lemma_simp_value(r, f, env);
    let l2 = simp(l, f)->0;
    let r2 = simp(r, f)->0;
    assert(value(mk_add(l2, r2), env) == value(l2, env) + value(r2, env));
}

proof fn add_zero(l: Term, r: Term, f: nat, env: spec_fn(Seq<char>) -> real)
    requires
        exact_add(l, r, f),
        step_add(l, r, f) is Some,
        r is Lit,
        dec_is_zero(r->Lit_0),
    ensures
        value(step_add(l, r, f)->0, env) == value(l, env) + value(r, env),
    decreases f, 2nat,
{
    assert(step_add(l, r, f) == simp(l, f));
    assert(exact_add(l, r, f) == (dropped_exactly(r->Lit_0) && exact_simp(l, f)));
    lemma_simp_value(l, f, env);
}

proof fn add_regroup_right(l: Term, r: Term, f: nat, env: spec_fn(Seq<char>) -> real)
    requires
        exact_add(l, r, f),
        step_add(l, r, f) is Some,
        !(r is Lit),
        r is Add || r is Sub,
    ensures
        value(step_add(l, r, f)->0, env) == value(l, env) + value(r, env),
    decreases f, 2nat,
{
    if r is Add {
        let b = *r->Add_0;
        let c = *r->Add_1;
        let x = mk_add(mk_add(l, b), c);
        assert(step_add(l, r, f) == simp(x, f));
        assert(exact_add(l, r, f) == exact_simp(x, f));
        assert(value(mk_add(l, b), env) == value(l, env) + value(b, env));
        assert(value(x, env) == value(mk_add(l, b), env) + value(c, env));
        assert(value(r, env) == value(b, env) + value(c, env));
        lemma_simp_value(x, f, env);
    } else {
        let b = *r->Sub_0;
        let c = *r->Sub_1;
        let x = mk_sub(mk_add(l, b), c);
        assert(step_add(l, r, f) == simp(x, f));
        assert(exact_add(l, r, f) == exact_simp(x, f));
        assert(value(mk_add(l, b), env) == value(l, env) + value(b, env));
        assert(value(x, env) == value(mk_add(l, b), env) - value(c, env));
        assert(value(r, env) == value(b, env) - value(c, env));
        lemma_simp_value(x, f, env);
    }
}

proof fn add_lit_left(l: Term, r: Term, f: nat, env: spec_fn(Seq<char>) -> real)
    requires
        exact_add(l, r, f),
        step_add(l, r, f) is Some,
        !(r is Lit && dec_is_zero(r->Lit_0)),
        !(r is Add || r is Sub),
        l is Lit,
    ensures
        value(step_add(l, r, f)->0, env) == value(l, env) + value(r, env),
    decreases f, 2nat,
{
    if r is Lit && dec_add(l->Lit_0, r->Lit_0) is Some {
        assert(step_add(l, r, f) == Some(Term::Lit(dec_add(l->Lit_0, r->Lit_0)->0)));
        lemma_add_real(l->Lit_0, r->Lit_0);
    } else if !(r is Lit) {
        lemma_simp_value(r, f, env);
        let r2 = simp(r, f)->0;
        let x = mk_add(r2, l);
        assert(step_add(l, r, f) == simp(x, f));
        assert(exact_add(l, r, f) == exact_simp(x, f));
        assert(value(x, env) == value(r2, env) + value(l, env));
        lemma_simp_value(x, f, env);
    } else {
        assert(step_add(l, r, f) == join_add(simp(l, f), simp(r, f)));
        assert(exact_add(l, r, f) == (exact_simp(l, f) && exact_simp(r, f)));
        add_join(l, r, f, env);
    }
}

#[verifier::rlimit(100)]
#[verifier::spinoff_prover]
proof fn add_left_add(l: Term, r: Term, f: nat, env: spec_fn(Seq<char>) -> real)
    requires
        exact_add(l, r, f),
        step_add(l, r, f) is Some,
        !(r is Lit && dec_is_zero(r->Lit_0)),
        !(r is Add || r is Sub),
        l is Add,
    ensures
        value(step_add(l, r, f)->0, env) == value(l, env) + value(r, env),
    decreases f, 2nat,
{
    let x = *l->Add_0;
    let rc = *l->Add_1;
    assert(value(l, env) == value(x, env) + value(rc, env));
    if r is Lit {
        if rc is Lit && dec_add(rc->Lit_0, r->Lit_0) is Some {
            let c = dec_add(rc->Lit_0, r->Lit_0)->0;
            let z = mk_add(x, Term::Lit(c));
            assert(step_add(l, r, f) == simp(z, f));
            assert(exact_add(l, r, f) == exact_simp(z, f));
            lemma_add_real(rc->Lit_0, r->Lit_0);
            assert(value(Term::Lit(c), env) == value(rc, env) + value(r, env));
            assert(value(z, env) == value(x, env) + value(Term::Lit(c), env));
            lemma_simp_value(z, f, env);
        } else {
            assert(step_add(l, r, f) == join_add(simp(l, f), simp(r, f)));
            assert(exact_add(l, r, f) == (exact_simp(l, f) && exact_simp(r, f)));
            add_join(l, r, f, env);
        }
    } else if rc is Lit {
        let z = mk_add(mk_add(x, r), rc);
        assert(step_add(l, r, f) == simp(z, f));
        assert(exact_add(l, r, f) == exact_simp(z, f));
        assert(value(mk_add(x, r), env) == value(x, env) + value(r, env));
        assert(value(z, env) == value(mk_add(x, r), env) + value(rc, env));
        lemma_simp_value(z, f, env);
    } else {
        assert(step_add(l, r, f) == join_add(simp(l, f), simp(r, f)));
        assert(exact_add(l, r, f) == (exact_simp(l, f) && exact_simp(r, f)));
        add_join(l, r, f, env);
    }
}

#[verifier::rlimit(100)]
#[verifier::spinoff_prover]
proof fn add_left_sub(l: Term, r: Term, f: nat, env: spec_fn(Seq<char>) -> real)
    requires
        exact_add(l, r, f),
        step_add(l, r, f) is Some,
        !(r is Lit && dec_is_zero(r->Lit_0)),
        !(r is Add || r is Sub),
        l is Sub,
    ensures
        value(step_add(l, r, f)->0, env) == value(l, env) + value(r, env),
    decreases f, 2nat,
{
    let a = *l->Sub_0;
    let b = *l->Sub_1;
    assert(value(l, env) == value(a, env) - value(b, env));
    if r is Lit {
        if b is Lit {
            if dec_sub(r->Lit_0, b->Lit_0) is Some {
                let c = dec_sub(r->Lit_0, b->Lit_0)->0;
                let z = mk_add(a, Term::Lit(c));
                assert(step_add(l, r, f) == simp(z, f));
                assert(exact_add(l, r, f) == exact_simp(z, f));
                lemma_sub_real(r->Lit_0, b->Lit_0);
                assert(value(Term::Lit(c), env) == value(r, env) - value(b, env));
                assert(value(z, env) == value(a, env) + value(Term::Lit(c), env));
                lemma_simp_value(z, f, env);
            } else {
                assert(step_add(l, r, f) == join_add(simp(l, f), simp(r, f)));
                assert(exact_add(l, r, f) == (exact_simp(l, f) && exact_simp(r, f)));
                add_join(l, r, f, env);
            }
        } else if a is Lit {
            if dec_add(a->Lit_0, r->Lit_0) is Some {
                let c = dec_add(a->Lit_0, r->Lit_0)->0;
                let n = mk_sub(lit_zero(), b);
                let z = mk_add(n, Term::Lit(c));
                assert(step_add(l, r, f) == simp(z, f));
                assert(exact_add(l, r, f) == exact_simp(z, f));
                lemma_add_real(a->Lit_0, r->Lit_0);
                lemma_lit_zero();
                assert(value(Term::Lit(c), env) == value(a, env) + value(r, env));
                assert(value(n, env) == value(lit_zero(), env) - value(b, env));
                assert(value(z, env) == value(n, env) + value(Term::Lit(c), env));
                lemma_simp_value(z, f, env);
            } else {
                assert(step_add(l, r, f) == join_add(simp(l, f), simp(r, f)));
                assert(exact_add(l, r, f) == (exact_simp(l, f) && exact_simp(r, f)));
                add_join(l, r, f, env);
            }
        } else {
            assert(step_add(l, r, f) == join_add(simp(l, f), simp(r, f)));
            assert(exact_add(l, r, f) == (exact_simp(l, f) && exact_simp(r, f)));
            add_join(l, r, f, env);
        }
    } else if b is Lit {
        let z = mk_sub(mk_add(a, r), b);
        assert(step_add(l, r, f) == simp(z, f));
        assert(exact_add(l, r, f) == exact_simp(z, f));
        assert(value(mk_add(a, r), env) == value(a, env) + value(r, env));
        assert(value(z, env) == value(mk_add(a, r), env) - value(b, env));
        lemma_simp_value(z, f, env);
    } else {
        assert(step_add(l, r, f) == join_add(simp(l, f), simp(r, f)));
        assert(exact_add(l, r, f) == (exact_simp(l, f) && exact_simp(r, f)));
        add_join(l, r, f, env);
    }
}

proof fn lemma_step_sub_value(l: Term, r: Term, f: nat, env: spec_fn(Seq<char>) -> real)
    requires
        exact_sub(l, r, f),
        step_sub(l, r, f) is Some,
    ensures
        value(step_sub(l, r, f)->0, env) == value(l, env) - value(r, env),
    decreases f, 3nat,
{
    if r is Lit && dec_is_zero(r->Lit_0) {
        assert(step_sub(l, r, f) == simp(l, f));
        assert(exact_sub(l, r, f) == (dropped_exactly(r->Lit_0) && exact_simp(l, f)));
        lemma_simp_value(l, f, env);
    } else if r is Add || r is Sub {
        sub_regroup_right(l, r, f, env);
    } else if l is Lit {
        sub_lit_left(l, r, f, env);
    } else if l is Sub {
        sub_left_sub(l, r, f, env);
    } else if l is Add {
        sub_left_add(l, r, f, env);
    } else {
        assert(step_sub(l, r, f) == join_sub(simp(l, f), simp(r, f)));
        assert(exact_sub(l, r, f) == (exact_simp(l, f) && exact_simp(r, f)));
        sub_join(l, r, f, env);
    }
}

proof fn sub_join(l: Term, r: Term, f: nat, env: spec_fn(Seq<char>) -> real)
    requires
        exact_simp(l, f),
        exact_simp(r, f),
        join_sub(simp(l, f), simp(r, f)) is Some,
    ensures
        value(join_sub(simp(l, f), simp(r, f))->0, env) == value(l, env) - value(r, env),
    decreases f, 1nat,
{
    lemma_simp_value(l, f, env);
    lemma_simp_value(r, f, env);
    let l2 = simp(l, f)->0;
    let r2 = simp(r, f)->0;
    assert(value(mk_sub(l2, r2), env) == value(l2, env) - value(r2, env));
}

proof fn sub_regroup_right(l: Term, r: Term, f: nat, env: spec_fn(Seq<char>) -> real)
    requires
        exact_sub(l, r, f),
        step_sub(l, r, f) is Some,
        !(r is Lit),
        r is Add || r is Sub,
    ensures
        value(step_sub(l, r, f)->0, env) == value(l, env) - value(r, env),
    decreases f, 2nat,
{
    if r is Add {
        let b = *r->Add_0;
        let c = *r->Add_1;
        let x = mk_sub(mk_sub(l, b), c);
        assert(step_sub(l, r, f) == simp(x, f));
        assert(exact_sub(l, r, f) == exact_simp(x, f));
        assert(value(mk_sub(l, b), env) == value(l, env) - value(b, env));
        assert(value(x, env) == value(mk_sub(l, b), env) - value(c, env));
        assert(value(r, env) == value(b, env) + value(c, env));
        lemma_simp_value(x, f, env);
    } else {
        let b = *r->Sub_0;
        let c = *r->Sub_1;
        let x = mk_add(mk_sub(l, b), c);
        assert(step_sub(l, r, f) == simp(x, f));
        assert(exact_sub(l, r, f) == exact_simp(x, f));
        assert(value(mk_sub(l, b), env) == value(l, env) - value(b, env));
        assert(value(x, env) == value(mk_sub(l, b), env) + value(c, env));
        assert(value(r, env) == value(b, env) - value(c, env));
        lemma_simp_value(x, f, env);
    }
}

proof fn sub_lit_left(l: Term, r: Term, f: nat, env: spec_fn(Seq<char>) -> real)
    requires
        exact_sub(l, r, f),
        step_sub(l, r, f) is Some,
        !(r is Lit && dec_is_zero(r->Lit_0)),
        !(r is Add || r is Sub),
        l is Lit,
    ensures
        value(step_sub(l, r, f)->0, env) == value(l, env) - value(r, env),
    decreases f, 2nat,
{
    let m = mk_mul(lit_minus_one(), r);
    let x = mk_add(m, l);
    assert(step_sub(l, r, f) == simp(x, f));
    assert(exact_sub(l, r, f) == exact_simp(x, f));
    lemma_lit_minus_one();
    let vr = value(r, env);
    assert(value(lit_minus_one(), env) == -1real);
    assert(value(m, env) == value(lit_minus_one(), env) * vr);
    assert(value(m, env) == -1real * vr);
    assert(-1real * vr == -vr);
    assert(value(x, env) == value(m, env) + value(l, env));
    lemma_simp_value(x, f, env);
}

#[verifier::rlimit(100)]
#[verifier::spinoff_prover]
proof fn sub_left_sub(l: Term, r: Term, f: nat, env: spec_fn(Seq<char>) -> real)
    requires
        exact_sub(l, r, f),
        step_sub(l, r, f) is Some,
        !(r is Lit && dec_is_zero(r->Lit_0)),
        !(r is Add || r is Sub),
        !(l is Lit),
        l is Sub,
    ensures
        value(step_sub(l, r, f)->0, env) == value(l, env) - value(r, env),
    decreases f, 2nat,
{
    let a = *l->Sub_0;
    let b = *l->Sub_1;
    assert(value(l, env) == value(a, env) - value(b, env));
    if r is Lit {
        if b is Lit {
            if dec_add(b->Lit_0, r->Lit_0) is Some {
                let c = dec_add(b->Lit_0, r->Lit_0)->0;
                let z = mk_sub(a, Term::Lit(c));
                assert(step_sub(l, r, f) == simp(z, f));
                assert(exact_sub(l, r, f) == exact_simp(z, f));
                lemma_add_real(b->Lit_0, r->Lit_0);
                assert(value(Term::Lit(c), env) == value(b, env) + value(r, env));
                assert(value(z, env) == value(a, env) - value(Term::Lit(c), env));
                lemma_simp_value(z, f, env);
            } else {
                assert(step_sub(l, r, f) == join_sub(simp(l, f), simp(r, f)));
                assert(exact_sub(l, r, f) == (exact_simp(l, f) && exact_simp(r, f)));
                sub_join(l, r, f, env);
            }
        } else if a is Lit {
            if dec_sub(a->Lit_0, r->Lit_0) is Some {
                let c = dec_sub(a->Lit_0, r->Lit_0)->0;
                let n = mk_sub(lit_zero(), b);
                let z = mk_add(n, Term::Lit(c));
                assert(step_sub(l, r, f) == simp(z, f));
                assert(exact_sub(l, r, f) == exact_simp(z, f));
                lemma_sub_real(a->Lit_0, r->Lit_0);
                lemma_lit_zero();
                assert(value(Term::Lit(c), env) == value(a, env) - value(r, env));
                assert(value(n, env) == value(lit_zero(), env) - value(b, env));
                assert(value(z, env) == value(n, env) + value(Term::Lit(c), env));
                lemma_simp_value(z, f, env);
            } else {
                assert(step_sub(l, r, f) == join_sub(simp(l, f), simp(r, f)));
                assert(exact_sub(l, r, f) == (exact_simp(l, f) && exact_simp(r, f)));
                sub_join(l, r, f, env);
            }
        } else {
            assert(step_sub(l, r, f) == join_sub(simp(l, f), simp(r, f)));
            assert(exact_sub(l, r, f) == (exact_simp(l, f) && exact_simp(r, f)));
            sub_join(l, r, f, env);
        }
    } else if b is Lit {
        let z = mk_sub(mk_sub(a, r), b);
        assert(step_sub(l, r, f) == simp(z, f));
        assert(exact_sub(l, r, f) == exact_simp(z, f));
        assert(value(mk_sub(a, r), env) == value(a, env) - value(r, env));
        assert(value(z, env) == value(mk_sub(a, r), env) - value(b, env));
        lemma_simp_value(z, f, env);
    } else {
        assert(step_sub(l, r, f) == join_sub(simp(l, f), simp(r, f)));
        assert(exact_sub(l, r, f) == (exact_simp(l, f) && exact_simp(r, f)));
        sub_join(l, r, f, env);
    }
}

#[verifier::rlimit(100)]
#[verifier::spinoff_prover]
proof fn sub_left_add(l: Term, r: Term, f: nat, env: spec_fn(Seq<char>) -> real)
    requires
        exact_sub(l, r, f),
        step_sub(l, r, f) is Some,
        !(r is Lit && dec_is_zero(r->Lit_0)),
        !(r is Add || r is Sub),
        !(l is Lit),
        !(l is Sub),
        l is Add,
    ensures
        value(step_sub(l, r, f)->0, env) == value(l, env) - value(r, env),
    decreases f, 2nat,
{
    let x = *l->Add_0;
    let rc = *l->Add_1;
    assert(value(l, env) == value(x, env) + value(rc, env));
    if r is Lit {
        if rc is Lit && dec_sub(rc->Lit_0, r->Lit_0) is Some {
            let c = dec_sub(rc->Lit_0, r->Lit_0)->0;
            let z = mk_add(x, Term::Lit(c));
            assert(step_sub(l, r, f) == simp(z, f));
            assert(exact_sub(l, r, f) == exact_simp(z, f));
            lemma_sub_real(rc->Lit_0, r->Lit_0);
            assert(value(Term::Lit(c), env) == value(rc, env) - value(r, env));
            assert(value(z, env) == value(x, env) + value(Term::Lit(c), env));
            lemma_simp_value(z, f, env);
        } else {
            assert(step_sub(l, r, f) == join_sub(simp(l, f), simp(r, f)));
            assert(exact_sub(l, r, f) == (exact_simp(l, f) && exact_simp(r, f)));
            sub_join(l, r, f, env);
        }
    } else if rc is Lit {
        let z = mk_add(mk_sub(x, r), rc);
        assert(step_sub(l, r, f) == simp(z, f));
        assert(exact_sub(l, r, f) == exact_simp(z, f));
        assert(value(mk_sub(x, r), env) == value(x, env) - value(r, env));
        assert(value(z, env) == value(mk_sub(x, r), env) + value(rc, env));
        lemma_simp_value(z, f, env);
    } else {
        assert(step_sub(l, r, f) == join_sub(simp(l, f), simp(r, f)));
        assert(exact_sub(l, r, f) == (exact_simp(l, f) && exact_simp(r, f)));
        sub_join(l, r, f, env);
    }
}

/// Whether `a op b` holds.
pub open spec fn holds(op: Constraint, a: real, b: real) -> bool {
    match op {
        Constraint::GreaterOrEqual => a >= b,
        Constraint::LessOrEqual => a <= b,
        Constraint::Equal => a == b,
    }
}

/// Simplification keeps the value of an expression: when the simplification
/// of an expression stops and every literal it drops as zero is zero, its
/// result takes the value of the expression for every value of the
/// variables.
pub proof fn law_simplify_keeps_value(e: Term, env: spec_fn(Seq<char>) -> real)
    requires
        simplify_halts(e),
        simplify_exact(e),
    ensures
        value(simplified(e), env) == value(e, env),
{
    reveal(simplify_halts);
    reveal(simplified);
    reveal(simplify_exact);
    lemma_simp_value(e, simplify_budget(), env);
}

/// The literal taken off an expression and what is left of it add up to
/// the expression.
pub proof fn law_split_constant_value(t: Term, env: spec_fn(Seq<char>) -> real)
    ensures
        value(split_constant(t).1, env) + real_value(split_constant(t).0) == value(t, env),
{
    if t is Add && *t->Add_1 is Lit {
        assert(value(*t->Add_1, env) == real_value(t->Add_1->Lit_0));
        assert(value(t, env) == value(*t->Add_0, env) + value(*t->Add_1, env));
    } else if t is Sub && *t->Sub_1 is Lit {
        lemma_neg_real(t->Sub_1->Lit_0);
        assert(value(*t->Sub_1, env) == real_value(t->Sub_1->Lit_0));
        assert(value(t, env) == value(*t->Sub_0, env) - value(*t->Sub_1, env));
    } else {
        lemma_small_reals();
    }
}

/// Generalizing a constraint keeps its meaning: the generalized constraint
/// `e op c` has the comparison of `lhs op rhs`, a literal right-hand side,
/// and `e - c` takes the value of `lhs - rhs` for every value of the
/// variables, so that one holds exactly when the other does (when every
/// literal the simplification of `lhs - rhs` drops as zero is zero).
pub proof fn law_generalize_keeps_meaning(lhs: Term, op: Constraint, rhs: Term, env: spec_fn(Seq<char>) -> real)
    requires
        simplify_halts(mk_sub(lhs, rhs)),
        simplify_exact(mk_sub(lhs, rhs)),
    ensures
        generalized(lhs, op, rhs).1 == op,
        generalized(lhs, op, rhs).2 is Lit,
        value(generalized(lhs, op, rhs).0, env) - value(generalized(lhs, op, rhs).2, env) == value(lhs, env) - value(rhs, env),
        holds(op, value(lhs, env), value(rhs, env)) <==> holds(
            op,
            value(generalized(lhs, op, rhs).0, env),
            value(generalized(lhs, op, rhs).2, env),
        ),
{
    let d = mk_sub(lhs, rhs);
    law_simplify_keeps_value(d, env);
    let s = simplified(d);
    law_split_constant_value(s, env);
    let c = split_constant(s).0;
    lemma_neg_real(c);
}

/// The expression that adding `e` to the objective `old` simplifies.
pub open spec fn objective_sum(old: Option<Term>, e: Term) -> Term {
    match old {
        Some(o) => mk_add(e, o),
        None => e,
    }
}

/// Adding an expression to the objective gives, up to a constant that
/// does not depend on the variables, the sum of the expression and the
/// former objective.
pub proof fn law_added_objective_value(old: Option<Term>, e: Term, env: spec_fn(Seq<char>) -> real)
    requires
        simplify_halts(objective_sum(old, e)),
        simplify_exact(objective_sum(old, e)),
    ensures
        value(added_objective(old, e), env) + real_value(split_constant(simplified(objective_sum(old, e))).0)
            == value(objective_sum(old, e), env),
{
    let s = objective_sum(old, e);
    law_simplify_keeps_value(s, env);
    law_split_constant_value(simplified(s), env);
}

/// Sum of the values of a sequence of expressions.
pub open spec fn values_sum(s: Seq<Term>, env: spec_fn(Seq<char>) -> real) -> real
    decreases s.len(),
{
    if s.len() == 0 {
        0real
    } else {
        values_sum(s.drop_last(), env) + value(s.last(), env)
    }
}

/// The sum that `lp_sum` builds takes the sum of the values of its terms.
pub proof fn law_sum_value(s: Seq<Term>, env: spec_fn(Seq<char>) -> real)
    requires
        s.len() > 0,
    ensures
        value(sum_terms(s), env) == values_sum(s, env),
    decreases s.len(),
{
    if s.len() > 1 {
        law_sum_value(s.drop_last(), env);
        assert(sum_terms(s) == mk_add(sum_terms(s.drop_last()), s.last()));
        assert(value(sum_terms(s), env) == value(sum_terms(s.drop_last()), env) + value(s.last(), env));
    } else {
        assert(s.drop_last().len() == 0);
        assert(values_sum(s.drop_last(), env) == 0real);
        assert(sum_terms(s) == s[0]);
        assert(s.last() == s[0]);
    }
}

/// Every simplification that `settled(t, fuel)` performs drops only zero
/// literals.
pub open spec fn settled_exact(t: Term, fuel: nat) -> bool
    decreases fuel,
{
    if fuel == 0 || !simplify_halts(t) {
        true
    } else if show_paren(t) == show_paren(simplified(t)) {
        true
    } else {
        simplify_exact(t) && settled_exact(simplified(t), (fuel - 1) as nat)
    }
}

/// The expression the LP writer shows (see `settled`) takes the value of
/// the expression it is written for, for every value of the variables,
/// when the simplifications on the way drop only zero literals.
pub proof fn law_written_expression_keeps_value(t: Term, fuel: nat, env: spec_fn(Seq<char>) -> real)
    requires
        settled(t, fuel) is Some,
        settled_exact(t, fuel),
    ensures
        value(settled(t, fuel)->0, env) == value(t, env),
    decreases fuel,
{
    if show_paren(t) != show_paren(simplified(t)) {
        law_simplify_keeps_value(t, env);
        law_written_expression_keeps_value(simplified(t), (fuel - 1) as nat, env);
    }
}

} // verus!
