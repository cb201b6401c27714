//! The problem handed to the minilp solver: one column per variable with
//! its cost and bounds, one row per constraint, built from the simplified
//! objective and constraints of a problem.

use vstd::prelude::*;

use crate::dsl::problem::{constraint_models, opt_model, LpObjective, LpProblem};
use crate::dsl::simplify::{simplified, simplify, simplify_halts};
use crate::dsl::variables::{generalized, Constraint, LpContinuous, LpExpression, Term, VarModel};
use crate::dsl::simplify::mk_sub;
use crate::num::{
    dec_add, dec_lt, dec_neg, int_dec, lemma_add_real, lemma_neg_real, lemma_one_real, lemma_small_reals, real_value,
    Decimal, Number,
};
use crate::dsl::semantics::{holds, law_generalize_keeps_meaning, law_simplify_keeps_value, simplify_exact, value};
use crate::solvers::ValueMap;

verus! {

/// A variable of a decomposed expression: its total coefficient and the
/// tightest of its bounds (`None` where it has none).
#[derive(Debug, Clone, Copy, PartialEq, Eq, Structural)]
pub struct VarWithCoeff {
    pub coefficient: Decimal,
    pub min: Option<Decimal>,
    pub max: Option<Decimal>,
}

/// The larger of two lower bounds, `None` standing for no bound.
pub open spec fn lower_max(a: Option<Decimal>, b: Option<Decimal>) -> Option<Decimal> {
    match (a, b) {
        (None, x) => x,
        (x, None) => x,
        (Some(p), Some(q)) => Some(if dec_lt(p, q) { q } else { p }),
    }
}

/// The smaller of two upper bounds, `None` standing for no bound.
pub open spec fn upper_min(a: Option<Decimal>, b: Option<Decimal>) -> Option<Decimal> {
    match (a, b) {
        (None, x) => x,
        (x, None) => x,
        (Some(p), Some(q)) => Some(if dec_lt(q, p) { q } else { p }),
    }
}

/// Index of the last entry named `n`.
pub open spec fn name_index(l: Seq<(Seq<char>, VarWithCoeff)>, n: Seq<char>) -> Option<int>
    decreases l.len(),
{
    if l.len() == 0 {
        None
    } else if l.last().0 == n {
        Some(l.len() - 1)
    } else {
        name_index(l.drop_last(), n)
    }
}

pub proof fn lemma_name_index(l: Seq<(Seq<char>, VarWithCoeff)>, n: Seq<char>)
    ensures
        name_index(l, n) matches Some(i) ==> 0 <= i < l.len() && l[i].0 == n,
    decreases l.len(),
{
    if l.len() > 0 && l.last().0 != n {
        lemma_name_index(l.drop_last(), n);
    }
}

/// A variable with no coefficient and no bound.
pub open spec fn free_entry() -> VarWithCoeff {
    VarWithCoeff { coefficient: int_dec(0), min: None, max: None }
}

/// Adds `c` times the continuous variable `v` to the list `l`: its
/// coefficient grows by `c` and its bounds tighten to those of `v`; `None`
/// when the sum of the coefficients is not representable.
pub open spec fn list_add(l: Seq<(Seq<char>, VarWithCoeff)>, v: VarModel, c: Decimal) -> Option<Seq<(Seq<char>, VarWithCoeff)>> {
    match name_index(l, v.name) {
        Some(i) => match dec_add(l[i].1.coefficient, c) {
            Some(s) => Some(l.update(i, (v.name, VarWithCoeff {
                coefficient: s,
                min: lower_max(l[i].1.min, v.lower),
                max: upper_min(l[i].1.max, v.upper),
            }))),
            None => None,
        },
        None => Some(l.push((v.name, VarWithCoeff { coefficient: c, min: v.lower, max: v.upper }))),
    }
}

/// Why an expression cannot be decomposed.
pub enum DecomposeFailure {
    NonSimplified(Term, Term),
    Unsupported(Term),
    NotRepresentable,
}

/// The coefficient `c`, with its sign turned when `neg` holds.
pub open spec fn signed_coeff(c: Decimal, neg: bool) -> Decimal {
    if neg {
        dec_neg(c)
    } else {
        c
    }
}

/// Decomposition of a simplified expression, made of sums and differences
/// of continuous variables each with an optional literal factor in front,
/// added to the list `l`; every coefficient is negated when `neg` holds
/// (`a - b` counts as `a + (-1) b`).
pub open spec fn decompose_into(t: Term, l: Seq<(Seq<char>, VarWithCoeff)>, neg: bool) -> Result<Seq<(Seq<char>, VarWithCoeff)>, DecomposeFailure>
    decreases t,
{
    match t {
        Term::Cont(v) => match list_add(l, v, signed_coeff(int_dec(1), neg)) {
            Some(l2) => Ok(l2),
            None => Err(DecomposeFailure::NotRepresentable),
        },
        Term::Mul(a, b) => if *a is Lit && *b is Cont {
            match list_add(l, b->Cont_0, signed_coeff(a->Lit_0, neg)) {
                Some(l2) => Ok(l2),
                None => Err(DecomposeFailure::NotRepresentable),
            }
        } else {
            Err(DecomposeFailure::NonSimplified(*a, *b))
        },
        Term::Add(a, b) => match decompose_into(*a, l, neg) {
            Ok(l2) => decompose_into(*b, l2, neg),
            Err(e) => Err(e),
        },
        Term::Sub(a, b) => match decompose_into(*a, l, neg) {
            Ok(l2) => decompose_into(*b, l2, !neg),
            Err(e) => Err(e),
        },
        _ => Err(DecomposeFailure::Unsupported(t)),
    }
}

/// The value of the sum of the coefficients of `l` times the values that
/// `env` gives their variables.
pub open spec fn linear_value(l: Seq<(Seq<char>, VarWithCoeff)>, env: spec_fn(Seq<char>) -> real) -> real
    decreases l.len(),
{
    if l.len() == 0 {
        0real
    } else {
        linear_value(l.drop_last(), env) + real_value(l.last().1.coefficient) * env(l.last().0)
    }
}

proof fn lemma_linear_value_update(l: Seq<(Seq<char>, VarWithCoeff)>, i: int, w: VarWithCoeff, env: spec_fn(Seq<char>) -> real)
    requires
        0 <= i < l.len(),
    ensures
        linear_value(l.update(i, (l[i].0, w)), env) == linear_value(l, env) - real_value(l[i].1.coefficient) * env(
            l[i].0,
        ) + real_value(w.coefficient) * env(l[i].0),
    decreases l.len(),
{
    let l2 = l.update(i, (l[i].0, w));
    if i == l.len() - 1 {
        assert(l2.drop_last() =~= l.drop_last());
    } else {
        assert(l2.drop_last() =~= l.drop_last().update(i, (l[i].0, w)));
        lemma_linear_value_update(l.drop_last(), i, w, env);
    }
}

/// Adding `c` times a variable adds `c` times its value.
proof fn lemma_list_add_value(l: Seq<(Seq<char>, VarWithCoeff)>, v: VarModel, c: Decimal, env: spec_fn(Seq<char>) -> real)
    requires
        list_add(l, v, c) is Some,
    ensures
        linear_value(list_add(l, v, c)->0, env) == linear_value(l, env) + real_value(c) * env(v.name),
{
    lemma_name_index(l, v.name);
    match name_index(l, v.name) {
        Some(i) => {
            let s = dec_add(l[i].1.coefficient, c)->0;
            lemma_add_real(l[i].1.coefficient, c);
            let w = VarWithCoeff {
                coefficient: s,
                min: lower_max(l[i].1.min, v.lower),
                max: upper_min(l[i].1.max, v.upper),
            };
            lemma_linear_value_update(l, i, w, env);
            assert(real_value(s) * env(v.name) == real_value(l[i].1.coefficient) * env(v.name) + real_value(c)
                * env(v.name)) by (nonlinear_arith)
                requires
                    real_value(s) == real_value(l[i].1.coefficient) + real_value(c),
            ;
        },
        None => {
            let l2 = l.push((v.name, VarWithCoeff { coefficient: c, min: v.lower, max: v.upper }));
            assert(l2.drop_last() =~= l);
        },
    }
}

/// Decomposing `t` into `l` adds (or, under `neg`, subtracts) the value of
/// `t` to the value of `l`, for every value of the variables.
pub proof fn lemma_decompose_value(t: Term, l: Seq<(Seq<char>, VarWithCoeff)>, neg: bool, env: spec_fn(Seq<char>) -> real)
    requires
        decompose_into(t, l, neg) is Ok,
    ensures
        linear_value(decompose_into(t, l, neg)->Ok_0, env) == linear_value(l, env) + (if neg {
            -value(t, env)
        } else {
            value(t, env)
        }),
    decreases t,
{
    lemma_one_real();
    match t {
        Term::Cont(v) => {
            let c = signed_coeff(int_dec(1), neg);
            lemma_neg_real(int_dec(1));
            lemma_list_add_value(l, v, c, env);
            assert(real_value(c) * env(v.name) == (if neg { -env(v.name) } else { env(v.name) })) by (nonlinear_arith)
                requires
                    real_value(c) == (if neg { -1real } else { 1real }),
            ;
        },
        Term::Mul(a, b) => {
            assert(*a is Lit && *b is Cont);
            let k = a->Lit_0;
            let v = b->Cont_0;
            let c = signed_coeff(k, neg);
            lemma_neg_real(k);
            lemma_list_add_value(l, v, c, env);
            assert(value(*a, env) == real_value(k));
            assert(value(*b, env) == env(v.name));
            assert(value(t, env) == real_value(k) * env(v.name));
            assert(real_value(c) * env(v.name) == (if neg { -(real_value(k) * env(v.name)) } else { real_value(k) * env(
                v.name,
            ) })) by (nonlinear_arith)
                requires
                    real_value(c) == (if neg { -real_value(k) } else { real_value(k) }),
            ;
        },
        Term::Add(a, b) => {
            lemma_decompose_value(*a, l, neg, env);
            let l2 = decompose_into(*a, l, neg)->Ok_0;
            lemma_decompose_value(*b, l2, neg, env);
        },
        Term::Sub(a, b) => {
            lemma_decompose_value(*a, l, neg, env);
            let l2 = decompose_into(*a, l, neg)->Ok_0;
            lemma_decompose_value(*b, l2, !neg, env);
        },
        _ => {},
    }
}

/// A decomposition is the expression it decomposes: for every value of the
/// variables, the sum of each coefficient times the value of its variable
/// is the value of the simplified expression, and so of the expression
/// itself when its simplification drops only zero literals. So `a - b`
/// gives `a` the coefficient 1 and `b` the coefficient -1.
pub proof fn law_decomposition_value(t: Term, env: spec_fn(Seq<char>) -> real)
    requires
        decomposition(t) matches Some(r) && r is Ok,
    ensures
        linear_value(decomposition(t)->0->Ok_0, env) == value(simplified(t), env),
        simplify_exact(t) ==> linear_value(decomposition(t)->0->Ok_0, env) == value(t, env),
{
    lemma_decompose_value(simplified(t), seq![], false, env);
    if simplify_exact(t) {
        law_simplify_keeps_value(t, env);
    }
}

/// Decomposition of an expression once simplified; `None` where the
/// simplification does not stop.
pub open spec fn decomposition(t: Term) -> Option<Result<Seq<(Seq<char>, VarWithCoeff)>, DecomposeFailure>> {
    if simplify_halts(t) {
        Some(decompose_into(simplified(t), seq![], false))
    } else {
        None
    }
}

/// The variables of a decomposed expression, in the order they first
/// appear.
#[derive(Debug, PartialEq)]
pub struct VarList {
    entries: Vec<(String, VarWithCoeff)>,
}

pub open spec fn entries_model(v: Seq<(String, VarWithCoeff)>) -> Seq<(Seq<char>, VarWithCoeff)> {
    v.map_values(|p: (String, VarWithCoeff)| (p.0@, p.1))
}

impl View for VarList {
    type V = Seq<(Seq<char>, VarWithCoeff)>;

    closed spec fn view(&self) -> Seq<(Seq<char>, VarWithCoeff)> {
        entries_model(self.entries@)
    }
}

fn lower_max_exec(a: Option<Decimal>, b: Option<Decimal>) -> (r: Option<Decimal>)
    ensures
        r == lower_max(a, b),
{
    match (a, b) {
        (None, x) => x,
        (x, None) => x,
        (Some(p), Some(q)) => Some(if p.less_than(&q) { q } else { p }),
    }
}

fn upper_min_exec(a: Option<Decimal>, b: Option<Decimal>) -> (r: Option<Decimal>)
    ensures
        r == upper_min(a, b),
{
    match (a, b) {
        (None, x) => x,
        (x, None) => x,
        (Some(p), Some(q)) => Some(if q.less_than(&p) { q } else { p }),
    }
}

impl VarList {
    /// The empty list.
    pub fn new() -> (r: VarList)
        ensures
            r@ == Seq::<(Seq<char>, VarWithCoeff)>::empty(),
    {
        let r = VarList { entries: Vec::new() };
        assert(r@ =~= Seq::<(Seq<char>, VarWithCoeff)>::empty());
        r
    }

    /// The entries, in order.
    pub fn entries(&self) -> (r: &Vec<(String, VarWithCoeff)>)
        ensures
            entries_model(r@) == self@,
    {
        &self.entries
    }

    /// Index of the last entry named `name`; see `name_index`.
    fn find(&self, name: &String) -> (r: Option<usize>)
        ensures
            r matches Some(i) ==> name_index(self@, name@) == Some(i as int),
            r is None ==> name_index(self@, name@) is None,
    {
        let mut i: usize = self.entries.len();
        assert(self@.take(i as int) =~= self@);
        while i > 0
            invariant
                i <= self.entries.len(),
                name_index(self@, name@) == name_index(self@.take(i as int), name@),
            decreases i,
        {
            let ghost t = self@.take(i as int);
            proof {
                assert(t.last() == (self.entries@[i - 1].0@, self.entries@[i - 1].1));
                assert(t.drop_last() =~= self@.take(i - 1));
            }
            if self.entries[i - 1].0 == *name {
                return Some(i - 1);
            }
            i = i - 1;
        }
        proof {
            assert(self@.take(0).len() == 0);
        }
        None
    }

    /// Adds `coefficient` times `var`; see `list_add`. Returns `false`, the
    /// list unchanged, where the coefficients do not add up to a
    /// representable decimal.
    pub fn add(&mut self, var: &LpContinuous, coefficient: Decimal) -> (ok: bool)
        ensures
            ok == list_add(old(self)@, var@, coefficient) is Some,
            ok ==> final(self)@ == list_add(old(self)@, var@, coefficient)->0,
            !ok ==> final(self)@ == old(self)@,
    {
        match self.find(&var.name) {
            Some(i) => {
                proof {
                    lemma_name_index(self@, var.name@);
                }
                let prev = self.entries[i].1;
                match prev.coefficient.checked_add(&coefficient) {
                    Some(s) => {
                        let entry = VarWithCoeff {
                            coefficient: s,
                            min: lower_max_exec(prev.min, var.lower_bound),
                            max: upper_min_exec(prev.max, var.upper_bound),
                        };
                        let ghost before = self@;
                        self.entries.set(i, (var.name.clone(), entry));
                        proof {
                            assert(self@ =~= before.update(i as int, (var.name@, entry)));
                        }
                        true
                    },
                    None => false,
                }
            },
            None => {
                let ghost before = self@;
                let entry = VarWithCoeff {
                    coefficient,
                    min: var.lower_bound,
                    max: var.upper_bound,
                };
                self.entries.push((var.name.clone(), entry));
                proof {
                    assert(self@ =~= before.push((var.name@, entry)));
                }
                true
            },
        }
    }
}

/// Why an expression cannot be decomposed, with the parts that stop it.
#[derive(Debug)]
pub enum DecomposeError {
    NonSimplifiedMultiplication(LpExpression, LpExpression),
    UnsupportedExpression(LpExpression),
    NotRepresentable,
}

impl View for DecomposeError {
    type V = DecomposeFailure;

    open spec fn view(&self) -> DecomposeFailure {
        match self {
            DecomposeError::NonSimplifiedMultiplication(a, b) => DecomposeFailure::NonSimplified(a@, b@),
            DecomposeError::UnsupportedExpression(e) => DecomposeFailure::Unsupported(e@),
            DecomposeError::NotRepresentable => DecomposeFailure::NotRepresentable,
        }
    }
}

fn signed_coeff_exec(c: Decimal, neg: bool) -> (r: Decimal)
    ensures
        r == signed_coeff(c, neg),
{
    if neg {
        c.neg()
    } else {
        c
    }
}

fn decompose_rec(e: &LpExpression, list: &mut VarList, neg: bool) -> (r: Result<(), DecomposeError>)
    ensures
        match decompose_into(e@, old(list)@, neg) {
            Ok(l) => r is Ok && final(list)@ == l,
            Err(f) => r matches Err(g) && g@ == f,
        },
    decreases e,
{
    match e {
        LpExpression::ConsCont(v) => {
            let one = Decimal::from_i32(1);
            proof {
                assert(one == int_dec(1));
                assert(e@ == Term::Cont(v@));
            }
            let c = signed_coeff_exec(one, neg);
            if list.add(v, c) {
                Ok(())
            } else {
                Err(DecomposeError::NotRepresentable)
            }
        },
        LpExpression::MulExpr(a, b) => {
            if let LpExpression::LitVal(c) = &**a {
                if let LpExpression::ConsCont(v) = &**b {
                    proof {
                        assert((**a)@ == Term::Lit(*c));
                        assert((**b)@ == Term::Cont(v@));
                        assert(e@ == Term::Mul(Box::new((**a)@), Box::new((**b)@)));
                    }
                    let k = signed_coeff_exec(*c, neg);
                    if list.add(v, k) {
                        return Ok(());
                    } else {
                        return Err(DecomposeError::NotRepresentable);
                    }
                }
            }
            Err(DecomposeError::NonSimplifiedMultiplication((**a).copy(), (**b).copy()))
        },
        LpExpression::AddExpr(a, b) => {
            match decompose_rec(&**a, list, neg) {
                Ok(()) => decompose_rec(&**b, list, neg),
                Err(g) => Err(g),
            }
        },
        LpExpression::SubExpr(a, b) => {
            match decompose_rec(&**a, list, neg) {
                Ok(()) => decompose_rec(&**b, list, !neg),
                Err(g) => Err(g),
            }
        },
        _ => Err(DecomposeError::UnsupportedExpression(e.copy())),
    }
}

/// Decomposes an expression, once simplified, into its variables with
/// their coefficients and bounds; see `decomposition`.
pub fn decompose_expression(expr: &LpExpression) -> (r: Result<VarList, DecomposeError>)
    requires
        simplify_halts(expr@),
    ensures
        match decomposition(expr@)->0 {
            Ok(l) => r matches Ok(v) && v@ == l,
            Err(f) => r matches Err(g) && g@ == f,
        },
{
    let s = simplify(expr);
    let mut list = VarList::new();
    match decompose_rec(&s, &mut list, false) {
        Ok(()) => Ok(list),
        Err(g) => Err(g),
    }
}


/// Places the variables of a decomposed expression among the columns
/// `cols`: the index of the column of each (a new free column at the end
/// for a variable without one) with its coefficient.
pub open spec fn place_terms(cols: Seq<(Seq<char>, VarWithCoeff)>, dec: Seq<(Seq<char>, VarWithCoeff)>) -> (Seq<(Seq<char>, VarWithCoeff)>, Seq<(usize, Decimal)>)
    decreases dec.len(),
{
    if dec.len() == 0 {
        (cols, seq![])
    } else {
        let (c2, ts) = place_terms(cols, dec.drop_last());
        let n = dec.last().0;
        let k = dec.last().1.coefficient;
        match name_index(c2, n) {
            Some(i) => (c2, ts.push((i as usize, k))),
            None => (c2.push((n, free_entry())), ts.push((c2.len() as usize, k))),
        }
    }
}

/// Why a problem cannot be handed to minilp.
pub enum ModelFailure {
    MissingObjective,
    Decompose(DecomposeFailure),
    GeneralizationFailed,
}

/// Row model: terms, comparison and right-hand side.
pub type RowModel = (Seq<(usize, Decimal)>, Constraint, Decimal);

/// Columns and rows after the constraints `cs`, starting from the columns
/// `cols0`; `None` where a simplification does not stop.
#[verifier::opaque]
pub open spec fn minilp_rows(cols0: Seq<(Seq<char>, VarWithCoeff)>, cs: Seq<(Term, Constraint, Term)>) -> Option<Result<(Seq<(Seq<char>, VarWithCoeff)>, Seq<RowModel>), ModelFailure>>
    decreases cs.len(),
{
    if cs.len() == 0 {
        Some(Ok((cols0, seq![])))
    } else {
        match minilp_rows(cols0, cs.drop_last()) {
            Some(Ok((cols, rows))) => {
                let c = cs.last();
                if !simplify_halts(mk_sub(c.0, c.2)) {
                    None
                } else {
                    let g = generalized(c.0, c.1, c.2);
                    if g.2 is Lit {
                        match decomposition(g.0) {
                            None => None,
                            Some(Err(f)) => Some(Err(ModelFailure::Decompose(f))),
                            Some(Ok(dec)) => {
                                let pt = place_terms(cols, dec);
                                Some(Ok((pt.0, rows.push((pt.1, g.1, g.2->Lit_0)))))
                            },
                        }
                    } else {
                        Some(Err(ModelFailure::GeneralizationFailed))
                    }
                }
            },
            other => other,
        }
    }
}

/// The minilp problem of a problem: one column per variable of the
/// decomposed objective (its coefficient as cost, its bounds), then one row
/// per generalized constraint, whose new variables get free columns of cost
/// zero; `None` where a simplification does not stop.
pub open spec fn minilp_model(dir: LpObjective, objective: Option<Term>, cs: Seq<(Term, Constraint, Term)>) -> Option<Result<(LpObjective, Seq<(Seq<char>, VarWithCoeff)>, Seq<RowModel>), ModelFailure>> {
    match objective {
        None => Some(Err(ModelFailure::MissingObjective)),
        Some(o) => match decomposition(o) {
            None => None,
            Some(Err(f)) => Some(Err(ModelFailure::Decompose(f))),
            Some(Ok(cols0)) => match minilp_rows(cols0, cs) {
                None => None,
                Some(Err(f)) => Some(Err(f)),
                Some(Ok((cols, rows))) => Some(Ok((dir, cols, rows))),
            },
        },
    }
}

/// The value of the terms of a row: each coefficient times the value that
/// `env` gives the variable of its column among `cols`.
pub open spec fn terms_value(ts: Seq<(usize, Decimal)>, cols: Seq<(Seq<char>, VarWithCoeff)>, env: spec_fn(Seq<char>) -> real) -> real
    decreases ts.len(),
{
    if ts.len() == 0 {
        0real
    } else {
        terms_value(ts.drop_last(), cols, env) + real_value(ts.last().1) * env(cols[ts.last().0 as int].0)
    }
}

/// Every term of `ts` names a column of `cols`.
pub open spec fn terms_in(ts: Seq<(usize, Decimal)>, n: nat) -> bool {
    forall|i: int| 0 <= i < ts.len() ==> (#[trigger] ts[i]).0 < n
}

/// `c2` extends `c1`.
pub open spec fn extends(c2: Seq<(Seq<char>, VarWithCoeff)>, c1: Seq<(Seq<char>, VarWithCoeff)>) -> bool {
    c1.len() <= c2.len() && c2.take(c1.len() as int) == c1
}

proof fn lemma_terms_value_extend(ts: Seq<(usize, Decimal)>, c1: Seq<(Seq<char>, VarWithCoeff)>, c2: Seq<(Seq<char>, VarWithCoeff)>, env: spec_fn(Seq<char>) -> real)
    requires
        terms_in(ts, c1.len()),
        extends(c2, c1),
    ensures
        terms_value(ts, c2, env) == terms_value(ts, c1, env),
    decreases ts.len(),
{
    if ts.len() > 0 {
        lemma_terms_value_extend(ts.drop_last(), c1, c2, env);
        let i = ts.last().0 as int;
        assert(ts.last() == ts[ts.len() - 1]);
        assert(c2.take(c1.len() as int)[i] == c2[i]);
    }
}

proof fn lemma_extends_trans(c3: Seq<(Seq<char>, VarWithCoeff)>, c2: Seq<(Seq<char>, VarWithCoeff)>, c1: Seq<(Seq<char>, VarWithCoeff)>)
    requires
        extends(c3, c2),
        extends(c2, c1),
    ensures
        extends(c3, c1),
{
    assert(c3.take(c1.len() as int) =~= c2.take(c1.len() as int));
}

/// Placing the entries of a decomposition among the columns keeps the
/// columns there are and their costs, and the terms are worth the
/// decomposition for every value of the variables.
pub proof fn lemma_place_terms_value(cols: Seq<(Seq<char>, VarWithCoeff)>, dec: Seq<(Seq<char>, VarWithCoeff)>, env: spec_fn(Seq<char>) -> real)
    requires
        place_terms(cols, dec).0.len() <= usize::MAX,
    ensures
        extends(place_terms(cols, dec).0, cols),
        terms_in(place_terms(cols, dec).1, place_terms(cols, dec).0.len()),
        place_terms(cols, dec).1.len() == dec.len(),
        terms_value(place_terms(cols, dec).1, place_terms(cols, dec).0, env) == linear_value(dec, env),
        linear_value(place_terms(cols, dec).0, env) == linear_value(cols, env),
    decreases dec.len(),
{
    if dec.len() == 0 {
        assert(cols.take(cols.len() as int) =~= cols);
    } else {
        lemma_place_terms_value(cols, dec.drop_last(), env);
        let (c2, ts) = place_terms(cols, dec.drop_last());
        let n = dec.last().0;
        let k = dec.last().1.coefficient;
        lemma_name_index(c2, n);
        match name_index(c2, n) {
            Some(i) => {
                let ts2 = ts.push((i as usize, k));
                assert(ts2.drop_last() =~= ts);
                assert((i as usize) as int == i);
            },
            None => {
                let c3 = c2.push((n, free_entry()));
                let ts2 = ts.push((c2.len() as usize, k));
                assert(ts2.drop_last() =~= ts);
                assert(c3.take(c2.len() as int) =~= c2);
                lemma_terms_value_extend(ts, c2, c3, env);
                lemma_extends_trans(c3, c2, cols);
                assert(c3.drop_last() =~= c2);
                lemma_zero_real_value();
                assert(c3[c2.len() as int].0 == n);
            },
        }
    }
}

proof fn lemma_zero_real_value()
    ensures
        real_value(int_dec(0)) == 0real,
{
    lemma_small_reals();
}

/// The rows of the constraints: each is its constraint. The columns after
/// the constraints extend those before them, keep their costs, and each row
/// `i` has the comparison of the `i`-th constraint `lhs op rhs` and, for
/// every value of the variables, terms worth the simplified left-hand side
/// of its generalization; so the row holds exactly when the constraint
/// does, where the simplifications on the way drop only zero literals.
pub proof fn law_minilp_rows_meaning(
    cols0: Seq<(Seq<char>, VarWithCoeff)>,
    cs: Seq<(Term, Constraint, Term)>,
    i: int,
    env: spec_fn(Seq<char>) -> real,
)
    requires
        minilp_rows(cols0, cs) matches Some(Ok(_)),
        0 <= i < cs.len(),
        (minilp_rows(cols0, cs)->0->Ok_0).0.len() <= usize::MAX,
    ensures
        ({
            let (cols, rows) = minilp_rows(cols0, cs)->0->Ok_0;
            let c = cs[i];
            let g = generalized(c.0, c.1, c.2);
            &&& rows.len() == cs.len()
            &&& extends(cols, cols0)
            &&& linear_value(cols, env) == linear_value(cols0, env)
            &&& rows[i].1 == c.1
            &&& terms_value(rows[i].0, cols, env) == value(simplified(g.0), env)
            &&& simplify_exact(mk_sub(c.0, c.2)) && simplify_exact(g.0) ==> (holds(
                c.1,
                value(c.0, env),
                value(c.2, env),
            ) <==> holds(c.1, terms_value(rows[i].0, cols, env), real_value(rows[i].2)))
        }),
{
    lemma_minilp_rows_value(cols0, cs, env);
    let (cols, rows) = minilp_rows(cols0, cs)->0->Ok_0;
    let c = cs[i];
    assert(row_is(rows[i], cs[i], cols, env));
    let g = generalized(c.0, c.1, c.2);
    if simplify_exact(mk_sub(c.0, c.2)) && simplify_exact(g.0) {
        law_generalize_keeps_meaning(c.0, c.1, c.2, env);
        law_simplify_keeps_value(g.0, env);
    }
}

/// Row `r` is the constraint `c` over the columns `cols`: same comparison,
/// the literal of its generalization as the bound, terms among the columns
/// worth the simplified left-hand side of its generalization.
pub open spec fn row_is(r: RowModel, c: (Term, Constraint, Term), cols: Seq<(Seq<char>, VarWithCoeff)>, env: spec_fn(Seq<char>) -> real) -> bool {
    let g = generalized(c.0, c.1, c.2);
    &&& simplify_halts(mk_sub(c.0, c.2))
    &&& simplify_halts(g.0)
    &&& r.1 == c.1
    &&& g.2 is Lit && r.2 == g.2->Lit_0
    &&& terms_in(r.0, cols.len())
    &&& terms_value(r.0, cols, env) == value(simplified(g.0), env)
}

proof fn lemma_minilp_rows_value(cols0: Seq<(Seq<char>, VarWithCoeff)>, cs: Seq<(Term, Constraint, Term)>, env: spec_fn(Seq<char>) -> real)
    requires
        minilp_rows(cols0, cs) matches Some(Ok(_)),
        (minilp_rows(cols0, cs)->0->Ok_0).0.len() <= usize::MAX,
    ensures
        ({
            let (cols, rows) = minilp_rows(cols0, cs)->0->Ok_0;
            &&& rows.len() == cs.len()
            &&& extends(cols, cols0)
            &&& linear_value(cols, env) == linear_value(cols0, env)
            &&& forall|j: int| 0 <= j < cs.len() ==> #[trigger] row_is(rows[j], cs[j], cols, env)
        }),
    decreases cs.len(),
{
    reveal(minilp_rows);
    if cs.len() == 0 {
        assert(cols0.take(cols0.len() as int) =~= cols0);
    } else {
        let (cols, rows) = minilp_rows(cols0, cs)->0->Ok_0;
        let (c1, r1) = minilp_rows(cols0, cs.drop_last())->0->Ok_0;
        let c = cs.last();
        let g = generalized(c.0, c.1, c.2);
        let dec = decomposition(g.0)->0->Ok_0;
        let pt = place_terms(c1, dec);
        assert(cols == pt.0 && rows == r1.push((pt.1, g.1, g.2->Lit_0)));
        lemma_place_terms_value(c1, dec, env);
        assert(c1.len() <= cols.len());
        lemma_minilp_rows_value(cols0, cs.drop_last(), env);
        lemma_extends_trans(cols, c1, cols0);
        law_decomposition_value(g.0, env);
        assert forall|j: int| 0 <= j < cs.len() implies #[trigger] row_is(rows[j], cs[j], cols, env) by {
            if j < cs.len() - 1 {
                assert(cs.drop_last()[j] == cs[j]);
                assert(rows[j] == r1[j]);
                assert(row_is(r1[j], cs.drop_last()[j], c1, env));
                lemma_terms_value_extend(r1[j].0, c1, cols, env);
            } else {
                assert(cs[j] == c);
            }
        }
    }
}

/// The columns of the minilp problem carry the objective: for every value
/// of the variables, the sum of each column's cost times the value of its
/// variable is the value of the simplified objective (the columns the
/// constraints add cost nothing).
pub proof fn law_minilp_objective(dir: LpObjective, o: Term, cs: Seq<(Term, Constraint, Term)>, env: spec_fn(Seq<char>) -> real)
    requires
        minilp_model(dir, Some(o), cs) matches Some(Ok(_)),
        (minilp_model(dir, Some(o), cs)->0->Ok_0).1.len() <= usize::MAX,
    ensures
        (minilp_model(dir, Some(o), cs)->0->Ok_0).0 == dir,
        linear_value((minilp_model(dir, Some(o), cs)->0->Ok_0).1, env) == value(simplified(o), env),
{
    let cols0 = decomposition(o)->0->Ok_0;
    law_decomposition_value(o, env);
    lemma_minilp_rows_value(cols0, cs, env);
}

pub proof fn lemma_minilp_rows_stop(cols0: Seq<(Seq<char>, VarWithCoeff)>, cs: Seq<(Term, Constraint, Term)>, i: int, j: int)
    requires
        0 <= i <= j <= cs.len(),
        !(minilp_rows(cols0, cs.take(i)) matches Some(Ok(_))),
    ensures
        minilp_rows(cols0, cs.take(j)) == minilp_rows(cols0, cs.take(i)),
    decreases j - i,
{
    if j > i {
        lemma_minilp_rows_stop(cols0, cs, i, j - 1);
        assert(cs.take(j).drop_last() =~= cs.take(j - 1));
        reveal(minilp_rows);
    }
}

/// The columns and rows after one more constraint.
pub proof fn lemma_minilp_rows_step(cols0: Seq<(Seq<char>, VarWithCoeff)>, cs: Seq<(Term, Constraint, Term)>, i: int)
    requires
        0 <= i < cs.len(),
    ensures
        minilp_rows(cols0, cs.take(i + 1)) == (match minilp_rows(cols0, cs.take(i)) {
            Some(Ok((cols, rows))) => {
                let c = cs[i];
                if !simplify_halts(mk_sub(c.0, c.2)) {
                    None
                } else {
                    let g = generalized(c.0, c.1, c.2);
                    if g.2 is Lit {
                        match decomposition(g.0) {
                            None => None,
                            Some(Err(f)) => Some(Err(ModelFailure::Decompose(f))),
                            Some(Ok(dec)) => {
                                let pt = place_terms(cols, dec);
                                Some(Ok((pt.0, rows.push((pt.1, g.1, g.2->Lit_0)))))
                            },
                        }
                    } else {
                        Some(Err(ModelFailure::GeneralizationFailed))
                    }
                }
            },
            other => other,
        }),
{
    assert(cs.take(i + 1).drop_last() =~= cs.take(i));
    reveal(minilp_rows);
}

pub proof fn lemma_minilp_rows_empty(cols0: Seq<(Seq<char>, VarWithCoeff)>, cs: Seq<(Term, Constraint, Term)>)
    ensures
        minilp_rows(cols0, cs.take(0)) == Some(Ok::<(Seq<(Seq<char>, VarWithCoeff)>, Seq<RowModel>), ModelFailure>((cols0, seq![]))),
{
    reveal(minilp_rows);
}

/// A row of the minilp problem.
#[derive(Debug)]
pub struct MiniLpRow {
    pub terms: Vec<(usize, Decimal)>,
    pub op: Constraint,
    pub rhs: Decimal,
}

impl View for MiniLpRow {
    type V = RowModel;

    open spec fn view(&self) -> RowModel {
        (self.terms@, self.op, self.rhs)
    }
}

/// The problem handed to minilp: the sense of the objective, the columns
/// (a variable, its cost and bounds) and the rows.
#[derive(Debug)]
pub struct MiniLpModel {
    pub direction: LpObjective,
    pub columns: VarList,
    pub rows: Vec<MiniLpRow>,
}

/// Why a problem cannot be handed to minilp.
#[derive(Debug)]
pub enum ModelError {
    MissingObjective,
    Decompose(DecomposeError),
    GeneralizationFailed,
}

impl View for ModelError {
    type V = ModelFailure;

    open spec fn view(&self) -> ModelFailure {
        match self {
            ModelError::MissingObjective => ModelFailure::MissingObjective,
            ModelError::Decompose(e) => ModelFailure::Decompose(e@),
            ModelError::GeneralizationFailed => ModelFailure::GeneralizationFailed,
        }
    }
}

impl VarList {
    /// Index of the column of `name`, a new free column at the end where it
    /// has none.
    fn index_or_insert(&mut self, name: &String) -> (r: usize)
        ensures
            match name_index(old(self)@, name@) {
                Some(i) => r == i && final(self)@ == old(self)@,
                None => r == old(self)@.len() && final(self)@ == old(self)@.push((name@, free_entry())),
            },
    {
        match self.find(name) {
            Some(i) => i,
            None => {
                let ghost before = self@;
                let n = self.entries.len();
                self.entries.push((name.clone(), VarWithCoeff { coefficient: Decimal::from_i32(0), min: None, max: None }));
                proof {
                    assert(self@ =~= before.push((name@, free_entry())));
                }
                n
            },
        }
    }
}

/// Places the variables of `dec` among `cols`; see `place_terms`.
fn place_terms_exec(cols: &mut VarList, dec: &VarList) -> (r: Vec<(usize, Decimal)>)
    ensures
        place_terms(old(cols)@, dec@) == (final(cols)@, r@),
{
    let ghost c0 = cols@;
    let mut ts: Vec<(usize, Decimal)> = Vec::new();
    let mut j: usize = 0;
    let es = dec.entries();
    proof {
        assert(dec@.take(0) =~= Seq::<(Seq<char>, VarWithCoeff)>::empty());
    }
    while j < es.len()
        invariant
            j <= es.len(),
            entries_model(es@) == dec@,
            place_terms(c0, dec@.take(j as int)) == (cols@, ts@),
        decreases es.len() - j,
    {
        proof {
            assert(dec@.take(j + 1).drop_last() =~= dec@.take(j as int));
            assert(dec@.take(j + 1).last() == (es@[j as int].0@, es@[j as int].1));
        }
        let i = cols.index_or_insert(&es[j].0);
        ts.push((i, es[j].1.coefficient));
        j = j + 1;
    }
    proof {
        assert(dec@.take(j as int) =~= dec@);
    }
    ts
}

/// The minilp problem of a problem; see `minilp_model`.
pub fn problem_to_minilp(pb: &LpProblem) -> (r: Result<MiniLpModel, ModelError>)
    requires
        minilp_model(pb.objective_type, opt_model(pb.obj_expr), constraint_models(pb.constraints@)) is Some,
    ensures
        match minilp_model(pb.objective_type, opt_model(pb.obj_expr), constraint_models(pb.constraints@))->0 {
            Ok((d, cols, rows)) => r matches Ok(m) && m.direction == d && m.columns@ == cols
                && m.rows@.map_values(|x: MiniLpRow| x@) == rows,
            Err(f) => r matches Err(g) && g@ == f,
        },
{
    let objective = match &pb.obj_expr {
        Some(o) => o,
        None => {
            return Err(ModelError::MissingObjective);
        },
    };
    let mut columns = match decompose_expression(objective) {
        Ok(l) => l,
        Err(g) => {
            return Err(ModelError::Decompose(g));
        },
    };
    let ghost cols0 = columns@;
    let ghost cs = constraint_models(pb.constraints@);
    let mut rows: Vec<MiniLpRow> = Vec::new();
    let mut i: usize = 0;
    proof {
        lemma_minilp_rows_empty(cols0, cs);
        assert(rows@.map_values(|x: MiniLpRow| x@) =~= Seq::<RowModel>::empty());
    }
    while i < pb.constraints.len()
        invariant
            i <= pb.constraints.len(),
            cs == constraint_models(pb.constraints@),
            minilp_rows(cols0, cs.take(i as int)) == Some(
                Ok::<(Seq<(Seq<char>, VarWithCoeff)>, Seq<RowModel>), ModelFailure>(
                    (columns@, rows@.map_values(|x: MiniLpRow| x@)),
                ),
            ),
            minilp_rows(cols0, cs) is Some,
            minilp_model(pb.objective_type, opt_model(pb.obj_expr), constraint_models(pb.constraints@)) == (match minilp_rows(cols0, cs) {
                None => None,
                Some(Err(f)) => Some(Err(f)),
                Some(Ok((cols, rows))) => Some(Ok((pb.objective_type, cols, rows))),
            }),
        decreases pb.constraints.len() - i,
    {
        let c = &pb.constraints[i];
        let ghost prev_rows = rows@.map_values(|x: MiniLpRow| x@);
        proof {
            lemma_minilp_rows_step(cols0, cs, i as int);
            assert(cs[i as int] == c@);
            if !simplify_halts(mk_sub(c.0@, c.2@)) {
                lemma_minilp_rows_stop(cols0, cs, i + 1, cs.len() as int);
                assert(cs.take(cs.len() as int) =~= cs);
            }
        }
        let g = c.generalize();
        let rhs = match &g.2 {
            LpExpression::LitVal(k) => *k,
            _ => {
                proof {
                    lemma_minilp_rows_stop(cols0, cs, i + 1, cs.len() as int);
                    assert(cs.take(cs.len() as int) =~= cs);
                }
                return Err(ModelError::GeneralizationFailed);
            },
        };
        proof {
            if !simplify_halts(g.0@) {
                lemma_minilp_rows_stop(cols0, cs, i + 1, cs.len() as int);
                assert(cs.take(cs.len() as int) =~= cs);
            }
        }
        let dec = match decompose_expression(&g.0) {
            Ok(l) => l,
            Err(e) => {
                proof {
                    lemma_minilp_rows_stop(cols0, cs, i + 1, cs.len() as int);
                    assert(cs.take(cs.len() as int) =~= cs);
                }
                return Err(ModelError::Decompose(e));
            },
        };
        let terms = place_terms_exec(&mut columns, &dec);
        let row = MiniLpRow { terms, op: g.1, rhs };
        rows.push(row);
        proof {
            assert(rows@.map_values(|x: MiniLpRow| x@) =~= prev_rows.push(row@));
        }
        i = i + 1;
    }
    proof {
        assert(cs.take(i as int) =~= cs);
    }
    Ok(MiniLpModel { direction: pb.objective_type, columns, rows })
}

/// The values of a solution given by column index: each recorded under
/// the name of its column, a later one replacing an earlier one; an error
/// for an index without a column.
pub open spec fn named_values(cols: Seq<(Seq<char>, VarWithCoeff)>, vals: Seq<(usize, Number)>) -> Result<Map<Seq<char>, Number>, Seq<char>>
    decreases vals.len(),
{
    if vals.len() == 0 {
        Ok(Map::empty())
    } else {
        match named_values(cols, vals.drop_last()) {
            Err(e) => Err(e),
            Ok(m) => {
                let i = vals.last().0;
                if i < cols.len() {
                    Ok(m.insert(cols[i as int].0, vals.last().1))
                } else {
                    Err("missing variable name"@)
                }
            },
        }
    }
}

proof fn lemma_named_values_stop(cols: Seq<(Seq<char>, VarWithCoeff)>, vals: Seq<(usize, Number)>, i: int, j: int)
    requires
        0 <= i <= j <= vals.len(),
        named_values(cols, vals.take(i)) is Err,
    ensures
        named_values(cols, vals.take(j)) == named_values(cols, vals.take(i)),
    decreases j - i,
{
    if j > i {
        lemma_named_values_stop(cols, vals, i, j - 1);
        assert(vals.take(j).drop_last() =~= vals.take(j - 1));
    }
}

impl MiniLpModel {
    /// The values of a solution of this problem, given by column index;
    /// see `named_values`.
    pub fn solution_values(&self, values: &Vec<(usize, Number)>) -> (r: Result<ValueMap, String>)
        ensures
            match named_values(self.columns@, values@) {
                Ok(m) => r matches Ok(v) && v@ == m,
                Err(e) => r matches Err(msg) && msg@ == e,
            },
    {
        let cols = self.columns.entries();
        let mut out = ValueMap::new();
        let mut j: usize = 0;
        proof {
            assert(values@.take(0) =~= Seq::<(usize, Number)>::empty());
        }
        while j < values.len()
            invariant
                j <= values.len(),
                entries_model(cols@) == self.columns@,
                named_values(self.columns@, values@.take(j as int)) == Ok::<Map<Seq<char>, Number>, Seq<char>>(out@),
            decreases values.len() - j,
        {
            proof {
                assert(values@.take(j + 1).drop_last() =~= values@.take(j as int));
                assert(values@.take(j + 1).last() == values@[j as int]);
            }
            let (i, v) = values[j];
            if i >= cols.len() {
                proof {
                    lemma_named_values_stop(self.columns@, values@, j + 1, values.len() as int);
                    assert(values@.take(values.len() as int) =~= values@);
                }
                return Err("missing variable name".to_owned());
            }
            proof {
                assert(self.columns@[i as int].0 == cols@[i as int].0@);
            }
            out.insert(cols[i].0.clone(), v);
            j = j + 1;
        }
        proof {
            assert(values@.take(j as int) =~= values@);
        }
        Ok(out)
    }
}

/// Solver that hands a problem to the minilp crate.
#[derive(Debug)]
pub struct MiniLpSolver;

impl MiniLpSolver {
    pub fn new() -> (r: MiniLpSolver) {
        MiniLpSolver
    }
}


} // verus!
