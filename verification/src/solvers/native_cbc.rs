//! The CBC solver called through its library: the columns, rows and
//! objective handed to it, built from the variables, the generalized
//! constraints and the objective of a problem.

use vstd::prelude::*;

use crate::dsl::problem::{
    all_vars, constraint_models, find_name, lemma_find_name, lemma_find_name_found, opt_model, problem_variables, var_name,
    var_name_of, LpObjective, LpProblem,
};
use crate::dsl::simplify::{mk_sub, simplified, simplify_halts, try_simplify};
use crate::dsl::variables::{generalized, split_constant, split_constant_and_expr, terms_of, Constraint, LpExpression, Term};
use crate::num::{
    dec_mul, dec_neg, int_dec, lemma_mul_real, lemma_neg_real, lemma_one_real, real_value, Decimal,
};
use crate::dsl::semantics::{holds, law_generalize_keeps_meaning, law_simplify_keeps_value, simplify_exact, value};
use crate::solvers::{SolverModel, Status, WithMaxSeconds, WithNbThreads};

verus! {

/// Kind of a column of the model.
#[derive(Debug, Clone, Copy, PartialEq, Eq, Structural)]
pub enum ColumnKind {
    Integer,
    Continuous,
    Binary,
}

/// A column of the model: the variable's name, kind and bounds (`None`
/// where it has none).
#[derive(Debug)]
pub struct CbcColumn {
    pub name: String,
    pub kind: ColumnKind,
    pub lower: Option<Decimal>,
    pub upper: Option<Decimal>,
}

pub type ColumnModel = (Seq<char>, ColumnKind, Option<Decimal>, Option<Decimal>);

impl View for CbcColumn {
    type V = ColumnModel;

    open spec fn view(&self) -> ColumnModel {
        (self.name@, self.kind, self.lower, self.upper)
    }
}

/// The column of a variable: integer and continuous variables keep their
/// bounds, binary ones have none.
pub open spec fn column_of(t: Term) -> ColumnModel {
    match t {
        Term::Int(v) => (v.name, ColumnKind::Integer, v.lower, v.upper),
        Term::Cont(v) => (v.name, ColumnKind::Continuous, v.lower, v.upper),
        _ => (var_name(t), ColumnKind::Binary, None, None),
    }
}

/// The weights of the variables of a simplified expression, each multiplied
/// by `f`, in the order they appear: the index of the variable among `vars`
/// and its coefficient. `None` for a product whose left factor is not a
/// literal, a literal or empty term, a variable not among `vars`, or a
/// coefficient that is not representable.
pub open spec fn weights_of(t: Term, f: Decimal, vars: Seq<Term>) -> Option<Seq<(usize, Decimal)>>
    decreases t,
{
    match t {
        Term::Int(_) | Term::Bin(_) | Term::Cont(_) => {
            let k = find_name(vars, var_name(t));
            if k >= 0 {
                Some(seq![(k as usize, f)])
            } else {
                None
            }
        },
        Term::Mul(a, b) => if *a is Lit {
            match dec_mul(f, a->Lit_0) {
                Some(g) => weights_of(*b, g, vars),
                None => None,
            }
        } else {
            None
        },
        Term::Add(a, b) => match (weights_of(*a, f, vars), weights_of(*b, f, vars)) {
            (Some(x), Some(y)) => Some(x + y),
            _ => None,
        },
        Term::Sub(a, b) => match (weights_of(*a, f, vars), weights_of(*b, dec_neg(f), vars)) {
            (Some(x), Some(y)) => Some(x + y),
            _ => None,
        },
        _ => None,
    }
}

/// The value of a list of weights: each weight times the value that `env`
/// gives the variable of its column among `vars`.
pub open spec fn weighted_value(ws: Seq<(usize, Decimal)>, vars: Seq<Term>, env: spec_fn(Seq<char>) -> real) -> real
    decreases ws.len(),
{
    if ws.len() == 0 {
        0real
    } else {
        weighted_value(ws.drop_last(), vars, env) + real_value(ws.last().1) * env(var_name(vars[ws.last().0 as int]))
    }
}

proof fn lemma_weighted_value_concat(x: Seq<(usize, Decimal)>, y: Seq<(usize, Decimal)>, vars: Seq<Term>, env: spec_fn(Seq<char>) -> real)
    ensures
        weighted_value(x + y, vars, env) == weighted_value(x, vars, env) + weighted_value(y, vars, env),
    decreases y.len(),
{
    if y.len() == 0 {
        assert(x + y =~= x);
    } else {
        assert((x + y).drop_last() =~= x + y.drop_last());
        lemma_weighted_value_concat(x, y.drop_last(), vars, env);
    }
}

/// The weights of `t` times `f` are worth `f` times the value of `t`, for
/// every value of the variables: a variable subtracted gets the opposite
/// weight.
pub proof fn law_weights_value(t: Term, f: Decimal, vars: Seq<Term>, env: spec_fn(Seq<char>) -> real)
    requires
        weights_of(t, f, vars) is Some,
        vars.len() <= usize::MAX,
    ensures
        weighted_value(weights_of(t, f, vars)->0, vars, env) == real_value(f) * value(t, env),
    decreases t,
{
    match t {
        Term::Int(_) | Term::Bin(_) | Term::Cont(_) => {
            let k = find_name(vars, var_name(t));
            lemma_find_name_found(vars, var_name(t));
            let ws = seq![(k as usize, f)];
            assert(ws.drop_last() =~= Seq::<(usize, Decimal)>::empty());
            assert((k as usize) as int == k);
            assert(ws.last() == (k as usize, f));
            assert(weighted_value(Seq::<(usize, Decimal)>::empty(), vars, env) == 0real);
            assert(weights_of(t, f, vars) == Some(ws));
            assert(weighted_value(ws, vars, env) == real_value(f) * env(var_name(vars[k])));
            assert(var_name(vars[k]) == var_name(t));
            assert(value(t, env) == env(var_name(t)));
        },
        Term::Mul(a, b) => {
            assert(*a is Lit);
            let c = a->Lit_0;
            let g = dec_mul(f, c)->0;
            assert(value(*a, env) == real_value(c));
            lemma_mul_real(f, c);
            law_weights_value(*b, g, vars, env);
            assert(value(t, env) == real_value(c) * value(*b, env));
            assert(real_value(g) * value(*b, env) == real_value(f) * (real_value(c) * value(*b, env))) by (nonlinear_arith)
                requires
                    real_value(g) == real_value(f) * real_value(c),
            ;
        },
        Term::Add(a, b) => {
            law_weights_value(*a, f, vars, env);
            law_weights_value(*b, f, vars, env);
            lemma_weighted_value_concat(weights_of(*a, f, vars)->0, weights_of(*b, f, vars)->0, vars, env);
            assert(real_value(f) * (value(*a, env) + value(*b, env)) == real_value(f) * value(*a, env) + real_value(f)
                * value(*b, env)) by (nonlinear_arith);
        },
        Term::Sub(a, b) => {
            law_weights_value(*a, f, vars, env);
            law_weights_value(*b, dec_neg(f), vars, env);
            lemma_neg_real(f);
            lemma_weighted_value_concat(weights_of(*a, f, vars)->0, weights_of(*b, dec_neg(f), vars)->0, vars, env);
            assert(real_value(f) * (value(*a, env) - value(*b, env)) == real_value(f) * value(*a, env) + (-real_value(f))
                * value(*b, env)) by (nonlinear_arith);
        },
        _ => {},
    }
}

/// The weights of an expression are the expression: for every value of the
/// variables, the sum of each weight times the value of its variable is the
/// value of the simplified expression, and so of the expression itself
/// when its simplification drops only zero literals.
pub proof fn law_expr_weights_value(t: Term, vars: Seq<Term>, env: spec_fn(Seq<char>) -> real)
    requires
        expr_weights(t, vars) is Some,
        vars.len() <= usize::MAX,
    ensures
        weighted_value(expr_weights(t, vars)->0, vars, env) == value(simplified(t), env),
        simplify_exact(t) ==> weighted_value(expr_weights(t, vars)->0, vars, env) == value(t, env),
{
    lemma_one_real();
    law_weights_value(simplified(t), int_dec(1), vars, env);
    if simplify_exact(t) {
        law_simplify_keeps_value(t, env);
    }
}

/// Weights of an expression once simplified; `None` where the
/// simplification does not stop or `weights_of` gives none.
pub open spec fn expr_weights(t: Term, vars: Seq<Term>) -> Option<Seq<(usize, Decimal)>> {
    if simplify_halts(t) {
        weights_of(simplified(t), int_dec(1), vars)
    } else {
        None
    }
}

/// Row model: the comparison, the bound and the weights.
pub type CbcRowModel = (Constraint, Decimal, Seq<(usize, Decimal)>);

/// The rows of the constraints `cs`: each generalized, its literal as the
/// bound and the weights of its expression; `None` where the reading
/// panics or a simplification does not stop.
pub open spec fn cbc_rows(vars: Seq<Term>, cs: Seq<(Term, Constraint, Term)>) -> Option<Seq<CbcRowModel>>
    decreases cs.len(),
{
    if cs.len() == 0 {
        Some(seq![])
    } else {
        match cbc_rows(vars, cs.drop_last()) {
            None => None,
            Some(rows) => {
                let c = cs.last();
                if !simplify_halts(mk_sub(c.0, c.2)) {
                    None
                } else {
                    let g = generalized(c.0, c.1, c.2);
                    if !(g.2 is Lit) {
                        None
                    } else {
                        match expr_weights(g.0, vars) {
                            None => None,
                            Some(w) => Some(rows.push((g.1, g.2->Lit_0, w))),
                        }
                    }
                }
            },
        }
    }
}

/// Each row of the model is its constraint: the row of the `i`-th
/// constraint `lhs op rhs` has the comparison `op` and, for every value of
/// the variables, holds (its weights times the values of their variables,
/// compared with its bound) exactly when the constraint holds, where the
/// simplifications on the way drop only zero literals.
pub proof fn law_cbc_row_meaning(vars: Seq<Term>, cs: Seq<(Term, Constraint, Term)>, i: int, env: spec_fn(Seq<char>) -> real)
    requires
        cbc_rows(vars, cs) is Some,
        0 <= i < cs.len(),
        vars.len() <= usize::MAX,
    ensures
        cbc_rows(vars, cs)->0.len() == cs.len(),
        cbc_rows(vars, cs)->0[i].0 == cs[i].1,
        ({
            let row = cbc_rows(vars, cs)->0[i];
            let c = cs[i];
            let g = generalized(c.0, c.1, c.2);
            &&& weighted_value(row.2, vars, env) == value(simplified(g.0), env)
            &&& simplify_exact(mk_sub(c.0, c.2)) && simplify_exact(g.0) ==> (holds(
                c.1,
                value(c.0, env),
                value(c.2, env),
            ) <==> holds(c.1, weighted_value(row.2, vars, env), real_value(row.1)))
        }),
    decreases cs.len(),
{
    lemma_cbc_rows_len(vars, cs);
    if i < cs.len() - 1 {
        lemma_cbc_rows_len(vars, cs.drop_last());
        assert(cs.drop_last()[i] == cs[i]);
        law_cbc_row_meaning(vars, cs.drop_last(), i, env);
        assert(cbc_rows(vars, cs)->0[i] == cbc_rows(vars, cs.drop_last())->0[i]);
    } else {
        let c = cs[i];
        let g = generalized(c.0, c.1, c.2);
        law_expr_weights_value(g.0, vars, env);
        if simplify_exact(mk_sub(c.0, c.2)) {
            law_generalize_keeps_meaning(c.0, c.1, c.2, env);
        }
    }
}

proof fn lemma_cbc_rows_len(vars: Seq<Term>, cs: Seq<(Term, Constraint, Term)>)
    requires
        cbc_rows(vars, cs) is Some,
    ensures
        cbc_rows(vars, cs)->0.len() == cs.len(),
        cs.len() > 0 ==> cbc_rows(vars, cs.drop_last()) is Some,
    decreases cs.len(),
{
    if cs.len() > 0 {
        lemma_cbc_rows_len(vars, cs.drop_last());
    }
}

/// The model handed to CBC: the sense, one column per variable of the
/// constraints (see `problem_variables`), the rows, and the weights of the
/// objective; `None` where the building panics (a variable of a
/// generalized constraint or of the objective without a column) or a
/// simplification does not stop.
pub open spec fn cbc_model(sense: LpObjective, objective: Option<Term>, cs: Seq<(Term, Constraint, Term)>) -> Option<(LpObjective, Seq<ColumnModel>, Seq<CbcRowModel>, Seq<(usize, Decimal)>)> {
    let vars = problem_variables(cs);
    match cbc_rows(vars, cs) {
        None => None,
        Some(rows) => {
            let ow = match objective {
                None => Some(seq![]),
                Some(o) => expr_weights(o, vars),
            };
            match ow {
                None => None,
                Some(w) => Some((sense, vars.map_values(|t: Term| column_of(t)), rows, w)),
            }
        },
    }
}

/// The model handed to CBC is the problem: its sense; one column per
/// variable of the constraints, named after it, integer for an integer
/// variable, continuous for a continuous one (both with their bounds) and
/// binary without bounds for a binary one; and objective weights worth the
/// simplified objective for every value of the variables (the rows: see
/// `law_cbc_row_meaning`).
pub proof fn law_cbc_model(sense: LpObjective, objective: Option<Term>, cs: Seq<(Term, Constraint, Term)>, j: int, env: spec_fn(Seq<char>) -> real)
    requires
        cbc_model(sense, objective, cs) is Some,
        problem_variables(cs).len() <= usize::MAX,
    ensures
        ({
            let (sn, cols, rows, ow) = cbc_model(sense, objective, cs)->0;
            let vars = problem_variables(cs);
            &&& sn == sense
            &&& cols.len() == vars.len()
            &&& 0 <= j < vars.len() ==> (match vars[j] {
                Term::Int(v) => cols[j] == (v.name, ColumnKind::Integer, v.lower, v.upper),
                Term::Cont(v) => cols[j] == (v.name, ColumnKind::Continuous, v.lower, v.upper),
                Term::Bin(n) => cols[j] == (n, ColumnKind::Binary, None::<Decimal>, None::<Decimal>),
                _ => true,
            })
            &&& objective matches Some(o) ==> weighted_value(ow, vars, env) == value(simplified(o), env)
            &&& objective is None ==> ow.len() == 0
        }),
{
    if objective is Some {
        law_expr_weights_value(objective->0, problem_variables(cs), env);
    }
}

/// A row of the model.
#[derive(Debug)]
pub struct CbcRow {
    pub op: Constraint,
    pub bound: Decimal,
    pub weights: Vec<(usize, Decimal)>,
}

impl View for CbcRow {
    type V = CbcRowModel;

    open spec fn view(&self) -> CbcRowModel {
        (self.op, self.bound, self.weights@)
    }
}

/// The model handed to CBC.
#[derive(Debug)]
pub struct CbcModel {
    pub sense: LpObjective,
    pub columns: Vec<CbcColumn>,
    pub rows: Vec<CbcRow>,
    pub objective: Vec<(usize, Decimal)>,
}

/// The column of a variable; see `column_of`.
pub fn add_variable(e: &LpExpression) -> (r: CbcColumn)
    requires
        e@ is Int || e@ is Bin || e@ is Cont,
    ensures
        r@ == column_of(e@),
{
    match e {
        LpExpression::ConsInt(v) => CbcColumn {
            name: v.name.clone(),
            kind: ColumnKind::Integer,
            lower: v.lower_bound,
            upper: v.upper_bound,
        },
        LpExpression::ConsCont(v) => CbcColumn {
            name: v.name.clone(),
            kind: ColumnKind::Continuous,
            lower: v.lower_bound,
            upper: v.upper_bound,
        },
        _ => CbcColumn { name: var_name_of(e), kind: ColumnKind::Binary, lower: None, upper: None },
    }
}

/// Index of the first variable named `name`; see `find_name`.
fn var_index(vars: &Vec<LpExpression>, name: &String) -> (r: Option<usize>)
    requires
        all_vars(terms_of(vars@)),
    ensures
        r matches Some(k) ==> find_name(terms_of(vars@), name@) == k,
        r is None ==> find_name(terms_of(vars@), name@) == -1,
{
    let ghost d = terms_of(vars@);
    let mut i: usize = 0;
    while i < vars.len()
        invariant
            i <= vars.len(),
            d == terms_of(vars@),
            all_vars(d),
            forall|j: int| 0 <= j < i ==> var_name(#[trigger] d[j]) != name@,
        decreases vars.len() - i,
    {
        proof {
            assert(d[i as int] == vars@[i as int]@);
        }
        let n = var_name_of(&vars[i]);
        if n == *name {
            proof {
                lemma_find_name(d, name@, i as int);
            }
            return Some(i);
        }
        i = i + 1;
    }
    proof {
        lemma_find_name(d, name@, d.len() as int);
    }
    None
}

/// Weights of an expression; see `weights_of`.
fn weights_exec(e: &LpExpression, f: Decimal, vars: &Vec<LpExpression>) -> (r: Option<Vec<(usize, Decimal)>>)
    requires
        all_vars(terms_of(vars@)),
    ensures
        match weights_of(e@, f, terms_of(vars@)) {
            Some(w) => r matches Some(v) && v@ == w,
            None => r is None,
        },
    decreases e,
{
    match e {
        LpExpression::ConsInt(_) | LpExpression::ConsBin(_) | LpExpression::ConsCont(_) => {
            let n = var_name_of(e);
            match var_index(vars, &n) {
                Some(k) => {
                    let mut v: Vec<(usize, Decimal)> = Vec::new();
                    v.push((k, f));
                    proof {
                        assert(v@ =~= seq![(k, f)]);
                    }
                    Some(v)
                },
                None => None,
            }
        },
        LpExpression::MulExpr(a, b) => {
            if let LpExpression::LitVal(c) = &**a {
                proof {
                    assert((**a)@ == Term::Lit(*c));
                }
                match f.checked_mul(c) {
                    Some(g) => weights_exec(&**b, g, vars),
                    None => None,
                }
            } else {
                None
            }
        },
        LpExpression::AddExpr(a, b) => {
            let x = weights_exec(&**a, f, vars);
            let y = weights_exec(&**b, f, vars);
            match (x, y) {
                (Some(mut x), Some(mut y)) => {
                    let ghost xv = x@;
                    x.append(&mut y);
                    Some(x)
                },
                _ => None,
            }
        },
        LpExpression::SubExpr(a, b) => {
            let x = weights_exec(&**a, f, vars);
            let y = weights_exec(&**b, f.neg(), vars);
            match (x, y) {
                (Some(mut x), Some(mut y)) => {
                    x.append(&mut y);
                    Some(x)
                },
                _ => None,
            }
        },
        _ => None,
    }
}

pub proof fn lemma_cbc_rows_step(vars: Seq<Term>, cs: Seq<(Term, Constraint, Term)>, i: int)
    requires
        0 <= i < cs.len(),
    ensures
        cbc_rows(vars, cs.take(i + 1)) == (match cbc_rows(vars, cs.take(i)) {
            None => None,
            Some(rows) => {
                let c = cs[i];
                if !simplify_halts(mk_sub(c.0, c.2)) {
                    None
                } else {
                    let g = generalized(c.0, c.1, c.2);
                    if !(g.2 is Lit) {
                        None
                    } else {
                        match expr_weights(g.0, vars) {
                            None => None,
                            Some(w) => Some(rows.push((g.1, g.2->Lit_0, w))),
                        }
                    }
                }
            },
        }),
{
    assert(cs.take(i + 1).drop_last() =~= cs.take(i));
}

pub proof fn lemma_cbc_rows_stop(vars: Seq<Term>, cs: Seq<(Term, Constraint, Term)>, i: int, j: int)
    requires
        0 <= i <= j <= cs.len(),
        cbc_rows(vars, cs.take(i)) is None,
    ensures
        cbc_rows(vars, cs.take(j)) is None,
    decreases j - i,
{
    if j > i {
        lemma_cbc_rows_stop(vars, cs, i, j - 1);
        assert(cs.take(j).drop_last() =~= cs.take(j - 1));
    }
}

/// How a run of the CBC library ended.
#[derive(Debug, Clone, Copy, PartialEq, Eq, Structural)]
pub enum CbcRunStatus {
    Unlaunched,
    Finished,
    Stopped,
    Abandoned,
    UserEvent,
}

/// Status of the solution of a CBC library run: optimal when it finished,
/// infeasible when it was abandoned, not solved otherwise.
pub open spec fn run_status(s: CbcRunStatus) -> Status {
    match s {
        CbcRunStatus::Finished => Status::Optimal,
        CbcRunStatus::Abandoned => Status::Infeasible,
        _ => Status::NotSolved,
    }
}

/// Status of the solution of a CBC library run; see `run_status`.
pub fn solution_status(s: CbcRunStatus) -> (r: Status)
    ensures
        r == run_status(s),
{
    match s {
        CbcRunStatus::Finished => Status::Optimal,
        CbcRunStatus::Abandoned => Status::Infeasible,
        _ => Status::NotSolved,
    }
}

/// Solver that calls CBC through its library.
#[derive(Debug)]
pub struct NativeCbcSolver {
    name: String,
    threads: Option<u32>,
    seconds: Option<u32>,
}

impl View for NativeCbcSolver {
    type V = SolverModel;

    closed spec fn view(&self) -> SolverModel {
        SolverModel {
            name: self.name@,
            command: seq![],
            solution_file: seq![],
            threads: self.threads,
            seconds: self.seconds,
        }
    }
}

impl NativeCbcSolver {
    /// The solver named `CbcNative`, without limits.
    pub fn new() -> (r: NativeCbcSolver)
        ensures
            r@.name == "CbcNative"@,
            r@.threads is None,
            r@.seconds is None,
    {
        NativeCbcSolver { name: "CbcNative".to_owned(), threads: None, seconds: None }
    }

    /// The model of `problem`; see `cbc_model`. `None` where building it
    /// cannot go on (see `cbc_model`).
    pub fn try_model(&self, problem: &LpProblem) -> (r: Option<CbcModel>)
        ensures
            match cbc_model(problem.objective_type, opt_model(problem.obj_expr), constraint_models(problem.constraints@)) {
                Some(m) => r matches Some(x) && m == (x.sense, x.columns@.map_values(|c: CbcColumn| c@), x.rows@.map_values(|y: CbcRow| y@), x.objective@),
                None => r is None,
            },
    {
        let ghost cs = constraint_models(problem.constraints@);
        let vars = problem.variables();
        let ghost vt = terms_of(vars@);
        let mut columns: Vec<CbcColumn> = Vec::new();
        let mut i: usize = 0;
        while i < vars.len()
            invariant
                i <= vars.len(),
                vt == terms_of(vars@),
                all_vars(vt),
                columns@.map_values(|c: CbcColumn| c@) == vt.take(i as int).map_values(|t: Term| column_of(t)),
            decreases vars.len() - i,
        {
            let ghost prev = columns@.map_values(|c: CbcColumn| c@);
            proof {
                assert(vt[i as int] == vars@[i as int]@);
            }
            let col = add_variable(&vars[i]);
            columns.push(col);
            proof {
                assert(columns@.map_values(|c: CbcColumn| c@) =~= prev.push(col@));
                assert(vt.take(i + 1).map_values(|t: Term| column_of(t)) =~= vt.take(i as int).map_values(
                    |t: Term| column_of(t),
                ).push(column_of(vt[i as int])));
            }
            i = i + 1;
        }
        proof {
            assert(vt.take(i as int) =~= vt);
        }
        let mut rows: Vec<CbcRow> = Vec::new();
        let mut j: usize = 0;
        proof {
            assert(cs.take(0) =~= Seq::<(Term, Constraint, Term)>::empty());
            assert(rows@.map_values(|x: CbcRow| x@) =~= Seq::<CbcRowModel>::empty());
        }
        while j < problem.constraints.len()
            invariant
                j <= problem.constraints.len(),
                cs == constraint_models(problem.constraints@),
                vt == terms_of(vars@),
                vt == problem_variables(cs),
                all_vars(vt),
                cbc_rows(vt, cs.take(j as int)) == Some(rows@.map_values(|x: CbcRow| x@)),
            decreases problem.constraints.len() - j,
        {
            let c = &problem.constraints[j];
            let ghost prev = rows@.map_values(|x: CbcRow| x@);
            proof {
                lemma_cbc_rows_step(vt, cs, j as int);
                assert(cs[j as int] == c@);
            }
            let diff = LpExpression::SubExpr(Box::new(c.0.copy()), Box::new(c.2.copy()));
            let s = match try_simplify(&diff) {
                Some(s) => s,
                None => {
                    proof {
                        lemma_cbc_rows_stop(vt, cs, j + 1, cs.len() as int);
                        assert(cs.take(cs.len() as int) =~= cs);
                    }
                    return None;
                },
            };
            let (k, e) = split_constant_and_expr(&s);
            let bound = k.neg();
            let lhs = match try_simplify(&e) {
                Some(l) => l,
                None => {
                    proof {
                        lemma_cbc_rows_stop(vt, cs, j + 1, cs.len() as int);
                        assert(cs.take(cs.len() as int) =~= cs);
                    }
                    return None;
                },
            };
            let one = Decimal::from_i32(1);
            let weights = match weights_exec(&lhs, one, &vars) {
                Some(w) => w,
                None => {
                    proof {
                        lemma_cbc_rows_stop(vt, cs, j + 1, cs.len() as int);
                        assert(cs.take(cs.len() as int) =~= cs);
                    }
                    return None;
                },
            };
            let row = CbcRow { op: c.1, bound, weights };
            rows.push(row);
            proof {
                assert(rows@.map_values(|x: CbcRow| x@) =~= prev.push(row@));
            }
            j = j + 1;
        }
        proof {
            assert(cs.take(j as int) =~= cs);
        }
        let objective = match &problem.obj_expr {
            None => Vec::new(),
            Some(o) => {
                let s = match try_simplify(o) {
                    Some(s) => s,
                    None => {
                        return None;
                    },
                };
                let one = Decimal::from_i32(1);
                match weights_exec(&s, one, &vars) {
                    Some(w) => w,
                    None => {
                        return None;
                    },
                }
            },
        };
        proof {
            assert(columns@.map_values(|c: CbcColumn| c@) =~= vt.map_values(|t: Term| column_of(t)));
        }
        Some(CbcModel { sense: problem.objective_type, columns, rows, objective })
    }

    /// The model of `problem`; see `cbc_model`.
    pub fn model(&self, problem: &LpProblem) -> (r: CbcModel)
        requires
            cbc_model(problem.objective_type, opt_model(problem.obj_expr), constraint_models(problem.constraints@)) is Some,
        ensures
            cbc_model(problem.objective_type, opt_model(problem.obj_expr), constraint_models(problem.constraints@))
                == Some((r.sense, r.columns@.map_values(|c: CbcColumn| c@), r.rows@.map_values(|x: CbcRow| x@), r.objective@)),
    {
        self.try_model(problem).unwrap()
    }
}

impl WithMaxSeconds<NativeCbcSolver> for NativeCbcSolver {
    fn max_seconds(&self) -> (r: Option<u32>)
        ensures
            r == self@.seconds,
    {
        self.seconds
    }

    fn with_max_seconds(&self, seconds: u32) -> (r: NativeCbcSolver)
        ensures
            r@ == (SolverModel { seconds: Some(seconds), ..self@ }),
    {
        NativeCbcSolver { name: self.name.clone(), threads: self.threads, seconds: Some(seconds) }
    }
}

impl WithNbThreads<NativeCbcSolver> for NativeCbcSolver {
    fn nb_threads(&self) -> (r: Option<u32>)
        ensures
            r == self@.threads,
    {
        self.threads
    }

    fn with_nb_threads(&self, threads: u32) -> (r: NativeCbcSolver)
        ensures
            r@ == (SolverModel { threads: Some(threads), ..self@ }),
    {
        NativeCbcSolver { name: self.name.clone(), threads: Some(threads), seconds: self.seconds }
    }
}

} // verus!
