//! Solvers: their settings, the arguments of their command lines, the
//! reading of the solution files they write, and solutions.

pub mod cbc;
pub mod glpk;
pub mod gurobi;
pub mod minilp;
pub mod native_cbc;

use vstd::prelude::*;

use crate::dsl::problem::{is_uuid_text, random_uuid_text, LpProblem};
use crate::dsl::variables::{LpBinary, LpContinuous, LpExpression, LpInteger, Term};
use crate::solvers::cbc::cbc_row;
use crate::solvers::glpk::glpk_row;
use crate::solvers::gurobi::gurobi_row;
use crate::text::{chars_of_str, push_str, string_from_chars};
use crate::dsl::semantics::value;
use crate::num::{
    dec_add, dec_is_zero, dec_mul, dec_neg, dec_sub, dec_trunc, int_dec, lemma_add_real, lemma_fin_add_exact,
    lemma_fin_mul_exact, lemma_mul_real, lemma_small_reals, lemma_sub_real, num_add, num_mul,
    num_sub, number_add, number_mul, number_sub, real_value, sat_i32, Decimal, Number,
    lemma_is_zero_real, lemma_one_real, lemma_int_dec_real,
};

verus! {

/// Outcome of a solver run.
#[derive(Debug, PartialEq, Eq, Structural, Clone, Copy)]
pub enum Status {
    Optimal,
    SubOptimal,
    Infeasible,
    Unbounded,
    NotSolved,
}

/// Map of the pairs in `s`, later pairs replacing earlier ones of the same
/// name.
pub open spec fn pairs_map(s: Seq<(Seq<char>, Number)>) -> Map<Seq<char>, Number>
    decreases s.len(),
{
    if s.len() == 0 {
        Map::empty()
    } else {
        pairs_map(s.drop_last()).insert(s.last().0, s.last().1)
    }
}

/// Values of variables by name.
#[derive(Debug)]
pub struct ValueMap {
    entries: Vec<(String, Number)>,
}

pub open spec fn entry_models(v: Seq<(String, Number)>) -> Seq<(Seq<char>, Number)> {
    v.map_values(|p: (String, Number)| (p.0@, p.1))
}

pub open spec fn distinct_names(s: Seq<(Seq<char>, Number)>) -> bool {
    forall|i: int, j: int| 0 <= i < j < s.len() ==> #[trigger] s[i].0 != #[trigger] s[j].0
}

pub proof fn lemma_pairs_map_dom(s: Seq<(Seq<char>, Number)>, k: Seq<char>)
    ensures
        pairs_map(s).contains_key(k) <==> exists|i: int| 0 <= i < s.len() && #[trigger] s[i].0 == k,
    decreases s.len(),
{
    if s.len() > 0 {
        lemma_pairs_map_dom(s.drop_last(), k);
        if pairs_map(s).contains_key(k) && s.last().0 != k {
            let i = choose|i: int| 0 <= i < s.drop_last().len() && #[trigger] s.drop_last()[i].0 == k;
            assert(s[i].0 == k);
        }
        if exists|i: int| 0 <= i < s.len() && #[trigger] s[i].0 == k {
            let i = choose|i: int| 0 <= i < s.len() && #[trigger] s[i].0 == k;
            if i < s.len() - 1 {
                assert(s.drop_last()[i].0 == k);
            }
        }
    }
}

pub proof fn lemma_pairs_map_value(s: Seq<(Seq<char>, Number)>, i: int)
    requires
        distinct_names(s),
        0 <= i < s.len(),
    ensures
        pairs_map(s).contains_key(s[i].0),
        pairs_map(s)[s[i].0] == s[i].1,
    decreases s.len(),
{
    if i < s.len() - 1 {
        assert(distinct_names(s.drop_last()));
        assert(s.drop_last()[i] == s[i]);
        lemma_pairs_map_value(s.drop_last(), i);
        assert(s[i].0 != s.last().0);
    }
}

pub proof fn lemma_pairs_map_update(s: Seq<(Seq<char>, Number)>, i: int, k: Seq<char>, v: Number)
    requires
        distinct_names(s),
        0 <= i < s.len(),
        s[i].0 == k,
    ensures
        pairs_map(s.update(i, (k, v))) == pairs_map(s).insert(k, v),
    decreases s.len(),
{
    let s2 = s.update(i, (k, v));
    if i == s.len() - 1 {
        assert(s2.drop_last() =~= s.drop_last());
        assert(pairs_map(s2) =~= pairs_map(s).insert(k, v));
    } else {
        assert(s2.drop_last() =~= s.drop_last().update(i, (k, v)));
        assert(distinct_names(s.drop_last()));
        lemma_pairs_map_update(s.drop_last(), i, k, v);
        assert(s.last().0 != k);
        assert(pairs_map(s2) =~= pairs_map(s).insert(k, v));
    }
}

impl View for ValueMap {
    type V = Map<Seq<char>, Number>;

    closed spec fn view(&self) -> Map<Seq<char>, Number> {
        pairs_map(entry_models(self.entries@))
    }
}

impl ValueMap {
    #[verifier::type_invariant]
    closed spec fn wf(self) -> bool {
        distinct_names(entry_models(self.entries@))
    }

    /// The empty map.
    pub fn new() -> (r: ValueMap)
        ensures
            r@ == Map::<Seq<char>, Number>::empty(),
    {
        let r = ValueMap { entries: Vec::new() };
        assert(entry_models(r.entries@) =~= Seq::<(Seq<char>, Number)>::empty());
        r
    }

    /// Index of the entry named `name`.
    fn find(&self, name: &String) -> (r: Option<usize>)
        ensures
            r matches Some(i) ==> i < self.entries.len() && self.entries@[i as int].0@ == name@,
            r is None ==> forall|i: int| 0 <= i < self.entries.len() ==> #[trigger] self.entries@[i].0@ != name@,
    {
        let mut i: usize = 0;
        while i < self.entries.len()
            invariant
                i <= self.entries.len(),
                forall|j: int| 0 <= j < i ==> #[trigger] self.entries@[j].0@ != name@,
            decreases self.entries.len() - i,
        {
            if self.entries[i].0 == *name {
                return Some(i);
            }
            i = i + 1;
        }
        None
    }

    /// The value of `name`, if any.
    pub fn get(&self, name: &str) -> (r: Option<Number>)
        ensures
            r == (if self@.contains_key(name@) {
                Some(self@[name@])
            } else {
                None
            }),
    {
        proof {
            use_type_invariant(self);
            lemma_pairs_map_dom(entry_models(self.entries@), name@);
        }
        let key = name.to_owned();
        match self.find(&key) {
            Some(i) => {
                proof {
                    assert(entry_models(self.entries@)[i as int].0 == name@);
                    lemma_pairs_map_value(entry_models(self.entries@), i as int);
                }
                Some(self.entries[i].1)
            },
            None => {
                proof {
                    assert forall|j: int| 0 <= j < entry_models(self.entries@).len() implies #[trigger] entry_models(
                        self.entries@,
                    )[j].0 != name@ by {
                        assert(self.entries@[j].0@ != name@);
                    }
                }
                None
            },
        }
    }

    /// Sets the value of `name`.
    pub fn insert(&mut self, name: String, value: Number)
        ensures
            final(self)@ == old(self)@.insert(name@, value),
    {
        proof {
            use_type_invariant(&*self);
        }
        let ghost s = entry_models(self.entries@);
        match self.find(&name) {
            Some(i) => {
                let ghost k = name@;
                let mut entries = Vec::new();
                std::mem::swap(&mut entries, &mut self.entries);
                entries.set(i, (name, value));
                let ghost s2 = entry_models(entries@);
                proof {
                    assert(s2 =~= s.update(i as int, (k, value)));
                    assert(distinct_names(s2)) by {
                        assert forall|a: int, b: int| 0 <= a < b < s2.len() implies #[trigger] s2[a].0 != #[trigger] s2[b].0 by {
                            assert(s[a].0 != s[b].0);
                        }
                    }
                    assert(s[i as int].0 == k);
                    lemma_pairs_map_update(s, i as int, k, value);
                    assert(pairs_map(s2) =~= pairs_map(s).insert(k, value));
                }
                self.entries = entries;
            },
            None => {
                let ghost k = name@;
                let mut entries = Vec::new();
                std::mem::swap(&mut entries, &mut self.entries);
                entries.push((name, value));
                proof {
                    let s2 = entry_models(entries@);
                    assert(s2 =~= s.push((k, value)));
                    assert(s2.drop_last() =~= s);
                    assert(distinct_names(s2)) by {
                        assert forall|a: int, b: int| 0 <= a < b < s2.len() implies #[trigger] s2[a].0 != #[trigger] s2[b].0 by {
                            if b == s2.len() - 1 {
                                assert(old(self).entries@[a].0@ != k);
                            } else {
                                assert(s[a].0 != s[b].0);
                            }
                        }
                    }
                }
                self.entries = entries;
            },
        }
    }

    /// The pairs of the map, one per name.
    pub fn to_vec(&self) -> (r: Vec<(String, Number)>)
        ensures
            distinct_names(entry_models(r@)),
            pairs_map(entry_models(r@)) == self@,
    {
        proof {
            use_type_invariant(self);
        }
        let mut out: Vec<(String, Number)> = Vec::new();
        let mut i: usize = 0;
        while i < self.entries.len()
            invariant
                i <= self.entries.len(),
                entry_models(out@) == entry_models(self.entries@).take(i as int),
            decreases self.entries.len() - i,
        {
            let ghost prev = out@;
            out.push((self.entries[i].0.clone(), self.entries[i].1));
            proof {
                assert(out@ =~= prev.push(out@.last()));
                assert(entry_models(out@) =~= entry_models(prev).push((self.entries@[i as int].0@, self.entries@[i as int].1)));
                assert(entry_models(out@) =~= entry_models(self.entries@).take(i + 1));
            }
            i = i + 1;
        }
        proof {
            assert(entry_models(self.entries@).take(i as int) =~= entry_models(self.entries@));
        }
        out
    }
}


/// The value of `name` in `values`, zero when it has none.
pub open spec fn value_or_zero(values: Map<Seq<char>, Number>, name: Seq<char>) -> Number {
    if values.contains_key(name) {
        values[name]
    } else {
        Number::Finite(int_dec(0))
    }
}

/// Value of an expression once each variable is replaced by its value (zero
/// for a variable without one), with the operations of `num_add`,
/// `num_sub` and `num_mul`: a result that has no decimal of 18 significant
/// digits is rounded, as floating-point arithmetic rounds (see `rounded`).
pub open spec fn eval_term(t: Term, values: Map<Seq<char>, Number>) -> Number
    decreases t,
{
    match t {
        Term::Int(v) => value_or_zero(values, v.name),
        Term::Bin(n) => value_or_zero(values, n),
        Term::Cont(v) => value_or_zero(values, v.name),
        Term::Mul(a, b) => num_mul(eval_term(*a, values), eval_term(*b, values)),
        Term::Add(a, b) => num_add(eval_term(*a, values), eval_term(*b, values)),
        Term::Sub(a, b) => num_sub(eval_term(*a, values), eval_term(*b, values)),
        Term::Lit(c) => Number::Finite(c),
        Term::Empty => Number::Finite(int_dec(0)),
    }
}

/// The exact value of an expression under `values`, where every value it
/// reads is a decimal and every operation has an exact decimal result.
pub open spec fn exact_eval(t: Term, values: Map<Seq<char>, Number>) -> Option<Decimal>
    decreases t,
{
    match t {
        Term::Int(v) => finite_of(value_or_zero(values, v.name)),
        Term::Bin(n) => finite_of(value_or_zero(values, n)),
        Term::Cont(v) => finite_of(value_or_zero(values, v.name)),
        Term::Mul(a, b) => match (exact_eval(*a, values), exact_eval(*b, values)) {
            (Some(x), Some(y)) => dec_mul(x, y),
            _ => None,
        },
        Term::Add(a, b) => match (exact_eval(*a, values), exact_eval(*b, values)) {
            (Some(x), Some(y)) => dec_add(x, y),
            _ => None,
        },
        Term::Sub(a, b) => match (exact_eval(*a, values), exact_eval(*b, values)) {
            (Some(x), Some(y)) => dec_sub(x, y),
            _ => None,
        },
        Term::Lit(c) => Some(c),
        Term::Empty => Some(int_dec(0)),
    }
}

/// The decimal of a number, where it is one.
pub open spec fn finite_of(x: Number) -> Option<Decimal> {
    match x {
        Number::Finite(d) => Some(d),
        _ => None,
    }
}

/// The values of a solution as a valuation of the variables: zero for a
/// variable without a value (and for one whose value is no decimal).
pub open spec fn valuation(values: Map<Seq<char>, Number>) -> spec_fn(Seq<char>) -> real {
    |n: Seq<char>| match value_or_zero(values, n) {
        Number::Finite(d) => real_value(d),
        _ => 0real,
    }
}

/// Where the values an expression reads are decimals and its operations
/// exact, evaluating it under the values of a solution gives that exact
/// result, which is the value of the expression under those values.
pub proof fn law_eval_is_value(t: Term, values: Map<Seq<char>, Number>)
    requires
        exact_eval(t, values) is Some,
    ensures
        eval_term(t, values) == Number::Finite(exact_eval(t, values)->0),
        real_value(exact_eval(t, values)->0) == value(t, valuation(values)),
    decreases t,
{
    match t {
        Term::Mul(a, b) => {
            law_eval_is_value(*a, values);
            law_eval_is_value(*b, values);
            lemma_mul_real(exact_eval(*a, values)->0, exact_eval(*b, values)->0);
            lemma_fin_mul_exact(exact_eval(*a, values)->0, exact_eval(*b, values)->0);
        },
        Term::Add(a, b) => {
            law_eval_is_value(*a, values);
            law_eval_is_value(*b, values);
            lemma_add_real(exact_eval(*a, values)->0, exact_eval(*b, values)->0);
            lemma_fin_add_exact(exact_eval(*a, values)->0, exact_eval(*b, values)->0);
        },
        Term::Sub(a, b) => {
            law_eval_is_value(*a, values);
            law_eval_is_value(*b, values);
            lemma_sub_real(exact_eval(*a, values)->0, exact_eval(*b, values)->0);
            lemma_fin_add_exact(exact_eval(*a, values)->0, dec_neg(exact_eval(*b, values)->0));
        },
        Term::Empty => {
            lemma_small_reals();
        },
        _ => {},
    }
}

/// Reading of a value as a boolean: `true` within `0.00001` of one, `false`
/// within `0.00001` of zero; an infinity or not a number is neither.
pub open spec fn bool_reading(x: Number) -> Option<bool> {
    match x {
        Number::Finite(f) => if dec_sub(int_dec(1), f) matches Some(d) && dec_is_zero(d) {
            Some(true)
        } else if dec_is_zero(f) {
            Some(false)
        } else {
            None
        },
        _ => None,
    }
}

/// Reading of a value as an integer: its integer part (clamped to `i32`),
/// when the value lies within `0.00001` of it; an infinity or not a number
/// is none.
pub open spec fn int_reading(x: Number) -> Option<i32> {
    match x {
        Number::Finite(f) => {
            let i = sat_i32(dec_trunc(f));
            if dec_sub(f, int_dec(i as int)) matches Some(d) && dec_is_zero(d) {
                Some(i)
            } else {
                None
            }
        },
        _ => None,
    }
}

/// Reading a value as a boolean: a value within `0.00001` of zero is read
/// as `false`, and only such a value; a value read as `true` lies within
/// `0.00001` of one; an infinity or not a number is read as neither.
pub proof fn law_bool_reading(x: Number)
    ensures
        x matches Number::Finite(d) ==> {
            let v = real_value(d);
            let tol = 1real / 100000real;
            &&& (-tol < v && v < tol) ==> bool_reading(x) == Some(false)
            &&& bool_reading(x) == Some(false) ==> -tol < v && v < tol
            &&& bool_reading(x) == Some(true) ==> -tol < 1real - v && 1real - v < tol
        },
        !(x is Finite) ==> bool_reading(x) is None,
{
    if x is Finite {
        let d = x->Finite_0;
        lemma_is_zero_real(d);
        lemma_one_real();
        if dec_sub(int_dec(1), d) is Some {
            let y = dec_sub(int_dec(1), d)->0;
            lemma_sub_real(int_dec(1), d);
            lemma_is_zero_real(y);
        }
    }
}

/// A value read as an integer lies within `0.00001` of that integer; an
/// infinity or not a number is read as none.
pub proof fn law_int_reading(x: Number)
    ensures
        int_reading(x) matches Some(i) ==> (x matches Number::Finite(d) && -(1real / 100000real) < real_value(d)
            - (i as real) && real_value(d) - (i as real) < 1real / 100000real),
        !(x is Finite) ==> int_reading(x) is None,
{
    if x is Finite && int_reading(x) is Some {
        let d = x->Finite_0;
        let i = int_reading(x)->0;
        let k = int_dec(i as int);
        let y = dec_sub(d, k)->0;
        lemma_sub_real(d, k);
        lemma_is_zero_real(y);
        lemma_int_dec_real(i as int);
    }
}

/// A value read as a boolean; see `bool_reading`.
pub fn read_bool(x: Number) -> (r: Option<bool>)
    ensures
        r == bool_reading(x),
{
    let f = match x {
        Number::Finite(f) => f,
        _ => {
            return None;
        },
    };
    let one = Decimal::from_i32(1);
    match one.checked_sub(&f) {
        Some(d) => {
            if d.is_zero() {
                return Some(true);
            }
        },
        None => {},
    }
    if f.is_zero() {
        Some(false)
    } else {
        None
    }
}

/// A value read as an integer; see `int_reading`.
pub fn read_int(x: Number) -> (r: Option<i32>)
    ensures
        r == int_reading(x),
{
    let f = match x {
        Number::Finite(f) => f,
        _ => {
            return None;
        },
    };
    let i = f.trunc_i32();
    let di = Decimal::from_i32(i);
    match f.checked_sub(&di) {
        Some(d) => {
            if d.is_zero() {
                Some(i)
            } else {
                None
            }
        },
        None => None,
    }
}

/// Value of `name`, zero when it has none.
fn lookup_or_zero(values: &ValueMap, name: &String) -> (r: Number)
    ensures
        r == value_or_zero(values@, name@),
{
    match values.get(name.as_str()) {
        Some(v) => v,
        None => Number::Finite(Decimal::from_i32(0)),
    }
}

/// Evaluates an expression; see `eval_term`.
fn eval_expr(e: &LpExpression, values: &ValueMap) -> (r: Number)
    ensures
        r == eval_term(e@, values@),
    decreases e,
{
    match e {
        LpExpression::ConsInt(v) => lookup_or_zero(values, &v.name),
        LpExpression::ConsBin(v) => lookup_or_zero(values, &v.name),
        LpExpression::ConsCont(v) => lookup_or_zero(values, &v.name),
        LpExpression::MulExpr(a, b) => number_mul(eval_expr(a, values), eval_expr(b, values)),
        LpExpression::AddExpr(a, b) => number_add(eval_expr(a, values), eval_expr(b, values)),
        LpExpression::SubExpr(a, b) => number_sub(eval_expr(a, values), eval_expr(b, values)),
        LpExpression::LitVal(c) => Number::Finite(*c),
        LpExpression::EmptyExpr => Number::Finite(Decimal::from_i32(0)),
    }
}

/// Result of a solver run: its status, the value of each variable, and the
/// problem it solves when that is known.
#[derive(Debug)]
pub struct Solution<'a> {
    pub status: Status,
    pub results: ValueMap,
    pub related_problem: Option<&'a LpProblem>,
}

impl<'a> Solution<'a> {
    /// A solution with no related problem.
    pub fn new(status: Status, results: ValueMap) -> (r: Solution<'a>)
        ensures
            r.status == status,
            r.results@ == results@,
            r.related_problem is None,
    {
        Solution { status, results, related_problem: None }
    }

    /// A solution of `problem`.
    pub fn with_problem(status: Status, results: ValueMap, problem: &'a LpProblem) -> (r: Solution<'a>)
        ensures
            r.status == status,
            r.results@ == results@,
            r.related_problem == Some(problem),
    {
        Solution { status, results, related_problem: Some(problem) }
    }

    /// Values can be read from an optimal or suboptimal solution only.
    pub open spec fn readable(&self) -> bool {
        self.status is Optimal || self.status is SubOptimal
    }

    /// Value of the variable named `name`.
    pub fn get_raw_value(&self, name: &str) -> (r: Number)
        requires
            self.readable(),
            self.results@.contains_key(name@),
        ensures
            r == self.results@[name@],
    {
        self.results.get(name).unwrap()
    }

    /// Value of a binary variable, read as a boolean.
    pub fn get_bool(&self, var: &LpBinary) -> (r: bool)
        requires
            self.readable(),
            self.results@.contains_key(var.name@),
            bool_reading(self.results@[var.name@]) is Some,
        ensures
            bool_reading(self.results@[var.name@]) == Some(r),
    {
        let f = self.results.get(var.name.as_str()).unwrap();
        read_bool(f).unwrap()
    }

    /// Value of a continuous variable.
    pub fn get_float(&self, var: &LpContinuous) -> (r: Number)
        requires
            self.readable(),
            self.results@.contains_key(var.name@),
        ensures
            r == self.results@[var.name@],
    {
        self.results.get(var.name.as_str()).unwrap()
    }

    /// Value of an integer variable.
    pub fn get_int(&self, var: &LpInteger) -> (r: i32)
        requires
            self.readable(),
            self.results@.contains_key(var.name@),
            int_reading(self.results@[var.name@]) is Some,
        ensures
            int_reading(self.results@[var.name@]) == Some(r),
    {
        let f = self.results.get(var.name.as_str()).unwrap();
        read_int(f).unwrap()
    }

    /// Whether values can be read; see `readable`.
    pub fn is_readable(&self) -> (r: bool)
        ensures
            r == self.readable(),
    {
        match self.status {
            Status::Optimal | Status::SubOptimal => true,
            _ => false,
        }
    }

    /// Value of the objective of the related problem under this solution;
    /// see `eval_term`. `None` without a related problem or objective.
    pub fn eval(&self) -> (r: Option<Number>)
        ensures
            r == (match self.related_problem {
                Some(p) => match p.obj_expr {
                    Some(e) => Some(eval_term(e@, self.results@)),
                    None => None,
                },
                None => None,
            }),
    {
        match self.related_problem {
            Some(p) => match &p.obj_expr {
                Some(e) => Some(eval_expr(e, &self.results)),
                None => None,
            },
            None => None,
        }
    }
}


/// The solution files that are read, one per solver.
pub enum SolutionFormat {
    Cbc,
    Glpk,
    Gurobi,
}

/// What reading one row of a solution file gives: `None` where the reader
/// panics, an error message, nothing to record, or a named value.
pub open spec fn row_outcome(f: SolutionFormat, l: Seq<char>) -> Option<Result<Option<(Seq<char>, Number)>, Seq<char>>> {
    match f {
        SolutionFormat::Cbc => cbc_row(l),
        SolutionFormat::Glpk => glpk_row(l),
        SolutionFormat::Gurobi => gurobi_row(l),
    }
}

/// Reads the rows `ls` in order, each recorded value replacing an earlier
/// one of the same name, up to the first row that fails.
pub open spec fn read_rows(f: SolutionFormat, ls: Seq<Seq<char>>) -> Option<Result<Map<Seq<char>, Number>, Seq<char>>>
    decreases ls.len(),
{
    if ls.len() == 0 {
        Some(Ok(Map::empty()))
    } else {
        match read_rows(f, ls.drop_last()) {
            Some(Ok(m)) => match row_outcome(f, ls.last()) {
                Some(Ok(Some(kv))) => Some(Ok(m.insert(kv.0, kv.1))),
                Some(Ok(None)) => Some(Ok(m)),
                Some(Err(e)) => Some(Err(e)),
                None => None,
            },
            other => other,
        }
    }
}

/// Row `l` records a value under the name `n`.
pub open spec fn row_names(f: SolutionFormat, l: Seq<char>, n: Seq<char>) -> bool {
    row_outcome(f, l) matches Some(Ok(Some(kv))) && kv.0 == n
}

/// Some row of `ls` after the `i`-th records a value under the name `n`.
pub open spec fn named_later(f: SolutionFormat, ls: Seq<Seq<char>>, i: int, n: Seq<char>) -> bool {
    exists|j: int| i < j < ls.len() && #[trigger] row_names(f, ls[j], n)
}

/// Reading rows: where the reading succeeds, every row reads, and the name
/// of each row that records a value is in the map, with that value unless
/// a later row records a value under the same name.
pub proof fn law_read_rows(f: SolutionFormat, ls: Seq<Seq<char>>, i: int)
    requires
        read_rows(f, ls) matches Some(Ok(_)),
        0 <= i < ls.len(),
    ensures
        row_outcome(f, ls[i]) matches Some(Ok(_)),
        row_outcome(f, ls[i]) matches Some(Ok(Some(kv))) ==> {
            let m = read_rows(f, ls)->0->Ok_0;
            &&& m.contains_key(kv.0)
            &&& !named_later(f, ls, i, kv.0) ==> m[kv.0] == kv.1
        },
    decreases ls.len(),
{
    let last = ls.len() - 1;
    assert(read_rows(f, ls.drop_last()) matches Some(Ok(_)));
    if i < last {
        assert(ls.drop_last()[i] == ls[i]);
        law_read_rows(f, ls.drop_last(), i);
        let o = row_outcome(f, ls[i]);
        if o is Some && o->0 is Ok && (o->0)->Ok_0 is Some {
            let n = ((o->0)->Ok_0->0).0;
            if !named_later(f, ls, i, n) {
                if named_later(f, ls.drop_last(), i, n) {
                    let j = choose|j: int| i < j < ls.drop_last().len() && #[trigger] row_names(f, ls.drop_last()[j], n);
                    assert(ls.drop_last()[j] == ls[j]);
                    assert(row_names(f, ls[j], n));
                }
                assert(!row_names(f, ls[last], n));
            }
        }
    }
}

/// The lines after the first one.
pub open spec fn rest_lines(ls: Seq<Seq<char>>) -> Seq<Seq<char>> {
    if ls.len() == 0 {
        ls
    } else {
        ls.drop_first()
    }
}

/// Reading one more row.
pub proof fn lemma_read_rows_step(f: SolutionFormat, ls: Seq<Seq<char>>, i: int)
    requires
        0 <= i < ls.len(),
    ensures
        read_rows(f, ls.take(i + 1)) == (match read_rows(f, ls.take(i)) {
            Some(Ok(m)) => match row_outcome(f, ls[i]) {
                Some(Ok(Some(kv))) => Some(Ok(m.insert(kv.0, kv.1))),
                Some(Ok(None)) => Some(Ok(m)),
                Some(Err(e)) => Some(Err(e)),
                None => None,
            },
            other => other,
        }),
{
    assert(ls.take(i + 1).drop_last() =~= ls.take(i));
}

/// Once a row fails, the rows after it change nothing.
pub proof fn lemma_read_rows_stop(f: SolutionFormat, ls: Seq<Seq<char>>, i: int, j: int)
    requires
        0 <= i <= j <= ls.len(),
        !(read_rows(f, ls.take(i)) matches Some(Ok(_))),
    ensures
        read_rows(f, ls.take(j)) == read_rows(f, ls.take(i)),
    decreases j - i,
{
    if j > i {
        lemma_read_rows_stop(f, ls, i, j - 1);
        lemma_read_rows_step(f, ls, j - 1);
    }
}


/// Settings of a solver that runs as a command: its name, its program, the
/// file it writes its solution to, and the limits handed to it.
pub struct SolverModel {
    pub name: Seq<char>,
    pub command: Seq<char>,
    pub solution_file: Seq<char>,
    pub threads: Option<u32>,
    pub seconds: Option<u32>,
}

/// A solution file name made of a random identifier and `.sol`.
pub open spec fn is_solution_file_name(s: Seq<char>) -> bool {
    &&& s.len() == 40
    &&& is_uuid_text(s.take(36))
    &&& s.skip(36) == ".sol"@
}

/// A fresh solution file name; see `is_solution_file_name`.
pub fn fresh_solution_file_name() -> (r: String)
    ensures
        is_solution_file_name(r@),
{
    let id = random_uuid_text();
    let mut v = chars_of_str(id.as_str());
    push_str(&mut v, ".sol");
    proof {
        reveal_strlit(".sol");
        assert(v@.take(36) =~= id@);
        assert(v@.skip(36) =~= ".sol"@);
    }
    string_from_chars(&v)
}

/// Name of the file a problem is written to before a solver reads it.
pub fn model_file_name(problem: &LpProblem) -> (r: String)
    ensures
        r@ == problem.unique_name@ + ".lp"@,
{
    let mut v = chars_of_str(problem.unique_name.as_str());
    push_str(&mut v, ".lp");
    string_from_chars(&v)
}

/// Message of a solver that could not be started.
pub fn run_failure_message(name: &String) -> (r: String)
    ensures
        r@ == "Error running the "@ + name@ + " solver"@,
{
    let mut v = chars_of_str("Error running the ");
    push_str(&mut v, name.as_str());
    push_str(&mut v, " solver");
    string_from_chars(&v)
}

/// Message of a solution file that cannot be read.
pub open spec fn format_error() -> Seq<char> {
    "Incorrect solution format"@
}

/// Message of a number that cannot be read.
pub open spec fn float_error() -> Seq<char> {
    "invalid float literal"@
}

pub(crate) fn format_error_message() -> (r: String)
    ensures
        r@ == format_error(),
{
    "Incorrect solution format".to_owned()
}

pub(crate) fn float_error_message() -> (r: String)
    ensures
        r@ == float_error(),
{
    "invalid float literal".to_owned()
}

/// A solver that reads the solution file it writes.
pub trait SolverWithSolutionParsing {
    /// Reads the text of a solution file, as the solution of `problem`.
    fn read_specific_solution<'a>(&self, content: &str, problem: Option<&'a LpProblem>) -> Result<Solution<'a>, String>;
}

/// A solver whose time can be limited.
pub trait WithMaxSeconds<T> {
    fn max_seconds(&self) -> Option<u32>;

    fn with_max_seconds(&self, seconds: u32) -> T;
}

/// A solver whose number of threads can be set.
pub trait WithNbThreads<T> {
    fn nb_threads(&self) -> Option<u32>;

    fn with_nb_threads(&self, threads: u32) -> T;
}

} // verus!
