//! Variables, expressions and constraints of a linear program.

use vstd::prelude::*;

use crate::num::{dec_neg, Decimal};
use crate::dsl::simplify::{mk_add, mk_sub, simplified, simplify, simplify_halts};

verus! {

/// A variable constrained to be either 0 or 1.
#[derive(Debug, Clone, PartialEq)]
pub struct LpBinary {
    pub name: String,
}

/// An integer variable with optional bounds.
#[derive(Debug, Clone, PartialEq)]
pub struct LpInteger {
    pub name: String,
    pub lower_bound: Option<Decimal>,
    pub upper_bound: Option<Decimal>,
}

/// A continuous variable with optional bounds.
#[derive(Debug, Clone, PartialEq)]
pub struct LpContinuous {
    pub name: String,
    pub lower_bound: Option<Decimal>,
    pub upper_bound: Option<Decimal>,
}

/// Mathematical model of a bounded variable.
pub struct VarModel {
    pub name: Seq<char>,
    pub lower: Option<Decimal>,
    pub upper: Option<Decimal>,
}

impl View for LpBinary {
    type V = Seq<char>;

    open spec fn view(&self) -> Seq<char> {
        self.name@
    }
}

impl View for LpInteger {
    type V = VarModel;

    open spec fn view(&self) -> VarModel {
        VarModel { name: self.name@, lower: self.lower_bound, upper: self.upper_bound }
    }
}

impl View for LpContinuous {
    type V = VarModel;

    open spec fn view(&self) -> VarModel {
        VarModel { name: self.name@, lower: self.lower_bound, upper: self.upper_bound }
    }
}

impl LpBinary {
    pub fn new(name: &str) -> (r: LpBinary)
        ensures
            r.name@ == name@,
    {
        LpBinary { name: name.to_owned() }
    }

    /// A copy with the same name.
    pub fn copy(&self) -> (r: LpBinary)
        ensures
            r@ == self@,
    {
        LpBinary { name: self.name.clone() }
    }
}

impl LpInteger {
    pub fn new(name: &str) -> (r: LpInteger)
        ensures
            r@ == (VarModel { name: name@, lower: None, upper: None }),
    {
        LpInteger { name: name.to_owned(), lower_bound: None, upper_bound: None }
    }

    /// A copy with the same name and bounds.
    pub fn copy(&self) -> (r: LpInteger)
        ensures
            r@ == self@,
    {
        LpInteger {
            name: self.name.clone(),
            lower_bound: self.lower_bound,
            upper_bound: self.upper_bound,
        }
    }
}

impl LpContinuous {
    pub fn new(name: &str) -> (r: LpContinuous)
        ensures
            r@ == (VarModel { name: name@, lower: None, upper: None }),
    {
        LpContinuous { name: name.to_owned(), lower_bound: None, upper_bound: None }
    }

    /// A copy with the same name and bounds.
    pub fn copy(&self) -> (r: LpContinuous)
        ensures
            r@ == self@,
    {
        LpContinuous {
            name: self.name.clone(),
            lower_bound: self.lower_bound,
            upper_bound: self.upper_bound,
        }
    }
}

/// Variables that can be given bounds.
pub trait BoundableLp: Sized {
    /// The same variable with the lower bound `lw`.
    fn lower_bound(&self, lw: Decimal) -> Self;

    /// The same variable with the upper bound `up`.
    fn upper_bound(&self, up: Decimal) -> Self;
}

impl BoundableLp for LpInteger {
    fn lower_bound(&self, lw: Decimal) -> (r: LpInteger)
        ensures
            r@ == (VarModel { lower: Some(lw), ..self@ }),
    {
        LpInteger { name: self.name.clone(), lower_bound: Some(lw), upper_bound: self.upper_bound }
    }

    fn upper_bound(&self, up: Decimal) -> (r: LpInteger)
        ensures
            r@ == (VarModel { upper: Some(up), ..self@ }),
    {
        LpInteger { name: self.name.clone(), lower_bound: self.lower_bound, upper_bound: Some(up) }
    }
}

impl BoundableLp for LpContinuous {
    fn lower_bound(&self, lw: Decimal) -> (r: LpContinuous)
        ensures
            r@ == (VarModel { lower: Some(lw), ..self@ }),
    {
        LpContinuous {
            name: self.name.clone(),
            lower_bound: Some(lw),
            upper_bound: self.upper_bound,
        }
    }

    fn upper_bound(&self, up: Decimal) -> (r: LpContinuous)
        ensures
            r@ == (VarModel { upper: Some(up), ..self@ }),
    {
        LpContinuous {
            name: self.name.clone(),
            lower_bound: self.lower_bound,
            upper_bound: Some(up),
        }
    }
}

/// Expression of a linear program, as built by the operators.
#[derive(Debug, PartialEq)]
pub enum LpExpression {
    ConsInt(LpInteger),
    ConsBin(LpBinary),
    ConsCont(LpContinuous),
    MulExpr(Box<LpExpression>, Box<LpExpression>),
    AddExpr(Box<LpExpression>, Box<LpExpression>),
    SubExpr(Box<LpExpression>, Box<LpExpression>),
    LitVal(Decimal),
    EmptyExpr,
}

/// Mathematical model of an expression: its tree, with variable names as
/// character sequences.
pub enum Term {
    Int(VarModel),
    Bin(Seq<char>),
    Cont(VarModel),
    Mul(Box<Term>, Box<Term>),
    Add(Box<Term>, Box<Term>),
    Sub(Box<Term>, Box<Term>),
    Lit(Decimal),
    Empty,
}

pub open spec fn term_of(e: LpExpression) -> Term
    decreases e,
{
    match e {
        LpExpression::ConsInt(v) => Term::Int(v@),
        LpExpression::ConsBin(v) => Term::Bin(v@),
        LpExpression::ConsCont(v) => Term::Cont(v@),
        LpExpression::MulExpr(a, b) => Term::Mul(Box::new(term_of(*a)), Box::new(term_of(*b))),
        LpExpression::AddExpr(a, b) => Term::Add(Box::new(term_of(*a)), Box::new(term_of(*b))),
        LpExpression::SubExpr(a, b) => Term::Sub(Box::new(term_of(*a)), Box::new(term_of(*b))),
        LpExpression::LitVal(c) => Term::Lit(c),
        LpExpression::EmptyExpr => Term::Empty,
    }
}

impl View for LpExpression {
    type V = Term;

    open spec fn view(&self) -> Term {
        term_of(*self)
    }
}

/// Comparison of a constraint.
#[derive(Debug, Clone, Copy, PartialEq, Eq, Structural)]
pub enum Constraint {
    GreaterOrEqual,
    LessOrEqual,
    Equal,
}

/// A constraint `lhs op rhs`.
#[derive(Debug, PartialEq)]
pub struct LpConstraint(pub LpExpression, pub Constraint, pub LpExpression);

impl View for LpConstraint {
    type V = (Term, Constraint, Term);

    open spec fn view(&self) -> (Term, Constraint, Term) {
        (self.0@, self.1, self.2@)
    }
}

/// The literal of an expression, if it is one.
pub(crate) fn lit_value(e: &LpExpression) -> (r: Option<Decimal>)
    ensures
        r is Some <==> e@ is Lit,
        r matches Some(c) ==> e@->Lit_0 == c,
{
    match e {
        LpExpression::LitVal(c) => Some(*c),
        _ => None,
    }
}

impl Clone for LpExpression {
    fn clone(&self) -> (r: LpExpression)
        ensures
            r@ == self@,
    {
        self.copy()
    }
}

impl Clone for LpConstraint {
    fn clone(&self) -> (r: LpConstraint)
        ensures
            r@ == self@,
    {
        LpConstraint(self.0.copy(), self.1, self.2.copy())
    }
}

fn same_bound(a: &Option<Decimal>, b: &Option<Decimal>) -> (r: bool)
    ensures
        r == (*a == *b),
{
    match (a, b) {
        (Some(x), Some(y)) => *x == *y,
        (None, None) => true,
        _ => false,
    }
}

impl LpExpression {
    /// A copy of the expression tree.
    pub fn copy(&self) -> (r: LpExpression)
        ensures
            r@ == self@,
        decreases self,
    {
        match self {
            LpExpression::ConsInt(v) => LpExpression::ConsInt(v.copy()),
            LpExpression::ConsBin(v) => LpExpression::ConsBin(v.copy()),
            LpExpression::ConsCont(v) => LpExpression::ConsCont(v.copy()),
            LpExpression::MulExpr(a, b) => LpExpression::MulExpr(
                Box::new((**a).copy()),
                Box::new((**b).copy()),
            ),
            LpExpression::AddExpr(a, b) => LpExpression::AddExpr(
                Box::new((**a).copy()),
                Box::new((**b).copy()),
            ),
            LpExpression::SubExpr(a, b) => LpExpression::SubExpr(
                Box::new((**a).copy()),
                Box::new((**b).copy()),
            ),
            LpExpression::LitVal(c) => LpExpression::LitVal(*c),
            LpExpression::EmptyExpr => LpExpression::EmptyExpr,
        }
    }

    /// Whether two expressions have the same tree.
    pub fn same_as(&self, other: &LpExpression) -> (r: bool)
        ensures
            r == (self@ == other@),
        decreases self,
    {
        match (self, other) {
            (LpExpression::ConsInt(x), LpExpression::ConsInt(y)) => {
                let r = x.name == y.name && same_bound(&x.lower_bound, &y.lower_bound)
                    && same_bound(&x.upper_bound, &y.upper_bound);
                proof {
                    if r {
                        assert(x@ == y@);
                    }
                }
                r
            },
            (LpExpression::ConsBin(x), LpExpression::ConsBin(y)) => x.name == y.name,
            (LpExpression::ConsCont(x), LpExpression::ConsCont(y)) => {
                let r = x.name == y.name && same_bound(&x.lower_bound, &y.lower_bound)
                    && same_bound(&x.upper_bound, &y.upper_bound);
                proof {
                    if r {
                        assert(x@ == y@);
                    }
                }
                r
            },
            (LpExpression::MulExpr(a, b), LpExpression::MulExpr(c, d)) => (**a).same_as(&**c)
                && (**b).same_as(&**d),
            (LpExpression::AddExpr(a, b), LpExpression::AddExpr(c, d)) => (**a).same_as(&**c)
                && (**b).same_as(&**d),
            (LpExpression::SubExpr(a, b), LpExpression::SubExpr(c, d)) => (**a).same_as(&**c)
                && (**b).same_as(&**d),
            (LpExpression::LitVal(x), LpExpression::LitVal(y)) => *x == *y,
            (LpExpression::EmptyExpr, LpExpression::EmptyExpr) => true,
            _ => false,
        }
    }
}

} // verus!

verus! {

/// `c * e` for a product `e * c` whose right operand is the only literal;
/// any other expression unchanged.
pub open spec fn normalized(t: Term) -> Term {
    if t is Mul && !(*t->Mul_0 is Lit) && *t->Mul_1 is Lit {
        Term::Mul(t->Mul_1, t->Mul_0)
    } else {
        t
    }
}

/// Removal of the literal operands of sums, differences and products.
pub open spec fn without_constants(t: Term) -> Term
    decreases t,
{
    match t {
        Term::Mul(e1, e2) => if *e1 is Lit {
            if *e2 is Lit {
                Term::Empty
            } else {
                Term::Mul(e1, Box::new(without_constants(*e2)))
            }
        } else {
            Term::Mul(Box::new(without_constants(*e1)), Box::new(without_constants(*e2)))
        },
        Term::Add(e1, e2) => if *e1 is Lit {
            if *e2 is Lit {
                Term::Empty
            } else {
                without_constants(*e2)
            }
        } else if *e2 is Lit {
            without_constants(*e1)
        } else {
            Term::Add(Box::new(without_constants(*e1)), Box::new(without_constants(*e2)))
        },
        Term::Sub(e1, e2) => if *e1 is Lit {
            if *e2 is Lit {
                Term::Empty
            } else {
                without_constants(*e2)
            }
        } else if *e2 is Lit {
            without_constants(*e1)
        } else {
            Term::Sub(Box::new(without_constants(*e1)), Box::new(without_constants(*e2)))
        },
        _ => t,
    }
}

impl LpExpression {
    /// Places the literal of a product `e * c` first, as the LP format
    /// writes coefficients before variables.
    pub fn normalize(&self) -> (r: LpExpression)
        ensures
            r@ == normalized(self@),
    {
        if let LpExpression::MulExpr(e1, e2) = self {
            if lit_value(&**e1).is_some() {
                return self.copy();
            } else if lit_value(&**e2).is_some() {
                return LpExpression::MulExpr(Box::new((**e2).copy()), Box::new((**e1).copy()));
            } else {
                return LpExpression::MulExpr(Box::new((**e1).copy()), Box::new((**e2).copy()));
            }
        }
        self.copy()
    }

    /// The expression without the literal operands of its sums, differences
    /// and products.
    pub fn dfs_remove_constant(&self) -> (r: LpExpression)
        ensures
            r@ == without_constants(self@),
        decreases self,
    {
        match self {
            LpExpression::MulExpr(e1, e2) => {
                if lit_value(&**e1).is_some() {
                    if lit_value(&**e2).is_some() {
                        LpExpression::EmptyExpr
                    } else {
                        LpExpression::MulExpr(
                            Box::new((**e1).copy()),
                            Box::new((**e2).dfs_remove_constant()),
                        )
                    }
                } else {
                    LpExpression::MulExpr(
                        Box::new((**e1).dfs_remove_constant()),
                        Box::new((**e2).dfs_remove_constant()),
                    )
                }
            },
            LpExpression::AddExpr(e1, e2) => {
                if lit_value(&**e1).is_some() {
                    if lit_value(&**e2).is_some() {
                        LpExpression::EmptyExpr
                    } else {
                        (**e2).dfs_remove_constant()
                    }
                } else if lit_value(&**e2).is_some() {
                    (**e1).dfs_remove_constant()
                } else {
                    LpExpression::AddExpr(
                        Box::new((**e1).dfs_remove_constant()),
                        Box::new((**e2).dfs_remove_constant()),
                    )
                }
            },
            LpExpression::SubExpr(e1, e2) => {
                if lit_value(&**e1).is_some() {
                    if lit_value(&**e2).is_some() {
                        LpExpression::EmptyExpr
                    } else {
                        (**e2).dfs_remove_constant()
                    }
                } else if lit_value(&**e2).is_some() {
                    (**e1).dfs_remove_constant()
                } else {
                    LpExpression::SubExpr(
                        Box::new((**e1).dfs_remove_constant()),
                        Box::new((**e2).dfs_remove_constant()),
                    )
                }
            },
            _ => self.copy(),
        }
    }
}

/// The literal that `split_constant_and_expr` takes off the expression.
pub open spec fn split_constant(t: Term) -> (Decimal, Term) {
    if t is Add && *t->Add_1 is Lit {
        (t->Add_1->Lit_0, *t->Add_0)
    } else if t is Sub && *t->Sub_1 is Lit {
        (dec_neg(t->Sub_1->Lit_0), *t->Sub_0)
    } else {
        (Decimal::spec_zero(), t)
    }
}

/// Splits `e + c` into `(c, e)` and `e - c` into `(-c, e)`; any other
/// expression `e` into `(0, e)`.
pub fn split_constant_and_expr(expr: &LpExpression) -> (r: (Decimal, LpExpression))
    ensures
        (r.0, r.1@) == split_constant(expr@),
{
    match expr {
        LpExpression::AddExpr(e1, e2) => {
            if let Some(c) = lit_value(&**e2) {
                (c, (**e1).copy())
            } else {
                (Decimal::zero(), expr.copy())
            }
        },
        LpExpression::SubExpr(e1, e2) => {
            if let Some(c) = lit_value(&**e2) {
                (c.neg(), (**e1).copy())
            } else {
                (Decimal::zero(), expr.copy())
            }
        },
        _ => (Decimal::zero(), expr.copy()),
    }
}

/// The constraint `lhs op rhs` in the form `e op c`: `lhs - rhs` simplified,
/// its trailing literal moved to the right-hand side.
pub open spec fn generalized(lhs: Term, op: Constraint, rhs: Term) -> (Term, Constraint, Term) {
    let (c, e) = split_constant(simplified(mk_sub(lhs, rhs)));
    (e, op, Term::Lit(dec_neg(c)))
}

impl LpConstraint {
    /// Rewrites the constraint as `e op c`; see `generalized`.
    pub fn generalize(&self) -> (r: LpConstraint)
        requires
            simplify_halts(mk_sub(self.0@, self.2@)),
        ensures
            r@ == generalized(self.0@, self.1, self.2@),
    {
        let diff = LpExpression::SubExpr(Box::new(self.0.copy()), Box::new(self.2.copy()));
        let lhs_expr = simplify(&diff);
        let (constant, lhs_expr) = split_constant_and_expr(&lhs_expr);
        LpConstraint(lhs_expr, self.1, LpExpression::LitVal(constant.neg()))
    }
}

/// The sum `((t0 + t1) + t2) + ...` of a non-empty sequence of terms.
pub open spec fn sum_terms(s: Seq<Term>) -> Term
    decreases s.len(),
{
    if s.len() <= 1 {
        s[0]
    } else {
        mk_add(sum_terms(s.drop_last()), s.last())
    }
}

/// Models of a sequence of expressions.
pub open spec fn terms_of(v: Seq<LpExpression>) -> Seq<Term> {
    v.map_values(|e: LpExpression| e@)
}

/// The sum of the expressions of a non-empty vector, from left to right.
pub fn lp_sum(expr: &Vec<LpExpression>) -> (r: LpExpression)
    requires
        expr.len() > 0,
    ensures
        r@ == sum_terms(terms_of(expr@)),
{
    let mut acc = expr[0].copy();
    let mut i: usize = 1;
    proof {
        assert(terms_of(expr@).take(1).len() == 1);
    }
    while i < expr.len()
        invariant
            1 <= i <= expr.len(),
            acc@ == sum_terms(terms_of(expr@).take(i as int)),
        decreases expr.len() - i,
    {
        let next = expr[i].copy();
        proof {
            let t = terms_of(expr@).take(i + 1);
            assert(t.drop_last() =~= terms_of(expr@).take(i as int));
        }
        acc = LpExpression::AddExpr(Box::new(acc), Box::new(next));
        i = i + 1;
    }
    proof {
        assert(terms_of(expr@).take(expr.len() as int) =~= terms_of(expr@));
    }
    acc
}

/// The sum of the expressions that `f` gives for the items of a non-empty
/// vector, from left to right.
pub fn sum<T, F: Fn(&T) -> LpExpression>(expr: &Vec<T>, f: F) -> (r: LpExpression)
    requires
        expr.len() > 0,
        forall|i: int| 0 <= i < expr.len() ==> call_requires(f, (&expr[i],)),
    ensures
        exists|outs: Seq<LpExpression>|
            outs.len() == expr.len() && (forall|i: int|
                0 <= i < expr.len() ==> call_ensures(f, (&expr[i],), #[trigger] outs[i]))
                && r@ == sum_terms(terms_of(outs)),
{
    let mut outs: Vec<LpExpression> = Vec::new();
    let mut i: usize = 0;
    while i < expr.len()
        invariant
            i <= expr.len(),
            outs.len() == i,
            forall|j: int| 0 <= j < expr.len() ==> call_requires(f, (&expr[j],)),
            forall|j: int| 0 <= j < i ==> call_ensures(f, (&expr[j],), #[trigger] outs@[j]),
        decreases expr.len() - i,
    {
        let e = f(&expr[i]);
        outs.push(e);
        i = i + 1;
    }
    lp_sum(&outs)
}

/// Vectors of expressions that can be summed.
pub trait SummableExp {
    spec fn summable(&self) -> bool;

    spec fn sum_model(&self) -> Term;

    /// The sum of the items, from left to right.
    fn sum(&self) -> (r: LpExpression)
        requires
            self.summable(),
        ensures
            r@ == self.sum_model(),
    ;
}

impl SummableExp for Vec<LpExpression> {
    open spec fn summable(&self) -> bool {
        self.len() > 0
    }

    open spec fn sum_model(&self) -> Term {
        sum_terms(terms_of(self@))
    }

    fn sum(&self) -> (r: LpExpression) {
        lp_sum(self)
    }
}

} // verus!
