use lp_modeler::dsl::operations::LpOperations;
use lp_modeler::dsl::problem::{LpObjective, LpProblem, Problem};
use lp_modeler::dsl::simplify::simplify;
use lp_modeler::dsl::variables::{lp_sum, split_constant_and_expr, sum};
use lp_modeler::dsl::{BoundableLp, Constraint, LpConstraint, LpExpression, LpInteger};
use lp_modeler::format::lp_format::LpFileFormat;
use lp_modeler::num::{Decimal, Number};
use lp_modeler::solvers::{Solution, Status, ValueMap};

fn d(v: i32) -> Decimal {
    Decimal::from_i32(v)
}

fn n(v: i32) -> LpExpression {
    LpExpression::from(v)
}

fn x(v: &LpInteger) -> LpExpression {
    LpExpression::from(v.clone())
}

fn vars() -> (LpInteger, LpInteger, LpInteger) {
    (LpInteger::new("a"), LpInteger::new("b"), LpInteger::new("c"))
}

#[test]
fn expressions_creation() {
    let a = LpInteger::new("a").lower_bound(d(10)).upper_bound(d(20));
    let b = LpInteger::new("b");
    assert_eq!(
        a.clone() + x(&b),
        LpExpression::AddExpr(Box::new(LpExpression::ConsInt(a.clone())), Box::new(LpExpression::ConsInt(b.clone())))
    );
}

#[test]
fn distributivity() {
    let (a, b, c) = vars();
    let test = a.clone() * (d(2) + x(&b)) * n(3);
    let test2 = test.clone();
    assert_eq!((d(2) * (d(2) + x(&a))).to_lp_file_format(), "2 a + 4");
    assert_eq!(((d(2) + x(&a)) * (d(2) + x(&b))).to_lp_file_format(), "2 a + 2 b + b a + 4");
    assert_eq!(test.to_lp_file_format(), "6 a + 3 a b");
    assert_eq!((d(10) * test).to_lp_file_format(), "60 a + 30 a b");
    assert_eq!(((c.clone() + n(10)) * test2).to_lp_file_format(), "6 c a + 3 c a b + 60 a + 30 a b");
}

#[test]
fn associativity() {
    let (a, b, c) = vars();
    assert_eq!((a.clone() + (b.clone() + n(2))).to_lp_file_format(), "a + b + 2");
    assert_eq!(((a.clone() + x(&b)) + n(2)).to_lp_file_format(), "a + b + 2");

    assert_eq!((a.clone() + (b.clone() - n(2))).to_lp_file_format(), "a + b - 2");
    assert_eq!(((a.clone() + x(&b)) - n(2)).to_lp_file_format(), "a + b - 2");

    assert_eq!((a.clone() - (b.clone() + n(2))).to_lp_file_format(), "a - b - 2");
    assert_eq!(((a.clone() - x(&b)) + n(2)).to_lp_file_format(), "a - b + 2");

    assert_eq!((a.clone() - (b.clone() - n(2))).to_lp_file_format(), "a - b + 2");
    assert_eq!(((a.clone() - x(&b)) - n(2)).to_lp_file_format(), "a - b - 2");

    assert_eq!((a.clone() - (b.clone() - n(2)) + x(&c)).to_lp_file_format(), "a - b + c + 2");
    assert_eq!(((a.clone() - x(&b)) - n(2) + x(&c)).to_lp_file_format(), "a - b + c - 2");
}

#[test]
fn literal_first_with_accumulation() {
    let (a, b, c) = vars();
    assert_eq!(
        (a.clone() + n(1) + x(&b) + n(2) + x(&c) + n(3) + x(&a) + n(4)).to_lp_file_format(),
        "a + b + c + a + 10"
    );
    assert_eq!(
        (a.clone() - n(1) + x(&b) - n(2) - x(&c) + n(3) + x(&a) - n(4)).to_lp_file_format(),
        "a + b - c + a - 4"
    );
    assert_eq!((a.clone() + x(&b) + n(1) - x(&c) - x(&a) - n(3)).to_lp_file_format(), "a + b - c - a - 2");
    assert_eq!(
        (a.clone() + x(&b) + (c.clone() - n(1)) * n(2) - x(&a) - n(3)).to_lp_file_format(),
        "a + b + 2 c - a - 5"
    );
    assert_eq!(
        (a.clone() + x(&b) + (d(1) - x(&c)) * n(2) - x(&a) - n(3)).to_lp_file_format(),
        "a + b - 2 c - a - 1"
    );
    assert_eq!((d(2) * (a.clone() + n(5))).to_lp_file_format(), "2 a + 10");
    assert_eq!(((d(2) + x(&b)) * (a.clone() + n(5))).to_lp_file_format(), "2 a + a b + 5 b + 10");
    assert_eq!((d(2) + (a.clone() + x(&b)) + n(3)).to_lp_file_format(), "a + b + 5");
}

#[test]
fn trivial_rules() {
    let (a, b, _) = vars();
    let ab = || a.clone() + x(&b);
    assert_eq!((ab() * n(0)).to_lp_file_format(), "0");
    assert_eq!((d(0) * ab()).to_lp_file_format(), "0");
    assert_eq!((ab() + n(0)).to_lp_file_format(), "a + b");
    assert_eq!((d(0) + ab() + n(0)).to_lp_file_format(), "a + b");
    assert_eq!((d(0) + ab()).to_lp_file_format(), "a + b");
    assert_eq!((ab() - n(0)).to_lp_file_format(), "a + b");
    assert_eq!((d(0) - ab()).to_lp_file_format(), "-a - b");
    assert_eq!((d(0) + ab()).to_lp_file_format(), "a + b");
}

#[test]
fn expressions_to_lp_file_format() {
    let (a, b, c) = vars();

    // Expressions
    assert_eq!((a.clone() + d(2) * x(&b) + x(&c)).to_lp_file_format(), "a + 2 b + c");
    assert_eq!((a.clone() + b.clone() * n(2) + x(&c)).to_lp_file_format(), "a + 2 b + c");
    assert_eq!((a.clone() + b.clone() * n(2) + d(3 * 2) * x(&c)).to_lp_file_format(), "a + 2 b + 6 c");
    assert_eq!((a.clone() + n(2)).to_lp_file_format(), "a + 2");
    assert_eq!((d(2) * x(&a) + d(2) * x(&b) - d(4) * x(&c)).to_lp_file_format(), "2 a + 2 b - 4 c");
    assert_eq!((d(-2) * x(&a)).to_lp_file_format(), "-2 a");

    // Constraints
    assert_eq!((a.clone() + x(&b)).equal(&n(10)).to_lp_file_format(), "a + b = 10");
    assert_eq!((d(2) * x(&a) + x(&b)).ge(&n(10)).to_lp_file_format(), "2 a + b >= 10");
    assert_eq!((d(2) * x(&a) + x(&b) + n(20)).ge(&x(&c)).to_lp_file_format(), "2 a + b - c >= -20");
    assert_eq!((-x(&a)).ge(&n(10)).to_lp_file_format(), "-a >= 10");
    assert_eq!((d(2) * x(&a) - n(20) + x(&b)).ge(&(-x(&c))).to_lp_file_format(), "2 a + b + c >= 20");
}

#[test]
fn test_readme_example() {
    let (a, b, c) = vars();

    let mut problem = LpProblem::new("One Problem", LpObjective::Maximize);
    problem.add_objective_expression(&(d(10) * x(&a) + d(20) * x(&b)));
    problem.add_constraints(&(d(500) * x(&a) + d(1200) * x(&b) + d(1500) * x(&c)).le(&n(10000)));
    problem.add_constraints(&a.le(&x(&b)));

    let output1 = "\\ One Problem

Maximize
  obj: 10 a + 20 b

Subject To
  c1: 500 a + 1200 b + 1500 c <= 10000
  c2: a - b <= 0

"
    .to_string();
    let output2 = problem.to_lp_file_format();
    let output2 = output2.split("Generals").collect::<Vec<&str>>();
    let output2 = output2[0];
    assert_eq!(output1, output2);
}

#[test]
fn simplification_keeps_value_on_an_example() {
    // 2 * (2 + a) simplifies to 2 a + 4; both take 10 at a = 3.
    let a = LpInteger::new("a");
    let e = d(2) * (d(2) + x(&a));
    let s = simplify(&e);
    assert_eq!(s.to_lp_file_format(), "2 a + 4");
    let mut values = ValueMap::new();
    values.insert("a".to_string(), Number::Finite(d(3)));
    let mut p1 = LpProblem::new("p", LpObjective::Minimize);
    p1.obj_expr = Some(e);
    let mut p2 = LpProblem::new("p", LpObjective::Minimize);
    p2.obj_expr = Some(s);
    let mut values2 = ValueMap::new();
    values2.insert("a".to_string(), Number::Finite(d(3)));
    let v1 = Solution::with_problem(Status::Optimal, values, &p1).eval();
    let v2 = Solution::with_problem(Status::Optimal, values2, &p2).eval();
    assert_eq!(v1, Some(Number::Finite(d(10))));
    assert_eq!(v1, v2);
}

fn eval_at(e: LpExpression, name: &str, v: Decimal) -> Option<Number> {
    let mut values = ValueMap::new();
    values.insert(name.to_string(), Number::Finite(v));
    let mut p = LpProblem::new("p", LpObjective::Minimize);
    p.obj_expr = Some(e);
    Solution::with_problem(Status::Optimal, values, &p).eval()
}

#[test]
fn simplification_keeps_value_with_fractions() {
    // 0.5 * (a + 3) simplifies to 0.5 a + 1.5; both take 1.625 at a = 0.25.
    let a = LpInteger::new("a");
    let half = Decimal::new(false, 5, -1).unwrap();
    let e = half * (x(&a) + n(3));
    let s = simplify(&e);
    let expected = LpExpression::AddExpr(
        Box::new(LpExpression::MulExpr(Box::new(LpExpression::LitVal(half)), Box::new(x(&a)))),
        Box::new(LpExpression::LitVal(Decimal::new(false, 15, -1).unwrap())),
    );
    assert_eq!(s, expected);
    let at = Decimal::new(false, 25, -2).unwrap();
    let v = Some(Number::Finite(Decimal::new(false, 1625, -3).unwrap()));
    assert_eq!(eval_at(e, "a", at), v);
    assert_eq!(eval_at(s, "a", at), v);
}

#[test]
fn simplification_drops_a_tiny_literal() {
    // A literal below 0.00001 counts as zero: a + 0.000001 simplifies to a,
    // which changes the value.
    let a = LpInteger::new("a");
    let tiny = Decimal::new(false, 1, -6).unwrap();
    let e = x(&a) + LpExpression::LitVal(tiny);
    let s = simplify(&e);
    assert_eq!(s, x(&a));
    assert_eq!(eval_at(e, "a", d(1)), Some(Number::Finite(Decimal::new(false, 1000001, -6).unwrap())));
    assert_eq!(eval_at(s, "a", d(1)), Some(Number::Finite(d(1))));
}

#[test]
fn generalization_keeps_meaning_on_an_example() {
    // a + 3 <= b - 2 becomes a - b <= -5.
    let (a, b, _) = vars();
    let c = LpConstraint(a.clone() + n(3), Constraint::LessOrEqual, b.clone() - n(2));
    let g = c.generalize();
    assert_eq!(g.to_lp_file_format(), "a - b <= -5");
    assert_eq!(g.1, Constraint::LessOrEqual);
    assert_eq!(g.2, LpExpression::LitVal(d(-5)));
}

#[test]
fn split_constant_takes_the_trailing_literal() {
    let (a, b, _) = vars();
    let (k, rest) = split_constant_and_expr(&((a.clone() + x(&b)) - n(4)));
    assert_eq!(k, d(-4));
    assert_eq!(rest, a.clone() + x(&b));
    let (k, rest) = split_constant_and_expr(&x(&a));
    assert_eq!(k, d(0));
    assert_eq!(rest, x(&a));
}

#[test]
fn sums_of_expressions() {
    let (a, b, c) = vars();
    let v = vec![x(&a), x(&b), x(&c)];
    assert_eq!(lp_sum(&v).to_lp_file_format(), "a + b + c");
    let coefs = vec![1, 2, 3];
    let s = sum(&coefs, |k: &i32| d(*k) * x(&a));
    assert_eq!(s.to_lp_file_format(), " a + 2 a + 3 a");
}

#[test]
fn objective_drops_its_constant() {
    let (a, b, _) = vars();
    let mut problem = LpProblem::new("p", LpObjective::Minimize);
    problem.add_objective_expression(&(x(&a) + n(5)));
    problem.add_objective_expression(&(x(&b) + n(1)));
    assert_eq!(problem.obj_expr.as_ref().unwrap().to_lp_file_format(), "b + a");
    assert_eq!(problem.constraints.len(), 0);
}

#[test]
fn objective_value_differs_by_its_constant() {
    // (a + 5) + (b + 1) is kept as b + a: at a = 2, b = 3 it is 5, the sum 11
    // less the constant 6.
    let (a, b, _) = vars();
    let mut problem = LpProblem::new("p", LpObjective::Minimize);
    problem.add_objective_expression(&(x(&a) + n(5)));
    problem.add_objective_expression(&(x(&b) + n(1)));
    let mut values = ValueMap::new();
    values.insert("a".to_string(), Number::Finite(d(2)));
    values.insert("b".to_string(), Number::Finite(d(3)));
    let s = Solution::with_problem(Status::Optimal, values, &problem);
    assert_eq!(s.eval(), Some(Number::Finite(d(5))));
}

#[test]
fn variables_one_per_name() {
    let (a, b, c) = vars();
    let a_bounded = LpInteger::new("a").upper_bound(d(3));
    let mut problem = LpProblem::new("p", LpObjective::Minimize);
    problem += (a.clone() + x(&b)).le(&n(1));
    problem += (d(2) * x(&b) + x(&a_bounded) + x(&c)).ge(&n(0));
    let vs = problem.variables();
    assert_eq!(vs.len(), 3);
    assert_eq!(vs[0], LpExpression::ConsInt(a_bounded.clone()));
    assert_eq!(vs[1], x(&b));
    assert_eq!(vs[2], x(&c));
}

#[test]
fn normalize_places_the_literal_first() {
    let (a, b, _) = vars();
    let e = LpExpression::MulExpr(Box::new(x(&a)), Box::new(n(3)));
    assert_eq!(e.normalize(), LpExpression::MulExpr(Box::new(n(3)), Box::new(x(&a))));
    let f = LpExpression::MulExpr(Box::new(n(3)), Box::new(x(&a)));
    assert_eq!(f.normalize(), f);
    let g = a.clone() + x(&b);
    assert_eq!(g.normalize(), g);
}

#[test]
fn constants_removed_from_operands() {
    let (a, b, _) = vars();
    assert_eq!((a.clone() + n(2)).dfs_remove_constant(), x(&a));
    assert_eq!((d(2) * x(&a)).dfs_remove_constant(), d(2) * x(&a));
    assert_eq!((d(1) + n(2)).dfs_remove_constant(), LpExpression::EmptyExpr);
    assert_eq!(
        ((a.clone() - n(1)) + (x(&b) + n(4))).dfs_remove_constant(),
        a.clone() + x(&b)
    );
}
