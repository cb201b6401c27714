use lp_modeler::dsl::operations::LpOperations;
use lp_modeler::dsl::problem::{LpObjective, LpProblem, Problem};
use lp_modeler::dsl::{BoundableLp, LpBinary, LpContinuous, LpExpression, LpInteger};
use lp_modeler::format::lp_format::LpFileFormat;
use lp_modeler::num::Decimal;

fn dec(v: i32) -> Decimal {
    Decimal::from_i32(v)
}

fn x(v: &LpInteger) -> LpExpression {
    LpExpression::from(v.clone())
}

#[test]
fn test_readme_example_1() {
    let a = LpInteger::new("a");
    let b = LpInteger::new("b");
    let c = LpInteger::new("c");

    let mut problem = LpProblem::new("One Problem", LpObjective::Maximize);
    problem.add_objective_expression(&(dec(10) * x(&a) + dec(20) * x(&b)));
    problem.add_constraints(
        &(dec(500) * x(&a) + dec(1200) * x(&b) + dec(1500) * x(&c)).le(&LpExpression::from(10000)),
    );
    problem.add_constraints(&a.le(&x(&b)));

    let output1 = "\\ One Problem

Maximize
  obj: 10 a + 20 b

Subject To
  c1: 500 a + 1200 b + 1500 c <= 10000
  c2: a - b <= 0

"
    .to_string();
    let output2 = problem.to_lp_file_format();
    let output2 = output2.split("Generals").collect::<Vec<&str>>();
    let output2 = output2[0];
    assert_eq!(output1, output2);
}

#[test]
fn test_full_example() {
    let a = LpInteger::new("a").lower_bound(dec(1));
    let b = LpInteger::new("b").upper_bound(dec(10));
    let c = LpInteger::new("c").lower_bound(dec(2)).upper_bound(Decimal::new(false, 85, -1).unwrap());
    let d = LpBinary::new("d");
    let e = LpContinuous::new("e");

    let mut problem = LpProblem::new("One Problem", LpObjective::Maximize);
    let sum = || {
        x(&a) + x(&b) + x(&c) + LpExpression::from(d.clone()) + LpExpression::from(e.clone())
    };
    problem.add_objective_expression(&sum());
    problem.add_constraints(&sum().le(&LpExpression::from(dec(100))));

    let output1 = problem.to_lp_file_format();
    for expr in vec!["e free", "1 <= a", "2 <= c <= 8.5", "b <= 10"] {
        assert!(output1.contains(expr), "{} is not present", expr);
    }
}

#[test]
fn unique_name_is_a_version_4_identifier() {
    let p = LpProblem::new("P", LpObjective::Minimize);
    let u: Vec<char> = p.unique_name.chars().collect();
    assert_eq!(u.len(), 2 + 36);
    assert_eq!(&u[..2], &['P', '_']);
    let id = &u[2..];
    for (i, ch) in id.iter().enumerate() {
        if i == 8 || i == 13 || i == 18 || i == 23 {
            assert_eq!(*ch, '-');
        } else {
            assert!(ch.is_ascii_digit() || ('a'..='f').contains(ch));
        }
    }
    assert_eq!(id[14], '4');
    assert!(['8', '9', 'a', 'b'].contains(&id[19]));
}

#[test]
fn adding_keeps_name_and_sense() {
    let a = LpInteger::new("a");
    let mut p = LpProblem::new("P", LpObjective::Maximize);
    let unique = p.unique_name.clone();
    p.add_objective_expression(&(LpExpression::from(2) * LpExpression::from(a.clone())));
    p.add_constraints(&LpExpression::from(a.clone()).le(&LpExpression::from(3)));
    assert_eq!(p.name, "P");
    assert_eq!(p.unique_name, unique);
    assert_eq!(p.objective_type, LpObjective::Maximize);
}
