use lp_modeler::dsl::operations::LpOperations;
use lp_modeler::dsl::problem::{LpObjective, LpProblem, Problem};
use lp_modeler::dsl::{BoundableLp, Constraint, LpBinary, LpContinuous, LpExpression, LpInteger};
use lp_modeler::modeler::{BinaryVariable, ContinuousVariable, IntegerVariable, LpVariable};
use lp_modeler::num::{Decimal, Number};
use lp_modeler::solvers::minilp::{decompose_expression, problem_to_minilp, DecomposeError, ModelError, MiniLpSolver, VarWithCoeff};
use lp_modeler::solvers::native_cbc::{add_variable, solution_status, CbcRunStatus, ColumnKind, NativeCbcSolver};
use lp_modeler::solvers::{model_file_name, run_failure_message, Solution, Status, ValueMap, WithMaxSeconds, WithNbThreads};

fn d(v: i32) -> Decimal {
    Decimal::from_i32(v)
}

fn c(v: &LpContinuous) -> LpExpression {
    LpExpression::from(v.clone())
}

#[test]
fn decomposition_of_a_sum() {
    let a = LpContinuous::new("a").lower_bound(d(1));
    let b = LpContinuous::new("b").upper_bound(d(8));
    let a2 = LpContinuous::new("a").lower_bound(d(3)).upper_bound(d(9));
    let expr = d(4) * c(&a) + c(&b) + d(2) * c(&a2);
    let list = decompose_expression(&expr).unwrap();
    let entries = list.entries();
    assert_eq!(entries.len(), 2);
    assert_eq!(entries[0].0, "a");
    assert_eq!(entries[0].1, VarWithCoeff { coefficient: d(6), min: Some(d(3)), max: Some(d(9)) });
    assert_eq!(entries[1].0, "b");
    assert_eq!(entries[1].1, VarWithCoeff { coefficient: d(1), min: None, max: Some(d(8)) });
}

fn coefficient_of(list: &Vec<(String, VarWithCoeff)>, name: &str) -> Option<VarWithCoeff> {
    let mut found = None;
    for (n, v) in list.iter() {
        if n == name {
            found = Some(*v);
        }
    }
    found
}

#[test]
fn test_decompose() {
    let a = LpContinuous::new("a");
    let b = LpContinuous::new("b");
    let n = |v: i32| LpExpression::from(v);
    let expr = (n(4) * (n(3) * c(&a) - c(&b) * n(2) + c(&a))) * n(1) + c(&b);
    let list = decompose_expression(&expr).unwrap();
    let entries = list.entries();
    assert_eq!(entries.len(), 2);
    assert_eq!(coefficient_of(entries, "a"), Some(VarWithCoeff { coefficient: d(4 * 3 + 4), min: None, max: None }));
    assert_eq!(coefficient_of(entries, "b"), Some(VarWithCoeff { coefficient: d(4 * (-2) + 1), min: None, max: None }));
}

#[test]
fn decomposition_of_a_difference() {
    let a = LpContinuous::new("a");
    let b = LpContinuous::new("b");
    let list = decompose_expression(&(c(&a) - d(3) * c(&b))).unwrap();
    let entries = list.entries();
    assert_eq!(entries.len(), 2);
    assert_eq!(entries[0], ("a".to_string(), VarWithCoeff { coefficient: d(1), min: None, max: None }));
    assert_eq!(entries[1], ("b".to_string(), VarWithCoeff { coefficient: d(-3), min: None, max: None }));
}

#[test]
fn decomposition_errors() {
    let a = LpContinuous::new("a");
    let b = LpContinuous::new("b");
    match decompose_expression(&(c(&a) + LpExpression::from(3))) {
        Err(DecomposeError::UnsupportedExpression(_)) => {},
        other => panic!("unexpected {:?}", other),
    }
    match decompose_expression(&(c(&a) * c(&b))) {
        Err(DecomposeError::NonSimplifiedMultiplication(_, _)) => {},
        other => panic!("unexpected {:?}", other),
    }
    let i = LpInteger::new("i");
    match decompose_expression(&LpExpression::from(i)) {
        Err(DecomposeError::UnsupportedExpression(_)) => {},
        other => panic!("unexpected {:?}", other),
    }
    let big = Decimal::new(false, 1, 30).unwrap();
    let small = Decimal::new(false, 1, -4).unwrap();
    match decompose_expression(&(big * c(&a) + small * c(&a))) {
        Err(DecomposeError::NotRepresentable) => {},
        other => panic!("unexpected {:?}", other),
    }
}

#[test]
fn minilp_model_of_a_problem() {
    let a = LpContinuous::new("a");
    let b = LpContinuous::new("b");
    let e = LpContinuous::new("e");
    let mut problem = LpProblem::new("One Problem", LpObjective::Maximize);
    problem.add_objective_expression(&(d(10) * c(&a) + d(20) * c(&b)));
    problem.add_constraints(&(d(500) * c(&a) + d(1000) * c(&e)).ge(&LpExpression::from(10000)));
    let model = problem_to_minilp(&problem).unwrap();
    assert_eq!(model.direction, LpObjective::Maximize);
    let cols = model.columns.entries();
    assert_eq!(cols.len(), 3);
    assert_eq!(cols[0].0, "a");
    assert_eq!(cols[0].1.coefficient, d(10));
    assert_eq!(cols[1].0, "b");
    assert_eq!(cols[2].0, "e");
    assert_eq!(cols[2].1, VarWithCoeff { coefficient: d(0), min: None, max: None });
    assert_eq!(model.rows.len(), 1);
    assert_eq!(model.rows[0].terms, vec![(0, d(500)), (2, d(1000))]);
    assert_eq!(model.rows[0].op, Constraint::GreaterOrEqual);
    assert_eq!(model.rows[0].rhs, d(10000));

    let values = model.solution_values(&vec![(0, Number::Finite(d(-20))), (2, Number::Finite(d(3)))]).unwrap();
    assert_eq!(values.get("a"), Some(Number::Finite(d(-20))));
    assert_eq!(values.get("e"), Some(Number::Finite(d(3))));
    assert_eq!(values.get("b"), None);
    assert_eq!(model.solution_values(&vec![(3, Number::Finite(d(1)))]).unwrap_err(), "missing variable name");

    let empty = LpProblem::new("empty", LpObjective::Minimize);
    match problem_to_minilp(&empty) {
        Err(ModelError::MissingObjective) => {},
        other => panic!("unexpected {:?}", other),
    }
    let mut with_integer = LpProblem::new("int", LpObjective::Minimize);
    with_integer.add_objective_expression(&LpExpression::from(LpInteger::new("i")));
    match problem_to_minilp(&with_integer) {
        Err(ModelError::Decompose(DecomposeError::UnsupportedExpression(_))) => {},
        other => panic!("unexpected {:?}", other),
    }
    let _ = MiniLpSolver::new();
}

#[test]
fn native_cbc_model_of_a_problem() {
    let a = LpInteger::new("a").lower_bound(d(0)).upper_bound(d(5));
    let b = LpBinary::new("b");
    let x = LpContinuous::new("x");
    let mut problem = LpProblem::new("p", LpObjective::Minimize);
    problem.add_objective_expression(&(d(3) * LpExpression::from(a.clone()) + d(2) * LpExpression::from(b.clone())));
    problem.add_constraints(
        &(LpExpression::from(a.clone()) + LpExpression::from(b.clone()) + d(-1) * c(&x)).le(&LpExpression::from(4)),
    );
    let solver = NativeCbcSolver::new().with_max_seconds(5).with_nb_threads(2);
    assert_eq!(solver.max_seconds(), Some(5));
    assert_eq!(solver.nb_threads(), Some(2));
    let model = solver.model(&problem);
    assert_eq!(model.sense, LpObjective::Minimize);
    assert_eq!(model.columns.len(), 3);
    assert_eq!(model.columns[0].name, "a");
    assert_eq!(model.columns[0].kind, ColumnKind::Integer);
    assert_eq!(model.columns[0].lower, Some(d(0)));
    assert_eq!(model.columns[0].upper, Some(d(5)));
    assert_eq!(model.columns[1].kind, ColumnKind::Binary);
    assert_eq!(model.columns[2].kind, ColumnKind::Continuous);
    assert_eq!(model.rows.len(), 1);
    assert_eq!(model.rows[0].op, Constraint::LessOrEqual);
    assert_eq!(model.rows[0].bound, d(4));
    assert_eq!(model.rows[0].weights, vec![(0, d(1)), (1, d(1)), (2, d(-1))]);
    assert_eq!(model.objective, vec![(0, d(3)), (1, d(2))]);

    let col = add_variable(&LpExpression::from(b));
    assert_eq!(col.kind, ColumnKind::Binary);
    assert_eq!(col.lower, None);
}

#[test]
fn solution_values() {
    let a = LpInteger::new("a");
    let b = LpBinary::new("b");
    let x = LpContinuous::new("x");
    let mut values = ValueMap::new();
    values.insert("a".to_string(), Number::Finite(Decimal::new(false, 3000001, -6).unwrap()));
    values.insert("b".to_string(), Number::Finite(Decimal::new(false, 999999, -6).unwrap()));
    values.insert("x".to_string(), Number::Finite(Decimal::new(true, 25, -1).unwrap()));
    let mut problem = LpProblem::new("p", LpObjective::Maximize);
    problem.add_objective_expression(&(d(2) * LpExpression::from(a.clone()) + d(4) * c(&x)));
    let s = Solution::with_problem(Status::Optimal, values, &problem);
    assert_eq!(s.get_int(&a), 3);
    assert!(s.get_bool(&b));
    assert_eq!(s.get_float(&x), Number::Finite(Decimal::new(true, 25, -1).unwrap()));
    assert_eq!(s.get_raw_value("a"), Number::Finite(Decimal::new(false, 3000001, -6).unwrap()));
    // 2 * 3.000001 + 4 * -2.5
    assert_eq!(s.eval(), Decimal::new(true, 3999998, -6).map(Number::Finite));
    let s2 = Solution::new(Status::SubOptimal, ValueMap::new());
    assert_eq!(s2.eval(), None);
}

#[test]
fn plain_variable_descriptions() {
    let _ = BinaryVariable::new("b");
    let _ = IntegerVariable::new("i", Some(0), Some(10));
    let _ = ContinuousVariable::new("c", None, Some(3));
    assert_ne!(LpVariable::BinaryVariable, LpVariable::IntegerVariable);
}

#[test]
fn file_names_and_messages() {
    let problem = LpProblem::new("prob", LpObjective::Minimize);
    let f = model_file_name(&problem);
    assert!(f.starts_with("prob_"));
    assert!(f.ends_with(".lp"));
    assert_eq!(f.len(), "prob_".len() + 36 + 3);
    assert_eq!(run_failure_message(&"Cbc".to_string()), "Error running the Cbc solver");
}

#[test]
fn status_of_a_cbc_library_run() {
    assert_eq!(solution_status(CbcRunStatus::Finished), Status::Optimal);
    assert_eq!(solution_status(CbcRunStatus::Abandoned), Status::Infeasible);
    assert_eq!(solution_status(CbcRunStatus::Stopped), Status::NotSolved);
    assert_eq!(solution_status(CbcRunStatus::Unlaunched), Status::NotSolved);
    assert_eq!(solution_status(CbcRunStatus::UserEvent), Status::NotSolved);
}

#[test]
fn evaluation_rounds_and_follows_infinities() {
    let x = LpContinuous::new("x");
    let y = LpContinuous::new("y");
    let big = Decimal::new(false, 123456789012345678, 0).unwrap();
    let mut problem = LpProblem::new("p", LpObjective::Maximize);
    problem.obj_expr = Some(c(&x) * c(&y));
    let mut values = ValueMap::new();
    values.insert("x".to_string(), Number::Finite(big));
    values.insert("y".to_string(), Number::Finite(big));
    // 123456789012345678^2 = 15241578753238836527968299765279684, cut to 18 digits.
    let s = Solution::with_problem(Status::Optimal, values, &problem);
    assert_eq!(s.eval(), Decimal::new(false, 152415787532388365, 17).map(Number::Finite));

    let mut problem2 = LpProblem::new("p", LpObjective::Maximize);
    problem2.obj_expr = Some(c(&x) - c(&y));
    let mut values2 = ValueMap::new();
    values2.insert("x".to_string(), Number::Infinite(false));
    values2.insert("y".to_string(), Number::Infinite(false));
    let s2 = Solution::with_problem(Status::Optimal, values2, &problem2);
    assert_eq!(s2.eval(), Some(Number::NotANumber));

    let mut problem3 = LpProblem::new("p", LpObjective::Maximize);
    problem3.obj_expr = Some(d(2) * c(&x) + c(&y));
    let mut values3 = ValueMap::new();
    values3.insert("x".to_string(), Number::Infinite(true));
    let s3 = Solution::with_problem(Status::Optimal, values3, &problem3);
    assert_eq!(s3.eval(), Some(Number::Infinite(true)));
}
