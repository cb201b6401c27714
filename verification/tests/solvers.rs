use lp_modeler::num::{Decimal, Number};
use lp_modeler::solvers::cbc::CbcSolver;
use lp_modeler::solvers::glpk::GlpkSolver;
use lp_modeler::solvers::gurobi::GurobiSolver;
use lp_modeler::solvers::{Status, SolverWithSolutionParsing, ValueMap, WithMaxSeconds, WithNbThreads};

fn num(v: i32) -> Number {
    Number::Finite(Decimal::from_i32(v))
}

fn dec(v: i32) -> Decimal {
    Decimal::from_i32(v)
}

const CBC_OPTIMAL: &str = "Optimal - objective value 46.00000000
      0 a                      5                       0
      1 b                      6                       0
      2 c                      0                       0
";

const CBC_INFEASIBLE: &str = "Infeasible - objective value 0.00000000
**     0 a                    1.5                       0
      1 b                      0                       0
";

const CBC_UNBOUNDED: &str = "Unbounded - objective value 0.00000000
      0 a                      0                       0
";

const GLPK_OPTIMAL: &str = "Problem:    
Rows:       2
Columns:    3 (3 integer, 0 binary)
Non-zeros:  5
Status:     INTEGER OPTIMAL
Objective:  obj = 100 (MAXimum)

   No.   Row name        Activity     Lower bound   Upper bound
------ ------------    ------------- ------------- -------------
     1 c1                       6000                       10000 
     2 c2                         -5                          -0 

   No. Column name       Activity     Lower bound   Upper bound
------ ------------    ------------- ------------- -------------
     1 a            *              0             0               
     2 b            *              5             0               
     3 c            *              0             0               

Integer feasibility conditions:
";

const GLPK_INFEASIBLE: &str = "Problem:    
Rows:       1
Columns:    1
Non-zeros:  1
Status:     INFEASIBLE (FINAL)
Objective:  obj = 0 (MAXimum)

   No.   Row name   St   Activity     Lower bound   Upper bound    Marginal
------ ------------ -- ------------- ------------- ------------- -------------
     1 c1           B              0            10               

   No. Column name  St   Activity     Lower bound   Upper bound    Marginal
------ ------------ -- ------------- ------------- ------------- -------------
     1 a            NL             0             0                       < eps
";

const GLPK_UNBOUNDED: &str = "Problem:    
Rows:       1
Columns:    1
Non-zeros:  1
Status:     UNBOUNDED
Objective:  obj = 0 (MAXimum)

   No.   Row name   St   Activity     Lower bound   Upper bound    Marginal
------ ------------ -- ------------- ------------- ------------- -------------
     1 c1           B              0            10               

   No. Column name  St   Activity     Lower bound   Upper bound    Marginal
------ ------------ -- ------------- ------------- ------------- -------------
     1 a            B              0             0                       
";

#[test]
fn cbc_optimal() {
    let (status, variables) = CbcSolver::read_specific_solution(CBC_OPTIMAL).unwrap();
    assert_eq!(status, Status::Optimal);
    assert_eq!(variables.get("a"), Some(num(5)));
    assert_eq!(variables.get("b"), Some(num(6)));
    assert_eq!(variables.get("c"), Some(num(0)));
}

#[test]
fn cbc_infeasible() {
    let (status, variables) = CbcSolver::read_specific_solution(CBC_INFEASIBLE).unwrap();
    assert_eq!(status, Status::Infeasible);
    assert_eq!(variables.get("a"), Decimal::new(false, 15, -1).map(Number::Finite));
}

#[test]
fn cbc_unbounded() {
    let (status, _) = CbcSolver::read_specific_solution(CBC_UNBOUNDED).unwrap();
    assert_eq!(status, Status::Unbounded);
}

#[test]
fn cbc_other_statuses() {
    let (status, _) = CbcSolver::read_specific_solution("Stopped on time - objective value 3\n").unwrap();
    assert_eq!(status, Status::SubOptimal);
    let (status, _) = CbcSolver::read_specific_solution("Integer infeasible - objective value 3\n").unwrap();
    assert_eq!(status, Status::Infeasible);
    let (status, _) = CbcSolver::read_specific_solution("Whatever\n").unwrap();
    assert_eq!(status, Status::NotSolved);
}

#[test]
fn cbc_format_errors() {
    assert_eq!(CbcSolver::read_specific_solution("").unwrap_err(), "Incorrect solution format");
    assert_eq!(CbcSolver::read_specific_solution("   \n").unwrap_err(), "Incorrect solution format");
    assert_eq!(
        CbcSolver::read_specific_solution("Optimal\n 0 a 5\n").unwrap_err(),
        "Incorrect solution format"
    );
    assert_eq!(
        CbcSolver::read_specific_solution("Optimal\n 0 a five 0\n").unwrap_err(),
        "invalid float literal"
    );
}

#[test]
fn cbc_later_value_replaces_earlier() {
    let (_, variables) =
        CbcSolver::read_specific_solution("Optimal\n 0 a 1 0\n 1 a 2 0\r\n").unwrap();
    assert_eq!(variables.get("a"), Some(num(2)));
    assert_eq!(variables.to_vec().len(), 1);
}

#[test]
fn glpk_optimal() {
    let (status, variables) = GlpkSolver::read_specific_solution(GLPK_OPTIMAL).unwrap();
    assert_eq!(status, Status::Optimal);
    assert_eq!(variables.get("a"), Some(num(0)));
    assert_eq!(variables.get("b"), Some(num(5)));
    assert_eq!(variables.get("c"), Some(num(0)));
}

#[test]
fn glpk_infeasible() {
    let (status, _) = GlpkSolver::read_specific_solution(GLPK_INFEASIBLE).unwrap();
    assert_eq!(status, Status::Infeasible);
}

#[test]
fn glpk_unbounded() {
    let (status, _) = GlpkSolver::read_specific_solution(GLPK_UNBOUNDED).unwrap();
    assert_eq!(status, Status::Unbounded);
}

#[test]
fn glpk_errors() {
    assert_eq!(GlpkSolver::read_specific_solution("Problem:\n").unwrap_err(), "Incorrect solution format");
    assert_eq!(
        GlpkSolver::read_specific_solution("Problem:\nRows: x\nColumns: 1\n").unwrap_err(),
        "Incorrect solution format"
    );
    assert_eq!(
        GlpkSolver::read_specific_solution("Problem:\nRows: 1\nColumns: 1\nNon-zeros: 1\n").unwrap_err(),
        "Incorrect solution format: No solution status found"
    );
    assert_eq!(
        GlpkSolver::read_specific_solution("Problem:\nRows: 1\nColumns: 1\nNon-zeros: 1\nStatus:     SOMETHING\n")
            .unwrap_err(),
        "Incorrect solution format: Unknown solution status"
    );
    let head = "Problem:\nRows:       0\nColumns:    2\nNon-zeros:  0\nStatus:     OPTIMAL\n\n\n\n\n\n\n\n";
    assert_eq!(
        GlpkSolver::read_specific_solution(&format!("{}     1 a B 3 0\n", head)).unwrap_err(),
        "Incorrect solution format: Not all columns are present"
    );
    assert_eq!(
        GlpkSolver::read_specific_solution(&format!("{}     1 a 3\n     2 b B 4\n", head)).unwrap_err(),
        "Incorrect solution format: Column specification has to few fields"
    );
    let (status, values) =
        GlpkSolver::read_specific_solution(&format!("{}     1 a B 3 0\n     2 b B 4\n", head)).unwrap();
    assert_eq!(status, Status::Optimal);
    assert_eq!(values.get("a"), Some(num(3)));
    assert_eq!(values.get("b"), Some(num(4)));
}

#[test]
fn gurobi_reads_values_and_skips_comments() {
    let solver = GurobiSolver::new();
    let content = "# Solution for model obj\n# Objective value = 46\na 5\nb 6\nc 0\n";
    let solution = solver.read_specific_solution(content, None).unwrap();
    assert_eq!(solution.status, Status::Optimal);
    assert_eq!(solution.results.get("b"), Some(num(6)));
    assert!(solution.related_problem.is_none());
    assert_eq!(
        solver.read_specific_solution("header\na 5 6\n", None).unwrap_err(),
        "Incorrect solution format"
    );
    assert_eq!(solver.read_specific_solution("header\na x\n", None).unwrap_err(), "invalid float literal");
}

#[test]
fn gurobi_status_from_output() {
    assert_eq!(GurobiSolver::status_from_output("...\nOptimal solution found (tolerance 1e-4)\n"), Status::Optimal);
    assert_eq!(GurobiSolver::status_from_output("Model is infesible"), Status::Infeasible);
    assert_eq!(GurobiSolver::status_from_output("Model is infeasible"), Status::SubOptimal);
    assert_eq!(GurobiSolver::status_from_output("Time limit reached"), Status::SubOptimal);
}

#[test]
fn solver_settings_and_arguments() {
    let cbc = CbcSolver::new();
    assert_eq!(cbc.program(), "cbc");
    assert_eq!(cbc.solver_name(), "Cbc");
    assert_eq!(cbc.solution_file().len(), 40);
    assert!(cbc.solution_file().ends_with(".sol"));
    let cbc = cbc.with_max_seconds(10).with_nb_threads(4).temp_solution_file("out.sol".to_string());
    assert_eq!(cbc.max_seconds(), None);
    let cbc = cbc.with_max_seconds(10).with_nb_threads(4);
    assert_eq!(cbc.max_seconds(), Some(10));
    assert_eq!(cbc.nb_threads(), Some(4));
    assert_eq!(
        cbc.arguments("p.lp"),
        vec!["p.lp", "seconds", "10", "threads", "4", "solve", "solution", "out.sol"]
    );
    let cbc = cbc.command_name("/usr/bin/cbc".to_string());
    assert_eq!(cbc.program(), "/usr/bin/cbc");
    assert_eq!(cbc.arguments("p.lp"), vec!["p.lp", "solve", "solution", "out.sol"]);

    let glpk = GlpkSolver::new().temp_solution_file("g.sol".to_string());
    assert_eq!(glpk.program(), "glpsol");
    assert_eq!(glpk.arguments("p.lp"), vec!["--lp", "p.lp", "-o", "g.sol"]);

    let gurobi = GurobiSolver::new().command_name("grb".to_string());
    assert_eq!(gurobi.program(), "grb");
    let args = gurobi.arguments("p.lp");
    assert_eq!(args[0], format!("ResultFile={}", gurobi.solution_file()));
    assert_eq!(args[1], "p.lp");
}

#[test]
fn value_map_keeps_last_write() {
    let mut m = ValueMap::new();
    m.insert("x".to_string(), num(1));
    m.insert("y".to_string(), num(2));
    m.insert("x".to_string(), num(3));
    assert_eq!(m.get("x"), Some(num(3)));
    assert_eq!(m.get("y"), Some(num(2)));
    assert_eq!(m.get("z"), None);
    assert_eq!(m.to_vec().len(), 2);
}

#[test]
fn values_read_as_floating_point_readers_do() {
    let read = |v: &str| {
        let text = format!("Optimal - objective value 0\n      0 a  {}  0\n", v);
        CbcSolver::read_specific_solution(&text).map(|(_, m)| m.get("a"))
    };
    assert_eq!(read("inf"), Ok(Some(Number::Infinite(false))));
    assert_eq!(read("-Infinity"), Ok(Some(Number::Infinite(true))));
    assert_eq!(read("NaN"), Ok(Some(Number::NotANumber)));
    // More than 18 significant digits: the last ones are dropped.
    assert_eq!(read("1234567890123456789"), Ok(Decimal::new(false, 123456789012345678, 1).map(Number::Finite)));
    assert_eq!(read("123456789012345678"), Ok(Decimal::new(false, 123456789012345678, 0).map(Number::Finite)));
    assert_eq!(read("1e5000000000"), Ok(Some(Number::Infinite(false))));
    assert_eq!(read("-2.5e-5000000000"), Ok(Some(Number::Finite(Decimal::from_i32(0)))));
    // 40 digits: the last 22 are dropped.
    assert_eq!(
        read("1234567890123456789012345678901234567890"),
        Ok(Decimal::new(false, 123456789012345678, 22).map(Number::Finite))
    );
    assert_eq!(read("0.000000000000000000000000000000000000000000000000000000000012"), Ok(Decimal::new(false, 12, -60).map(Number::Finite)));
    assert_eq!(read("abc"), Err("invalid float literal".to_string()));
    let gurobi = GurobiSolver::read_values("# header\na inf\nb -NAN\n").unwrap();
    assert_eq!(gurobi.get("a"), Some(Number::Infinite(false)));
    assert_eq!(gurobi.get("b"), Some(Number::NotANumber));
}
