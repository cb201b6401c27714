//! The Gurobi solver, run as a command: its settings, its command line, the
//! status it reports and the reading of the solution file it writes.

use vstd::prelude::*;

use crate::dsl::problem::LpProblem;
use crate::num::{parse_number, parse_number_exec, Decimal, Number};
use crate::solvers::{
    float_error, float_error_message, format_error, format_error_message, fresh_solution_file_name,
    is_solution_file_name, law_read_rows, lemma_read_rows_step, lemma_read_rows_stop, named_later, read_rows,
    rest_lines, row_names, row_outcome,
    Solution, SolutionFormat, SolverModel, SolverWithSolutionParsing, Status, ValueMap,
};
use crate::text::{
    chars_of_str, contains_chars, lines, occurs_in, push_str, split_lines, split_words,
    string_from_chars, words,
};

verus! {

/// The Gurobi solver.
#[derive(Debug)]
pub struct GurobiSolver {
    name: String,
    command_name: String,
    temp_solution_file: String,
}

impl View for GurobiSolver {
    type V = SolverModel;

    closed spec fn view(&self) -> SolverModel {
        SolverModel {
            name: self.name@,
            command: self.command_name@,
            solution_file: self.temp_solution_file@,
            threads: None,
            seconds: None,
        }
    }
}

/// One row of a Gurobi solution file: a comment starting with `#`, or a
/// name and its value.
pub open spec fn gurobi_row(l: Seq<char>) -> Option<Result<Option<(Seq<char>, Number)>, Seq<char>>> {
    if l.len() > 0 && l[0] == '#' {
        Some(Ok(None))
    } else {
        let w = words(l);
        if w.len() == 2 {
            match parse_number(w[1]) {
                Some(v) => Some(Ok(Some((w[0], v)))),
                None => Some(Err(float_error())),
            }
        } else {
            Some(Err(format_error()))
        }
    }
}

/// What reading a Gurobi solution file gives: the values of the rows after
/// its first line.
pub open spec fn gurobi_solution(text: Seq<char>) -> Option<Result<Map<Seq<char>, Number>, Seq<char>>> {
    read_rows(SolutionFormat::Gurobi, rest_lines(lines(text)))
}

/// A Gurobi solution file records, for each line after the first that is
/// not a comment (`#`), the value in its second field under the name in its
/// first, unless a later line names the same variable.
pub proof fn law_gurobi_rows(text: Seq<char>, i: int)
    requires
        gurobi_solution(text) matches Some(Ok(_)),
        1 <= i < lines(text).len(),
        !(lines(text)[i].len() > 0 && lines(text)[i][0] == '#'),
    ensures
        ({
            let ls = lines(text);
            let w = words(ls[i]);
            let m = gurobi_solution(text)->0->Ok_0;
            &&& w.len() == 2
            &&& parse_number(w[1]) is Some
            &&& m.contains_key(w[0])
            &&& !named_later(SolutionFormat::Gurobi, ls, i, w[0]) ==> m[w[0]] == parse_number(w[1])->0
        }),
{
    let ls = lines(text);
    let rest = ls.drop_first();
    assert(rest_lines(ls) == rest);
    assert(rest[i - 1] == ls[i]);
    law_read_rows(SolutionFormat::Gurobi, rest, i - 1);
    let w = words(ls[i]);
    assert(row_outcome(SolutionFormat::Gurobi, ls[i]) == gurobi_row(ls[i]));
    assert(w.len() == 2);
    assert(parse_number(w[1]) is Some);
    if named_later(SolutionFormat::Gurobi, rest, i - 1, w[0]) {
        let j = choose|j: int| i - 1 < j < rest.len() && #[trigger] row_names(SolutionFormat::Gurobi, rest[j], w[0]);
        assert(rest[j] == ls[j + 1]);
        assert(row_names(SolutionFormat::Gurobi, ls[j + 1], w[0]));
    }
}

/// Status of a Gurobi run read from what it printed: optimal where it found
/// an optimal solution, infeasible where the output holds `infesible`
/// (spelt so: the text `infeasible` that Gurobi prints does not count),
/// suboptimal otherwise.
pub open spec fn gurobi_status(output: Seq<char>) -> Status {
    if occurs_in("Optimal solution found"@, output) {
        Status::Optimal
    } else if occurs_in("infesible"@, output) {
        Status::Infeasible
    } else {
        Status::SubOptimal
    }
}

/// Command-line arguments of a Gurobi run on `model_file`.
pub open spec fn gurobi_arguments(m: SolverModel, model_file: Seq<char>) -> Seq<Seq<char>> {
    seq!["ResultFile="@ + m.solution_file, model_file]
}

impl GurobiSolver {
    /// A Gurobi solver run as `gurobi_cl`, with a fresh solution file name.
    pub fn new() -> (r: GurobiSolver)
        ensures
            r@.name == "Gurobi"@,
            r@.command == "gurobi_cl"@,
            is_solution_file_name(r@.solution_file),
    {
        GurobiSolver {
            name: "Gurobi".to_owned(),
            command_name: "gurobi_cl".to_owned(),
            temp_solution_file: fresh_solution_file_name(),
        }
    }

    /// The same solver run as `command_name`.
    pub fn command_name(&self, command_name: String) -> (r: GurobiSolver)
        ensures
            r@ == (SolverModel { command: command_name@, ..self@ }),
    {
        GurobiSolver {
            name: self.name.clone(),
            command_name,
            temp_solution_file: self.temp_solution_file.clone(),
        }
    }

    /// Name of the solver.
    pub fn solver_name(&self) -> (r: &String)
        ensures
            r@ == self@.name,
    {
        &self.name
    }

    /// Program that runs the solver.
    pub fn program(&self) -> (r: &String)
        ensures
            r@ == self@.command,
    {
        &self.command_name
    }

    /// File the solver writes its solution to.
    pub fn solution_file(&self) -> (r: &String)
        ensures
            r@ == self@.solution_file,
    {
        &self.temp_solution_file
    }

    /// Command-line arguments of a run on `model_file`; see
    /// `gurobi_arguments`.
    pub fn arguments(&self, model_file: &str) -> (r: Vec<String>)
        ensures
            r@.map_values(|a: String| a@) == gurobi_arguments(self@, model_file@),
    {
        let mut first = chars_of_str("ResultFile=");
        push_str(&mut first, self.temp_solution_file.as_str());
        let mut args: Vec<String> = Vec::new();
        args.push(string_from_chars(&first));
        args.push(model_file.to_owned());
        assert(args@.map_values(|a: String| a@) =~= gurobi_arguments(self@, model_file@));
        args
    }

    /// Status of a run read from what the solver printed; see
    /// `gurobi_status`.
    pub fn status_from_output(output: &str) -> (r: Status)
        ensures
            r == gurobi_status(output@),
    {
        let out = chars_of_str(output);
        let optimal = chars_of_str("Optimal solution found");
        if contains_chars(&out, &optimal) {
            return Status::Optimal;
        }
        let infeasible = chars_of_str("infesible");
        if contains_chars(&out, &infeasible) {
            Status::Infeasible
        } else {
            Status::SubOptimal
        }
    }

    /// Reads the values of a Gurobi solution file; see `gurobi_solution`.
    /// Values are read with `parse_number`: numbers (rounded to 18
    /// significant digits where they have more), infinities and not a
    /// number; any other value text gives the error `invalid float literal`.
    pub fn read_values(content: &str) -> (r: Result<ValueMap, String>)
        ensures
            match gurobi_solution(content@) {
                Some(Ok(m)) => r matches Ok(v) && v@ == m,
                Some(Err(e)) => r matches Err(msg) && msg@ == e,
                None => false,
            },
    {
        let text = chars_of_str(content);
        let ls = split_lines(&text);
        let ghost lv = ls@.map_values(|w: Vec<char>| w@);
        let ghost rest = rest_lines(lv);
        let mut values = ValueMap::new();
        if ls.len() == 0 {
            proof {
                assert(rest.len() == 0);
            }
            return Ok(values);
        }
        let mut i: usize = 1;
        proof {
            assert(rest.take(0) =~= Seq::<Seq<char>>::empty());
        }
        while i < ls.len()
            invariant
                1 <= i <= ls.len(),
                lv == ls@.map_values(|w: Vec<char>| w@),
                lv == lines(content@),
                rest == lv.drop_first(),
                read_rows(SolutionFormat::Gurobi, rest.take(i - 1)) == Some(
                    Ok::<Map<Seq<char>, Number>, Seq<char>>(values@),
                ),
            decreases ls.len() - i,
        {
            proof {
                lemma_read_rows_step(SolutionFormat::Gurobi, rest, i - 1);
                assert(rest[i - 1] == ls@[i as int]@);
            }
            let line = &ls[i];
            if line.len() > 0 && line[0] == '#' {
                i = i + 1;
                continue;
            }
            let w = split_words(line);
            let ghost wv = w@.map_values(|x: Vec<char>| x@);
            if w.len() == 2 {
                proof {
                    assert(wv[0] == w@[0]@);
                    assert(wv[1] == w@[1]@);
                }
                match parse_number_exec(&w[1]) {
                    Some(v) => {
                        let name = string_from_chars(&w[0]);
                        values.insert(name, v);
                    },
                    None => {
                        proof {
                            lemma_read_rows_stop(SolutionFormat::Gurobi, rest, i as int, rest.len() as int);
                            assert(rest.take(rest.len() as int) =~= rest);
                        }
                        return Err(float_error_message());
                    },
                }
            } else {
                proof {
                    lemma_read_rows_stop(SolutionFormat::Gurobi, rest, i as int, rest.len() as int);
                    assert(rest.take(rest.len() as int) =~= rest);
                }
                return Err(format_error_message());
            }
            i = i + 1;
        }
        proof {
            assert(rest.take(i - 1) =~= rest);
        }
        Ok(values)
    }
}

impl SolverWithSolutionParsing for GurobiSolver {
    /// Reads a Gurobi solution file: an optimal solution of `problem` with
    /// the values of the file; see `gurobi_solution`.
    /// Values are read with `parse_number`: numbers (rounded to 18
    /// significant digits where they have more), infinities and not a
    /// number; any other value text gives the error `invalid float literal`.
    fn read_specific_solution<'a>(&self, content: &str, problem: Option<&'a LpProblem>) -> (r: Result<Solution<'a>, String>)
        ensures
            match gurobi_solution(content@) {
                Some(Ok(m)) => r matches Ok(s) && s.status == Status::Optimal && s.results@ == m
                    && s.related_problem == problem,
                Some(Err(e)) => r matches Err(msg) && msg@ == e,
                None => false,
            },
    {
        match GurobiSolver::read_values(content) {
            Ok(values) => Ok(Solution { status: Status::Optimal, results: values, related_problem: problem }),
            Err(e) => Err(e),
        }
    }
}

} // verus!
