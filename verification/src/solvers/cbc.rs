//! The CBC solver, run as a command: its settings, its command line and the
//! reading of the solution file it writes.

use vstd::prelude::*;

use crate::num::{nat_digits, parse_number, parse_number_exec, push_nat_digits, Decimal, Number};
use crate::solvers::{
    float_error, float_error_message, format_error, format_error_message, fresh_solution_file_name,
    is_solution_file_name, law_read_rows, lemma_read_rows_step, lemma_read_rows_stop, read_rows,
    named_later, row_names, row_outcome, SolutionFormat, SolverModel, Status, ValueMap, WithMaxSeconds, WithNbThreads,
};
use crate::text::{chars_of_str, eq_str, lines, split_lines, split_words, string_from_chars, words};

verus! {

/// The decimal digits of a number, as text.
pub fn number_text(n: u32) -> (r: String)
    ensures
        r@ == nat_digits(n as nat),
{
    let mut v: Vec<char> = Vec::new();
    push_nat_digits(n as u64, &mut v);
    string_from_chars(&v)
}

/// The CBC solver.
#[derive(Debug)]
pub struct CbcSolver {
    name: String,
    command_name: String,
    temp_solution_file: String,
    threads: Option<u32>,
    seconds: Option<u32>,
}

impl View for CbcSolver {
    type V = SolverModel;

    closed spec fn view(&self) -> SolverModel {
        SolverModel {
            name: self.name@,
            command: self.command_name@,
            solution_file: self.temp_solution_file@,
            threads: self.threads,
            seconds: self.seconds,
        }
    }
}

/// Status named by the first word of a CBC solution file.
pub open spec fn cbc_status(w: Seq<char>) -> Status {
    if w == "Optimal"@ {
        Status::Optimal
    } else if w == "Infeasible"@ || w == "Integer"@ {
        Status::Infeasible
    } else if w == "Unbounded"@ {
        Status::Unbounded
    } else if w == "Stopped"@ {
        Status::SubOptimal
    } else {
        Status::NotSolved
    }
}

/// One value row of a CBC solution file: an optional `**` mark, then the
/// index, the name, the value and the reduced cost. A blank row makes the
/// reader panic.
pub open spec fn cbc_row(l: Seq<char>) -> Option<Result<Option<(Seq<char>, Number)>, Seq<char>>> {
    let w = words(l);
    if w.len() == 0 {
        None
    } else {
        let f = if w[0] == "**"@ { w.drop_first() } else { w };
        if f.len() == 4 {
            match parse_number(f[2]) {
                Some(v) => Some(Ok(Some((f[1], v)))),
                None => Some(Err(float_error())),
            }
        } else {
            Some(Err(format_error()))
        }
    }
}

/// What reading a CBC solution file gives: the status named by the first
/// word of its first line and the values of its other rows; `None` where
/// the reader panics.
pub open spec fn cbc_solution(text: Seq<char>) -> Option<Result<(Status, Map<Seq<char>, Number>), Seq<char>>> {
    let ls = lines(text);
    if ls.len() == 0 || words(ls[0]).len() == 0 {
        Some(Err(format_error()))
    } else {
        match read_rows(SolutionFormat::Cbc, ls.drop_first()) {
            Some(Ok(m)) => Some(Ok((cbc_status(words(ls[0])[0]), m))),
            Some(Err(e)) => Some(Err(e)),
            None => None,
        }
    }
}

/// A CBC solution file without a first word is refused as badly formatted;
/// otherwise a solution read from it has the status that its first word
/// names (see `cbc_status`): `Optimal` optimal, `Infeasible` or `Integer`
/// (integer infeasible) infeasible, `Unbounded` unbounded, `Stopped`
/// suboptimal, and any other word not solved.
pub proof fn law_cbc_status(text: Seq<char>)
    ensures
        (lines(text).len() == 0 || words(lines(text)[0]).len() == 0) ==> cbc_solution(text) == Some(
            Err::<(Status, Map<Seq<char>, Number>), Seq<char>>(format_error()),
        ),
        cbc_solution(text) matches Some(Ok((st, m))) ==> st == cbc_status(words(lines(text)[0])[0]),
        cbc_solution(text) matches Some(Ok((st, m))) ==> {
            let w = words(lines(text)[0])[0];
            &&& (st == Status::Optimal) == (w == "Optimal"@)
            &&& (st == Status::Infeasible) == (w == "Infeasible"@ || w == "Integer"@)
            &&& (st == Status::Unbounded) == (w == "Unbounded"@)
            &&& (st == Status::SubOptimal) == (w == "Stopped"@)
        },
{
    reveal_strlit("Optimal");
    reveal_strlit("Infeasible");
    reveal_strlit("Integer");
    reveal_strlit("Unbounded");
    reveal_strlit("Stopped");
    assert("Optimal"@[0] != "Integer"@[0]);
    assert("Optimal"@[0] != "Stopped"@[0]);
    assert("Integer"@[0] != "Stopped"@[0]);
    assert("Unbounded"@.len() == 9 && "Infeasible"@.len() == 10 && "Integer"@.len() == 7);
    assert("Optimal"@.len() == 7 && "Stopped"@.len() == 7);
    if cbc_solution(text) is Some && cbc_solution(text)->0 is Ok {
        let st = (cbc_solution(text)->0)->Ok_0.0;
        let w = words(lines(text)[0])[0];
        assert(st == cbc_status(w));
        assert((st == Status::Optimal) == (w == "Optimal"@));
        assert((st == Status::Infeasible) == (w == "Infeasible"@ || w == "Integer"@));
        assert((st == Status::Unbounded) == (w == "Unbounded"@));
        assert((st == Status::SubOptimal) == (w == "Stopped"@));
    }
}

/// A CBC solution read from a file records, for each row after the first
/// line (an optional `**` mark, then index, name, value and reduced cost),
/// the value written in its third field under the name in its second,
/// unless a later row names the same variable.
pub proof fn law_cbc_rows(text: Seq<char>, i: int)
    requires
        cbc_solution(text) matches Some(Ok(_)),
        1 <= i < lines(text).len(),
    ensures
        ({
            let ls = lines(text);
            let w = words(ls[i]);
            let f = if w.len() > 0 && w[0] == "**"@ { w.drop_first() } else { w };
            let m = (cbc_solution(text)->0->Ok_0).1;
            &&& f.len() == 4
            &&& parse_number(f[2]) is Some
            &&& m.contains_key(f[1])
            &&& !named_later(SolutionFormat::Cbc, ls, i, f[1]) ==> m[f[1]] == parse_number(f[2])->0
        }),
{
    let ls = lines(text);
    let rest = ls.drop_first();
    let m = (cbc_solution(text)->0->Ok_0).1;
    assert(read_rows(SolutionFormat::Cbc, rest) == Some(Ok::<Map<Seq<char>, Number>, Seq<char>>(m)));
    assert(rest[i - 1] == ls[i]);
    law_read_rows(SolutionFormat::Cbc, rest, i - 1);
    let w = words(ls[i]);
    let f = if w.len() > 0 && w[0] == "**"@ { w.drop_first() } else { w };
    assert(row_outcome(SolutionFormat::Cbc, ls[i]) == cbc_row(ls[i]));
    assert(w.len() > 0);
    assert(f.len() == 4);
    assert(parse_number(f[2]) is Some);
    assert(cbc_row(ls[i]) == Some(Ok::<Option<(Seq<char>, Number)>, Seq<char>>(Some((f[1], parse_number(f[2])->0)))));
    if named_later(SolutionFormat::Cbc, rest, i - 1, f[1]) {
        let j = choose|j: int| i - 1 < j < rest.len() && #[trigger] row_names(SolutionFormat::Cbc, rest[j], f[1]);
        assert(rest[j] == ls[j + 1]);
        assert(row_names(SolutionFormat::Cbc, ls[j + 1], f[1]));
    }
    assert(m.contains_key(f[1]));
}

/// Command-line arguments of a CBC run on `model_file`: the model, the time
/// limit and the number of threads where they are set (in that order), and
/// the request to solve and write the solution.
pub open spec fn cbc_arguments(m: SolverModel, model_file: Seq<char>) -> Seq<Seq<char>> {
    seq![model_file] + (match m.seconds {
        Some(s) => seq!["seconds"@, nat_digits(s as nat)],
        None => seq![],
    }) + (match m.threads {
        Some(t) => seq!["threads"@, nat_digits(t as nat)],
        None => seq![],
    }) + seq!["solve"@, "solution"@, m.solution_file]
}

fn cbc_status_of(w: &Vec<char>) -> (r: Status)
    ensures
        r == cbc_status(w@),
{
    if eq_str(w, "Optimal") {
        Status::Optimal
    } else if eq_str(w, "Infeasible") || eq_str(w, "Integer") {
        Status::Infeasible
    } else if eq_str(w, "Unbounded") {
        Status::Unbounded
    } else if eq_str(w, "Stopped") {
        Status::SubOptimal
    } else {
        Status::NotSolved
    }
}

impl CbcSolver {
    /// A CBC solver run as `cbc`, with a fresh solution file name and no
    /// limits.
    pub fn new() -> (r: CbcSolver)
        ensures
            r@.name == "Cbc"@,
            r@.command == "cbc"@,
            is_solution_file_name(r@.solution_file),
            r@.threads is None,
            r@.seconds is None,
    {
        CbcSolver {
            name: "Cbc".to_owned(),
            command_name: "cbc".to_owned(),
            temp_solution_file: fresh_solution_file_name(),
            threads: None,
            seconds: None,
        }
    }

    /// The same solver run as `command_name`, without limits.
    pub fn command_name(&self, command_name: String) -> (r: CbcSolver)
        ensures
            r@ == (SolverModel { command: command_name@, threads: None, seconds: None, ..self@ }),
    {
        CbcSolver {
            name: self.name.clone(),
            command_name,
            temp_solution_file: self.temp_solution_file.clone(),
            threads: None,
            seconds: None,
        }
    }

    /// The same solver writing its solution to `temp_solution_file`, without
    /// limits.
    pub fn temp_solution_file(&self, temp_solution_file: String) -> (r: CbcSolver)
        ensures
            r@ == (SolverModel { solution_file: temp_solution_file@, threads: None, seconds: None, ..self@ }),
    {
        CbcSolver {
            name: self.name.clone(),
            command_name: self.command_name.clone(),
            temp_solution_file,
            threads: None,
            seconds: None,
        }
    }

    /// Name of the solver.
    pub fn solver_name(&self) -> (r: &String)
        ensures
            r@ == self@.name,
    {
        &self.name
    }

    /// Program that runs the solver.
    pub fn program(&self) -> (r: &String)
        ensures
            r@ == self@.command,
    {
        &self.command_name
    }

    /// File the solver writes its solution to.
    pub fn solution_file(&self) -> (r: &String)
        ensures
            r@ == self@.solution_file,
    {
        &self.temp_solution_file
    }

    /// Command-line arguments of a run on `model_file`; see `cbc_arguments`.
    pub fn arguments(&self, model_file: &str) -> (r: Vec<String>)
        ensures
            r@.map_values(|a: String| a@) == cbc_arguments(self@, model_file@),
    {
        let mut args: Vec<String> = Vec::new();
        args.push(model_file.to_owned());
        match self.seconds {
            Some(s) => {
                args.push("seconds".to_owned());
                args.push(number_text(s));
            },
            None => {},
        }
        match self.threads {
            Some(t) => {
                args.push("threads".to_owned());
                args.push(number_text(t));
            },
            None => {},
        }
        args.push("solve".to_owned());
        args.push("solution".to_owned());
        args.push(self.temp_solution_file.clone());
        assert(args@.map_values(|a: String| a@) =~= cbc_arguments(self@, model_file@));
        args
    }

    /// Reads the text of a CBC solution file; see `cbc_solution`. `None`
    /// where the reading cannot go on (see `cbc_solution`).
    /// Values are read with `parse_number`: numbers (rounded to 18
    /// significant digits where they have more), infinities and not a
    /// number; any other value text gives the error `invalid float literal`.
    pub fn read_solution_text(content: &str) -> (r: Option<Result<(Status, ValueMap), String>>)
        ensures
            match cbc_solution(content@) {
                Some(Ok((st, m))) => r matches Some(Ok((s, v))) && s == st && v@ == m,
                Some(Err(e)) => r matches Some(Err(msg)) && msg@ == e,
                None => r is None,
            },
    {
        let text = chars_of_str(content);
        let ls = split_lines(&text);
        let ghost lv = ls@.map_values(|w: Vec<char>| w@);
        if ls.len() == 0 {
            return Some(Err(format_error_message()));
        }
        let first = split_words(&ls[0]);
        proof {
            assert(lv[0] == ls@[0]@);
        }
        if first.len() == 0 {
            return Some(Err(format_error_message()));
        }
        proof {
            assert(words(lv[0])[0] == first@[0]@);
        }
        let status = cbc_status_of(&first[0]);
        let mut values = ValueMap::new();
        let ghost rest = lv.drop_first();
        let mut i: usize = 1;
        proof {
            assert(rest.take(0) =~= Seq::<Seq<char>>::empty());
        }
        while i < ls.len()
            invariant
                1 <= i <= ls.len(),
                lv == ls@.map_values(|w: Vec<char>| w@),
                lv == lines(content@),
                rest == lv.drop_first(),
                read_rows(SolutionFormat::Cbc, rest.take(i - 1)) == Some(
                    Ok::<Map<Seq<char>, Number>, Seq<char>>(values@),
                ),
                words(lv[0]).len() > 0,
                status == cbc_status(words(lv[0])[0]),
                cbc_solution(content@) == (match read_rows(SolutionFormat::Cbc, rest) {
                    Some(Ok(m)) => Some(Ok((cbc_status(words(lv[0])[0]), m))),
                    Some(Err(e)) => Some(Err(e)),
                    None => None,
                }),
            decreases ls.len() - i,
        {
            proof {
                lemma_read_rows_step(SolutionFormat::Cbc, rest, i - 1);
                assert(rest[i - 1] == ls@[i as int]@);
            }
            let w = split_words(&ls[i]);
            let ghost wv = w@.map_values(|x: Vec<char>| x@);
            if w.len() == 0 {
                proof {
                    lemma_read_rows_stop(SolutionFormat::Cbc, rest, i as int, rest.len() as int);
                    assert(rest.take(rest.len() as int) =~= rest);
                }
                return None;
            }
            let marked = eq_str(&w[0], "**");
            proof {
                assert(wv[0] == w@[0]@);
            }
            let k: usize = if marked { 1 } else { 0 };
            let ghost f = if wv[0] == "**"@ { wv.drop_first() } else { wv };
            if w.len() - k == 4 {
                proof {
                    assert(f[2] == w@[k + 2]@);
                    assert(f[1] == w@[k + 1]@);
                }
                match parse_number_exec(&w[k + 2]) {
                    Some(v) => {
                        let name = string_from_chars(&w[k + 1]);
                        values.insert(name, v);
                    },
                    None => {
                        proof {
                            lemma_read_rows_stop(SolutionFormat::Cbc, rest, i as int, rest.len() as int);
                            assert(rest.take(rest.len() as int) =~= rest);
                        }
                        return Some(Err(float_error_message()));
                    },
                }
            } else {
                proof {
                    lemma_read_rows_stop(SolutionFormat::Cbc, rest, i as int, rest.len() as int);
                    assert(rest.take(rest.len() as int) =~= rest);
                }
                return Some(Err(format_error_message()));
            }
            i = i + 1;
        }
        proof {
            assert(rest.take(i - 1) =~= rest);
        }
        Some(Ok((status, values)))
    }

    /// Reads the text of a solution file; see `cbc_solution`.
    /// Values are read with `parse_number`: numbers (rounded to 18
    /// significant digits where they have more), infinities and not a
    /// number; any other value text gives the error `invalid float literal`.
    pub fn read_specific_solution(content: &str) -> (r: Result<(Status, ValueMap), String>)
        requires
            cbc_solution(content@) is Some,
        ensures
            match cbc_solution(content@) {
                Some(Ok((st, m))) => r matches Ok((s, v)) && s == st && v@ == m,
                Some(Err(e)) => r matches Err(msg) && msg@ == e,
                None => false,
            },
    {
        Self::read_solution_text(content).unwrap()
    }
}

impl WithMaxSeconds<CbcSolver> for CbcSolver {
    fn max_seconds(&self) -> (r: Option<u32>)
        ensures
            r == self@.seconds,
    {
        self.seconds
    }

    fn with_max_seconds(&self, seconds: u32) -> (r: CbcSolver)
        ensures
            r@ == (SolverModel { seconds: Some(seconds), ..self@ }),
    {
        CbcSolver {
            name: self.name.clone(),
            command_name: self.command_name.clone(),
            temp_solution_file: self.temp_solution_file.clone(),
            threads: self.threads,
            seconds: Some(seconds),
        }
    }
}

impl WithNbThreads<CbcSolver> for CbcSolver {
    fn nb_threads(&self) -> (r: Option<u32>)
        ensures
            r == self@.threads,
    {
        self.threads
    }

    fn with_nb_threads(&self, threads: u32) -> (r: CbcSolver)
        ensures
            r@ == (SolverModel { threads: Some(threads), ..self@ }),
    {
        CbcSolver {
            name: self.name.clone(),
            command_name: self.command_name.clone(),
            temp_solution_file: self.temp_solution_file.clone(),
            threads: Some(threads),
            seconds: self.seconds,
        }
    }
}

} // verus!
