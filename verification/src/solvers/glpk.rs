//! The GLPK solver, run as a command: its settings, its command line and the
//! reading of the solution file it writes.

use vstd::prelude::*;

use crate::num::{parse_number, parse_number_exec, parse_usize, parse_usize_exec, Decimal, Number};
use crate::solvers::{
    float_error, float_error_message, format_error, format_error_message, fresh_solution_file_name,
    is_solution_file_name, law_read_rows, lemma_read_rows_step, lemma_read_rows_stop, named_later, read_rows,
    row_names, row_outcome, SolutionFormat,
    SolverModel, Status, ValueMap,
};
use crate::text::{
    chars_from, chars_in_bytes, chars_in_bytes_exec, chars_of_str, eq_str, lines, split_lines,
    split_words, string_from_chars, words,
};

verus! {

/// The GLPK solver.
#[derive(Debug)]
pub struct GlpkSolver {
    name: String,
    command_name: String,
    temp_solution_file: String,
}

impl View for GlpkSolver {
    type V = SolverModel;

    closed spec fn view(&self) -> SolverModel {
        SolverModel {
            name: self.name@,
            command: self.command_name@,
            solution_file: self.temp_solution_file@,
            threads: None,
            seconds: None,
        }
    }
}

/// Message of a GLPK solution file without a status line.
pub open spec fn no_status_error() -> Seq<char> {
    "Incorrect solution format: No solution status found"@
}

/// Message of a GLPK solution file with a status it does not know.
pub open spec fn unknown_status_error() -> Seq<char> {
    "Incorrect solution format: Unknown solution status"@
}

/// Message of a GLPK solution file with fewer column rows than it announces.
pub open spec fn missing_columns_error() -> Seq<char> {
    "Incorrect solution format: Not all columns are present"@
}

/// Message of a GLPK column row with fewer than four fields.
pub open spec fn few_fields_error() -> Seq<char> {
    "Incorrect solution format: Column specification has to few fields"@
}

/// A size announced by line `i` of a GLPK solution file: its second word.
pub open spec fn glpk_size(ls: Seq<Seq<char>>, i: int) -> Option<nat> {
    if 0 <= i < ls.len() && words(ls[i]).len() > 1 {
        parse_usize(words(ls[i])[1])
    } else {
        None
    }
}

/// Status named by the text after the twelfth byte of the status line.
pub open spec fn glpk_status(s: Seq<char>) -> Option<Status> {
    if s == "INTEGER OPTIMAL"@ || s == "OPTIMAL"@ {
        Some(Status::Optimal)
    } else if s == "INFEASIBLE (FINAL)"@ || s == "INTEGER EMPTY"@ {
        Some(Status::Infeasible)
    } else if s == "UNDEFINED"@ {
        Some(Status::NotSolved)
    } else if s == "INTEGER UNDEFINED"@ || s == "UNBOUNDED"@ {
        Some(Status::Unbounded)
    } else {
        None
    }
}

/// One column row of a GLPK solution file: the index, the name, the
/// activity (ignored) and the value.
pub open spec fn glpk_row(l: Seq<char>) -> Option<Result<Option<(Seq<char>, Number)>, Seq<char>>> {
    let w = words(l);
    if w.len() >= 4 {
        match parse_number(w[3]) {
            Some(v) => Some(Ok(Some((w[1], v)))),
            None => Some(Err(float_error())),
        }
    } else {
        Some(Err(few_fields_error()))
    }
}

/// The column rows of a GLPK solution file whose rows and columns are
/// counted `row` and `col`: the `col` lines that follow the status line
/// after `row + 7` others, as many of them as there are.
pub open spec fn glpk_columns(ls: Seq<Seq<char>>, row: nat, col: nat) -> Seq<Seq<char>> {
    let body = if row + 12 <= ls.len() { ls.skip((row + 12) as int) } else { seq![] };
    if col <= body.len() {
        body.take(col as int)
    } else {
        body
    }
}

/// What reading a GLPK solution file gives: the numbers of rows and columns
/// on its second and third lines, the status on its fifth, and the values
/// of its column rows; `None` where the reader panics.
pub open spec fn glpk_solution(text: Seq<char>) -> Option<Result<(Status, Map<Seq<char>, Number>), Seq<char>>> {
    let ls = lines(text);
    match glpk_size(ls, 1) {
        None => Some(Err(format_error())),
        Some(row) => match glpk_size(ls, 2) {
            None => Some(Err(format_error())),
            Some(col) => if ls.len() <= 4 {
                Some(Err(no_status_error()))
            } else {
                match chars_in_bytes(ls[4], 12) {
                    None => None,
                    Some(k) => match glpk_status(ls[4].skip(k as int)) {
                        None => Some(Err(unknown_status_error())),
                        Some(st) => if row + 7 > usize::MAX {
                            None
                        } else {
                            let cols = glpk_columns(ls, row, col);
                            match read_rows(SolutionFormat::Glpk, cols) {
                                Some(Ok(m)) => if cols.len() == col {
                                    Some(Ok((st, m)))
                                } else {
                                    Some(Err(missing_columns_error()))
                                },
                                Some(Err(e)) => Some(Err(e)),
                                None => None,
                            }
                        },
                    },
                }
            },
        },
    }
}

/// The status text of a GLPK solution file: the status line after its
/// twelfth byte.
pub open spec fn glpk_status_text(text: Seq<char>) -> Option<Seq<char>> {
    let ls = lines(text);
    if ls.len() <= 4 {
        None
    } else {
        match chars_in_bytes(ls[4], 12) {
            Some(k) => Some(ls[4].skip(k as int)),
            None => None,
        }
    }
}

/// A solution read from a GLPK file is optimal exactly when its status
/// text is `OPTIMAL` or `INTEGER OPTIMAL`, and infeasible exactly when it
/// is `INFEASIBLE (FINAL)` or `INTEGER EMPTY` (an integer problem without
/// an integer solution); `UNDEFINED` gives not solved, and `UNBOUNDED` or
/// `INTEGER UNDEFINED` unbounded.
pub proof fn law_glpk_status(text: Seq<char>)
    ensures
        glpk_solution(text) matches Some(Ok((st, m))) ==> {
            let t = glpk_status_text(text)->0;
            &&& glpk_status_text(text) is Some
            &&& (st == Status::Optimal) == (t == "OPTIMAL"@ || t == "INTEGER OPTIMAL"@)
            &&& (st == Status::Infeasible) == (t == "INFEASIBLE (FINAL)"@ || t == "INTEGER EMPTY"@)
            &&& (st == Status::NotSolved) == (t == "UNDEFINED"@)
            &&& (st == Status::Unbounded) == (t == "UNBOUNDED"@ || t == "INTEGER UNDEFINED"@)
        },
{
    reveal_strlit("OPTIMAL");
    reveal_strlit("INTEGER OPTIMAL");
    reveal_strlit("INFEASIBLE (FINAL)");
    reveal_strlit("INTEGER EMPTY");
    reveal_strlit("UNDEFINED");
    reveal_strlit("UNBOUNDED");
    reveal_strlit("INTEGER UNDEFINED");
    if glpk_solution(text) is Some && glpk_solution(text)->0 is Ok {
        let st = (glpk_solution(text)->0)->Ok_0.0;
        let t = glpk_status_text(text)->0;
        assert(glpk_status(t) == Some(st));
        assert("UNDEFINED"@[2] != "UNBOUNDED"@[2]);
        assert("OPTIMAL"@.len() != "UNDEFINED"@.len());
        assert("INTEGER OPTIMAL"@[8] != "INTEGER UNDEFINED"@[8]);
        assert("INTEGER OPTIMAL"@[8] != "INTEGER EMPTY"@[8]);
        assert("INTEGER EMPTY"@.len() != "INTEGER UNDEFINED"@.len());
    }
}

/// A GLPK solution read from a file records, for each row of its column
/// table (index, name, activity, value), the value written in its fourth
/// field under the name in its second, unless a later row names the same
/// variable.
pub proof fn law_glpk_rows(text: Seq<char>, i: int)
    requires
        glpk_solution(text) matches Some(Ok(_)),
    ensures
        ({
            let ls = lines(text);
            let cols = glpk_columns(ls, glpk_size(ls, 1)->0, glpk_size(ls, 2)->0);
            let m = (glpk_solution(text)->0->Ok_0).1;
            0 <= i < cols.len() ==> {
                let w = words(cols[i]);
                &&& w.len() >= 4
                &&& parse_number(w[3]) is Some
                &&& m.contains_key(w[1])
                &&& !named_later(SolutionFormat::Glpk, cols, i, w[1]) ==> m[w[1]] == parse_number(w[3])->0
            }
        }),
{
    let ls = lines(text);
    let cols = glpk_columns(ls, glpk_size(ls, 1)->0, glpk_size(ls, 2)->0);
    let m = (glpk_solution(text)->0->Ok_0).1;
    if 0 <= i < cols.len() {
        assert(read_rows(SolutionFormat::Glpk, cols) == Some(Ok::<Map<Seq<char>, Number>, Seq<char>>(m)));
        law_read_rows(SolutionFormat::Glpk, cols, i);
        let w = words(cols[i]);
        assert(row_outcome(SolutionFormat::Glpk, cols[i]) == glpk_row(cols[i]));
        assert(w.len() >= 4);
        assert(parse_number(w[3]) is Some);
    }
}

/// Command-line arguments of a GLPK run on `model_file`.
pub open spec fn glpk_arguments(m: SolverModel, model_file: Seq<char>) -> Seq<Seq<char>> {
    seq!["--lp"@, model_file, "-o"@, m.solution_file]
}

fn glpk_status_of(s: &Vec<char>) -> (r: Option<Status>)
    ensures
        r == glpk_status(s@),
{
    if eq_str(s, "INTEGER OPTIMAL") || eq_str(s, "OPTIMAL") {
        Some(Status::Optimal)
    } else if eq_str(s, "INFEASIBLE (FINAL)") || eq_str(s, "INTEGER EMPTY") {
        Some(Status::Infeasible)
    } else if eq_str(s, "UNDEFINED") {
        Some(Status::NotSolved)
    } else if eq_str(s, "INTEGER UNDEFINED") || eq_str(s, "UNBOUNDED") {
        Some(Status::Unbounded)
    } else {
        None
    }
}

fn read_size(ls: &Vec<Vec<char>>, i: usize) -> (r: Option<usize>)
    ensures
        r matches Some(v) ==> glpk_size(ls@.map_values(|w: Vec<char>| w@), i as int) == Some(v as nat),
        r is None ==> glpk_size(ls@.map_values(|w: Vec<char>| w@), i as int) is None,
{
    if i >= ls.len() {
        return None;
    }
    let w = split_words(&ls[i]);
    proof {
        assert(ls@.map_values(|w: Vec<char>| w@)[i as int] == ls@[i as int]@);
    }
    if w.len() <= 1 {
        return None;
    }
    proof {
        assert(w@.map_values(|x: Vec<char>| x@)[1] == w@[1]@);
    }
    parse_usize_exec(&w[1])
}

impl GlpkSolver {
    /// A GLPK solver run as `glpsol`, with a fresh solution file name.
    pub fn new() -> (r: GlpkSolver)
        ensures
            r@.name == "Glpk"@,
            r@.command == "glpsol"@,
            is_solution_file_name(r@.solution_file),
    {
        GlpkSolver {
            name: "Glpk".to_owned(),
            command_name: "glpsol".to_owned(),
            temp_solution_file: fresh_solution_file_name(),
        }
    }

    /// The same solver run as `command_name`.
    pub fn command_name(&self, command_name: String) -> (r: GlpkSolver)
        ensures
            r@ == (SolverModel { command: command_name@, ..self@ }),
    {
        GlpkSolver {
            name: self.name.clone(),
            command_name,
            temp_solution_file: self.temp_solution_file.clone(),
        }
    }

    /// The same solver writing its solution to `temp_solution_file`.
    pub fn temp_solution_file(&self, temp_solution_file: String) -> (r: GlpkSolver)
        ensures
            r@ == (SolverModel { solution_file: temp_solution_file@, ..self@ }),
    {
        GlpkSolver {
            name: self.name.clone(),
            command_name: self.command_name.clone(),
            temp_solution_file,
        }
    }

    /// Name of the solver.
    pub fn solver_name(&self) -> (r: &String)
        ensures
            r@ == self@.name,
    {
        &self.name
    }

    /// Program that runs the solver.
    pub fn program(&self) -> (r: &String)
        ensures
            r@ == self@.command,
    {
        &self.command_name
    }

    /// File the solver writes its solution to.
    pub fn solution_file(&self) -> (r: &String)
        ensures
            r@ == self@.solution_file,
    {
        &self.temp_solution_file
    }

    /// Command-line arguments of a run on `model_file`; see
    /// `glpk_arguments`.
    pub fn arguments(&self, model_file: &str) -> (r: Vec<String>)
        ensures
            r@.map_values(|a: String| a@) == glpk_arguments(self@, model_file@),
    {
        let mut args: Vec<String> = Vec::new();
        args.push("--lp".to_owned());
        args.push(model_file.to_owned());
        args.push("-o".to_owned());
        args.push(self.temp_solution_file.clone());
        assert(args@.map_values(|a: String| a@) =~= glpk_arguments(self@, model_file@));
        args
    }

    /// Reads the text of a GLPK solution file; see `glpk_solution`. `None`
    /// where the reading cannot go on (see `glpk_solution`).
    /// Values are read with `parse_number`: numbers (rounded to 18
    /// significant digits where they have more), infinities and not a
    /// number; any other value text gives the error `invalid float literal`.
    pub fn read_solution_text(content: &str) -> (r: Option<Result<(Status, ValueMap), String>>)
        ensures
            match glpk_solution(content@) {
                Some(Ok((st, m))) => r matches Some(Ok((s, v))) && s == st && v@ == m,
                Some(Err(e)) => r matches Some(Err(msg)) && msg@ == e,
                None => r is None,
            },
    {
        let text = chars_of_str(content);
        let ls = split_lines(&text);
        let ghost lv = ls@.map_values(|w: Vec<char>| w@);
        let row = match read_size(&ls, 1) {
            Some(v) => v,
            None => {
                return Some(Err(format_error_message()));
            },
        };
        let col = match read_size(&ls, 2) {
            Some(v) => v,
            None => {
                return Some(Err(format_error_message()));
            },
        };
        if ls.len() <= 4 {
            return Some(Err("Incorrect solution format: No solution status found".to_owned()));
        }
        proof {
            assert(lv[4] == ls@[4]@);
        }
        let k = match chars_in_bytes_exec(&ls[4], 12) {
            Some(k) => k,
            None => {
                return None;
            },
        };
        proof {
            assert(k <= ls@[4].len()) by {
                lemma_chars_in_bytes_le(ls@[4]@, 12);
            }
        }
        let status_text = chars_from(&ls[4], k);
        let status = match glpk_status_of(&status_text) {
            Some(st) => st,
            None => {
                return Some(Err("Incorrect solution format: Unknown solution status".to_owned()));
            },
        };
        if row > usize::MAX - 7 {
            return None;
        }
        let n = ls.len();
        let avail: usize = if row <= n && n - row >= 12 {
            n - row - 12
        } else {
            0
        };
        let count: usize = if col <= avail {
            col
        } else {
            avail
        };
        let ghost cols = glpk_columns(lv, row as nat, col as nat);
        proof {
            if row + 12 <= n {
                assert(lv.skip(row + 12).len() == avail);
            }
            assert(cols.len() == count);
            assert(cols.take(0) =~= Seq::<Seq<char>>::empty());
            assert(glpk_solution(content@) == (match read_rows(SolutionFormat::Glpk, cols) {
            Some(Ok(m)) => if cols.len() == col {
                Some(Ok((status, m)))
            } else {
                Some(Err(missing_columns_error()))
            },
            Some(Err(e)) => Some(Err(e)),
            None => None,
        }));
        }
        let mut values = ValueMap::new();
        let mut j: usize = 0;
        while j < count
            invariant
                j <= count,
                count == cols.len(),
                count > 0 ==> row + 12 + count <= n,
                n == ls.len(),
                lv == ls@.map_values(|w: Vec<char>| w@),
                forall|a: int| 0 <= a < count ==> #[trigger] cols[a] == lv[row + 12 + a],
                read_rows(SolutionFormat::Glpk, cols.take(j as int)) == Some(
                    Ok::<Map<Seq<char>, Number>, Seq<char>>(values@),
                ),
                glpk_solution(content@) == (match read_rows(SolutionFormat::Glpk, cols) {
            Some(Ok(m)) => if cols.len() == col {
                Some(Ok((status, m)))
            } else {
                Some(Err(missing_columns_error()))
            },
            Some(Err(e)) => Some(Err(e)),
            None => None,
        }),
            decreases count - j,
        {
            proof {
                lemma_read_rows_step(SolutionFormat::Glpk, cols, j as int);
                assert(cols[j as int] == ls@[row + 12 + j]@);
            }
            let w = split_words(&ls[row + 12 + j]);
            let ghost wv = w@.map_values(|x: Vec<char>| x@);
            if w.len() >= 4 {
                proof {
                    assert(wv[3] == w@[3]@);
                    assert(wv[1] == w@[1]@);
                }
                match parse_number_exec(&w[3]) {
                    Some(v) => {
                        let name = string_from_chars(&w[1]);
                        values.insert(name, v);
                    },
                    None => {
                        proof {
                            lemma_read_rows_stop(SolutionFormat::Glpk, cols, j + 1, cols.len() as int);
                            assert(cols.take(cols.len() as int) =~= cols);
                        }
                        return Some(Err(float_error_message()));
                    },
                }
            } else {
                proof {
                    lemma_read_rows_stop(SolutionFormat::Glpk, cols, j + 1, cols.len() as int);
                    assert(cols.take(cols.len() as int) =~= cols);
                }
                return Some(Err(
                    "Incorrect solution format: Column specification has to few fields".to_owned(),
                ));
            }
            j = j + 1;
        }
        proof {
            assert(cols.take(count as int) =~= cols);
        }
        if col <= avail {
            Some(Ok((status, values)))
        } else {
            Some(Err("Incorrect solution format: Not all columns are present".to_owned()))
        }
    }

    /// Reads the text of a solution file; see `glpk_solution`.
    /// Values are read with `parse_number`: numbers (rounded to 18
    /// significant digits where they have more), infinities and not a
    /// number; any other value text gives the error `invalid float literal`.
    pub fn read_specific_solution(content: &str) -> (r: Result<(Status, ValueMap), String>)
        requires
            glpk_solution(content@) is Some,
        ensures
            match glpk_solution(content@) {
                Some(Ok((st, m))) => r matches Ok((s, v)) && s == st && v@ == m,
                Some(Err(e)) => r matches Err(msg) && msg@ == e,
                None => false,
            },
    {
        Self::read_solution_text(content).unwrap()
    }
}

/// The characters counted by `chars_in_bytes` are characters of `s`.
pub proof fn lemma_chars_in_bytes_le(s: Seq<char>, b: nat)
    ensures
        chars_in_bytes(s, b) matches Some(k) ==> k <= s.len(),
    decreases s.len(),
{
    if b > 0 && s.len() > 0 && crate::text::utf8_len(s[0]) <= b {
        lemma_chars_in_bytes_le(s.skip(1), (b - crate::text::utf8_len(s[0])) as nat);
    }
}

} // verus!
