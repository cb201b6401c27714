# lp_modeler

A modeler for linear and mixed integer programs: variables, expressions
built with the usual operators, constraints, and problems, written in the LP
file format for external solvers (CBC, GLPK, Gurobi), handed to the minilp
and CBC libraries, and the solution files of the solvers read back.

Numbers are exact decimals (`num`), so that the coefficients written to a
model file are the ones the model holds. Values read back from solvers are
`Number`s: decimals rounded to 18 significant digits, infinities, or not a
number, as a floating-point reader gives them.

- `src/` is the library, verified with Verus: the decimals (`num`), text
  helpers (`text`), the modeling language (`dsl`: variables, operators,
  simplification and its laws in `dsl::semantics`, problems), the LP format
  (`format`), and the solvers (`solvers`: settings, command lines, solution
  readers, the models handed to minilp and CBC, solutions).
- `app/` runs the solvers: it writes model files, starts the solver
  programs, calls the minilp and CBC crates with floating point numbers, and
  turns models into Rust code with `quote`.
- `tests/` holds the tests.
