# solver

A solver for systems of non-linear constraints written in a small line-oriented
DSL (assignments, constraints, domain declarations, labels and comments).

- `src/` is the verified library (Verus): the tokenizer, the recursive-descent
  expression parser, the statement parser, the analyses that extract calculated
  and free variables, domains and constraints, script validation, and the
  laws that relate them (`src/laws.rs`).
- `app/` is the command-line program and the numerical solver around the
  library: expression evaluation, penalties, differential evolution, gradient
  polishing and Monte Carlo estimates (all in `f64`), plus the Node.js and
  WebAssembly bindings.
- `tests/` exercises the library.
