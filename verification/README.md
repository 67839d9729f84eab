# dnf_converter

Conversion of propositional formulas to disjunctive normal form, and the
satisfying partial assignments of a formula, verified with Verus.

Input files hold one clause per line (after a first information line): a
line is a list of space-separated signed integers, `n` standing for
variable `n` and `-n` for its negation.

- `src/formula.rs`: binary formulas, evaluation, literals, clauses, DNF.
- `src/dnf.rs`: the conversion of binary formulas (`to_dnf`), its meaning
  (`dnf_of`), termination, and the proofs that the result is an equivalent
  formula in DNF.
- `src/line.rs`: the clause line format (`parse_line`).
- `src/cnf.rs`: clause lines to balanced disjunction / conjunction trees.
- `src/valuation.rs`: partial assignments, their unions, and `dnf_sat`,
  with the proof that its result describes exactly the models of a formula.
- `src/nary.rs`, `src/nary_stack.rs`: formulas with n-ary connectives and
  two flattening conversions, each with the exact set of inputs it accepts.
- `src/parallel.rs`: the contracts assumed for rayon's `join` and parallel map.
- `app/main.rs`: the command-line program (file reading and printing).
