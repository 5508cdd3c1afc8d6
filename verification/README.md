# sqlexpr-load-congo-rust

A load-testing harness for the `sqlexpr-congo-rust` boolean SQL expression
evaluator. It groups expressions by complexity (the number of logical
`AND`/`OR` operators), evaluates each one a given number of times, and writes
Markdown reports of the timings per complexity class and of the failures.

Layout:

- `src/` — the verified library (Verus):
  - `complexity.rs`: the complexity measure, on the UTF-8 bytes of the
    upper-cased expression, with `BETWEEN ... AND` clauses masked;
  - `cli.rs`: the run's settings and their validation;
  - `report.rs`, `table.rs`, `text.rs`: the layout of both reports, the
    ordering of the complexity classes, and the text helpers they use.
- `app/` — the program around it: argument parsing (clap), reading the input
  (serde_json), timing the evaluations, the floating-point statistics, the
  clock, and writing the report files.
- `tests/` — tests of the library.
