# OxStat

A statistical analysis library for tabular data with SPSS-like semantics. The library
under `src/` is written in Verus: every function has a contract, and every contract is
proved but those of the outside functions under Trust.

## Layout

- `src/dataset.rs`, `src/variable.rs`, `src/value.rs`, `src/batch.rs`: the data model.
- `src/number.rs`, `src/arith.rs`: doubles as bit patterns, and rounded arithmetic that
  the caller hands in.
- `src/text.rs`, `src/text_order.rs`, `src/text_law.rs`: text.
- `src/expr/`: the expression language, with three-valued logic and Gregorian dates.
- `src/sav/`: reading and writing SPSS `.sav` files, with a proof that what was written
  is read back, and of what is left of a file that is cut.
- `src/import/`: datasets from CSV, Excel and Parquet tables.
- `src/transform/`: SELECT IF, SORT CASES, AGGREGATE, ADD FILES, MATCH FILES,
  VARSTOCASES and CASESTOVARS, with a proof that the last undoes the one before.
- `src/descriptives.rs`, `src/output.rs`: DESCRIPTIVES and plain text output.
- `tests/`: tests of the library.
- `app/`: the command line program around it, with file access and floating point.

## Trust

The proofs rest on the contracts of a few outside functions: case mapping, character
classes, lossy decoding and `String::push` of std (`src/text.rs`), sorting by
`lexsort_to_indices` of arrow (`src/transform/sort.rs`), and reading numbers from text by
arrow's `cast` (`src/descriptives.rs`).

Public functions whose contract asks that the data can be read have a counterpart named
`try_...`, which tests that first.
