# apfloat_fuzz

The verified core of a fuzzer that compares implementations of floating-point arithmetic, among
them `rustc_apfloat`. It has two jobs:

- It generates a corpus: small files with an encoded operation, rounding mode and operands, for a
  fuzzer to start from. Every format, operation and rounding mode is combined with all choices out of
  ten inputs for each operand.
- It plans and accounts for exhaustive runs of small formats: which cases there are, which thread
  runs which, what the threads report, what is shown meanwhile, and what the run comes to.

Evaluating an operation is not part of it. The library hands out cases and takes in outcomes.

## Layout

- `src/semantics.rs`, `src/rounding.rs`: the formats and rounding modes of `rustc_apfloat`.
- `src/corpus.rs`, `src/corpus_laws.rs`: the corpus, and what holds of it as a whole.
- `src/cases.rs`, `src/plan.rs`: the cases of an exhaustive run, and how threads share them.
- `src/schedule.rs`: how often progress is shown and reports are sent.
- `src/worker.rs`, `src/tally.rs`, `src/report.rs`: the worker threads' and the main thread's side
  of a run, and its end.
- `src/run.rs`: a whole run, for any number of threads and any order of their reports.
- `src/bits.rs`: shifts and masks of `u128` as arithmetic.
- `app/`: files, threads and printing.

Functions named `law_..` state properties of the library as a whole.
