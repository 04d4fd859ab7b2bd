//! The core of a fuzzer for floating-point arithmetic: the corpus that it starts from, and
//! exhaustive runs over small float formats.

pub mod bits;
pub mod cases;
pub mod corpus;
pub mod corpus_laws;
pub mod plan;
pub mod report;
pub mod rounding;
pub mod run;
pub mod schedule;
pub mod semantics;
pub mod tally;
pub mod worker;
