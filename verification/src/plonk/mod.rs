//! The quotient evaluation of a PLONK prover: expressions compiled to graphs of calculations,
//! and the quotient evaluated over the extended domain, at once or a tile at a time.

pub mod arith;
pub mod bench;
pub mod check;
pub mod circuit;
pub mod evaluate;
pub mod evaluation;
pub mod evaluator;
pub mod folds;
pub mod graph;
pub mod meaning;
pub mod order;
pub mod quotient;
pub mod results;
pub mod sample_values;
pub mod samples;
pub mod spilled;
pub mod system;
pub mod terms;
pub mod tile;
pub mod windows;
