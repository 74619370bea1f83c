//! Cellular-automaton grid stepping and dense integer matrix arithmetic,
//! each with a single-pass form and a row-banded form whose results agree.

pub mod partition;
pub mod grid;
pub mod matrix;
mod random;
