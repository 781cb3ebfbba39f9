//! A five-card poker hand evaluator — parser, frequency statistics and
//! a totally ordered integer score — together with standalone
//! number-theory utilities over machine words and big integers.

pub mod big;
pub mod cards;
pub mod utility;
