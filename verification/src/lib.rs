//! Reverses possible internal seeds of a linear congruential generator from a
//! system of inequalities on the outputs of its random calls.
pub mod util;
pub mod reversal;
pub mod math;
