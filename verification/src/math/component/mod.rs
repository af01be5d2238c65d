pub mod rational;
pub mod arith;
pub mod big_vector;
pub mod big_matrix;
