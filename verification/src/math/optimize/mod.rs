pub mod gauss_jordan;
pub mod optimize;
