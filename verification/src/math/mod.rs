pub mod component;
pub mod lattice;
pub mod optimize;
