pub mod lcg;
pub mod parallel_iterator;
pub mod util;

pub use lcg::{java, Random, LCG};
pub use parallel_iterator::ParallelIterator;
