pub mod decomposition;
pub mod enumerate;
pub mod lll;
pub mod span;
