pub mod args;
pub mod filter;
pub mod glob;
pub mod walk;
