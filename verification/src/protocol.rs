//! The sampling-based binary consensus that shares the membership view.

pub mod slush;
pub mod snowball;
pub mod types;
