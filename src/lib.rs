//! A singly linked stack of `i32` values, verified with Verus.
pub mod first;
pub mod model;

pub use first::List;
