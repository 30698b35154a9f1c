//! Concrete guessing strategies.

pub mod naive;
pub mod scripted;

pub use naive::Naive;
pub use scripted::Scripted;
