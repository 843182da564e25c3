//! Comparison-based sorts.

pub mod intro;
pub mod quick;
pub mod selection;
pub mod tim;
