//! Sorts that order by key rather than by pairwise comparison.

pub mod counting;
