//! In-place comparison sorting for integer sequences.
//!
//! The centrepiece is `intro_sort`: depth-bounded quicksort that falls back to
//! heapsort when recursion gets too deep and finishes with a single global
//! insertion-sort pass. Three in-place partitioning schemes (Hoare, Lomuto,
//! Dutch national flag) are exposed through `quick_sort_with`, and the simpler
//! collaborator sorts (heap, insertion, merge, selection, counting, tim) are
//! provided alongside.
//!
//! Every sort ensures the same top-level contract: the result is a
//! non-decreasing rearrangement of the input, stated as multiset equality of
//! sequence views plus `sorted`.

pub mod order;

pub mod comparison;
pub mod heap;
pub mod insertion;
pub mod merge;
pub mod non_comparison;
pub mod quick;

pub use comparison::intro::intro_sort;
pub use comparison::quick::{quick_sort, quick_sort_with, Partition};
pub use comparison::selection::selection_sort;
pub use comparison::tim::{tim_sort, tim_sort_by};
pub use heap::heap_sort;
pub use insertion::insertion_sort;
pub use merge::merge_sort;
pub use non_comparison::counting::counting_sort;
