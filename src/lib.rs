//! Sorting by a costly comparator, such as a person answering "a or b?".
//!
//! `sort` finds the monotone runs already in a sequence, turns the falling
//! ones around, and merges neighbouring runs in place by rotation, asking as
//! few questions as it can. `ComparisonCache` remembers the answers, answers
//! each pair in both directions, and saves itself as `a|<|b` lines.

pub mod order;
pub mod runs;
pub mod merge;
pub mod sorting;
pub mod cache;
pub mod state;
pub mod reply;

pub use cache::ComparisonCache;
pub use merge::merge_adjacent;
pub use runs::{get_merge_sort_runs, get_runs};
pub use sorting::{merge_sort, sort};
