//! In-place partition of an integer sequence into a zero prefix and a
//! non-zero suffix, with a value-counting multiset used to observe that the
//! partition only reorders elements.

pub mod arrays;
pub mod counter;
