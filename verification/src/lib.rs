//! A counting container over string elements, in the style of a multiset:
//! it maps each distinct element to the number of times it has been seen,
//! and offers the usual multiset algebra (sum, floored difference,
//! intersection by minimum, union by maximum) plus a query for the most
//! common elements.

pub mod counts;
pub mod laws;
pub mod model;

pub use crate::counts::Counter;
