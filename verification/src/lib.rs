//! Finds every set of five five-letter words that together use twenty-five
//! distinct letters.
//!
//! Words pass the filter of [`words`], are encoded as letter masks by
//! [`mask`] and grouped by mask in [`index`]; [`search`] finds every
//! selection of five pairwise disjoint masks, and [`solution`] counts and
//! displays the words behind each.

pub mod index;
pub mod mask;
pub mod search;
pub mod solution;
pub mod words;
