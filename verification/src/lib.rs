//! An ordered integer-set algebra.
//!
//! An integer set is represented as a minimal ordered collection of disjoint,
//! non-adjacent closed ranges ([`ContiguousIntegerSet`]), gathered into an
//! [`OrderedIntegerSet`].  The library provides construction from raw pairs,
//! incremental point insertion with online coalescing, containment,
//! intersection, subtraction, cardinality, ascending iteration, and positional
//! slicing by rank, all with verified contracts over a sequence-of-ranges
//! model.
//!
//! [`ContiguousIntegerSet`]: contiguous_integer_set::ContiguousIntegerSet
//! [`OrderedIntegerSet`]: ordered_integer_set::OrderedIntegerSet

pub mod arithmetic;
pub mod contiguous_integer_set;
pub mod jackknife;
pub mod laws;
pub mod model;
pub mod ordered_integer_set;
pub mod slicing;
