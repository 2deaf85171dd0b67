//! Fragments of the syntax of regular expressions.

pub mod range_quantifier;
