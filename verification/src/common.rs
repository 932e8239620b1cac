//! The strategy for platforms whose strings are arbitrary bytes.

pub mod convert;
pub mod raw;
