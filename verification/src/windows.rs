//! The strategy for platforms whose strings are sequences of 16-bit units.

pub mod convert;
pub mod raw;
pub mod wtf8;
