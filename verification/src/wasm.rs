//! The strategy for platforms whose strings are always UTF-8 text.

pub mod convert;
pub mod raw;
