//! A generalized UTF-8 that also encodes unpaired surrogates, so that every
//! sequence of 16-bit units has a byte form.

pub mod code_points;
pub mod convert;
pub mod laws;
pub mod model;
pub mod string;
pub mod string_laws;
