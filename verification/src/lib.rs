//! Byte-level access to platform strings.
//!
//! A platform string is a byte sequence on POSIX-like systems, UTF-8 text on
//! some targets, and a sequence of 16-bit units on Windows-like systems. This
//! library converts each of these to and from a byte sequence without loss
//! and offers searching, splitting and trimming directly on the bytes.

pub mod common;
pub mod conversions;
pub mod error;
pub mod ext;
pub mod iter;
pub mod laws;
pub mod pattern;
pub mod private;
pub mod raw_str;
pub mod text;
pub mod util;
pub mod wasm;
pub mod windows;
pub mod windows_common;

pub use common as imp;
pub use error::EncodingError;
pub use ext::SliceIndex;
pub use pattern::AsciiByte;
pub use pattern::Pattern;
pub use raw_str::RawOsStr;
pub use raw_str::RawOsString;
pub use conversions::OsStrBytes;
pub use conversions::OsStringBytes;
