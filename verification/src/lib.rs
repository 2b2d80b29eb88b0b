//! A verified parser for the HTTP `Cache-Control` header.
//!
//! The header value is a comma-separated list of directives, each a key with
//! an optional `=`-separated value. [`CacheControl::from_value`] parses such a
//! value into a [`CacheControl`] record; [`CacheControl::from_header`] accepts
//! a whole `"Name: value"` header line and checks the name first. Both are
//! proved to return exactly what the sequence-level grammar in
//! [`directives`] prescribes.

pub mod directives;
pub mod laws;
pub mod number;
pub mod text;

pub use directives::Cachability;
pub use directives::CacheControl;
