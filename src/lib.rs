//! A lossy representation of a path as a `String`, normalized for quick and
//! approximate comparison: case insensitive, separator insensitive, with
//! repeated and trailing slashes removed.
use vstd::prelude::*;

pub mod normal_form;
pub mod ordering;
pub mod path;

pub use path::FuzzyPath;
