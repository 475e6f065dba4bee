//! A compact immutable string: texts of up to twelve bytes are kept inside
//! the value, longer ones in a shared buffer with a cached four-byte prefix.
//! Equality, byte-lexicographic order and hashing agree across both shapes.
use vstd::prelude::*;

pub mod error;
pub mod laws;
pub mod semi_str;
pub mod text;

pub use error::{Error, Result};
pub use semi_str::{SemiStr, INLINE_CAP};

verus! {

} // verus!
