use vstd::prelude::*;

verus! {

/// The two ways in which building a string value can fail.
#[derive(Debug, Clone, PartialEq, Eq, Structural)]
pub enum Error {
    /// The encoded text is longer than `u32::MAX` bytes; holds its length.
    StringTooLong(usize),
    /// The bytes are not valid UTF-8.
    InvalidUtf8String,
}

/// Result of the fallible constructors.
pub type Result<T> = core::result::Result<T, Error>;

} // verus!
