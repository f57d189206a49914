use vstd::prelude::*;

verus! {

/// Why a buffer could not be decoded.
#[derive(Debug, Clone, Copy, PartialEq, Eq, Structural)]
pub enum Error {
    /// A varint ran past the end of the input, past ten bytes, or had a
    /// tenth byte other than 0 or 1.
    Varint,
    /// A fixed-width or length-delimited payload needs more bytes than remain.
    Truncated,
}

} // verus!
