use vstd::prelude::*;

verus! {

/// Why a decode, an encode or a measure did not succeed.
#[derive(Clone, Copy, Debug, PartialEq, Eq, Structural)]
pub enum CodecError {
    /// Fewer bytes are left than a fixed-width field takes, or the
    /// destination has less room than the encoding takes.
    BufferTooShort,
    /// A length prefix announces more bytes than are left, or a text range
    /// is not a whole number of code units.
    InvalidLength,
    /// A length does not fit the integer type that has to hold it.
    NumericConversion,
}

} // verus!
