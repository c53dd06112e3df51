use vstd::prelude::*;

verus! {

/// Why a magic packet could not be built.
#[derive(Debug, Clone, Copy, PartialEq, Eq, Structural)]
pub enum WolError {
    /// The text is not six colon-separated two-digit hex groups.
    InvalidMacAddress,
    /// The address did not yield exactly six bytes.
    InvalidBufferLength,
    /// The finished packet did not have 102 bytes.
    InvalidPacketSize,
    /// The address pattern could not be compiled.
    MacValidationFailed,
    /// A group of the address is not a hex byte.
    MacConversionFailed,
}

} // verus!
