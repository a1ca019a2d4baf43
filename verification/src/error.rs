//! Errors of the encoder.

use vstd::prelude::*;

verus! {

/// Why an input could not be encoded.
#[derive(Clone, Copy, Debug, PartialEq, Eq, Structural)]
pub enum EncodeError {
    /// The payload is longer than the length field describing it can say.
    PayloadTooLarge,
    /// The symbol width is zero, or wider than the 32 bits of a symbol.
    BitWidthOutOfRange,
}

impl EncodeError {
    /// A short description of the error.
    pub fn message(&self) -> (text: String)
        ensures
            text@ == match *self {
                EncodeError::PayloadTooLarge => "payload too large"@,
                EncodeError::BitWidthOutOfRange => "bit width out of range"@,
            },
    {
        match self {
            EncodeError::PayloadTooLarge => "payload too large".to_owned(),
            EncodeError::BitWidthOutOfRange => "bit width out of range".to_owned(),
        }
    }
}

} // verus!
