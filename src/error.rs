//! Errors of the record decoder.

use vstd::prelude::*;

verus! {

/// Why a record could not be decoded.
#[derive(Clone, Copy, Debug, PartialEq, Eq, Structural)]
pub enum DecodeError {
    /// An object slot carries a type tag other than skater (0) or puck (1).
    UnknownObjectType,
    /// A message carries a type tag other than 0, 1 or 2.
    UnknownMessageType,
    /// A field is delta coded but the previous packet has no field of the same
    /// object type in that slot to apply the delta to.
    MissingReference,
    /// Message text is not valid UTF-8. Text arrives as 7-bit codes, which
    /// always are, so `read_message` never returns this.
    InvalidText,
}

} // verus!
