use vstd::prelude::*;

verus! {

/// The ways an encode or decode call can fail.
///
/// `RootNotCompoundError` is reserved for callers that enforce the
/// root-is-a-compound convention; the decoding primitives themselves do not.
/// `IOError` reports a truncated or otherwise unreadable byte stream,
/// `Utf8Error` a name or string payload that is not valid UTF-8,
/// `UnknownTag` a tag byte outside the defined set, and `TooLong` a
/// name, string or sequence too large for its wire-format length field.
#[derive(Debug, Clone, Copy, PartialEq, Eq, Structural)]
pub enum NbtError {
    RootNotCompoundError,
    IOError,
    Utf8Error,
    UnknownTag(u8),
    TooLong,
}

} // verus!
