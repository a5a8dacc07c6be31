//! A verified codec for the NBT (Named Binary Tag) binary tree format:
//! an in-memory tagged-union document model, a recursive-descent decoder
//! from a big-endian byte stream, the mirror-image encoder, and accessors
//! for navigating a parsed document by name or path.
//!
//! The wire format is specified twice over mathematical models — once as
//! the serializer [`wire::wire_field`] and once as the parser
//! [`parse::parse_field`] — and the executable codec is proved to
//! implement both exactly. [`laws::lemma_round_trip`] proves that the two
//! specifications invert each other: decoding an encoded document yields
//! the document back.

use vstd::prelude::*;

pub mod error;
pub mod field;
pub mod laws;
pub mod list;
pub mod model;
pub mod parse;
pub mod utils;
pub mod value;
pub mod wire;

pub use error::NbtError;
pub use field::NbtField;
pub use list::NbtList;
pub use value::NbtValue;

use crate::parse::parse_field;
use crate::wire::{encodable_field, wire_field};

verus! {

/// Serializes a document: its root field, written with a full header.
/// Succeeds exactly when every length in the document fits its
/// wire-format length prefix, and otherwise reports
/// [`NbtError::TooLong`].
pub fn write_nbt(root: &NbtField) -> (r: Result<Vec<u8>, NbtError>)
    ensures
        r is Ok <==> encodable_field(root@),
        r is Ok ==> r.unwrap()@ == wire_field(root@),
        r is Err ==> r == Err::<Vec<u8>, NbtError>(NbtError::TooLong),
{
    let mut out: Vec<u8> = Vec::new();
    match root.write(&mut out, true) {
        Ok(_) => {
            proof {
                assert(out@ =~= wire_field(root@));
            }
            Ok(out)
        },
        Err(e) => Err(e),
    }
}

/// Reads one document from the front of the byte slice; any bytes after
/// it are ignored.
pub fn read_nbt(bytes: &[u8]) -> (r: Result<NbtField, NbtError>)
    ensures
        match parse_field(bytes@, 0) {
            Ok(p) => r matches Ok(f) && f@ == p.0,
            Err(e) => r matches Err(e2) && e2 == e,
        },
{
    match NbtField::read(bytes, 0) {
        Ok((f, _)) => Ok(f),
        Err(e) => Err(e),
    }
}

/// Reads one document from an in-memory byte buffer, as [`read_nbt`]
/// does.
pub fn from_bytes(bytes: &[u8]) -> (r: Result<NbtField, NbtError>)
    ensures
        match parse_field(bytes@, 0) {
            Ok(p) => r matches Ok(f) && f@ == p.0,
            Err(e) => r matches Err(e2) && e2 == e,
        },
{
    read_nbt(bytes)
}

} // verus!
