use vstd::prelude::*;

use crate::field::NbtField;
use crate::list::NbtList;

verus! {

pub const TAG_END: u8 = 0;

pub const TAG_BYTE: u8 = 1;

pub const TAG_SHORT: u8 = 2;

pub const TAG_INT: u8 = 3;

pub const TAG_LONG: u8 = 4;

pub const TAG_FLOAT: u8 = 5;

pub const TAG_DOUBLE: u8 = 6;

pub const TAG_BYTE_ARRAY: u8 = 7;

pub const TAG_STRING: u8 = 8;

pub const TAG_LIST: u8 = 9;

pub const TAG_COMPOUND: u8 = 10;

pub const TAG_INT_ARRAY: u8 = 11;

pub const TAG_LONG_ARRAY: u8 = 12;

/// One document value: a tagged union over every payload the wire format
/// defines.
///
/// `Boolean` is a logical view of a byte and is written to the wire as
/// `Byte` (tag 1, value 0 or 1); decoding therefore never produces it.
/// `Float` and `Double` carry the raw bits of the IEEE 754 single and
/// double encodings, so values round-trip bit for bit.
/// `End` is the zero-size sentinel that terminates a compound's field
/// stream on the wire.
#[derive(Debug, PartialEq)]
pub enum NbtValue {
    Byte(u8),
    Boolean(bool),
    Short(i16),
    Int(i32),
    Long(i64),
    Float(u32),
    Double(u64),
    String(String),
    List(NbtList),
    Compound(Vec<NbtField>),
    ByteArray(Vec<u8>),
    IntArray(Vec<i32>),
    LongArray(Vec<i64>),
    End,
}

} // verus!
