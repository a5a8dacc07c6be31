use vstd::prelude::*;

use crate::error::NbtError;
use crate::model::{FieldModel, ListModel, ValueModel};
use crate::value::{
    TAG_BYTE, TAG_BYTE_ARRAY, TAG_COMPOUND, TAG_DOUBLE, TAG_END, TAG_FLOAT, TAG_INT,
    TAG_INT_ARRAY, TAG_LIST, TAG_LONG, TAG_LONG_ARRAY, TAG_SHORT, TAG_STRING,
};
use crate::wire::{i16_of_u16, i32_of_u32, i64_of_u64};
use vstd::utf8::valid_utf8;

verus! {

/// Whether a tag byte is in the defined set of payload-bearing tags.
pub open spec fn known_tag(t: u8) -> bool {
    TAG_BYTE <= t <= TAG_LONG_ARRAY
}

/// Whether a tag byte can head a list's elements. `ByteArray` cannot:
/// the list type has no such element variant, so a list carrying that
/// element tag is rejected as an unknown tag.
pub open spec fn known_list_tag(t: u8) -> bool {
    known_tag(t) && t != TAG_BYTE_ARRAY
}

// ---- Big-endian readers ----------------------------------------------------

pub open spec fn be_u16_at(b: Seq<u8>, pos: int) -> u16 {
    (b[pos] * 0x100 + b[pos + 1]) as u16
}

pub open spec fn be_u32_at(b: Seq<u8>, pos: int) -> u32 {
    (b[pos] * 0x100_0000 + b[pos + 1] * 0x1_0000 + b[pos + 2] * 0x100 + b[pos + 3]) as u32
}

pub open spec fn be_u64_at(b: Seq<u8>, pos: int) -> u64 {
    (b[pos] * 0x100_0000_0000_0000 + b[pos + 1] * 0x1_0000_0000_0000 + b[pos + 2]
        * 0x100_0000_0000 + b[pos + 3] * 0x1_0000_0000 + b[pos + 4] * 0x100_0000 + b[pos + 5]
        * 0x1_0000 + b[pos + 6] * 0x100 + b[pos + 7]) as u64
}

// ---- Fixed-width element blocks --------------------------------------------

pub open spec fn i16s_at(b: Seq<u8>, pos: int, n: int) -> Seq<i16> {
    Seq::new(n as nat, |i: int| i16_of_u16(be_u16_at(b, pos + 2 * i)))
}

pub open spec fn i32s_at(b: Seq<u8>, pos: int, n: int) -> Seq<i32> {
    Seq::new(n as nat, |i: int| i32_of_u32(be_u32_at(b, pos + 4 * i)))
}

pub open spec fn i64s_at(b: Seq<u8>, pos: int, n: int) -> Seq<i64> {
    Seq::new(n as nat, |i: int| i64_of_u64(be_u64_at(b, pos + 8 * i)))
}

pub open spec fn u32s_at(b: Seq<u8>, pos: int, n: int) -> Seq<u32> {
    Seq::new(n as nat, |i: int| be_u32_at(b, pos + 4 * i))
}

pub open spec fn u64s_at(b: Seq<u8>, pos: int, n: int) -> Seq<u64> {
    Seq::new(n as nat, |i: int| be_u64_at(b, pos + 8 * i))
}

// ---- The parser ------------------------------------------------------------

/// Reads an unsigned 16-bit length prefix, then that many bytes, which
/// must be valid UTF-8. This is the form of both field names and string
/// payloads.
pub open spec fn parse_string(b: Seq<u8>, pos: int) -> Result<(Seq<u8>, int), NbtError> {
    if !(0 <= pos && pos + 2 <= b.len()) {
        Err(NbtError::IOError)
    } else {
        let n = be_u16_at(b, pos) as int;
        if pos + 2 + n > b.len() {
            Err(NbtError::IOError)
        } else {
            let seg = b.subrange(pos + 2, pos + 2 + n);
            if valid_utf8(seg) {
                Ok((seg, pos + 2 + n))
            } else {
                Err(NbtError::Utf8Error)
            }
        }
    }
}

/// Reads one field: its tag byte, and unless the tag is `End`, its name
/// and payload. The `End` tag alone yields the sentinel field with an
/// empty name. A tag byte outside the defined set is an `UnknownTag`
/// error.
pub open spec fn parse_field(b: Seq<u8>, pos: int) -> Result<(FieldModel, int), NbtError>
    decreases b.len() - pos, 0int,
{
    if !(0 <= pos && pos + 1 <= b.len()) {
        Err(NbtError::IOError)
    } else {
        let tag = b[pos];
        if tag == TAG_END {
            Ok((FieldModel { name: Seq::empty(), value: ValueModel::End }, pos + 1))
        } else if !known_tag(tag) {
            Err(NbtError::UnknownTag(tag))
        } else {
            match parse_string(b, pos + 1) {
                Err(e) => Err(e),
                Ok((name, p)) => match parse_payload(tag, b, p) {
                    Err(e) => Err(e),
                    Ok((v, end)) => Ok((FieldModel { name, value: v }, end)),
                },
            }
        }
    }
}

/// Reads the fields of a compound up to and including its `End`
/// terminator, which is discarded rather than stored.
pub open spec fn parse_fields(b: Seq<u8>, pos: int) -> Result<(Seq<FieldModel>, int), NbtError>
    decreases b.len() - pos, 1int,
{
    match parse_field(b, pos) {
        Err(e) => Err(e),
        Ok((f, end)) => if f.value is End {
            Ok((Seq::empty(), end))
        } else if !(pos < end <= b.len()) {
            Err(NbtError::IOError)
        } else {
            match parse_fields(b, end) {
                Err(e) => Err(e),
                Ok((fs, end2)) => Ok((seq![f].add(fs), end2)),
            }
        },
    }
}

/// Reads the payload of a value with the given (known, non-`End`) tag.
pub open spec fn parse_payload(tag: u8, b: Seq<u8>, pos: int) -> Result<
    (ValueModel, int),
    NbtError,
>
    decreases b.len() - pos, 2int,
{
    if pos < 0 {
        Err(NbtError::IOError)
    } else if tag == TAG_BYTE {
        if pos + 1 <= b.len() {
            Ok((ValueModel::Byte(b[pos]), pos + 1))
        } else {
            Err(NbtError::IOError)
        }
    } else if tag == TAG_SHORT {
        if pos + 2 <= b.len() {
            Ok((ValueModel::Short(i16_of_u16(be_u16_at(b, pos))), pos + 2))
        } else {
            Err(NbtError::IOError)
        }
    } else if tag == TAG_INT {
        if pos + 4 <= b.len() {
            Ok((ValueModel::Int(i32_of_u32(be_u32_at(b, pos))), pos + 4))
        } else {
            Err(NbtError::IOError)
        }
    } else if tag == TAG_LONG {
        if pos + 8 <= b.len() {
            Ok((ValueModel::Long(i64_of_u64(be_u64_at(b, pos))), pos + 8))
        } else {
            Err(NbtError::IOError)
        }
    } else if tag == TAG_FLOAT {
        if pos + 4 <= b.len() {
            Ok((ValueModel::Float(be_u32_at(b, pos)), pos + 4))
        } else {
            Err(NbtError::IOError)
        }
    } else if tag == TAG_DOUBLE {
        if pos + 8 <= b.len() {
            Ok((ValueModel::Double(be_u64_at(b, pos)), pos + 8))
        } else {
            Err(NbtError::IOError)
        }
    } else if tag == TAG_BYTE_ARRAY {
        if pos + 4 > b.len() {
            Err(NbtError::IOError)
        } else {
            let n = i32_of_u32(be_u32_at(b, pos)) as int;
            if n < 0 || pos + 4 + n > b.len() {
                Err(NbtError::IOError)
            } else {
                Ok((ValueModel::ByteArray(b.subrange(pos + 4, pos + 4 + n)), pos + 4 + n))
            }
        }
    } else if tag == TAG_STRING {
        match parse_string(b, pos) {
            Err(e) => Err(e),
            Ok((s, end)) => Ok((ValueModel::String(s), end)),
        }
    } else if tag == TAG_LIST {
        match parse_list(b, pos) {
            Err(e) => Err(e),
            Ok((l, end)) => Ok((ValueModel::List(l), end)),
        }
    } else if tag == TAG_COMPOUND {
        match parse_fields(b, pos) {
            Err(e) => Err(e),
            Ok((fs, end)) => Ok((ValueModel::Compound(fs), end)),
        }
    } else if tag == TAG_INT_ARRAY {
        if pos + 4 > b.len() {
            Err(NbtError::IOError)
        } else {
            let n = i32_of_u32(be_u32_at(b, pos)) as int;
            if n < 0 || pos + 4 + 4 * n > b.len() {
                Err(NbtError::IOError)
            } else {
                Ok((ValueModel::IntArray(i32s_at(b, pos + 4, n)), pos + 4 + 4 * n))
            }
        }
    } else {
        if pos + 4 > b.len() {
            Err(NbtError::IOError)
        } else {
            let n = i32_of_u32(be_u32_at(b, pos)) as int;
            if n < 0 || pos + 4 + 8 * n > b.len() {
                Err(NbtError::IOError)
            } else {
                Ok((ValueModel::LongArray(i64s_at(b, pos + 4, n)), pos + 4 + 8 * n))
            }
        }
    }
}

/// Reads a list payload: the element-type tag byte, the signed 32-bit
/// element count, then the elements. An `End` element tag yields the
/// empty list and its count goes unread, whatever it says; a negative
/// count under any other tag is a read failure.
pub open spec fn parse_list(b: Seq<u8>, pos: int) -> Result<(ListModel, int), NbtError>
    decreases b.len() - pos, 1int,
{
    if !(0 <= pos && pos + 5 <= b.len()) {
        Err(NbtError::IOError)
    } else {
        let etag = b[pos];
        let n = i32_of_u32(be_u32_at(b, pos + 1)) as int;
        let q = pos + 5;
        if etag == TAG_END {
            Ok((ListModel::End, q))
        } else if !known_list_tag(etag) {
            Err(NbtError::UnknownTag(etag))
        } else if n < 0 {
            Err(NbtError::IOError)
        } else if etag == TAG_BYTE {
            if q + n <= b.len() {
                Ok((ListModel::Byte(b.subrange(q, q + n)), q + n))
            } else {
                Err(NbtError::IOError)
            }
        } else if etag == TAG_SHORT {
            if q + 2 * n <= b.len() {
                Ok((ListModel::Short(i16s_at(b, q, n)), q + 2 * n))
            } else {
                Err(NbtError::IOError)
            }
        } else if etag == TAG_INT {
            if q + 4 * n <= b.len() {
                Ok((ListModel::Int(i32s_at(b, q, n)), q + 4 * n))
            } else {
                Err(NbtError::IOError)
            }
        } else if etag == TAG_LONG {
            if q + 8 * n <= b.len() {
                Ok((ListModel::Long(i64s_at(b, q, n)), q + 8 * n))
            } else {
                Err(NbtError::IOError)
            }
        } else if etag == TAG_FLOAT {
            if q + 4 * n <= b.len() {
                Ok((ListModel::Float(u32s_at(b, q, n)), q + 4 * n))
            } else {
                Err(NbtError::IOError)
            }
        } else if etag == TAG_DOUBLE {
            if q + 8 * n <= b.len() {
                Ok((ListModel::Double(u64s_at(b, q, n)), q + 8 * n))
            } else {
                Err(NbtError::IOError)
            }
        } else if etag == TAG_STRING {
            match parse_str_elems(b, q, n) {
                Err(e) => Err(e),
                Ok((ss, end)) => Ok((ListModel::String(ss), end)),
            }
        } else if etag == TAG_LIST {
            match parse_list_elems(b, q, n) {
                Err(e) => Err(e),
                Ok((vs, end)) => Ok((ListModel::List(vs), end)),
            }
        } else if etag == TAG_COMPOUND {
            match parse_compound_elems(b, q, n) {
                Err(e) => Err(e),
                Ok((fs, end)) => Ok((ListModel::Compound(fs), end)),
            }
        } else if etag == TAG_INT_ARRAY {
            match parse_int_array_elems(b, q, n) {
                Err(e) => Err(e),
                Ok((ss, end)) => Ok((ListModel::IntArray(ss), end)),
            }
        } else {
            match parse_long_array_elems(b, q, n) {
                Err(e) => Err(e),
                Ok((ss, end)) => Ok((ListModel::LongArray(ss), end)),
            }
        }
    }
}

pub open spec fn parse_str_elems(b: Seq<u8>, pos: int, n: int) -> Result<
    (Seq<Seq<u8>>, int),
    NbtError,
>
    decreases b.len() - pos, 2int,
{
    if n <= 0 {
        Ok((Seq::empty(), pos))
    } else {
        match parse_string(b, pos) {
            Err(e) => Err(e),
            Ok((s, end)) => if !(pos < end <= b.len()) {
                Err(NbtError::IOError)
            } else {
                match parse_str_elems(b, end, n - 1) {
                    Err(e) => Err(e),
                    Ok((ss, end2)) => Ok((seq![s].add(ss), end2)),
                }
            },
        }
    }
}

pub open spec fn parse_list_elems(b: Seq<u8>, pos: int, n: int) -> Result<
    (Seq<ValueModel>, int),
    NbtError,
>
    decreases b.len() - pos, 2int,
{
    if n <= 0 {
        Ok((Seq::empty(), pos))
    } else {
        match parse_list(b, pos) {
            Err(e) => Err(e),
            Ok((l, end)) => if !(pos < end <= b.len()) {
                Err(NbtError::IOError)
            } else {
                match parse_list_elems(b, end, n - 1) {
                    Err(e) => Err(e),
                    Ok((vs, end2)) => Ok((seq![ValueModel::List(l)].add(vs), end2)),
                }
            },
        }
    }
}

pub open spec fn parse_compound_elems(b: Seq<u8>, pos: int, n: int) -> Result<
    (Seq<FieldModel>, int),
    NbtError,
>
    decreases b.len() - pos, 2int,
{
    if n <= 0 {
        Ok((Seq::empty(), pos))
    } else {
        match parse_fields(b, pos) {
            Err(e) => Err(e),
            Ok((fs, end)) => if !(pos < end <= b.len()) {
                Err(NbtError::IOError)
            } else {
                match parse_compound_elems(b, end, n - 1) {
                    Err(e) => Err(e),
                    Ok((elems, end2)) => Ok(
                        (
                            seq![
                                FieldModel {
                                    name: Seq::empty(),
                                    value: ValueModel::Compound(fs),
                                },
                            ].add(elems),
                            end2,
                        ),
                    ),
                }
            },
        }
    }
}

pub open spec fn parse_int_array_elems(b: Seq<u8>, pos: int, n: int) -> Result<
    (Seq<Seq<i32>>, int),
    NbtError,
>
    decreases b.len() - pos, 2int,
{
    if n <= 0 {
        Ok((Seq::empty(), pos))
    } else if !(0 <= pos && pos + 4 <= b.len()) {
        Err(NbtError::IOError)
    } else {
        let k = i32_of_u32(be_u32_at(b, pos)) as int;
        if k < 0 || pos + 4 + 4 * k > b.len() {
            Err(NbtError::IOError)
        } else {
            match parse_int_array_elems(b, pos + 4 + 4 * k, n - 1) {
                Err(e) => Err(e),
                Ok((ss, end)) => Ok((seq![i32s_at(b, pos + 4, k)].add(ss), end)),
            }
        }
    }
}

pub open spec fn parse_long_array_elems(b: Seq<u8>, pos: int, n: int) -> Result<
    (Seq<Seq<i64>>, int),
    NbtError,
>
    decreases b.len() - pos, 2int,
{
    if n <= 0 {
        Ok((Seq::empty(), pos))
    } else if !(0 <= pos && pos + 4 <= b.len()) {
        Err(NbtError::IOError)
    } else {
        let k = i32_of_u32(be_u32_at(b, pos)) as int;
        if k < 0 || pos + 4 + 8 * k > b.len() {
            Err(NbtError::IOError)
        } else {
            match parse_long_array_elems(b, pos + 4 + 8 * k, n - 1) {
                Err(e) => Err(e),
                Ok((ss, end)) => Ok((seq![i64s_at(b, pos + 4, k)].add(ss), end)),
            }
        }
    }
}

// ---- What a successful parse consumes -------------------------------------

pub proof fn lemma_parse_string_bounds(b: Seq<u8>, pos: int)
    ensures
        parse_string(b, pos) matches Ok(r) ==> pos + 2 <= r.1 <= b.len() && r.0.len() == r.1 - pos
            - 2,
{
}

pub proof fn lemma_parse_field_bounds(b: Seq<u8>, pos: int)
    ensures
        parse_field(b, pos) matches Ok(r) ==> pos < r.1 <= b.len(),
    decreases b.len() - pos, 0int,
{
    if 0 <= pos && pos + 1 <= b.len() {
        let tag = b[pos];
        if tag != TAG_END && known_tag(tag) {
            if parse_string(b, pos + 1) is Ok {
                let p = parse_string(b, pos + 1)->Ok_0.1;
                lemma_parse_string_bounds(b, pos + 1);
                lemma_parse_payload_bounds(tag, b, p);
            }
        }
    }
}

pub proof fn lemma_parse_fields_bounds(b: Seq<u8>, pos: int)
    ensures
        parse_fields(b, pos) matches Ok(r) ==> pos < r.1 <= b.len(),
    decreases b.len() - pos, 1int,
{
    lemma_parse_field_bounds(b, pos);
    if parse_field(b, pos) is Ok {
        let (f, end) = parse_field(b, pos)->Ok_0;
        if !(f.value is End) && pos < end <= b.len() {
            lemma_parse_fields_bounds(b, end);
        }
    }
}

pub proof fn lemma_parse_payload_bounds(tag: u8, b: Seq<u8>, pos: int)
    ensures
        parse_payload(tag, b, pos) matches Ok(r) ==> pos < r.1 <= b.len(),
    decreases b.len() - pos, 2int,
{
    if pos >= 0 {
        if tag == TAG_STRING {
            lemma_parse_string_bounds(b, pos);
        } else if tag == TAG_LIST {
            lemma_parse_list_bounds(b, pos);
        } else if tag == TAG_COMPOUND {
            lemma_parse_fields_bounds(b, pos);
        }
    }
}

#[verifier::rlimit(100)]
pub proof fn lemma_parse_list_bounds(b: Seq<u8>, pos: int)
    ensures
        parse_list(b, pos) matches Ok(r) ==> pos < r.1 <= b.len(),
    decreases b.len() - pos, 1int,
{
    if 0 <= pos && pos + 5 <= b.len() {
        let etag = b[pos];
        let n = i32_of_u32(be_u32_at(b, pos + 1)) as int;
        let q = pos + 5;
        if etag == TAG_STRING {
            lemma_parse_str_elems_bounds(b, q, n);
        } else if etag == TAG_LIST {
            lemma_parse_list_elems_bounds(b, q, n);
        } else if etag == TAG_COMPOUND {
            lemma_parse_compound_elems_bounds(b, q, n);
        } else if etag == TAG_INT_ARRAY {
            lemma_parse_int_array_elems_bounds(b, q, n);
        } else if etag == TAG_LONG_ARRAY {
            lemma_parse_long_array_elems_bounds(b, q, n);
        }
    }
}

pub proof fn lemma_parse_str_elems_bounds(b: Seq<u8>, pos: int, n: int)
    requires
        0 <= pos <= b.len(),
    ensures
        parse_str_elems(b, pos, n) matches Ok(r) ==> pos <= r.1 <= b.len(),
    decreases b.len() - pos, 2int,
{
    if n > 0 {
        lemma_parse_string_bounds(b, pos);
        if parse_string(b, pos) is Ok {
            let end = parse_string(b, pos)->Ok_0.1;
            if pos < end <= b.len() {
                lemma_parse_str_elems_bounds(b, end, n - 1);
            }
        }
    }
}

pub proof fn lemma_parse_list_elems_bounds(b: Seq<u8>, pos: int, n: int)
    requires
        0 <= pos <= b.len(),
    ensures
        parse_list_elems(b, pos, n) matches Ok(r) ==> pos <= r.1 <= b.len(),
    decreases b.len() - pos, 2int,
{
    if n > 0 {
        lemma_parse_list_bounds(b, pos);
        if parse_list(b, pos) is Ok {
            let end = parse_list(b, pos)->Ok_0.1;
            if pos < end <= b.len() {
                lemma_parse_list_elems_bounds(b, end, n - 1);
            }
        }
    }
}

pub proof fn lemma_parse_compound_elems_bounds(b: Seq<u8>, pos: int, n: int)
    requires
        0 <= pos <= b.len(),
    ensures
        parse_compound_elems(b, pos, n) matches Ok(r) ==> pos <= r.1 <= b.len(),
    decreases b.len() - pos, 2int,
{
    if n > 0 {
        lemma_parse_fields_bounds(b, pos);
        if parse_fields(b, pos) is Ok {
            let end = parse_fields(b, pos)->Ok_0.1;
            if pos < end <= b.len() {
                lemma_parse_compound_elems_bounds(b, end, n - 1);
            }
        }
    }
}

pub proof fn lemma_parse_int_array_elems_bounds(b: Seq<u8>, pos: int, n: int)
    requires
        0 <= pos <= b.len(),
    ensures
        parse_int_array_elems(b, pos, n) matches Ok(r) ==> pos <= r.1 <= b.len(),
    decreases b.len() - pos, 2int,
{
    if n > 0 && pos + 4 <= b.len() {
        let k = i32_of_u32(be_u32_at(b, pos)) as int;
        if k >= 0 && pos + 4 + 4 * k <= b.len() {
            lemma_parse_int_array_elems_bounds(b, pos + 4 + 4 * k, n - 1);
        }
    }
}

pub proof fn lemma_parse_long_array_elems_bounds(b: Seq<u8>, pos: int, n: int)
    requires
        0 <= pos <= b.len(),
    ensures
        parse_long_array_elems(b, pos, n) matches Ok(r) ==> pos <= r.1 <= b.len(),
    decreases b.len() - pos, 2int,
{
    if n > 0 && pos + 4 <= b.len() {
        let k = i32_of_u32(be_u32_at(b, pos)) as int;
        if k >= 0 && pos + 4 + 8 * k <= b.len() {
            lemma_parse_long_array_elems_bounds(b, pos + 4 + 8 * k, n - 1);
        }
    }
}

} // verus!
