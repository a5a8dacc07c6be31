use vstd::prelude::*;

use crate::error::NbtError;
use crate::list::NbtList;
use crate::model::{
    fields_model, list_model, strings_model, values_model, vecs_model, FieldModel, ValueModel,
};
use crate::value::{
    NbtValue, TAG_BYTE, TAG_BYTE_ARRAY, TAG_COMPOUND, TAG_DOUBLE, TAG_END, TAG_FLOAT, TAG_INT, TAG_INT_ARRAY,
    TAG_LIST, TAG_LONG, TAG_LONG_ARRAY, TAG_SHORT, TAG_STRING,
};
use crate::field::NbtField;
use crate::parse::{
    be_u16_at, be_u32_at, be_u64_at, i16s_at, i32s_at, i64s_at, lemma_parse_field_bounds,
    lemma_parse_fields_bounds, lemma_parse_list_bounds, lemma_parse_string_bounds,
    parse_compound_elems, parse_fields, parse_int_array_elems, parse_list,
    parse_list_elems, parse_long_array_elems, parse_str_elems, parse_string, u32s_at, u64s_at,
};
use crate::wire::{
    be16, be32, be64, encodable_list, encodable_list_elem, encodable_node, i16_of_u16,
    i32_of_u32, i64_of_u64, lemma_wire_compound_elems_push, lemma_wire_int_arrays_push,
    lemma_wire_list_elems_push, lemma_wire_long_arrays_push, lemma_wire_strs_push, len16,
    u16_of_i16, u32_of_i32, u64_of_i64, wire_bools, wire_compound_elems, wire_i16s, wire_i32s,
    wire_i64s, wire_int_arrays, wire_list, wire_list_elems, wire_long_arrays, wire_strs,
    wire_u32s, wire_u64s,
};
use vstd::utf8::{decode_utf8, encode_utf8, valid_utf8};

verus! {

// ---- Trusted bridge to std's UTF-8 validation -----------------------------

/// Relies on `String::from_utf8`: it succeeds exactly on input that is
/// valid UTF-8, and the returned string holds exactly the characters that
/// the input bytes encode.
#[verifier::external_body]
pub(crate) fn string_from_utf8(bytes: Vec<u8>) -> (r: Option<String>)
    ensures
        (r is Some) == valid_utf8(bytes@),
        r is Some ==> r.unwrap()@ == decode_utf8(bytes@),
{
    match String::from_utf8(bytes) {
        Ok(s) => Some(s),
        Err(_) => None,
    }
}

// ---- Conversions between signed values and their unsigned wire form ------

pub(crate) fn u16_from_i16(x: i16) -> (r: u16)
    ensures
        r == u16_of_i16(x),
{
    if x >= 0 {
        x as u16
    } else {
        ((x as i32) + 0x10000) as u16
    }
}

pub(crate) fn i16_from_u16(x: u16) -> (r: i16)
    ensures
        r == i16_of_u16(x),
{
    if x < 0x8000 {
        x as i16
    } else {
        ((x as i32) - 0x10000) as i16
    }
}

pub(crate) fn u32_from_i32(x: i32) -> (r: u32)
    ensures
        r == u32_of_i32(x),
{
    if x >= 0 {
        x as u32
    } else {
        ((x as i64) + 0x1_0000_0000) as u32
    }
}

pub(crate) fn i32_from_u32(x: u32) -> (r: i32)
    ensures
        r == i32_of_u32(x),
{
    if x < 0x8000_0000 {
        x as i32
    } else {
        ((x as i64) - 0x1_0000_0000) as i32
    }
}

pub(crate) fn u64_from_i64(x: i64) -> (r: u64)
    ensures
        r == u64_of_i64(x),
{
    if x >= 0 {
        x as u64
    } else {
        ((x as i128) + 0x1_0000_0000_0000_0000) as u64
    }
}

pub(crate) fn i64_from_u64(x: u64) -> (r: i64)
    ensures
        r == i64_of_u64(x),
{
    if x < 0x8000_0000_0000_0000 {
        x as i64
    } else {
        ((x as i128) - 0x1_0000_0000_0000_0000) as i64
    }
}

// ---- Byte equality -----------------------------------------------------------

pub(crate) fn bytes_eq(a: &[u8], b: &[u8]) -> (r: bool)
    ensures
        r == (a@ == b@),
{
    if a.len() != b.len() {
        return false;
    }
    let mut i: usize = 0;
    while i < a.len()
        invariant
            i <= a@.len(),
            a@.len() == b@.len(),
            forall|j: int| 0 <= j < i ==> a@[j] == b@[j],
        decreases a@.len() - i,
    {
        if a[i] != b[i] {
            return false;
        }
        i = i + 1;
    }
    proof {
        assert(a@ =~= b@);
    }
    true
}

// ---- Big-endian writers ----------------------------------------------------

pub(crate) fn write_u16_be(out: &mut Vec<u8>, x: u16)
    ensures
        final(out)@ == old(out)@ + be16(x),
{
    out.push((x / 0x100) as u8);
    out.push((x % 0x100) as u8);
    proof {
        assert(out@ =~= old(out)@ + be16(x));
    }
}

pub(crate) fn write_u32_be(out: &mut Vec<u8>, x: u32)
    ensures
        final(out)@ == old(out)@ + be32(x),
{
    out.push((x / 0x100_0000) as u8);
    out.push(((x / 0x1_0000) % 0x100) as u8);
    out.push(((x / 0x100) % 0x100) as u8);
    out.push((x % 0x100) as u8);
    proof {
        assert(out@ =~= old(out)@ + be32(x));
    }
}

pub(crate) fn write_u64_be(out: &mut Vec<u8>, x: u64)
    ensures
        final(out)@ == old(out)@ + be64(x),
{
    out.push((x / 0x100_0000_0000_0000) as u8);
    out.push(((x / 0x1_0000_0000_0000) % 0x100) as u8);
    out.push(((x / 0x100_0000_0000) % 0x100) as u8);
    out.push(((x / 0x1_0000_0000) % 0x100) as u8);
    out.push(((x / 0x100_0000) % 0x100) as u8);
    out.push(((x / 0x1_0000) % 0x100) as u8);
    out.push(((x / 0x100) % 0x100) as u8);
    out.push((x % 0x100) as u8);
    proof {
        assert(out@ =~= old(out)@ + be64(x));
    }
}

pub(crate) fn write_bytes(out: &mut Vec<u8>, b: &[u8])
    ensures
        final(out)@ == old(out)@ + b@,
{
    let mut i: usize = 0;
    while i < b.len()
        invariant
            i <= b.len(),
            out@ == old(out)@ + b@.take(i as int),
        decreases b.len() - i,
    {
        out.push(b[i]);
        i = i + 1;
        proof {
            assert(out@ =~= old(out)@ + b@.take(i as int));
        }
    }
    proof {
        assert(b@.take(b@.len() as int) =~= b@);
    }
}

// ---- Length-prefixed strings ----------------------------------------------

/// Writes the unsigned 16-bit byte-length prefix and then the UTF-8 bytes
/// of `s`, as the wire format demands of names and string payloads; a
/// string of more than 65535 bytes is rejected.
pub(crate) fn write_string(s: &str, out: &mut Vec<u8>) -> (r: Result<(), NbtError>)
    ensures
        r is Ok <==> encode_utf8(s@).len() <= 0xFFFF,
        r is Ok ==> final(out)@ == old(out)@ + len16(encode_utf8(s@).len()) + encode_utf8(s@),
        r is Err ==> r == Err::<(), NbtError>(NbtError::TooLong) && final(out)@ == old(out)@,
{
    let bytes: &[u8] = s.as_bytes();
    if bytes.len() > 0xFFFF {
        return Err(NbtError::TooLong);
    }
    write_u16_be(out, bytes.len() as u16);
    write_bytes(out, bytes);
    proof {
        assert(out@ =~= old(out)@ + len16(encode_utf8(s@).len()) + encode_utf8(s@));
    }
    Ok(())
}

/// Writes a field's header: its tag byte, then its length-prefixed name.
pub(crate) fn write_tag_name(out: &mut Vec<u8>, tag: u8, name: &str) -> (r: Result<
    (),
    NbtError,
>)
    ensures
        r is Ok <==> encode_utf8(name@).len() <= 0xFFFF,
        r is Ok ==> final(out)@ == old(out)@ + seq![tag] + len16(encode_utf8(name@).len())
            + encode_utf8(name@),
        r is Err ==> r == Err::<(), NbtError>(NbtError::TooLong) && final(out)@ == old(out)@,
{
    if name.as_bytes().len() > 0xFFFF {
        return Err(NbtError::TooLong);
    }
    out.push(tag);
    let r = write_string(name, out);
    proof {
        assert(out@ =~= old(out)@ + seq![tag] + len16(encode_utf8(name@).len()) + encode_utf8(
            name@,
        ));
    }
    r
}

/// Writes the signed 32-bit element count of an array or list; a
/// collection of more than `i32::MAX` elements is rejected.
pub(crate) fn write_len32(out: &mut Vec<u8>, n: usize) -> (r: Result<(), NbtError>)
    ensures
        r is Ok <==> n <= 0x7FFF_FFFF,
        r is Ok ==> final(out)@ == old(out)@ + crate::wire::len32(n as nat),
        r is Err ==> r == Err::<(), NbtError>(NbtError::TooLong) && final(out)@ == old(out)@,
{
    if n > 0x7FFF_FFFF {
        return Err(NbtError::TooLong);
    }
    write_u32_be(out, n as u32);
    Ok(())
}

// ---- Big-endian readers ----------------------------------------------------

pub(crate) fn read_u16(b: &[u8], pos: usize) -> (r: u16)
    requires
        pos + 2 <= b@.len(),
    ensures
        r == be_u16_at(b@, pos as int),
{
    (b[pos] as u16) * 0x100 + (b[pos + 1] as u16)
}

pub(crate) fn read_u32(b: &[u8], pos: usize) -> (r: u32)
    requires
        pos + 4 <= b@.len(),
    ensures
        r == be_u32_at(b@, pos as int),
{
    (b[pos] as u32) * 0x100_0000 + (b[pos + 1] as u32) * 0x1_0000 + (b[pos + 2] as u32) * 0x100
        + (b[pos + 3] as u32)
}

pub(crate) fn read_u64(b: &[u8], pos: usize) -> (r: u64)
    requires
        pos + 8 <= b@.len(),
    ensures
        r == be_u64_at(b@, pos as int),
{
    (b[pos] as u64) * 0x100_0000_0000_0000 + (b[pos + 1] as u64) * 0x1_0000_0000_0000 + (b[pos
        + 2] as u64) * 0x100_0000_0000 + (b[pos + 3] as u64) * 0x1_0000_0000 + (b[pos + 4] as u64)
        * 0x100_0000 + (b[pos + 5] as u64) * 0x1_0000 + (b[pos + 6] as u64) * 0x100 + (b[pos
        + 7] as u64)
}

// ---- Fixed-width element block readers -------------------------------------

pub(crate) fn read_byte_block(b: &[u8], pos: usize, n: usize) -> (r: Vec<u8>)
    requires
        pos + n <= b@.len(),
    ensures
        r@ == b@.subrange(pos as int, pos + n),
{
    proof {
        assert(b.len() == b@.len());
    }
    let mut buf: Vec<u8> = Vec::new();
    let mut i: usize = 0;
    while i < n
        invariant
            b@.len() <= usize::MAX,
            pos + n <= b@.len(),
            i <= n,
            buf@ == b@.subrange(pos as int, pos + i),
        decreases n - i,
    {
        buf.push(b[pos + i]);
        i = i + 1;
        proof {
            assert(buf@ =~= b@.subrange(pos as int, pos + i));
        }
    }
    buf
}

pub(crate) fn read_i16_block(b: &[u8], pos: usize, n: usize) -> (r: Vec<i16>)
    requires
        pos + 2 * n <= b@.len(),
    ensures
        r@ == i16s_at(b@, pos as int, n as int),
{
    proof {
        assert(b.len() == b@.len());
    }
    let mut buf: Vec<i16> = Vec::new();
    let mut i: usize = 0;
    while i < n
        invariant
            b@.len() <= usize::MAX,
            pos + 2 * n <= b@.len(),
            i <= n,
            buf@ == i16s_at(b@, pos as int, i as int),
        decreases n - i,
    {
        buf.push(i16_from_u16(read_u16(b, pos + 2 * i)));
        i = i + 1;
        proof {
            assert(buf@ =~= i16s_at(b@, pos as int, i as int));
        }
    }
    buf
}

pub(crate) fn read_i32_block(b: &[u8], pos: usize, n: usize) -> (r: Vec<i32>)
    requires
        pos + 4 * n <= b@.len(),
    ensures
        r@ == i32s_at(b@, pos as int, n as int),
{
    proof {
        assert(b.len() == b@.len());
    }
    let mut buf: Vec<i32> = Vec::new();
    let mut i: usize = 0;
    while i < n
        invariant
            b@.len() <= usize::MAX,
            pos + 4 * n <= b@.len(),
            i <= n,
            buf@ == i32s_at(b@, pos as int, i as int),
        decreases n - i,
    {
        buf.push(i32_from_u32(read_u32(b, pos + 4 * i)));
        i = i + 1;
        proof {
            assert(buf@ =~= i32s_at(b@, pos as int, i as int));
        }
    }
    buf
}

pub(crate) fn read_i64_block(b: &[u8], pos: usize, n: usize) -> (r: Vec<i64>)
    requires
        pos + 8 * n <= b@.len(),
    ensures
        r@ == i64s_at(b@, pos as int, n as int),
{
    proof {
        assert(b.len() == b@.len());
    }
    let mut buf: Vec<i64> = Vec::new();
    let mut i: usize = 0;
    while i < n
        invariant
            b@.len() <= usize::MAX,
            pos + 8 * n <= b@.len(),
            i <= n,
            buf@ == i64s_at(b@, pos as int, i as int),
        decreases n - i,
    {
        buf.push(i64_from_u64(read_u64(b, pos + 8 * i)));
        i = i + 1;
        proof {
            assert(buf@ =~= i64s_at(b@, pos as int, i as int));
        }
    }
    buf
}

pub(crate) fn read_u32_block(b: &[u8], pos: usize, n: usize) -> (r: Vec<u32>)
    requires
        pos + 4 * n <= b@.len(),
    ensures
        r@ == u32s_at(b@, pos as int, n as int),
{
    proof {
        assert(b.len() == b@.len());
    }
    let mut buf: Vec<u32> = Vec::new();
    let mut i: usize = 0;
    while i < n
        invariant
            b@.len() <= usize::MAX,
            pos + 4 * n <= b@.len(),
            i <= n,
            buf@ == u32s_at(b@, pos as int, i as int),
        decreases n - i,
    {
        buf.push(read_u32(b, pos + 4 * i));
        i = i + 1;
        proof {
            assert(buf@ =~= u32s_at(b@, pos as int, i as int));
        }
    }
    buf
}

pub(crate) fn read_u64_block(b: &[u8], pos: usize, n: usize) -> (r: Vec<u64>)
    requires
        pos + 8 * n <= b@.len(),
    ensures
        r@ == u64s_at(b@, pos as int, n as int),
{
    proof {
        assert(b.len() == b@.len());
    }
    let mut buf: Vec<u64> = Vec::new();
    let mut i: usize = 0;
    while i < n
        invariant
            b@.len() <= usize::MAX,
            pos + 8 * n <= b@.len(),
            i <= n,
            buf@ == u64s_at(b@, pos as int, i as int),
        decreases n - i,
    {
        buf.push(read_u64(b, pos + 8 * i));
        i = i + 1;
        proof {
            assert(buf@ =~= u64s_at(b@, pos as int, i as int));
        }
    }
    buf
}

// ---- Length-prefixed string reading ----------------------------------------

/// Reads an unsigned 16-bit length prefix and then that many bytes, which
/// must be valid UTF-8, as both field names and string payloads are laid
/// out.
pub(crate) fn read_string(b: &[u8], pos: usize) -> (r: Result<(String, usize), NbtError>)
    requires
        pos <= b@.len(),
    ensures
        match parse_string(b@, pos as int) {
            Ok(p) => r matches Ok(q) && encode_utf8(q.0@) == p.0 && q.1 == p.1 && q.1 <= b@.len(),
            Err(e) => r matches Err(e2) && e2 == e,
        },
{
    if b.len() - pos < 2 {
        return Err(NbtError::IOError);
    }
    let n = read_u16(b, pos) as usize;
    if b.len() - (pos + 2) < n {
        return Err(NbtError::IOError);
    }
    let bytes = read_byte_block(b, pos + 2, n);
    let ghost seg: Seq<u8> = b@.subrange(pos + 2, pos + 2 + n);
    match string_from_utf8(bytes) {
        Some(s) => {
            proof {
                vstd::utf8::decode_utf8_encode_utf8(seg);
            }
            Ok((s, pos + 2 + n))
        },
        None => Err(NbtError::Utf8Error),
    }
}

/// Reads a field's name: the same layout as a string payload.
pub(crate) fn read_name(b: &[u8], pos: usize) -> (r: Result<(String, usize), NbtError>)
    requires
        pos <= b@.len(),
    ensures
        match parse_string(b@, pos as int) {
            Ok(p) => r matches Ok(q) && encode_utf8(q.0@) == p.0 && q.1 == p.1 && q.1 <= b@.len(),
            Err(e) => r matches Err(e2) && e2 == e,
        },
{
    read_string(b, pos)
}

// ---- Compound reading ------------------------------------------------------

/// Reads child fields until one decodes as the `End` sentinel, which is
/// consumed and discarded; the children before it are returned in order.
#[verifier::loop_isolation(false)]
pub(crate) fn read_compound(b: &[u8], pos: usize) -> (r: Result<(Vec<NbtField>, usize), NbtError>)
    requires
        pos <= b@.len(),
    ensures
        match parse_fields(b@, pos as int) {
            Ok(p) => r matches Ok(q) && fields_model(q.0) == p.0 && q.1 == p.1 && q.1 <= b@.len(),
            Err(e) => r matches Err(e2) && e2 == e,
        },
    decreases b@.len() - pos, 1int,
{
    let mut fields: Vec<NbtField> = Vec::new();
    let mut cur: usize = pos;
    proof {
        assert(fields_model(fields) =~= Seq::<FieldModel>::empty());
    }
    loop
        invariant
            pos <= cur <= b@.len(),
            (match parse_fields(b@, cur as int) {
                Ok(p) => parse_fields(b@, pos as int) matches Ok(p0) && p0.0 == fields_model(
                    fields,
                ) + p.0 && p0.1 == p.1,
                Err(e) => parse_fields(b@, pos as int) matches Err(e0) && e0 == e,
            }),
        decreases b@.len() - cur,
    {
        let (f, end) = match NbtField::read(b, cur) {
            Ok(x) => x,
            Err(e) => {
                return Err(e);
            },
        };
        proof {
            lemma_parse_field_bounds(b@, cur as int);
        }
        let is_end = match &f.value {
            NbtValue::End => true,
            _ => false,
        };
        if is_end {
            proof {
                assert(fields_model(fields) + Seq::<FieldModel>::empty() =~= fields_model(
                    fields,
                ));
            }
            return Ok((fields, end));
        }
        let ghost oldfields = fields;
        let ghost fmf = f@;
        fields.push(f);
        cur = end;
        proof {
            assert(fields_model(fields) =~= fields_model(oldfields).push(fmf));
            if parse_fields(b@, cur as int) is Ok {
                let p = parse_fields(b@, cur as int)->Ok_0;
                assert(fields_model(oldfields) + (seq![fmf] + p.0) =~= fields_model(fields)
                    + p.0);
            }
        }
    }
}

// ---- List reading ----------------------------------------------------------

/// Reads a list payload: the element-type tag byte, the signed 32-bit
/// element count, then that many elements of the one type. An `End`
/// element tag yields the empty list; an element tag that no list variant
/// exists for is an `UnknownTag` error; a negative count is a read
/// failure.
#[verifier::loop_isolation(false)]
#[verifier::rlimit(100)]
pub(crate) fn read_list(b: &[u8], pos: usize) -> (r: Result<(NbtList, usize), NbtError>)
    requires
        pos <= b@.len(),
    ensures
        match parse_list(b@, pos as int) {
            Ok(p) => r matches Ok(q) && list_model(q.0) == p.0 && q.1 == p.1 && q.1 <= b@.len(),
            Err(e) => r matches Err(e2) && e2 == e,
        },
    decreases b@.len() - pos, 1int,
{
    proof {
        assert(b.len() == b@.len());
    }
    if b.len() - pos < 5 {
        return Err(NbtError::IOError);
    }
    let etag = b[pos];
    let n_i32 = i32_from_u32(read_u32(b, pos + 1));
    let q = pos + 5;
    if etag == TAG_END {
        return Ok((NbtList::End, q));
    }
    if etag > TAG_LONG_ARRAY || etag == TAG_BYTE_ARRAY {
        return Err(NbtError::UnknownTag(etag));
    }
    if n_i32 < 0 {
        return Err(NbtError::IOError);
    }
    let n = n_i32 as usize;
    if etag == TAG_BYTE {
        if b.len() - q < n {
            return Err(NbtError::IOError);
        }
        let buf = read_byte_block(b, q, n);
        Ok((NbtList::Byte(buf), q + n))
    } else if etag == TAG_SHORT {
        if n > (b.len() - q) / 2 {
            return Err(NbtError::IOError);
        }
        let buf = read_i16_block(b, q, n);
        Ok((NbtList::Short(buf), q + 2 * n))
    } else if etag == TAG_INT {
        if n > (b.len() - q) / 4 {
            return Err(NbtError::IOError);
        }
        let buf = read_i32_block(b, q, n);
        Ok((NbtList::Int(buf), q + 4 * n))
    } else if etag == TAG_LONG {
        if n > (b.len() - q) / 8 {
            return Err(NbtError::IOError);
        }
        let buf = read_i64_block(b, q, n);
        Ok((NbtList::Long(buf), q + 8 * n))
    } else if etag == TAG_FLOAT {
        if n > (b.len() - q) / 4 {
            return Err(NbtError::IOError);
        }
        let buf = read_u32_block(b, q, n);
        Ok((NbtList::Float(buf), q + 4 * n))
    } else if etag == TAG_DOUBLE {
        if n > (b.len() - q) / 8 {
            return Err(NbtError::IOError);
        }
        let buf = read_u64_block(b, q, n);
        Ok((NbtList::Double(buf), q + 8 * n))
    } else if etag == TAG_STRING {
        let mut elems: Vec<String> = Vec::new();
        let mut cur: usize = q;
        let mut i: usize = 0;
        proof {
            assert(strings_model(elems) =~= Seq::<Seq<u8>>::empty());
        }
        while i < n
            invariant
                q <= cur <= b@.len(),
                i <= n,
                (match parse_str_elems(b@, cur as int, n - i) {
                    Ok(p) => parse_str_elems(b@, q as int, n as int) matches Ok(p0) && p0.0
                        == strings_model(elems) + p.0 && p0.1 == p.1,
                    Err(e) => parse_str_elems(b@, q as int, n as int) matches Err(e0) && e0 == e,
                }),
            decreases n - i,
        {
            let (s, end) = match read_string(b, cur) {
                Ok(x) => x,
                Err(e) => {
                    return Err(e);
                },
            };
            proof {
                lemma_parse_string_bounds(b@, cur as int);
            }
            let ghost olde = elems;
            let ghost sv = encode_utf8(s@);
            elems.push(s);
            cur = end;
            i = i + 1;
            proof {
                assert(strings_model(elems) =~= strings_model(olde).push(sv));
                if parse_str_elems(b@, cur as int, n - i) is Ok {
                    let p = parse_str_elems(b@, cur as int, n - i)->Ok_0;
                    assert(strings_model(olde) + (seq![sv] + p.0) =~= strings_model(elems) + p.0);
                }
            }
        }
        proof {
            assert(strings_model(elems) + Seq::<Seq<u8>>::empty() =~= strings_model(elems));
        }
        Ok((NbtList::String(elems), cur))
    } else if etag == TAG_LIST {
        let mut elems: Vec<NbtValue> = Vec::new();
        let mut cur: usize = q;
        let mut i: usize = 0;
        proof {
            assert(values_model(elems) =~= Seq::<ValueModel>::empty());
        }
        while i < n
            invariant
                q <= cur <= b@.len(),
                i <= n,
                (match parse_list_elems(b@, cur as int, n - i) {
                    Ok(p) => parse_list_elems(b@, q as int, n as int) matches Ok(p0) && p0.0
                        == values_model(elems) + p.0 && p0.1 == p.1,
                    Err(e) => parse_list_elems(b@, q as int, n as int) matches Err(e0) && e0 == e,
                }),
            decreases n - i,
        {
            let (inner, end) = match read_list(b, cur) {
                Ok(x) => x,
                Err(e) => {
                    return Err(e);
                },
            };
            proof {
                lemma_parse_list_bounds(b@, cur as int);
            }
            let ghost olde = elems;
            let ghost iv = ValueModel::List(list_model(inner));
            elems.push(NbtValue::List(inner));
            cur = end;
            i = i + 1;
            proof {
                assert(values_model(elems) =~= values_model(olde).push(iv));
                if parse_list_elems(b@, cur as int, n - i) is Ok {
                    let p = parse_list_elems(b@, cur as int, n - i)->Ok_0;
                    assert(values_model(olde) + (seq![iv] + p.0) =~= values_model(elems) + p.0);
                }
            }
        }
        proof {
            assert(values_model(elems) + Seq::<ValueModel>::empty() =~= values_model(elems));
        }
        Ok((NbtList::List(elems), cur))
    } else if etag == TAG_COMPOUND {
        let mut elems: Vec<NbtField> = Vec::new();
        let mut cur: usize = q;
        let mut i: usize = 0;
        proof {
            assert(fields_model(elems) =~= Seq::<FieldModel>::empty());
        }
        while i < n
            invariant
                q <= cur <= b@.len(),
                i <= n,
                (match parse_compound_elems(b@, cur as int, n - i) {
                    Ok(p) => parse_compound_elems(b@, q as int, n as int) matches Ok(p0) && p0.0
                        == fields_model(elems) + p.0 && p0.1 == p.1,
                    Err(e) => parse_compound_elems(b@, q as int, n as int) matches Err(e0) && e0
                        == e,
                }),
            decreases n - i,
        {
            let (fs, end) = match read_compound(b, cur) {
                Ok(x) => x,
                Err(e) => {
                    return Err(e);
                },
            };
            proof {
                lemma_parse_fields_bounds(b@, cur as int);
            }
            let elem = NbtField { name: String::new(), value: NbtValue::Compound(fs) };
            let ghost olde = elems;
            let ghost ev = elem@;
            proof {
                assert(encode_utf8(Seq::<char>::empty()) =~= Seq::<u8>::empty());
            }
            elems.push(elem);
            cur = end;
            i = i + 1;
            proof {
                assert(fields_model(elems) =~= fields_model(olde).push(ev));
                if parse_compound_elems(b@, cur as int, n - i) is Ok {
                    let p = parse_compound_elems(b@, cur as int, n - i)->Ok_0;
                    assert(fields_model(olde) + (seq![ev] + p.0) =~= fields_model(elems) + p.0);
                }
            }
        }
        proof {
            assert(fields_model(elems) + Seq::<FieldModel>::empty() =~= fields_model(elems));
        }
        Ok((NbtList::Compound(elems), cur))
    } else if etag == TAG_INT_ARRAY {
        let mut elems: Vec<Vec<i32>> = Vec::new();
        let mut cur: usize = q;
        let mut i: usize = 0;
        proof {
            assert(vecs_model(elems) =~= Seq::<Seq<i32>>::empty());
        }
        while i < n
            invariant
                q <= cur <= b@.len(),
                i <= n,
                (match parse_int_array_elems(b@, cur as int, n - i) {
                    Ok(p) => parse_int_array_elems(b@, q as int, n as int) matches Ok(p0) && p0.0
                        == vecs_model(elems) + p.0 && p0.1 == p.1,
                    Err(e) => parse_int_array_elems(b@, q as int, n as int) matches Err(e0) && e0
                        == e,
                }),
            decreases n - i,
        {
            if b.len() - cur < 4 {
                return Err(NbtError::IOError);
            }
            let k_i32 = i32_from_u32(read_u32(b, cur));
            if k_i32 < 0 {
                return Err(NbtError::IOError);
            }
            let k = k_i32 as usize;
            if k > (b.len() - (cur + 4)) / 4 {
                return Err(NbtError::IOError);
            }
            let inner = read_i32_block(b, cur + 4, k);
            let ghost olde = elems;
            let ghost iv = inner@;
            elems.push(inner);
            cur = cur + 4 + 4 * k;
            i = i + 1;
            proof {
                assert(vecs_model(elems) =~= vecs_model(olde).push(iv));
                if parse_int_array_elems(b@, cur as int, n - i) is Ok {
                    let p = parse_int_array_elems(b@, cur as int, n - i)->Ok_0;
                    assert(vecs_model(olde) + (seq![iv] + p.0) =~= vecs_model(elems) + p.0);
                }
            }
        }
        proof {
            assert(vecs_model(elems) + Seq::<Seq<i32>>::empty() =~= vecs_model(elems));
        }
        Ok((NbtList::IntArray(elems), cur))
    } else {
        let mut elems: Vec<Vec<i64>> = Vec::new();
        let mut cur: usize = q;
        let mut i: usize = 0;
        proof {
            assert(vecs_model(elems) =~= Seq::<Seq<i64>>::empty());
        }
        while i < n
            invariant
                q <= cur <= b@.len(),
                i <= n,
                (match parse_long_array_elems(b@, cur as int, n - i) {
                    Ok(p) => parse_long_array_elems(b@, q as int, n as int) matches Ok(p0)
                        && p0.0 == vecs_model(elems) + p.0 && p0.1 == p.1,
                    Err(e) => parse_long_array_elems(b@, q as int, n as int) matches Err(e0)
                        && e0 == e,
                }),
            decreases n - i,
        {
            if b.len() - cur < 4 {
                return Err(NbtError::IOError);
            }
            let k_i32 = i32_from_u32(read_u32(b, cur));
            if k_i32 < 0 {
                return Err(NbtError::IOError);
            }
            let k = k_i32 as usize;
            if k > (b.len() - (cur + 4)) / 8 {
                return Err(NbtError::IOError);
            }
            let inner = read_i64_block(b, cur + 4, k);
            let ghost olde = elems;
            let ghost iv = inner@;
            elems.push(inner);
            cur = cur + 4 + 8 * k;
            i = i + 1;
            proof {
                assert(vecs_model(elems) =~= vecs_model(olde).push(iv));
                if parse_long_array_elems(b@, cur as int, n - i) is Ok {
                    let p = parse_long_array_elems(b@, cur as int, n - i)->Ok_0;
                    assert(vecs_model(olde) + (seq![iv] + p.0) =~= vecs_model(elems) + p.0);
                }
            }
        }
        proof {
            assert(vecs_model(elems) + Seq::<Seq<i64>>::empty() =~= vecs_model(elems));
        }
        Ok((NbtList::LongArray(elems), cur))
    }
}

// ---- Lists -----------------------------------------------------------------

/// Writes a list field: optionally the `List` tag and the field's name,
/// then the list payload.
pub(crate) fn write_list(out: &mut Vec<u8>, l: &NbtList, name: &str, with_header: bool) -> (r:
    Result<(), NbtError>)
    ensures
        r is Ok <==> ((!with_header || encode_utf8(name@).len() <= 0xFFFF) && encodable_list(l@)),
        r is Ok ==> final(out)@ == old(out)@ + (if with_header {
            seq![TAG_LIST] + len16(encode_utf8(name@).len()) + encode_utf8(name@)
        } else {
            Seq::<u8>::empty()
        }) + wire_list(l@),
        r is Err ==> r == Err::<(), NbtError>(NbtError::TooLong),
    decreases *l, 1int,
{
    if with_header {
        match write_tag_name(out, TAG_LIST, name) {
            Err(e) => {
                return Err(e);
            },
            Ok(_) => {},
        }
    }
    let r = write_list_payload(out, l);
    proof {
        if r is Ok {
            assert(out@ =~= old(out)@ + (if with_header {
                seq![TAG_LIST] + len16(encode_utf8(name@).len()) + encode_utf8(name@)
            } else {
                Seq::<u8>::empty()
            }) + wire_list(l@));
        }
    }
    r
}

/// Writes a list's payload: the element-type tag byte, the signed 32-bit
/// element count, then each element with no header of its own.
#[verifier::rlimit(50)]
pub(crate) fn write_list_payload(out: &mut Vec<u8>, l: &NbtList) -> (r: Result<(), NbtError>)
    ensures
        r is Ok <==> encodable_list(l@),
        r is Ok ==> final(out)@ == old(out)@ + wire_list(l@),
        r is Err ==> r == Err::<(), NbtError>(NbtError::TooLong),
    decreases *l, 0int,
{
    match l {
        NbtList::Byte(v) => {
            out.push(TAG_BYTE);
            match write_len32(out, v.len()) {
                Err(e) => {
                    return Err(e);
                },
                Ok(_) => {},
            }
            write_bytes(out, v.as_slice());
            proof {
                assert(out@ =~= old(out)@ + wire_list(l@));
            }
            Ok(())
        },
        NbtList::Boolean(v) => {
            out.push(TAG_BYTE);
            match write_len32(out, v.len()) {
                Err(e) => {
                    return Err(e);
                },
                Ok(_) => {},
            }
            write_bool_elems(out, v);
            proof {
                assert(out@ =~= old(out)@ + wire_list(l@));
            }
            Ok(())
        },
        NbtList::Short(v) => {
            out.push(TAG_SHORT);
            match write_len32(out, v.len()) {
                Err(e) => {
                    return Err(e);
                },
                Ok(_) => {},
            }
            write_i16_elems(out, v);
            proof {
                assert(out@ =~= old(out)@ + wire_list(l@));
            }
            Ok(())
        },
        NbtList::Int(v) => {
            out.push(TAG_INT);
            match write_len32(out, v.len()) {
                Err(e) => {
                    return Err(e);
                },
                Ok(_) => {},
            }
            write_i32_elems(out, v);
            proof {
                assert(out@ =~= old(out)@ + wire_list(l@));
            }
            Ok(())
        },
        NbtList::Long(v) => {
            out.push(TAG_LONG);
            match write_len32(out, v.len()) {
                Err(e) => {
                    return Err(e);
                },
                Ok(_) => {},
            }
            write_i64_elems(out, v);
            proof {
                assert(out@ =~= old(out)@ + wire_list(l@));
            }
            Ok(())
        },
        NbtList::Float(v) => {
            out.push(TAG_FLOAT);
            match write_len32(out, v.len()) {
                Err(e) => {
                    return Err(e);
                },
                Ok(_) => {},
            }
            write_u32_elems(out, v);
            proof {
                assert(out@ =~= old(out)@ + wire_list(l@));
            }
            Ok(())
        },
        NbtList::Double(v) => {
            out.push(TAG_DOUBLE);
            match write_len32(out, v.len()) {
                Err(e) => {
                    return Err(e);
                },
                Ok(_) => {},
            }
            write_u64_elems(out, v);
            proof {
                assert(out@ =~= old(out)@ + wire_list(l@));
            }
            Ok(())
        },
        NbtList::String(v) => {
            out.push(TAG_STRING);
            match write_len32(out, v.len()) {
                Err(e) => {
                    return Err(e);
                },
                Ok(_) => {},
            }
            let ghost base: Seq<u8> = out@;
            let ghost sm: Seq<Seq<u8>> = strings_model(*v);
            let mut i: usize = 0;
            while i < v.len()
                invariant
                    *l == NbtList::String(*v),
                    i <= v.len(),
                    sm == strings_model(*v),
                    sm.len() == v@.len(),
                    out@ == base + wire_strs(sm.take(i as int)),
                    forall|j: int| 0 <= j < i ==> #[trigger] sm[j].len() <= 0xFFFF,
                decreases v.len() - i,
            {
                match write_string(v[i].as_str(), out) {
                    Err(e) => {
                        proof {
                            assert(sm[i as int] == encode_utf8(v@[i as int]@));
                            assert(sm[i as int].len() > 0xFFFF);
                            assert(!encodable_list(l@));
                        }
                        return Err(e);
                    },
                    Ok(_) => {},
                }
                proof {
                    lemma_wire_strs_push(sm.take(i as int), sm[i as int]);
                    assert(sm.take(i as int).push(sm[i as int]) =~= sm.take(i as int + 1));
                    assert(out@ =~= base + wire_strs(sm.take(i as int + 1)));
                }
                i = i + 1;
            }
            proof {
                assert(sm.take(v@.len() as int) =~= sm);
                assert(out@ =~= old(out)@ + wire_list(l@));
            }
            Ok(())
        },
        NbtList::List(v) => {
            out.push(TAG_LIST);
            match write_len32(out, v.len()) {
                Err(e) => {
                    return Err(e);
                },
                Ok(_) => {},
            }
            let ghost base: Seq<u8> = out@;
            let ghost vm: Seq<ValueModel> = values_model(*v);
            let mut i: usize = 0;
            while i < v.len()
                invariant
                    *l == NbtList::List(*v),
                    i <= v.len(),
                    vm == values_model(*v),
                    vm.len() == v@.len(),
                    out@ == base + wire_list_elems(vm.take(i as int)),
                    forall|j: int| 0 <= j < i ==> encodable_list_elem(#[trigger] vm[j]),
                decreases v.len() - i,
            {
                match &v[i] {
                    NbtValue::List(inner) => {
                        proof {
                            assert(decreases_to!(*l => (*l)->List_0));
                            assert((*l)->List_0 == *v);
                            assert(decreases_to!(*l => *v));
                            assert(decreases_to!(*v => v@[i as int]));
                            assert(decreases_to!(NbtValue::List(*inner) => *inner));
                            assert(decreases_to!(v@[i as int] => *inner));
                            assert(decreases_to!(*l => *inner));
                        }
                        match write_list_payload(out, inner) {
                            Err(e) => {
                                proof {
                                    assert(!encodable_list_elem(vm[i as int]));
                                    assert(!encodable_list(l@));
                                }
                                return Err(e);
                            },
                            Ok(_) => {},
                        }
                    },
                    _ => {},
                }
                proof {
                    lemma_wire_list_elems_push(vm.take(i as int), vm[i as int]);
                    assert(vm.take(i as int).push(vm[i as int]) =~= vm.take(i as int + 1));
                    assert(out@ =~= base + wire_list_elems(vm.take(i as int + 1)));
                }
                i = i + 1;
            }
            proof {
                assert(vm.take(v@.len() as int) =~= vm);
                assert(out@ =~= old(out)@ + wire_list(l@));
            }
            Ok(())
        },
        NbtList::Compound(v) => {
            out.push(TAG_COMPOUND);
            match write_len32(out, v.len()) {
                Err(e) => {
                    return Err(e);
                },
                Ok(_) => {},
            }
            let ghost base: Seq<u8> = out@;
            let ghost fm: Seq<FieldModel> = fields_model(*v);
            let mut i: usize = 0;
            while i < v.len()
                invariant
                    *l == NbtList::Compound(*v),
                    i <= v.len(),
                    fm == fields_model(*v),
                    fm.len() == v@.len(),
                    out@ == base + wire_compound_elems(fm.take(i as int)),
                    forall|j: int| 0 <= j < i ==> encodable_node(#[trigger] fm[j], false),
                decreases v.len() - i,
            {
                proof {
                    assert(decreases_to!(*l => (*l)->Compound_0));
                    assert((*l)->Compound_0 == *v);
                    assert(decreases_to!(*l => *v));
                    assert(decreases_to!(*v => v@[i as int]));
                }
                match v[i].write(out, false) {
                    Err(e) => {
                        proof {
                            assert(!encodable_node(fm[i as int], false));
                            assert(!encodable_list(l@));
                        }
                        return Err(e);
                    },
                    Ok(_) => {},
                }
                proof {
                    lemma_wire_compound_elems_push(fm.take(i as int), fm[i as int]);
                    assert(fm.take(i as int).push(fm[i as int]) =~= fm.take(i as int + 1));
                    assert(out@ =~= base + wire_compound_elems(fm.take(i as int + 1)));
                }
                i = i + 1;
            }
            proof {
                assert(fm.take(v@.len() as int) =~= fm);
                assert(out@ =~= old(out)@ + wire_list(l@));
            }
            Ok(())
        },
        NbtList::LongArray(v) => {
            out.push(TAG_LONG_ARRAY);
            match write_len32(out, v.len()) {
                Err(e) => {
                    return Err(e);
                },
                Ok(_) => {},
            }
            let ghost base: Seq<u8> = out@;
            let ghost vsm: Seq<Seq<i64>> = vecs_model(*v);
            let mut i: usize = 0;
            while i < v.len()
                invariant
                    *l == NbtList::LongArray(*v),
                    i <= v.len(),
                    vsm == vecs_model(*v),
                    vsm.len() == v@.len(),
                    out@ == base + wire_long_arrays(vsm.take(i as int)),
                    forall|j: int| 0 <= j < i ==> #[trigger] vsm[j].len() <= 0x7FFF_FFFF,
                decreases v.len() - i,
            {
                match write_len32(out, v[i].len()) {
                    Err(e) => {
                        proof {
                            assert(vsm[i as int] == v@[i as int]@);
                            assert(vsm[i as int].len() > 0x7FFF_FFFF);
                            assert(!encodable_list(l@));
                        }
                        return Err(e);
                    },
                    Ok(_) => {},
                }
                write_i64_elems(out, &v[i]);
                proof {
                    lemma_wire_long_arrays_push(vsm.take(i as int), vsm[i as int]);
                    assert(vsm.take(i as int).push(vsm[i as int]) =~= vsm.take(i as int + 1));
                    assert(out@ =~= base + wire_long_arrays(vsm.take(i as int + 1)));
                }
                i = i + 1;
            }
            proof {
                assert(vsm.take(v@.len() as int) =~= vsm);
                assert(out@ =~= old(out)@ + wire_list(l@));
            }
            Ok(())
        },
        NbtList::IntArray(v) => {
            out.push(TAG_INT_ARRAY);
            match write_len32(out, v.len()) {
                Err(e) => {
                    return Err(e);
                },
                Ok(_) => {},
            }
            let ghost base: Seq<u8> = out@;
            let ghost vsm: Seq<Seq<i32>> = vecs_model(*v);
            let mut i: usize = 0;
            while i < v.len()
                invariant
                    *l == NbtList::IntArray(*v),
                    i <= v.len(),
                    vsm == vecs_model(*v),
                    vsm.len() == v@.len(),
                    out@ == base + wire_int_arrays(vsm.take(i as int)),
                    forall|j: int| 0 <= j < i ==> #[trigger] vsm[j].len() <= 0x7FFF_FFFF,
                decreases v.len() - i,
            {
                match write_len32(out, v[i].len()) {
                    Err(e) => {
                        proof {
                            assert(vsm[i as int] == v@[i as int]@);
                            assert(vsm[i as int].len() > 0x7FFF_FFFF);
                            assert(!encodable_list(l@));
                        }
                        return Err(e);
                    },
                    Ok(_) => {},
                }
                write_i32_elems(out, &v[i]);
                proof {
                    lemma_wire_int_arrays_push(vsm.take(i as int), vsm[i as int]);
                    assert(vsm.take(i as int).push(vsm[i as int]) =~= vsm.take(i as int + 1));
                    assert(out@ =~= base + wire_int_arrays(vsm.take(i as int + 1)));
                }
                i = i + 1;
            }
            proof {
                assert(vsm.take(v@.len() as int) =~= vsm);
                assert(out@ =~= old(out)@ + wire_list(l@));
            }
            Ok(())
        },
        NbtList::End => {
            out.push(TAG_END);
            write_u32_be(out, 0);
            proof {
                assert(out@ =~= old(out)@ + wire_list(l@));
            }
            Ok(())
        },
    }
}

// ---- Element loops ---------------------------------------------------------

pub(crate) fn write_bool_elems(out: &mut Vec<u8>, arr: &Vec<bool>)
    ensures
        final(out)@ == old(out)@ + wire_bools(arr@),
{
    let mut i: usize = 0;
    while i < arr.len()
        invariant
            i <= arr.len(),
            out@ == old(out)@ + wire_bools(arr@.take(i as int)),
        decreases arr.len() - i,
    {
        out.push(if arr[i] {
            1
        } else {
            0
        });
        i = i + 1;
        proof {
            assert(arr@.take(i as int).drop_last() =~= arr@.take(i as int - 1));
            assert(out@ =~= old(out)@ + wire_bools(arr@.take(i as int)));
        }
    }
    proof {
        assert(arr@.take(arr@.len() as int) =~= arr@);
    }
}

pub(crate) fn write_i16_elems(out: &mut Vec<u8>, arr: &Vec<i16>)
    ensures
        final(out)@ == old(out)@ + wire_i16s(arr@),
{
    let mut i: usize = 0;
    while i < arr.len()
        invariant
            i <= arr.len(),
            out@ == old(out)@ + wire_i16s(arr@.take(i as int)),
        decreases arr.len() - i,
    {
        write_u16_be(out, u16_from_i16(arr[i]));
        i = i + 1;
        proof {
            assert(arr@.take(i as int).drop_last() =~= arr@.take(i as int - 1));
            assert(out@ =~= old(out)@ + wire_i16s(arr@.take(i as int)));
        }
    }
    proof {
        assert(arr@.take(arr@.len() as int) =~= arr@);
    }
}

pub(crate) fn write_i32_elems(out: &mut Vec<u8>, arr: &Vec<i32>)
    ensures
        final(out)@ == old(out)@ + wire_i32s(arr@),
{
    let mut i: usize = 0;
    while i < arr.len()
        invariant
            i <= arr.len(),
            out@ == old(out)@ + wire_i32s(arr@.take(i as int)),
        decreases arr.len() - i,
    {
        write_u32_be(out, u32_from_i32(arr[i]));
        i = i + 1;
        proof {
            assert(arr@.take(i as int).drop_last() =~= arr@.take(i as int - 1));
            assert(out@ =~= old(out)@ + wire_i32s(arr@.take(i as int)));
        }
    }
    proof {
        assert(arr@.take(arr@.len() as int) =~= arr@);
    }
}

pub(crate) fn write_i64_elems(out: &mut Vec<u8>, arr: &Vec<i64>)
    ensures
        final(out)@ == old(out)@ + wire_i64s(arr@),
{
    let mut i: usize = 0;
    while i < arr.len()
        invariant
            i <= arr.len(),
            out@ == old(out)@ + wire_i64s(arr@.take(i as int)),
        decreases arr.len() - i,
    {
        write_u64_be(out, u64_from_i64(arr[i]));
        i = i + 1;
        proof {
            assert(arr@.take(i as int).drop_last() =~= arr@.take(i as int - 1));
            assert(out@ =~= old(out)@ + wire_i64s(arr@.take(i as int)));
        }
    }
    proof {
        assert(arr@.take(arr@.len() as int) =~= arr@);
    }
}

pub(crate) fn write_u32_elems(out: &mut Vec<u8>, arr: &Vec<u32>)
    ensures
        final(out)@ == old(out)@ + wire_u32s(arr@),
{
    let mut i: usize = 0;
    while i < arr.len()
        invariant
            i <= arr.len(),
            out@ == old(out)@ + wire_u32s(arr@.take(i as int)),
        decreases arr.len() - i,
    {
        write_u32_be(out, arr[i]);
        i = i + 1;
        proof {
            assert(arr@.take(i as int).drop_last() =~= arr@.take(i as int - 1));
            assert(out@ =~= old(out)@ + wire_u32s(arr@.take(i as int)));
        }
    }
    proof {
        assert(arr@.take(arr@.len() as int) =~= arr@);
    }
}

pub(crate) fn write_u64_elems(out: &mut Vec<u8>, arr: &Vec<u64>)
    ensures
        final(out)@ == old(out)@ + wire_u64s(arr@),
{
    let mut i: usize = 0;
    while i < arr.len()
        invariant
            i <= arr.len(),
            out@ == old(out)@ + wire_u64s(arr@.take(i as int)),
        decreases arr.len() - i,
    {
        write_u64_be(out, arr[i]);
        i = i + 1;
        proof {
            assert(arr@.take(i as int).drop_last() =~= arr@.take(i as int - 1));
            assert(out@ =~= old(out)@ + wire_u64s(arr@.take(i as int)));
        }
    }
    proof {
        assert(arr@.take(arr@.len() as int) =~= arr@);
    }
}

} // verus!
