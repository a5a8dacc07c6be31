use vstd::prelude::*;

use crate::model::{FieldModel, ListModel, ValueModel};
use crate::value::{
    TAG_BYTE, TAG_BYTE_ARRAY, TAG_COMPOUND, TAG_DOUBLE, TAG_END, TAG_FLOAT, TAG_INT,
    TAG_INT_ARRAY, TAG_LIST, TAG_LONG, TAG_LONG_ARRAY, TAG_SHORT, TAG_STRING,
};

verus! {

// ---- Two's-complement correspondence between signed values and their
// ---- unsigned wire form --------------------------------------------------

pub open spec fn u16_of_i16(x: i16) -> u16 {
    if x >= 0 {
        x as u16
    } else {
        (x + 0x10000) as u16
    }
}

pub open spec fn i16_of_u16(x: u16) -> i16 {
    if x < 0x8000 {
        x as i16
    } else {
        (x - 0x10000) as i16
    }
}

pub open spec fn u32_of_i32(x: i32) -> u32 {
    if x >= 0 {
        x as u32
    } else {
        (x + 0x1_0000_0000) as u32
    }
}

pub open spec fn i32_of_u32(x: u32) -> i32 {
    if x < 0x8000_0000 {
        x as i32
    } else {
        (x - 0x1_0000_0000) as i32
    }
}

pub open spec fn u64_of_i64(x: i64) -> u64 {
    if x >= 0 {
        x as u64
    } else {
        (x + 0x1_0000_0000_0000_0000) as u64
    }
}

pub open spec fn i64_of_u64(x: u64) -> i64 {
    if x < 0x8000_0000_0000_0000 {
        x as i64
    } else {
        (x - 0x1_0000_0000_0000_0000) as i64
    }
}

// ---- Big-endian byte strings of fixed-width integers ---------------------

pub open spec fn be16(x: u16) -> Seq<u8> {
    seq![(x / 0x100) as u8, (x % 0x100) as u8]
}

pub open spec fn be32(x: u32) -> Seq<u8> {
    seq![
        (x / 0x100_0000) as u8,
        ((x / 0x1_0000) % 0x100) as u8,
        ((x / 0x100) % 0x100) as u8,
        (x % 0x100) as u8,
    ]
}

pub open spec fn be64(x: u64) -> Seq<u8> {
    seq![
        (x / 0x100_0000_0000_0000) as u8,
        ((x / 0x1_0000_0000_0000) % 0x100) as u8,
        ((x / 0x100_0000_0000) % 0x100) as u8,
        ((x / 0x1_0000_0000) % 0x100) as u8,
        ((x / 0x100_0000) % 0x100) as u8,
        ((x / 0x1_0000) % 0x100) as u8,
        ((x / 0x100) % 0x100) as u8,
        (x % 0x100) as u8,
    ]
}

/// The unsigned 16-bit length prefix written for a byte string; meaningful
/// when the length fits, which [`encodable_field`] demands.
pub open spec fn len16(n: nat) -> Seq<u8> {
    be16(((n as int) % 0x1_0000) as u16)
}

/// The signed 32-bit element count written for arrays and lists;
/// meaningful when the length fits, which [`encodable_field`] demands.
pub open spec fn len32(n: nat) -> Seq<u8> {
    be32(((n as int) % 0x1_0000_0000) as u32)
}

// ---- Tag bytes ------------------------------------------------------------

/// The tag byte a value writes. A `Boolean` writes the `Byte` tag: the wire
/// format has no boolean type of its own.
pub open spec fn value_tag(v: ValueModel) -> u8 {
    match v {
        ValueModel::Byte(_) => TAG_BYTE,
        ValueModel::Boolean(_) => TAG_BYTE,
        ValueModel::Short(_) => TAG_SHORT,
        ValueModel::Int(_) => TAG_INT,
        ValueModel::Long(_) => TAG_LONG,
        ValueModel::Float(_) => TAG_FLOAT,
        ValueModel::Double(_) => TAG_DOUBLE,
        ValueModel::String(_) => TAG_STRING,
        ValueModel::List(_) => TAG_LIST,
        ValueModel::Compound(_) => TAG_COMPOUND,
        ValueModel::ByteArray(_) => TAG_BYTE_ARRAY,
        ValueModel::IntArray(_) => TAG_INT_ARRAY,
        ValueModel::LongArray(_) => TAG_LONG_ARRAY,
        ValueModel::End => TAG_END,
    }
}

/// The element-type tag byte a list writes in its own header.
pub open spec fn list_tag(l: ListModel) -> u8 {
    match l {
        ListModel::Byte(_) => TAG_BYTE,
        ListModel::Boolean(_) => TAG_BYTE,
        ListModel::Short(_) => TAG_SHORT,
        ListModel::Int(_) => TAG_INT,
        ListModel::Long(_) => TAG_LONG,
        ListModel::Float(_) => TAG_FLOAT,
        ListModel::Double(_) => TAG_DOUBLE,
        ListModel::String(_) => TAG_STRING,
        ListModel::List(_) => TAG_LIST,
        ListModel::Compound(_) => TAG_COMPOUND,
        ListModel::LongArray(_) => TAG_LONG_ARRAY,
        ListModel::IntArray(_) => TAG_INT_ARRAY,
        ListModel::End => TAG_END,
    }
}

// ---- Element payload byte strings -----------------------------------------

pub open spec fn wire_bools(s: Seq<bool>) -> Seq<u8>
    decreases s.len(),
{
    if s.len() == 0 {
        Seq::empty()
    } else {
        wire_bools(s.drop_last()) + seq![if s.last() { 1u8 } else { 0u8 }]
    }
}

pub open spec fn wire_i16s(s: Seq<i16>) -> Seq<u8>
    decreases s.len(),
{
    if s.len() == 0 {
        Seq::empty()
    } else {
        wire_i16s(s.drop_last()) + be16(u16_of_i16(s.last()))
    }
}

pub open spec fn wire_i32s(s: Seq<i32>) -> Seq<u8>
    decreases s.len(),
{
    if s.len() == 0 {
        Seq::empty()
    } else {
        wire_i32s(s.drop_last()) + be32(u32_of_i32(s.last()))
    }
}

pub open spec fn wire_i64s(s: Seq<i64>) -> Seq<u8>
    decreases s.len(),
{
    if s.len() == 0 {
        Seq::empty()
    } else {
        wire_i64s(s.drop_last()) + be64(u64_of_i64(s.last()))
    }
}

pub open spec fn wire_u32s(s: Seq<u32>) -> Seq<u8>
    decreases s.len(),
{
    if s.len() == 0 {
        Seq::empty()
    } else {
        wire_u32s(s.drop_last()) + be32(s.last())
    }
}

pub open spec fn wire_u64s(s: Seq<u64>) -> Seq<u8>
    decreases s.len(),
{
    if s.len() == 0 {
        Seq::empty()
    } else {
        wire_u64s(s.drop_last()) + be64(s.last())
    }
}

pub open spec fn wire_strs(s: Seq<Seq<u8>>) -> Seq<u8>
    decreases s.len(),
{
    if s.len() == 0 {
        Seq::empty()
    } else {
        len16(s[0].len()) + s[0] + wire_strs(s.drop_first())
    }
}

pub open spec fn wire_int_arrays(s: Seq<Seq<i32>>) -> Seq<u8>
    decreases s.len(),
{
    if s.len() == 0 {
        Seq::empty()
    } else {
        len32(s[0].len()) + wire_i32s(s[0]) + wire_int_arrays(s.drop_first())
    }
}

pub open spec fn wire_long_arrays(s: Seq<Seq<i64>>) -> Seq<u8>
    decreases s.len(),
{
    if s.len() == 0 {
        Seq::empty()
    } else {
        len32(s[0].len()) + wire_i64s(s[0]) + wire_long_arrays(s.drop_first())
    }
}

// ---- The wire form of a document ------------------------------------------

/// The bytes a field writes. Whether its own header (tag byte, then
/// name) is emitted depends on context, not on the field itself: the root
/// and every child of a compound write one, list elements do not. An
/// `End` field writes the bare `End` tag and nothing else, its name and
/// the header policy included.
pub open spec fn wire_node(f: FieldModel, header: bool) -> Seq<u8>
    decreases f,
{
    if f.value is End {
        seq![TAG_END]
    } else if header {
        seq![value_tag(f.value)] + len16(f.name.len()) + f.name + wire_value(f.value)
    } else {
        wire_value(f.value)
    }
}

pub open spec fn wire_fields(s: Seq<FieldModel>) -> Seq<u8>
    decreases s,
{
    if s.len() == 0 {
        Seq::empty()
    } else {
        wire_node(s[0], true) + wire_fields(s.drop_first())
    }
}

/// The payload of a value: the bytes that follow its tag and name, and the
/// whole of what a list element writes.
pub open spec fn wire_value(v: ValueModel) -> Seq<u8>
    decreases v,
{
    match v {
        ValueModel::Byte(b) => seq![b],
        ValueModel::Boolean(b) => seq![if b { 1u8 } else { 0u8 }],
        ValueModel::Short(x) => be16(u16_of_i16(x)),
        ValueModel::Int(x) => be32(u32_of_i32(x)),
        ValueModel::Long(x) => be64(u64_of_i64(x)),
        ValueModel::Float(x) => be32(x),
        ValueModel::Double(x) => be64(x),
        ValueModel::String(s) => len16(s.len()) + s,
        ValueModel::List(l) => wire_list(l),
        ValueModel::Compound(fs) => wire_fields(fs) + seq![TAG_END],
        ValueModel::ByteArray(s) => len32(s.len()) + s,
        ValueModel::IntArray(s) => len32(s.len()) + wire_i32s(s),
        ValueModel::LongArray(s) => len32(s.len()) + wire_i64s(s),
        ValueModel::End => Seq::empty(),
    }
}

/// What one element of a list of lists writes: its own list payload.
/// Only `List` values occur there in an encodable document.
pub open spec fn wire_list_elem(v: ValueModel) -> Seq<u8>
    decreases v,
{
    match v {
        ValueModel::List(l) => wire_list(l),
        _ => Seq::empty(),
    }
}

pub open spec fn wire_list_elems(s: Seq<ValueModel>) -> Seq<u8>
    decreases s,
{
    if s.len() == 0 {
        Seq::empty()
    } else {
        wire_list_elem(s[0]) + wire_list_elems(s.drop_first())
    }
}

/// What the elements of a list of compounds write: each its payload, with
/// no tag and no name of its own.
pub open spec fn wire_compound_elems(s: Seq<FieldModel>) -> Seq<u8>
    decreases s,
{
    if s.len() == 0 {
        Seq::empty()
    } else {
        wire_node(s[0], false) + wire_compound_elems(s.drop_first())
    }
}

/// The payload of a list: element-type tag, then the signed 32-bit element
/// count, then the elements with no headers of their own.
pub open spec fn wire_list(l: ListModel) -> Seq<u8>
    decreases l,
{
    seq![list_tag(l)] + match l {
        ListModel::Byte(s) => len32(s.len()) + s,
        ListModel::Boolean(s) => len32(s.len()) + wire_bools(s),
        ListModel::Short(s) => len32(s.len()) + wire_i16s(s),
        ListModel::Int(s) => len32(s.len()) + wire_i32s(s),
        ListModel::Long(s) => len32(s.len()) + wire_i64s(s),
        ListModel::Float(s) => len32(s.len()) + wire_u32s(s),
        ListModel::Double(s) => len32(s.len()) + wire_u64s(s),
        ListModel::String(s) => len32(s.len()) + wire_strs(s),
        ListModel::List(s) => len32(s.len()) + wire_list_elems(s),
        ListModel::Compound(s) => len32(s.len()) + wire_compound_elems(s),
        ListModel::LongArray(s) => len32(s.len()) + wire_long_arrays(s),
        ListModel::IntArray(s) => len32(s.len()) + wire_int_arrays(s),
        ListModel::End => len32(0),
    }
}

// ---- When encoding succeeds -----------------------------------------------

/// Whether every length in the field fits its wire-format length prefix:
/// names and strings in an unsigned 16-bit byte count, arrays and lists in
/// a signed 32-bit element count. Encoding succeeds exactly on such
/// fields. The name's length matters only where a header is written, and
/// an `End` field writes nothing but its tag.
pub open spec fn encodable_node(f: FieldModel, header: bool) -> bool
    decreases f,
{
    f.value is End || ((!header || f.name.len() <= 0xFFFF) && encodable_value(f.value))
}

pub open spec fn encodable_fields(s: Seq<FieldModel>) -> bool
    decreases s,
{
    forall|i: int| 0 <= i < s.len() ==> encodable_node(#[trigger] s[i], true)
}

pub open spec fn encodable_value(v: ValueModel) -> bool
    decreases v,
{
    match v {
        ValueModel::String(s) => s.len() <= 0xFFFF,
        ValueModel::List(l) => encodable_list(l),
        ValueModel::Compound(fs) => encodable_fields(fs),
        ValueModel::ByteArray(s) => s.len() <= 0x7FFF_FFFF,
        ValueModel::IntArray(s) => s.len() <= 0x7FFF_FFFF,
        ValueModel::LongArray(s) => s.len() <= 0x7FFF_FFFF,
        _ => true,
    }
}

/// An element of a list of lists encodes as its own list payload; a value
/// of any other variant writes nothing there, so nothing constrains it.
pub open spec fn encodable_list_elem(v: ValueModel) -> bool
    decreases v,
{
    match v {
        ValueModel::List(l) => encodable_list(l),
        _ => true,
    }
}

pub open spec fn encodable_list_elems(s: Seq<ValueModel>) -> bool
    decreases s,
{
    forall|i: int| 0 <= i < s.len() ==> encodable_list_elem(#[trigger] s[i])
}

pub open spec fn encodable_compound_elems(s: Seq<FieldModel>) -> bool
    decreases s,
{
    forall|i: int| 0 <= i < s.len() ==> encodable_node(#[trigger] s[i], false)
}

pub open spec fn encodable_list(l: ListModel) -> bool
    decreases l,
{
    match l {
        ListModel::Byte(s) => s.len() <= 0x7FFF_FFFF,
        ListModel::Boolean(s) => s.len() <= 0x7FFF_FFFF,
        ListModel::Short(s) => s.len() <= 0x7FFF_FFFF,
        ListModel::Int(s) => s.len() <= 0x7FFF_FFFF,
        ListModel::Long(s) => s.len() <= 0x7FFF_FFFF,
        ListModel::Float(s) => s.len() <= 0x7FFF_FFFF,
        ListModel::Double(s) => s.len() <= 0x7FFF_FFFF,
        ListModel::String(s) => s.len() <= 0x7FFF_FFFF && (forall|i: int|
            0 <= i < s.len() ==> #[trigger] s[i].len() <= 0xFFFF),
        ListModel::List(s) => s.len() <= 0x7FFF_FFFF && encodable_list_elems(s),
        ListModel::Compound(s) => s.len() <= 0x7FFF_FFFF && encodable_compound_elems(s),
        ListModel::LongArray(s) => s.len() <= 0x7FFF_FFFF && (forall|i: int|
            0 <= i < s.len() ==> #[trigger] s[i].len() <= 0x7FFF_FFFF),
        ListModel::IntArray(s) => s.len() <= 0x7FFF_FFFF && (forall|i: int|
            0 <= i < s.len() ==> #[trigger] s[i].len() <= 0x7FFF_FFFF),
        ListModel::End => true,
    }
}

// ---- How one more element extends an element byte string ------------------

pub proof fn lemma_wire_fields_push(s: Seq<FieldModel>, x: FieldModel)
    ensures
        wire_fields(s.push(x)) == wire_fields(s) + wire_node(x, true),
    decreases s.len(),
{
    if s.len() == 0 {
        assert(s.push(x).drop_first() =~= s);
        assert(wire_fields(s.push(x)) =~= wire_fields(s) + wire_node(x, true));
    } else {
        lemma_wire_fields_push(s.drop_first(), x);
        assert(s.push(x).drop_first() =~= s.drop_first().push(x));
        assert(wire_fields(s.push(x)) =~= wire_fields(s) + wire_node(x, true));
    }
}

pub proof fn lemma_wire_compound_elems_push(s: Seq<FieldModel>, x: FieldModel)
    ensures
        wire_compound_elems(s.push(x)) == wire_compound_elems(s) + wire_node(x, false),
    decreases s.len(),
{
    if s.len() == 0 {
        assert(s.push(x).drop_first() =~= s);
        assert(wire_compound_elems(s.push(x)) =~= wire_compound_elems(s) + wire_node(x, false));
    } else {
        lemma_wire_compound_elems_push(s.drop_first(), x);
        assert(s.push(x).drop_first() =~= s.drop_first().push(x));
        assert(wire_compound_elems(s.push(x)) =~= wire_compound_elems(s) + wire_node(x, false));
    }
}

pub proof fn lemma_wire_list_elems_push(s: Seq<ValueModel>, x: ValueModel)
    ensures
        wire_list_elems(s.push(x)) == wire_list_elems(s) + wire_list_elem(x),
    decreases s.len(),
{
    if s.len() == 0 {
        assert(s.push(x).drop_first() =~= s);
        assert(wire_list_elems(s.push(x)) =~= wire_list_elems(s) + wire_list_elem(x));
    } else {
        lemma_wire_list_elems_push(s.drop_first(), x);
        assert(s.push(x).drop_first() =~= s.drop_first().push(x));
        assert(wire_list_elems(s.push(x)) =~= wire_list_elems(s) + wire_list_elem(x));
    }
}

pub proof fn lemma_wire_strs_push(s: Seq<Seq<u8>>, x: Seq<u8>)
    ensures
        wire_strs(s.push(x)) == wire_strs(s) + len16(x.len()) + x,
    decreases s.len(),
{
    if s.len() == 0 {
        assert(s.push(x).drop_first() =~= s);
        assert(wire_strs(s.push(x)) =~= wire_strs(s) + len16(x.len()) + x);
    } else {
        lemma_wire_strs_push(s.drop_first(), x);
        assert(s.push(x).drop_first() =~= s.drop_first().push(x));
        assert(wire_strs(s.push(x)) =~= wire_strs(s) + len16(x.len()) + x);
    }
}

pub proof fn lemma_wire_int_arrays_push(s: Seq<Seq<i32>>, x: Seq<i32>)
    ensures
        wire_int_arrays(s.push(x)) == wire_int_arrays(s) + len32(x.len()) + wire_i32s(x),
    decreases s.len(),
{
    if s.len() == 0 {
        assert(s.push(x).drop_first() =~= s);
        assert(wire_int_arrays(s.push(x)) =~= wire_int_arrays(s) + len32(x.len()) + wire_i32s(x));
    } else {
        lemma_wire_int_arrays_push(s.drop_first(), x);
        assert(s.push(x).drop_first() =~= s.drop_first().push(x));
        assert(wire_int_arrays(s.push(x)) =~= wire_int_arrays(s) + len32(x.len()) + wire_i32s(x));
    }
}

pub proof fn lemma_wire_long_arrays_push(s: Seq<Seq<i64>>, x: Seq<i64>)
    ensures
        wire_long_arrays(s.push(x)) == wire_long_arrays(s) + len32(x.len()) + wire_i64s(x),
    decreases s.len(),
{
    if s.len() == 0 {
        assert(s.push(x).drop_first() =~= s);
        assert(wire_long_arrays(s.push(x)) =~= wire_long_arrays(s) + len32(x.len()) + wire_i64s(
            x,
        ));
    } else {
        lemma_wire_long_arrays_push(s.drop_first(), x);
        assert(s.push(x).drop_first() =~= s.drop_first().push(x));
        assert(wire_long_arrays(s.push(x)) =~= wire_long_arrays(s) + len32(x.len()) + wire_i64s(
            x,
        ));
    }
}

/// The wire form of a whole document: its root field with a full header.
pub open spec fn wire_field(f: FieldModel) -> Seq<u8> {
    wire_node(f, true)
}

/// When encoding a whole document succeeds.
pub open spec fn encodable_field(f: FieldModel) -> bool {
    encodable_node(f, true)
}

} // verus!
