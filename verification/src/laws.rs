use vstd::prelude::*;

use crate::error::NbtError;
use crate::model::{
    first_index_with_name, first_with_name, FieldModel, ListModel, ValueModel,
};
use crate::parse::{
    be_u16_at, be_u32_at, be_u64_at, i16s_at, i32s_at, i64s_at, known_tag,
    parse_compound_elems, parse_field, parse_fields, parse_int_array_elems, parse_list,
    parse_list_elems, parse_long_array_elems, parse_payload, parse_str_elems, parse_string,
    u32s_at, u64s_at,
};
use crate::value::{
    TAG_BYTE, TAG_BYTE_ARRAY, TAG_COMPOUND, TAG_DOUBLE, TAG_END, TAG_FLOAT, TAG_INT,
    TAG_INT_ARRAY, TAG_LIST, TAG_LONG, TAG_LONG_ARRAY, TAG_SHORT, TAG_STRING,
};
use crate::wire::{
    be16, be32, be64, encodable_field, encodable_list, encodable_list_elem, encodable_node,
    encodable_value, i16_of_u16, i32_of_u32, i64_of_u64, len16, len32,
    list_tag, u16_of_i16, u32_of_i32, u64_of_i64, value_tag, wire_field, wire_fields,
    wire_i16s, wire_i32s, wire_i64s, wire_int_arrays, wire_list, wire_list_elem,
    wire_list_elems, wire_long_arrays, wire_node, wire_compound_elems, wire_strs, wire_u32s,
    wire_u64s, wire_value,
};
use vstd::arithmetic::div_mod::{lemma_div_denominator, lemma_fundamental_div_mod};
use vstd::utf8::valid_utf8;

verus! {

// ---- Splitting a concatenation out of a larger buffer ---------------------

proof fn lemma_split_at(b: Seq<u8>, pos: int, x: Seq<u8>, y: Seq<u8>)
    requires
        0 <= pos,
        pos + x.len() + y.len() <= b.len(),
        b.subrange(pos, pos + x.len() + y.len()) == x + y,
    ensures
        b.subrange(pos, pos + x.len()) == x,
        b.subrange(pos + x.len(), pos + x.len() + y.len()) == y,
{
    let w = x.len() + y.len();
    assert forall|i: int| 0 <= i < x.len() implies b.subrange(pos, pos + x.len())[i] == x[i] by {
        assert(b.subrange(pos, pos + w)[i] == (x + y)[i]);
    }
    assert(b.subrange(pos, pos + x.len()) =~= x);
    assert forall|i: int| 0 <= i < y.len() implies b.subrange(
        pos + x.len(),
        pos + x.len() + y.len(),
    )[i] == y[i] by {
        assert(b.subrange(pos, pos + w)[x.len() + i] == (x + y)[x.len() + i]);
    }
    assert(b.subrange(pos + x.len(), pos + x.len() + y.len()) =~= y);
}

// ---- Reading back a big-endian integer ------------------------------------

proof fn lemma_be16_read(b: Seq<u8>, pos: int, x: u16)
    requires
        0 <= pos,
        pos + 2 <= b.len(),
        b.subrange(pos, pos + 2) == be16(x),
    ensures
        be_u16_at(b, pos) == x,
{
    assert(b.subrange(pos, pos + 2)[0] == be16(x)[0]);
    assert(b.subrange(pos, pos + 2)[1] == be16(x)[1]);
    assert(b[pos] == be16(x)[0]);
    assert(b[pos + 1] == be16(x)[1]);
    lemma_fundamental_div_mod(x as int, 0x100);
}

proof fn lemma_be32_read(b: Seq<u8>, pos: int, x: u32)
    requires
        0 <= pos,
        pos + 4 <= b.len(),
        b.subrange(pos, pos + 4) == be32(x),
    ensures
        be_u32_at(b, pos) == x,
{
    assert forall|i: int| 0 <= i < 4 implies b[pos + i] == be32(x)[i] by {
        assert(b.subrange(pos, pos + 4)[i] == be32(x)[i]);
    }
    assert(b[pos] == be32(x)[0]);
    assert(b[pos + 1] == be32(x)[1]);
    assert(b[pos + 2] == be32(x)[2]);
    assert(b[pos + 3] == be32(x)[3]);
    let xi = x as int;
    lemma_fundamental_div_mod(xi, 0x100);
    lemma_fundamental_div_mod(xi / 0x100, 0x100);
    lemma_fundamental_div_mod(xi / 0x1_0000, 0x100);
    lemma_div_denominator(xi, 0x100, 0x100);
    lemma_div_denominator(xi, 0x1_0000, 0x100);
}

proof fn lemma_u64_recompose(x: u64)
    by (bit_vector)
    ensures
        (x / 0x100_0000_0000_0000) * 0x100_0000_0000_0000 + ((x / 0x1_0000_0000_0000) % 0x100)
            * 0x1_0000_0000_0000 + ((x / 0x100_0000_0000) % 0x100) * 0x100_0000_0000 + ((x
            / 0x1_0000_0000) % 0x100) * 0x1_0000_0000 + ((x / 0x100_0000) % 0x100) * 0x100_0000
            + ((x / 0x1_0000) % 0x100) * 0x1_0000 + ((x / 0x100) % 0x100) * 0x100 + x % 0x100
            == x,
{
}

proof fn lemma_be64_read(b: Seq<u8>, pos: int, x: u64)
    requires
        0 <= pos,
        pos + 8 <= b.len(),
        b.subrange(pos, pos + 8) == be64(x),
    ensures
        be_u64_at(b, pos) == x,
{
    assert forall|i: int| 0 <= i < 8 implies b[pos + i] == be64(x)[i] by {
        assert(b.subrange(pos, pos + 8)[i] == be64(x)[i]);
    }
    assert(b[pos] == be64(x)[0]);
    assert(b[pos + 1] == be64(x)[1]);
    assert(b[pos + 2] == be64(x)[2]);
    assert(b[pos + 3] == be64(x)[3]);
    assert(b[pos + 4] == be64(x)[4]);
    assert(b[pos + 5] == be64(x)[5]);
    assert(b[pos + 6] == be64(x)[6]);
    assert(b[pos + 7] == be64(x)[7]);
    lemma_u64_recompose(x);
}

// ---- Signed values survive the unsigned wire form --------------------------

proof fn lemma_i16_inverse(x: i16)
    ensures
        i16_of_u16(u16_of_i16(x)) == x,
{
}

proof fn lemma_i32_inverse(x: i32)
    ensures
        i32_of_u32(u32_of_i32(x)) == x,
{
}

proof fn lemma_i64_inverse(x: i64)
    ensures
        i64_of_u64(u64_of_i64(x)) == x,
{
}

// ---- The length and layout of fixed-width element blocks -------------------

proof fn lemma_wire_i16s_len(s: Seq<i16>)
    ensures
        wire_i16s(s).len() == 2 * s.len(),
    decreases s.len(),
{
    if s.len() > 0 {
        lemma_wire_i16s_len(s.drop_last());
    }
}

proof fn lemma_wire_i32s_len(s: Seq<i32>)
    ensures
        wire_i32s(s).len() == 4 * s.len(),
    decreases s.len(),
{
    if s.len() > 0 {
        lemma_wire_i32s_len(s.drop_last());
    }
}

proof fn lemma_wire_i64s_len(s: Seq<i64>)
    ensures
        wire_i64s(s).len() == 8 * s.len(),
    decreases s.len(),
{
    if s.len() > 0 {
        lemma_wire_i64s_len(s.drop_last());
    }
}

proof fn lemma_wire_u32s_len(s: Seq<u32>)
    ensures
        wire_u32s(s).len() == 4 * s.len(),
    decreases s.len(),
{
    if s.len() > 0 {
        lemma_wire_u32s_len(s.drop_last());
    }
}

proof fn lemma_wire_u64s_len(s: Seq<u64>)
    ensures
        wire_u64s(s).len() == 8 * s.len(),
    decreases s.len(),
{
    if s.len() > 0 {
        lemma_wire_u64s_len(s.drop_last());
    }
}

proof fn lemma_wire_i16s_index(s: Seq<i16>, j: int)
    requires
        0 <= j < s.len(),
    ensures
        wire_i16s(s).len() == 2 * s.len(),
        wire_i16s(s).subrange(2 * j, 2 * j + 2) == be16(u16_of_i16(s[j])),
    decreases s.len(),
{
    lemma_wire_i16s_len(s);
    if j == s.len() - 1 {
        lemma_wire_i16s_len(s.drop_last());
        assert(wire_i16s(s).subrange(2 * j, 2 * j + 2) =~= be16(u16_of_i16(s[j])));
    } else {
        lemma_wire_i16s_index(s.drop_last(), j);
        lemma_wire_i16s_len(s.drop_last());
        assert(wire_i16s(s).subrange(2 * j, 2 * j + 2) =~= wire_i16s(s.drop_last()).subrange(
            2 * j,
            2 * j + 2,
        ));
    }
}

proof fn lemma_wire_i32s_index(s: Seq<i32>, j: int)
    requires
        0 <= j < s.len(),
    ensures
        wire_i32s(s).len() == 4 * s.len(),
        wire_i32s(s).subrange(4 * j, 4 * j + 4) == be32(u32_of_i32(s[j])),
    decreases s.len(),
{
    lemma_wire_i32s_len(s);
    if j == s.len() - 1 {
        lemma_wire_i32s_len(s.drop_last());
        assert(wire_i32s(s).subrange(4 * j, 4 * j + 4) =~= be32(u32_of_i32(s[j])));
    } else {
        lemma_wire_i32s_index(s.drop_last(), j);
        lemma_wire_i32s_len(s.drop_last());
        assert(wire_i32s(s).subrange(4 * j, 4 * j + 4) =~= wire_i32s(s.drop_last()).subrange(
            4 * j,
            4 * j + 4,
        ));
    }
}

proof fn lemma_wire_i64s_index(s: Seq<i64>, j: int)
    requires
        0 <= j < s.len(),
    ensures
        wire_i64s(s).len() == 8 * s.len(),
        wire_i64s(s).subrange(8 * j, 8 * j + 8) == be64(u64_of_i64(s[j])),
    decreases s.len(),
{
    lemma_wire_i64s_len(s);
    if j == s.len() - 1 {
        lemma_wire_i64s_len(s.drop_last());
        assert(wire_i64s(s).subrange(8 * j, 8 * j + 8) =~= be64(u64_of_i64(s[j])));
    } else {
        lemma_wire_i64s_index(s.drop_last(), j);
        lemma_wire_i64s_len(s.drop_last());
        assert(wire_i64s(s).subrange(8 * j, 8 * j + 8) =~= wire_i64s(s.drop_last()).subrange(
            8 * j,
            8 * j + 8,
        ));
    }
}

proof fn lemma_wire_u32s_index(s: Seq<u32>, j: int)
    requires
        0 <= j < s.len(),
    ensures
        wire_u32s(s).len() == 4 * s.len(),
        wire_u32s(s).subrange(4 * j, 4 * j + 4) == be32(s[j]),
    decreases s.len(),
{
    lemma_wire_u32s_len(s);
    if j == s.len() - 1 {
        lemma_wire_u32s_len(s.drop_last());
        assert(wire_u32s(s).subrange(4 * j, 4 * j + 4) =~= be32(s[j]));
    } else {
        lemma_wire_u32s_index(s.drop_last(), j);
        lemma_wire_u32s_len(s.drop_last());
        assert(wire_u32s(s).subrange(4 * j, 4 * j + 4) =~= wire_u32s(s.drop_last()).subrange(
            4 * j,
            4 * j + 4,
        ));
    }
}

proof fn lemma_wire_u64s_index(s: Seq<u64>, j: int)
    requires
        0 <= j < s.len(),
    ensures
        wire_u64s(s).len() == 8 * s.len(),
        wire_u64s(s).subrange(8 * j, 8 * j + 8) == be64(s[j]),
    decreases s.len(),
{
    lemma_wire_u64s_len(s);
    if j == s.len() - 1 {
        lemma_wire_u64s_len(s.drop_last());
        assert(wire_u64s(s).subrange(8 * j, 8 * j + 8) =~= be64(s[j]));
    } else {
        lemma_wire_u64s_index(s.drop_last(), j);
        lemma_wire_u64s_len(s.drop_last());
        assert(wire_u64s(s).subrange(8 * j, 8 * j + 8) =~= wire_u64s(s.drop_last()).subrange(
            8 * j,
            8 * j + 8,
        ));
    }
}

proof fn lemma_sub_subrange(b: Seq<u8>, pos: int, w: Seq<u8>, lo: int, hi: int)
    requires
        0 <= pos,
        pos + w.len() <= b.len(),
        b.subrange(pos, pos + w.len()) == w,
        0 <= lo <= hi <= w.len(),
    ensures
        b.subrange(pos + lo, pos + hi) == w.subrange(lo, hi),
{
    assert forall|i: int| 0 <= i < hi - lo implies b.subrange(pos + lo, pos + hi)[i]
        == w.subrange(lo, hi)[i] by {
        assert(b.subrange(pos, pos + w.len())[lo + i] == w[lo + i]);
    }
    assert(b.subrange(pos + lo, pos + hi) =~= w.subrange(lo, hi));
}

// ---- Documents whose wire form decodes back to them exactly ----------------

/// What the round-trip law asks of a whole document: its name fits and is
/// valid UTF-8 (an `End` root writes no name, so its name must already be
/// empty), and its value is of the decoder's image.
pub open spec fn round_trippable(f: FieldModel) -> bool {
    &&& f.name.len() <= 0xFFFF
    &&& valid_utf8(f.name)
    &&& (f.value is End ==> f.name == Seq::<u8>::empty())
    &&& round_trippable_value(f.value)
}

/// What the round-trip law asks of a compound child: as of a document,
/// except that an `End` value cannot occur (the decoder would take it for
/// the compound's terminator).
pub open spec fn round_trippable_child(f: FieldModel) -> bool
    decreases f,
{
    &&& !(f.value is End)
    &&& f.name.len() <= 0xFFFF
    &&& valid_utf8(f.name)
    &&& round_trippable_value(f.value)
}

pub open spec fn round_trippable_children(s: Seq<FieldModel>) -> bool
    decreases s,
{
    forall|i: int| 0 <= i < s.len() ==> round_trippable_child(#[trigger] s[i])
}

/// The decoder's image among values: no `Boolean` (the wire carries it as
/// a byte), every string valid UTF-8 within the 16-bit length cap, every
/// count within the signed 32-bit cap, recursively.
pub open spec fn round_trippable_value(v: ValueModel) -> bool
    decreases v,
{
    match v {
        ValueModel::Boolean(_) => false,
        ValueModel::String(s) => s.len() <= 0xFFFF && valid_utf8(s),
        ValueModel::List(l) => round_trippable_list(l),
        ValueModel::Compound(fs) => round_trippable_children(fs),
        ValueModel::ByteArray(s) => s.len() <= 0x7FFF_FFFF,
        ValueModel::IntArray(s) => s.len() <= 0x7FFF_FFFF,
        ValueModel::LongArray(s) => s.len() <= 0x7FFF_FFFF,
        _ => true,
    }
}

/// An element of a list of lists must itself be a list value.
pub open spec fn round_trippable_list_elem(v: ValueModel) -> bool
    decreases v,
{
    match v {
        ValueModel::List(l) => round_trippable_list(l),
        _ => false,
    }
}

pub open spec fn round_trippable_list_elems(s: Seq<ValueModel>) -> bool
    decreases s,
{
    forall|i: int| 0 <= i < s.len() ==> round_trippable_list_elem(#[trigger] s[i])
}

/// An element of a list of compounds must be an anonymous compound: list
/// elements carry no name on the wire, so a name would be lost.
pub open spec fn round_trippable_compound_elem(f: FieldModel) -> bool
    decreases f,
{
    &&& f.name == Seq::<u8>::empty()
    &&& f.value is Compound
    &&& round_trippable_value(f.value)
}

pub open spec fn round_trippable_compound_elems(s: Seq<FieldModel>) -> bool
    decreases s,
{
    forall|i: int| 0 <= i < s.len() ==> round_trippable_compound_elem(#[trigger] s[i])
}

pub open spec fn round_trippable_list(l: ListModel) -> bool
    decreases l,
{
    match l {
        ListModel::Byte(s) => s.len() <= 0x7FFF_FFFF,
        ListModel::Boolean(_) => false,
        ListModel::Short(s) => s.len() <= 0x7FFF_FFFF,
        ListModel::Int(s) => s.len() <= 0x7FFF_FFFF,
        ListModel::Long(s) => s.len() <= 0x7FFF_FFFF,
        ListModel::Float(s) => s.len() <= 0x7FFF_FFFF,
        ListModel::Double(s) => s.len() <= 0x7FFF_FFFF,
        ListModel::String(s) => s.len() <= 0x7FFF_FFFF && (forall|i: int|
            0 <= i < s.len() ==> (#[trigger] s[i]).len() <= 0xFFFF && valid_utf8(s[i])),
        ListModel::List(s) => s.len() <= 0x7FFF_FFFF && round_trippable_list_elems(s),
        ListModel::Compound(s) => s.len() <= 0x7FFF_FFFF && round_trippable_compound_elems(s),
        ListModel::LongArray(s) => s.len() <= 0x7FFF_FFFF && (forall|i: int|
            0 <= i < s.len() ==> (#[trigger] s[i]).len() <= 0x7FFF_FFFF),
        ListModel::IntArray(s) => s.len() <= 0x7FFF_FFFF && (forall|i: int|
            0 <= i < s.len() ==> (#[trigger] s[i]).len() <= 0x7FFF_FFFF),
        ListModel::End => true,
    }
}

// ---- Decoding inverts encoding ---------------------------------------------

#[verifier::rlimit(100)]
proof fn lemma_rt_field(b: Seq<u8>, pos: int, f: FieldModel)
    requires
        f.name.len() <= 0xFFFF,
        valid_utf8(f.name),
        f.value is End ==> f.name == Seq::<u8>::empty(),
        round_trippable_value(f.value),
        0 <= pos,
        pos + wire_node(f, true).len() <= b.len(),
        b.subrange(pos, pos + wire_node(f, true).len()) == wire_node(f, true),
    ensures
        parse_field(b, pos) == Ok::<(FieldModel, int), NbtError>(
            (f, pos + wire_node(f, true).len()),
        ),
    decreases f, 0int,
{
    let w = wire_node(f, true);
    if f.value is End {
        assert(b[pos] == TAG_END) by {
            assert(b.subrange(pos, pos + 1)[0] == w[0]);
        }
    } else {
        let tag = value_tag(f.value);
        let nl = len16(f.name.len());
        let wv = wire_value(f.value);
        let hd = seq![tag] + nl;
        assert(w =~= hd + (f.name + wv));
        lemma_split_at(b, pos, hd, f.name + wv);
        assert(b[pos] == tag) by {
            assert(b.subrange(pos, pos + 3)[0] == hd[0]);
        }
        lemma_sub_subrange(b, pos, hd, 1, 3);
        assert(hd.subrange(1, 3) =~= nl);
        assert(nl == be16(f.name.len() as u16));
        lemma_be16_read(b, pos + 1, f.name.len() as u16);
        lemma_split_at(b, pos + 3, f.name, wv);
        assert(parse_string(b, pos + 1) == Ok::<(Seq<u8>, int), NbtError>(
            (f.name, pos + 3 + f.name.len()),
        ));
        lemma_rt_value(b, pos + 3 + f.name.len(), f.value);
        assert(known_tag(tag) && tag != TAG_END);
    }
}


#[verifier::rlimit(100)]
proof fn lemma_rt_int_array_value(b: Seq<u8>, pos: int, s: Seq<i32>)
    requires
        s.len() <= 0x7FFF_FFFF,
        0 <= pos,
        pos + 4 + wire_i32s(s).len() <= b.len(),
        b.subrange(pos, pos + 4 + wire_i32s(s).len()) == len32(s.len()) + wire_i32s(s),
    ensures
        parse_payload(TAG_INT_ARRAY, b, pos) == Ok::<(ValueModel, int), NbtError>(
            (ValueModel::IntArray(s), pos + 4 + wire_i32s(s).len()),
        ),
{
    lemma_wire_i32s_len(s);
    lemma_split_at(b, pos, len32(s.len()), wire_i32s(s));
    assert(len32(s.len()) == be32(s.len() as u32));
    lemma_be32_read(b, pos, s.len() as u32);
    assert forall|j: int| 0 <= j < s.len() implies i32s_at(b, pos + 4, s.len() as int)[j]
        == s[j] by {
        lemma_wire_i32s_index(s, j);
        lemma_sub_subrange(b, pos + 4, wire_i32s(s), 4 * j, 4 * j + 4);
        lemma_be32_read(b, pos + 4 + 4 * j, u32_of_i32(s[j]));
        lemma_i32_inverse(s[j]);
    }
    assert(i32s_at(b, pos + 4, s.len() as int) =~= s);
}

#[verifier::rlimit(100)]
proof fn lemma_rt_long_array_value(b: Seq<u8>, pos: int, s: Seq<i64>)
    requires
        s.len() <= 0x7FFF_FFFF,
        0 <= pos,
        pos + 4 + wire_i64s(s).len() <= b.len(),
        b.subrange(pos, pos + 4 + wire_i64s(s).len()) == len32(s.len()) + wire_i64s(s),
    ensures
        parse_payload(TAG_LONG_ARRAY, b, pos) == Ok::<(ValueModel, int), NbtError>(
            (ValueModel::LongArray(s), pos + 4 + wire_i64s(s).len()),
        ),
{
    lemma_wire_i64s_len(s);
    lemma_split_at(b, pos, len32(s.len()), wire_i64s(s));
    assert(len32(s.len()) == be32(s.len() as u32));
    lemma_be32_read(b, pos, s.len() as u32);
    assert forall|j: int| 0 <= j < s.len() implies i64s_at(b, pos + 4, s.len() as int)[j]
        == s[j] by {
        lemma_wire_i64s_index(s, j);
        lemma_sub_subrange(b, pos + 4, wire_i64s(s), 8 * j, 8 * j + 8);
        lemma_be64_read(b, pos + 4 + 8 * j, u64_of_i64(s[j]));
        lemma_i64_inverse(s[j]);
    }
    assert(i64s_at(b, pos + 4, s.len() as int) =~= s);
}

proof fn lemma_rt_byte_value(b: Seq<u8>, pos: int, x: u8)
    requires
        0 <= pos,
        pos + 1 <= b.len(),
        b.subrange(pos, pos + 1) == wire_value(ValueModel::Byte(x)),
    ensures
        parse_payload(TAG_BYTE, b, pos) == Ok::<(ValueModel, int), NbtError>(
            (ValueModel::Byte(x), pos + 1),
        ),
{
    assert(b[pos] == x) by {
        assert(b.subrange(pos, pos + 1)[0] == wire_value(ValueModel::Byte(x))[0]);
    }
}

proof fn lemma_rt_short_value(b: Seq<u8>, pos: int, x: i16)
    requires
        0 <= pos,
        pos + 2 <= b.len(),
        b.subrange(pos, pos + 2) == be16(u16_of_i16(x)),
    ensures
        parse_payload(TAG_SHORT, b, pos) == Ok::<(ValueModel, int), NbtError>(
            (ValueModel::Short(x), pos + 2),
        ),
{
    lemma_be16_read(b, pos, u16_of_i16(x));
    lemma_i16_inverse(x);
}

proof fn lemma_rt_int_value(b: Seq<u8>, pos: int, x: i32)
    requires
        0 <= pos,
        pos + 4 <= b.len(),
        b.subrange(pos, pos + 4) == be32(u32_of_i32(x)),
    ensures
        parse_payload(TAG_INT, b, pos) == Ok::<(ValueModel, int), NbtError>(
            (ValueModel::Int(x), pos + 4),
        ),
{
    lemma_be32_read(b, pos, u32_of_i32(x));
    lemma_i32_inverse(x);
}

proof fn lemma_rt_long_value(b: Seq<u8>, pos: int, x: i64)
    requires
        0 <= pos,
        pos + 8 <= b.len(),
        b.subrange(pos, pos + 8) == be64(u64_of_i64(x)),
    ensures
        parse_payload(TAG_LONG, b, pos) == Ok::<(ValueModel, int), NbtError>(
            (ValueModel::Long(x), pos + 8),
        ),
{
    lemma_be64_read(b, pos, u64_of_i64(x));
    lemma_i64_inverse(x);
}

proof fn lemma_rt_float_value(b: Seq<u8>, pos: int, x: u32)
    requires
        0 <= pos,
        pos + 4 <= b.len(),
        b.subrange(pos, pos + 4) == be32(x),
    ensures
        parse_payload(TAG_FLOAT, b, pos) == Ok::<(ValueModel, int), NbtError>(
            (ValueModel::Float(x), pos + 4),
        ),
{
    lemma_be32_read(b, pos, x);
}

proof fn lemma_rt_double_value(b: Seq<u8>, pos: int, x: u64)
    requires
        0 <= pos,
        pos + 8 <= b.len(),
        b.subrange(pos, pos + 8) == be64(x),
    ensures
        parse_payload(TAG_DOUBLE, b, pos) == Ok::<(ValueModel, int), NbtError>(
            (ValueModel::Double(x), pos + 8),
        ),
{
    lemma_be64_read(b, pos, x);
}

#[verifier::rlimit(100)]
proof fn lemma_rt_string_value(b: Seq<u8>, pos: int, s: Seq<u8>)
    requires
        s.len() <= 0xFFFF,
        valid_utf8(s),
        0 <= pos,
        pos + 2 + s.len() <= b.len(),
        b.subrange(pos, pos + 2 + s.len()) == len16(s.len()) + s,
    ensures
        parse_payload(TAG_STRING, b, pos) == Ok::<(ValueModel, int), NbtError>(
            (ValueModel::String(s), pos + 2 + s.len()),
        ),
{
    lemma_split_at(b, pos, len16(s.len()), s);
    assert(len16(s.len()) == be16(s.len() as u16));
    lemma_be16_read(b, pos, s.len() as u16);
}

#[verifier::rlimit(100)]
proof fn lemma_rt_byte_array_value(b: Seq<u8>, pos: int, s: Seq<u8>)
    requires
        s.len() <= 0x7FFF_FFFF,
        0 <= pos,
        pos + 4 + s.len() <= b.len(),
        b.subrange(pos, pos + 4 + s.len()) == len32(s.len()) + s,
    ensures
        parse_payload(TAG_BYTE_ARRAY, b, pos) == Ok::<(ValueModel, int), NbtError>(
            (ValueModel::ByteArray(s), pos + 4 + s.len()),
        ),
{
    lemma_split_at(b, pos, len32(s.len()), s);
    assert(len32(s.len()) == be32(s.len() as u32));
    lemma_be32_read(b, pos, s.len() as u32);
}

#[verifier::rlimit(100)]
proof fn lemma_rt_compound_value(b: Seq<u8>, pos: int, fs: Seq<FieldModel>)
    requires
        round_trippable_children(fs),
        0 <= pos,
        pos + wire_fields(fs).len() + 1 <= b.len(),
        b.subrange(pos, pos + wire_fields(fs).len() + 1) == wire_fields(fs) + seq![TAG_END],
    ensures
        parse_payload(TAG_COMPOUND, b, pos) == Ok::<(ValueModel, int), NbtError>(
            (ValueModel::Compound(fs), pos + wire_fields(fs).len() + 1),
        ),
    decreases fs, 1int,
{
    lemma_split_at(b, pos, wire_fields(fs), seq![TAG_END]);
    assert(b[pos + wire_fields(fs).len()] == TAG_END) by {
        assert(b.subrange(pos + wire_fields(fs).len(), pos + wire_fields(fs).len() + 1)[0]
            == seq![TAG_END][0]);
    }
    lemma_rt_fields(b, pos, fs);
}

#[verifier::rlimit(100)]
proof fn lemma_rt_simple_value(b: Seq<u8>, pos: int, v: ValueModel)
    requires
        round_trippable_value(v),
        v is Byte || v is Short || v is Int || v is Long || v is Float || v is Double
            || v is String || v is ByteArray,
        0 <= pos,
        pos + wire_value(v).len() <= b.len(),
        b.subrange(pos, pos + wire_value(v).len()) == wire_value(v),
    ensures
        parse_payload(value_tag(v), b, pos) == Ok::<(ValueModel, int), NbtError>(
            (v, pos + wire_value(v).len()),
        ),
{
    match v {
        ValueModel::Byte(x) => {
            lemma_rt_byte_value(b, pos, x);
        },
        ValueModel::Short(x) => {
            lemma_rt_short_value(b, pos, x);
        },
        ValueModel::Int(x) => {
            lemma_rt_int_value(b, pos, x);
        },
        ValueModel::Long(x) => {
            lemma_rt_long_value(b, pos, x);
        },
        ValueModel::Float(x) => {
            lemma_rt_float_value(b, pos, x);
        },
        ValueModel::Double(x) => {
            lemma_rt_double_value(b, pos, x);
        },
        ValueModel::String(str_bytes) => {
            lemma_rt_string_value(b, pos, str_bytes);
        },
        ValueModel::ByteArray(arr) => {
            lemma_rt_byte_array_value(b, pos, arr);
        },
        _ => {},
    }
}

#[verifier::rlimit(100)]
proof fn lemma_rt_value(b: Seq<u8>, pos: int, v: ValueModel)
    requires
        round_trippable_value(v),
        !(v is End),
        0 <= pos,
        pos + wire_value(v).len() <= b.len(),
        b.subrange(pos, pos + wire_value(v).len()) == wire_value(v),
    ensures
        parse_payload(value_tag(v), b, pos) == Ok::<(ValueModel, int), NbtError>(
            (v, pos + wire_value(v).len()),
        ),
    decreases v, 2int,
{
    match v {
        ValueModel::List(l) => {
            lemma_rt_list(b, pos, l);
        },
        ValueModel::Compound(fs) => {
            lemma_rt_compound_value(b, pos, fs);
        },
        ValueModel::IntArray(arr) => {
            lemma_wire_i32s_len(arr);
            lemma_rt_int_array_value(b, pos, arr);
        },
        ValueModel::LongArray(arr) => {
            lemma_wire_i64s_len(arr);
            lemma_rt_long_array_value(b, pos, arr);
        },
        _ => {
            lemma_rt_simple_value(b, pos, v);
        },
    }
}

#[verifier::rlimit(100)]
proof fn lemma_rt_fields(b: Seq<u8>, pos: int, fs: Seq<FieldModel>)
    requires
        round_trippable_children(fs),
        0 <= pos,
        pos + wire_fields(fs).len() + 1 <= b.len(),
        b.subrange(pos, pos + wire_fields(fs).len()) == wire_fields(fs),
        b[pos + wire_fields(fs).len()] == TAG_END,
    ensures
        parse_fields(b, pos) == Ok::<(Seq<FieldModel>, int), NbtError>(
            (fs, pos + wire_fields(fs).len() + 1),
        ),
    decreases fs, 0int,
{
    if fs.len() == 0 {
        assert(fs =~= Seq::<FieldModel>::empty());
    } else {
        let w0 = wire_node(fs[0], true);
        let rest = wire_fields(fs.drop_first());
        assert(wire_fields(fs) == w0 + rest);
        lemma_split_at(b, pos, w0, rest);
        assert(round_trippable_child(fs[0]));
        lemma_rt_field(b, pos, fs[0]);
        lemma_rt_fields(b, pos + w0.len(), fs.drop_first());
        assert(seq![fs[0]] + fs.drop_first() =~= fs);
    }
}

#[verifier::rlimit(100)]
proof fn lemma_rt_strs(b: Seq<u8>, pos: int, ss: Seq<Seq<u8>>)
    requires
        forall|i: int| 0 <= i < ss.len() ==> (#[trigger] ss[i]).len() <= 0xFFFF && valid_utf8(
            ss[i],
        ),
        0 <= pos,
        pos + wire_strs(ss).len() <= b.len(),
        b.subrange(pos, pos + wire_strs(ss).len()) == wire_strs(ss),
    ensures
        parse_str_elems(b, pos, ss.len() as int) == Ok::<(Seq<Seq<u8>>, int), NbtError>(
            (ss, pos + wire_strs(ss).len()),
        ),
    decreases ss,
{
    if ss.len() == 0 {
        assert(ss =~= Seq::<Seq<u8>>::empty());
    } else {
        let s0 = ss[0];
        let hd = len16(s0.len()) + s0;
        let rest = wire_strs(ss.drop_first());
        assert(wire_strs(ss) =~= hd + rest);
        lemma_split_at(b, pos, hd, rest);
        lemma_split_at(b, pos, len16(s0.len()), s0);
        assert(len16(s0.len()) == be16(s0.len() as u16));
        lemma_be16_read(b, pos, s0.len() as u16);
        assert(parse_string(b, pos) == Ok::<(Seq<u8>, int), NbtError>(
            (s0, pos + 2 + s0.len()),
        ));
        lemma_rt_strs(b, pos + hd.len(), ss.drop_first());
        assert(seq![s0] + ss.drop_first() =~= ss);
    }
}

#[verifier::rlimit(100)]
proof fn lemma_rt_list_elems(b: Seq<u8>, pos: int, vs: Seq<ValueModel>)
    requires
        round_trippable_list_elems(vs),
        0 <= pos,
        pos + wire_list_elems(vs).len() <= b.len(),
        b.subrange(pos, pos + wire_list_elems(vs).len()) == wire_list_elems(vs),
    ensures
        parse_list_elems(b, pos, vs.len() as int) == Ok::<(Seq<ValueModel>, int), NbtError>(
            (vs, pos + wire_list_elems(vs).len()),
        ),
    decreases vs, 0int,
{
    if vs.len() == 0 {
        assert(vs =~= Seq::<ValueModel>::empty());
    } else {
        assert(round_trippable_list_elem(vs[0]));
        let inner = vs[0]->List_0;
        let hd = wire_list_elem(vs[0]);
        assert(hd == wire_list(inner));
        let rest = wire_list_elems(vs.drop_first());
        assert(wire_list_elems(vs) == hd + rest);
        lemma_split_at(b, pos, hd, rest);
        assert(decreases_to!(vs => vs[0]));
        assert(decreases_to!(vs[0] => inner));
        lemma_rt_list(b, pos, inner);
        lemma_rt_list_elems(b, pos + hd.len(), vs.drop_first());
        assert(seq![vs[0]] + vs.drop_first() =~= vs);
    }
}

#[verifier::rlimit(100)]
proof fn lemma_rt_compound_elems(b: Seq<u8>, pos: int, fs: Seq<FieldModel>)
    requires
        round_trippable_compound_elems(fs),
        0 <= pos,
        pos + wire_compound_elems(fs).len() <= b.len(),
        b.subrange(pos, pos + wire_compound_elems(fs).len()) == wire_compound_elems(fs),
    ensures
        parse_compound_elems(b, pos, fs.len() as int) == Ok::<(Seq<FieldModel>, int), NbtError>(
            (fs, pos + wire_compound_elems(fs).len()),
        ),
    decreases fs, 0int,
{
    if fs.len() == 0 {
        assert(fs =~= Seq::<FieldModel>::empty());
    } else {
        assert(round_trippable_compound_elem(fs[0]));
        let inner = fs[0].value->Compound_0;
        let hd = wire_node(fs[0], false);
        assert(hd == wire_fields(inner) + seq![TAG_END]);
        let rest = wire_compound_elems(fs.drop_first());
        assert(wire_compound_elems(fs) == hd + rest);
        lemma_split_at(b, pos, hd, rest);
        lemma_split_at(b, pos, wire_fields(inner), seq![TAG_END]);
        assert(b[pos + wire_fields(inner).len()] == TAG_END) by {
            assert(b.subrange(
                pos + wire_fields(inner).len(),
                pos + wire_fields(inner).len() + 1,
            )[0] == seq![TAG_END][0]);
        }
        assert(decreases_to!(fs => fs[0]));
        assert(decreases_to!(fs[0] => fs[0].value));
        assert(decreases_to!(fs[0].value => inner));
        lemma_rt_fields(b, pos, inner);
        lemma_rt_compound_elems(b, pos + hd.len(), fs.drop_first());
        assert(seq![fs[0]] + fs.drop_first() =~= fs);
    }
}

#[verifier::rlimit(100)]
proof fn lemma_rt_int_arrays(b: Seq<u8>, pos: int, ss: Seq<Seq<i32>>)
    requires
        forall|i: int| 0 <= i < ss.len() ==> (#[trigger] ss[i]).len() <= 0x7FFF_FFFF,
        0 <= pos,
        pos + wire_int_arrays(ss).len() <= b.len(),
        b.subrange(pos, pos + wire_int_arrays(ss).len()) == wire_int_arrays(ss),
    ensures
        parse_int_array_elems(b, pos, ss.len() as int) == Ok::<(Seq<Seq<i32>>, int), NbtError>(
            (ss, pos + wire_int_arrays(ss).len()),
        ),
    decreases ss,
{
    if ss.len() == 0 {
        assert(ss =~= Seq::<Seq<i32>>::empty());
    } else {
        let s0 = ss[0];
        let hd = len32(s0.len()) + wire_i32s(s0);
        let rest = wire_int_arrays(ss.drop_first());
        assert(wire_int_arrays(ss) =~= hd + rest);
        lemma_split_at(b, pos, hd, rest);
        lemma_split_at(b, pos, len32(s0.len()), wire_i32s(s0));
        assert(len32(s0.len()) == be32(s0.len() as u32));
        lemma_be32_read(b, pos, s0.len() as u32);
        lemma_wire_i32s_len(s0);
        assert forall|j: int| 0 <= j < s0.len() implies i32s_at(b, pos + 4, s0.len() as int)[j]
            == s0[j] by {
            lemma_wire_i32s_index(s0, j);
            lemma_sub_subrange(b, pos + 4, wire_i32s(s0), 4 * j, 4 * j + 4);
            lemma_be32_read(b, pos + 4 + 4 * j, u32_of_i32(s0[j]));
            lemma_i32_inverse(s0[j]);
        }
        assert(i32s_at(b, pos + 4, s0.len() as int) =~= s0);
        lemma_rt_int_arrays(b, pos + hd.len(), ss.drop_first());
        assert(seq![s0] + ss.drop_first() =~= ss);
    }
}

#[verifier::rlimit(100)]
proof fn lemma_rt_long_arrays(b: Seq<u8>, pos: int, ss: Seq<Seq<i64>>)
    requires
        forall|i: int| 0 <= i < ss.len() ==> (#[trigger] ss[i]).len() <= 0x7FFF_FFFF,
        0 <= pos,
        pos + wire_long_arrays(ss).len() <= b.len(),
        b.subrange(pos, pos + wire_long_arrays(ss).len()) == wire_long_arrays(ss),
    ensures
        parse_long_array_elems(b, pos, ss.len() as int) == Ok::<(Seq<Seq<i64>>, int), NbtError>(
            (ss, pos + wire_long_arrays(ss).len()),
        ),
    decreases ss,
{
    if ss.len() == 0 {
        assert(ss =~= Seq::<Seq<i64>>::empty());
    } else {
        let s0 = ss[0];
        let hd = len32(s0.len()) + wire_i64s(s0);
        let rest = wire_long_arrays(ss.drop_first());
        assert(wire_long_arrays(ss) =~= hd + rest);
        lemma_split_at(b, pos, hd, rest);
        lemma_split_at(b, pos, len32(s0.len()), wire_i64s(s0));
        assert(len32(s0.len()) == be32(s0.len() as u32));
        lemma_be32_read(b, pos, s0.len() as u32);
        lemma_wire_i64s_len(s0);
        assert forall|j: int| 0 <= j < s0.len() implies i64s_at(b, pos + 4, s0.len() as int)[j]
            == s0[j] by {
            lemma_wire_i64s_index(s0, j);
            lemma_sub_subrange(b, pos + 4, wire_i64s(s0), 8 * j, 8 * j + 8);
            lemma_be64_read(b, pos + 4 + 8 * j, u64_of_i64(s0[j]));
            lemma_i64_inverse(s0[j]);
        }
        assert(i64s_at(b, pos + 4, s0.len() as int) =~= s0);
        lemma_rt_long_arrays(b, pos + hd.len(), ss.drop_first());
        assert(seq![s0] + ss.drop_first() =~= ss);
    }
}

#[verifier::rlimit(100)]
proof fn lemma_rt_list_short(b: Seq<u8>, pos: int, s: Seq<i16>)
    requires
        s.len() <= 0x7FFF_FFFF,
        0 <= pos,
        pos + wire_list(ListModel::Short(s)).len() <= b.len(),
        b.subrange(pos, pos + wire_list(ListModel::Short(s)).len()) == wire_list(
            ListModel::Short(s),
        ),
    ensures
        parse_list(b, pos) == Ok::<(ListModel, int), NbtError>(
            (ListModel::Short(s), pos + wire_list(ListModel::Short(s)).len()),
        ),
{
    let l = ListModel::Short(s);
    let et = list_tag(l);
    let wl = wire_list(l);
    lemma_wire_i16s_len(s);
    assert(wl =~= seq![et] + (len32(s.len()) + wire_i16s(s)));
    lemma_split_at(b, pos, seq![et], len32(s.len()) + wire_i16s(s));
    assert(b[pos] == et) by {
        assert(b.subrange(pos, pos + 1)[0] == seq![et][0]);
    }
    lemma_split_at(b, pos + 1, len32(s.len()), wire_i16s(s));
    assert(len32(s.len()) == be32(s.len() as u32));
    lemma_be32_read(b, pos + 1, s.len() as u32);
    assert forall|j: int| 0 <= j < s.len() implies i16s_at(b, pos + 5, s.len() as int)[j] == s[j] by {
        lemma_wire_i16s_index(s, j);
        lemma_sub_subrange(b, pos + 5, wire_i16s(s), 2 * j, 2 * j + 2);
        lemma_be16_read(b, pos + 5 + 2 * j, u16_of_i16(s[j]));
        lemma_i16_inverse(s[j]);
    }
    assert(i16s_at(b, pos + 5, s.len() as int) =~= s);
}

#[verifier::rlimit(100)]
proof fn lemma_rt_list_int(b: Seq<u8>, pos: int, s: Seq<i32>)
    requires
        s.len() <= 0x7FFF_FFFF,
        0 <= pos,
        pos + wire_list(ListModel::Int(s)).len() <= b.len(),
        b.subrange(pos, pos + wire_list(ListModel::Int(s)).len()) == wire_list(
            ListModel::Int(s),
        ),
    ensures
        parse_list(b, pos) == Ok::<(ListModel, int), NbtError>(
            (ListModel::Int(s), pos + wire_list(ListModel::Int(s)).len()),
        ),
{
    let l = ListModel::Int(s);
    let et = list_tag(l);
    let wl = wire_list(l);
    lemma_wire_i32s_len(s);
    assert(wl =~= seq![et] + (len32(s.len()) + wire_i32s(s)));
    lemma_split_at(b, pos, seq![et], len32(s.len()) + wire_i32s(s));
    assert(b[pos] == et) by {
        assert(b.subrange(pos, pos + 1)[0] == seq![et][0]);
    }
    lemma_split_at(b, pos + 1, len32(s.len()), wire_i32s(s));
    assert(len32(s.len()) == be32(s.len() as u32));
    lemma_be32_read(b, pos + 1, s.len() as u32);
    assert forall|j: int| 0 <= j < s.len() implies i32s_at(b, pos + 5, s.len() as int)[j] == s[j] by {
        lemma_wire_i32s_index(s, j);
        lemma_sub_subrange(b, pos + 5, wire_i32s(s), 4 * j, 4 * j + 4);
        lemma_be32_read(b, pos + 5 + 4 * j, u32_of_i32(s[j]));
        lemma_i32_inverse(s[j]);
    }
    assert(i32s_at(b, pos + 5, s.len() as int) =~= s);
}

#[verifier::rlimit(100)]
proof fn lemma_rt_list_long(b: Seq<u8>, pos: int, s: Seq<i64>)
    requires
        s.len() <= 0x7FFF_FFFF,
        0 <= pos,
        pos + wire_list(ListModel::Long(s)).len() <= b.len(),
        b.subrange(pos, pos + wire_list(ListModel::Long(s)).len()) == wire_list(
            ListModel::Long(s),
        ),
    ensures
        parse_list(b, pos) == Ok::<(ListModel, int), NbtError>(
            (ListModel::Long(s), pos + wire_list(ListModel::Long(s)).len()),
        ),
{
    let l = ListModel::Long(s);
    let et = list_tag(l);
    let wl = wire_list(l);
    lemma_wire_i64s_len(s);
    assert(wl =~= seq![et] + (len32(s.len()) + wire_i64s(s)));
    lemma_split_at(b, pos, seq![et], len32(s.len()) + wire_i64s(s));
    assert(b[pos] == et) by {
        assert(b.subrange(pos, pos + 1)[0] == seq![et][0]);
    }
    lemma_split_at(b, pos + 1, len32(s.len()), wire_i64s(s));
    assert(len32(s.len()) == be32(s.len() as u32));
    lemma_be32_read(b, pos + 1, s.len() as u32);
    assert forall|j: int| 0 <= j < s.len() implies i64s_at(b, pos + 5, s.len() as int)[j] == s[j] by {
        lemma_wire_i64s_index(s, j);
        lemma_sub_subrange(b, pos + 5, wire_i64s(s), 8 * j, 8 * j + 8);
        lemma_be64_read(b, pos + 5 + 8 * j, u64_of_i64(s[j]));
        lemma_i64_inverse(s[j]);
    }
    assert(i64s_at(b, pos + 5, s.len() as int) =~= s);
}

#[verifier::rlimit(100)]
proof fn lemma_rt_list_float(b: Seq<u8>, pos: int, s: Seq<u32>)
    requires
        s.len() <= 0x7FFF_FFFF,
        0 <= pos,
        pos + wire_list(ListModel::Float(s)).len() <= b.len(),
        b.subrange(pos, pos + wire_list(ListModel::Float(s)).len()) == wire_list(
            ListModel::Float(s),
        ),
    ensures
        parse_list(b, pos) == Ok::<(ListModel, int), NbtError>(
            (ListModel::Float(s), pos + wire_list(ListModel::Float(s)).len()),
        ),
{
    let l = ListModel::Float(s);
    let et = list_tag(l);
    let wl = wire_list(l);
    lemma_wire_u32s_len(s);
    assert(wl =~= seq![et] + (len32(s.len()) + wire_u32s(s)));
    lemma_split_at(b, pos, seq![et], len32(s.len()) + wire_u32s(s));
    assert(b[pos] == et) by {
        assert(b.subrange(pos, pos + 1)[0] == seq![et][0]);
    }
    lemma_split_at(b, pos + 1, len32(s.len()), wire_u32s(s));
    assert(len32(s.len()) == be32(s.len() as u32));
    lemma_be32_read(b, pos + 1, s.len() as u32);
    assert forall|j: int| 0 <= j < s.len() implies u32s_at(b, pos + 5, s.len() as int)[j] == s[j] by {
        lemma_wire_u32s_index(s, j);
        lemma_sub_subrange(b, pos + 5, wire_u32s(s), 4 * j, 4 * j + 4);
        lemma_be32_read(b, pos + 5 + 4 * j, s[j]);
        
    }
    assert(u32s_at(b, pos + 5, s.len() as int) =~= s);
}

#[verifier::rlimit(100)]
proof fn lemma_rt_list_double(b: Seq<u8>, pos: int, s: Seq<u64>)
    requires
        s.len() <= 0x7FFF_FFFF,
        0 <= pos,
        pos + wire_list(ListModel::Double(s)).len() <= b.len(),
        b.subrange(pos, pos + wire_list(ListModel::Double(s)).len()) == wire_list(
            ListModel::Double(s),
        ),
    ensures
        parse_list(b, pos) == Ok::<(ListModel, int), NbtError>(
            (ListModel::Double(s), pos + wire_list(ListModel::Double(s)).len()),
        ),
{
    let l = ListModel::Double(s);
    let et = list_tag(l);
    let wl = wire_list(l);
    lemma_wire_u64s_len(s);
    assert(wl =~= seq![et] + (len32(s.len()) + wire_u64s(s)));
    lemma_split_at(b, pos, seq![et], len32(s.len()) + wire_u64s(s));
    assert(b[pos] == et) by {
        assert(b.subrange(pos, pos + 1)[0] == seq![et][0]);
    }
    lemma_split_at(b, pos + 1, len32(s.len()), wire_u64s(s));
    assert(len32(s.len()) == be32(s.len() as u32));
    lemma_be32_read(b, pos + 1, s.len() as u32);
    assert forall|j: int| 0 <= j < s.len() implies u64s_at(b, pos + 5, s.len() as int)[j] == s[j] by {
        lemma_wire_u64s_index(s, j);
        lemma_sub_subrange(b, pos + 5, wire_u64s(s), 8 * j, 8 * j + 8);
        lemma_be64_read(b, pos + 5 + 8 * j, s[j]);
        
    }
    assert(u64s_at(b, pos + 5, s.len() as int) =~= s);
}

#[verifier::rlimit(100)]
proof fn lemma_rt_list_byte(b: Seq<u8>, pos: int, s: Seq<u8>)
    requires
        s.len() <= 0x7FFF_FFFF,
        0 <= pos,
        pos + wire_list(ListModel::Byte(s)).len() <= b.len(),
        b.subrange(pos, pos + wire_list(ListModel::Byte(s)).len()) == wire_list(
            ListModel::Byte(s),
        ),
    ensures
        parse_list(b, pos) == Ok::<(ListModel, int), NbtError>(
            (ListModel::Byte(s), pos + wire_list(ListModel::Byte(s)).len()),
        ),
{
    let l = ListModel::Byte(s);
    let et = list_tag(l);
    let wl = wire_list(l);
    assert(wl =~= seq![et] + (len32(s.len()) + s));
    lemma_split_at(b, pos, seq![et], len32(s.len()) + s);
    assert(b[pos] == et) by {
        assert(b.subrange(pos, pos + 1)[0] == seq![et][0]);
    }
    lemma_split_at(b, pos + 1, len32(s.len()), s);
    assert(len32(s.len()) == be32(s.len() as u32));
    lemma_be32_read(b, pos + 1, s.len() as u32);
}

#[verifier::rlimit(100)]
proof fn lemma_rt_list_string(b: Seq<u8>, pos: int, s: Seq<Seq<u8>>)
    requires
        s.len() <= 0x7FFF_FFFF,
        forall|i: int| 0 <= i < s.len() ==> (#[trigger] s[i]).len() <= 0xFFFF && valid_utf8(
            s[i],
        ),
        0 <= pos,
        pos + wire_list(ListModel::String(s)).len() <= b.len(),
        b.subrange(pos, pos + wire_list(ListModel::String(s)).len()) == wire_list(
            ListModel::String(s),
        ),
    ensures
        parse_list(b, pos) == Ok::<(ListModel, int), NbtError>(
            (ListModel::String(s), pos + wire_list(ListModel::String(s)).len()),
        ),
{
    let l = ListModel::String(s);
    let et = list_tag(l);
    let wl = wire_list(l);
    assert(wl =~= seq![et] + (len32(s.len()) + wire_strs(s)));
    lemma_split_at(b, pos, seq![et], len32(s.len()) + wire_strs(s));
    assert(b[pos] == et) by {
        assert(b.subrange(pos, pos + 1)[0] == seq![et][0]);
    }
    lemma_split_at(b, pos + 1, len32(s.len()), wire_strs(s));
    assert(len32(s.len()) == be32(s.len() as u32));
    lemma_be32_read(b, pos + 1, s.len() as u32);
    lemma_rt_strs(b, pos + 5, s);
}

#[verifier::rlimit(100)]
proof fn lemma_rt_list_nested(b: Seq<u8>, pos: int, s: Seq<ValueModel>)
    requires
        s.len() <= 0x7FFF_FFFF,
        round_trippable_list_elems(s),
        0 <= pos,
        pos + wire_list(ListModel::List(s)).len() <= b.len(),
        b.subrange(pos, pos + wire_list(ListModel::List(s)).len()) == wire_list(
            ListModel::List(s),
        ),
    ensures
        parse_list(b, pos) == Ok::<(ListModel, int), NbtError>(
            (ListModel::List(s), pos + wire_list(ListModel::List(s)).len()),
        ),
    decreases s, 1int,
{
    let l = ListModel::List(s);
    let et = list_tag(l);
    let wl = wire_list(l);
    assert(wl =~= seq![et] + (len32(s.len()) + wire_list_elems(s)));
    lemma_split_at(b, pos, seq![et], len32(s.len()) + wire_list_elems(s));
    assert(b[pos] == et) by {
        assert(b.subrange(pos, pos + 1)[0] == seq![et][0]);
    }
    lemma_split_at(b, pos + 1, len32(s.len()), wire_list_elems(s));
    assert(len32(s.len()) == be32(s.len() as u32));
    lemma_be32_read(b, pos + 1, s.len() as u32);
    lemma_rt_list_elems(b, pos + 5, s);
}

#[verifier::rlimit(100)]
proof fn lemma_rt_list_compound(b: Seq<u8>, pos: int, s: Seq<FieldModel>)
    requires
        s.len() <= 0x7FFF_FFFF,
        round_trippable_compound_elems(s),
        0 <= pos,
        pos + wire_list(ListModel::Compound(s)).len() <= b.len(),
        b.subrange(pos, pos + wire_list(ListModel::Compound(s)).len()) == wire_list(
            ListModel::Compound(s),
        ),
    ensures
        parse_list(b, pos) == Ok::<(ListModel, int), NbtError>(
            (ListModel::Compound(s), pos + wire_list(ListModel::Compound(s)).len()),
        ),
    decreases s, 1int,
{
    let l = ListModel::Compound(s);
    let et = list_tag(l);
    let wl = wire_list(l);
    assert(wl =~= seq![et] + (len32(s.len()) + wire_compound_elems(s)));
    lemma_split_at(b, pos, seq![et], len32(s.len()) + wire_compound_elems(s));
    assert(b[pos] == et) by {
        assert(b.subrange(pos, pos + 1)[0] == seq![et][0]);
    }
    lemma_split_at(b, pos + 1, len32(s.len()), wire_compound_elems(s));
    assert(len32(s.len()) == be32(s.len() as u32));
    lemma_be32_read(b, pos + 1, s.len() as u32);
    lemma_rt_compound_elems(b, pos + 5, s);
}

#[verifier::rlimit(100)]
proof fn lemma_rt_list_int_arrays(b: Seq<u8>, pos: int, s: Seq<Seq<i32>>)
    requires
        s.len() <= 0x7FFF_FFFF,
        forall|i: int| 0 <= i < s.len() ==> (#[trigger] s[i]).len() <= 0x7FFF_FFFF,
        0 <= pos,
        pos + wire_list(ListModel::IntArray(s)).len() <= b.len(),
        b.subrange(pos, pos + wire_list(ListModel::IntArray(s)).len()) == wire_list(
            ListModel::IntArray(s),
        ),
    ensures
        parse_list(b, pos) == Ok::<(ListModel, int), NbtError>(
            (ListModel::IntArray(s), pos + wire_list(ListModel::IntArray(s)).len()),
        ),
{
    let l = ListModel::IntArray(s);
    let et = list_tag(l);
    let wl = wire_list(l);
    assert(wl =~= seq![et] + (len32(s.len()) + wire_int_arrays(s)));
    lemma_split_at(b, pos, seq![et], len32(s.len()) + wire_int_arrays(s));
    assert(b[pos] == et) by {
        assert(b.subrange(pos, pos + 1)[0] == seq![et][0]);
    }
    lemma_split_at(b, pos + 1, len32(s.len()), wire_int_arrays(s));
    assert(len32(s.len()) == be32(s.len() as u32));
    lemma_be32_read(b, pos + 1, s.len() as u32);
    lemma_rt_int_arrays(b, pos + 5, s);
}

#[verifier::rlimit(100)]
proof fn lemma_rt_list_long_arrays(b: Seq<u8>, pos: int, s: Seq<Seq<i64>>)
    requires
        s.len() <= 0x7FFF_FFFF,
        forall|i: int| 0 <= i < s.len() ==> (#[trigger] s[i]).len() <= 0x7FFF_FFFF,
        0 <= pos,
        pos + wire_list(ListModel::LongArray(s)).len() <= b.len(),
        b.subrange(pos, pos + wire_list(ListModel::LongArray(s)).len()) == wire_list(
            ListModel::LongArray(s),
        ),
    ensures
        parse_list(b, pos) == Ok::<(ListModel, int), NbtError>(
            (ListModel::LongArray(s), pos + wire_list(ListModel::LongArray(s)).len()),
        ),
{
    let l = ListModel::LongArray(s);
    let et = list_tag(l);
    let wl = wire_list(l);
    assert(wl =~= seq![et] + (len32(s.len()) + wire_long_arrays(s)));
    lemma_split_at(b, pos, seq![et], len32(s.len()) + wire_long_arrays(s));
    assert(b[pos] == et) by {
        assert(b.subrange(pos, pos + 1)[0] == seq![et][0]);
    }
    lemma_split_at(b, pos + 1, len32(s.len()), wire_long_arrays(s));
    assert(len32(s.len()) == be32(s.len() as u32));
    lemma_be32_read(b, pos + 1, s.len() as u32);
    lemma_rt_long_arrays(b, pos + 5, s);
}

#[verifier::rlimit(100)]
proof fn lemma_rt_list_end(b: Seq<u8>, pos: int)
    requires
        0 <= pos,
        pos + wire_list(ListModel::End).len() <= b.len(),
        b.subrange(pos, pos + wire_list(ListModel::End).len()) == wire_list(ListModel::End),
    ensures
        parse_list(b, pos) == Ok::<(ListModel, int), NbtError>(
            (ListModel::End, pos + wire_list(ListModel::End).len()),
        ),
{
    let wl = wire_list(ListModel::End);
    assert(b[pos] == TAG_END) by {
        assert(b.subrange(pos, pos + 5)[0] == wl[0]);
    }
}

#[verifier::rlimit(100)]
proof fn lemma_rt_list(b: Seq<u8>, pos: int, l: ListModel)
    requires
        round_trippable_list(l),
        0 <= pos,
        pos + wire_list(l).len() <= b.len(),
        b.subrange(pos, pos + wire_list(l).len()) == wire_list(l),
    ensures
        parse_list(b, pos) == Ok::<(ListModel, int), NbtError>((l, pos + wire_list(l).len())),
    decreases l, 2int,
{
    match l {
        ListModel::Byte(s) => {
            lemma_rt_list_byte(b, pos, s);
        },
        ListModel::Short(s) => {
            lemma_rt_list_short(b, pos, s);
        },
        ListModel::Int(s) => {
            lemma_rt_list_int(b, pos, s);
        },
        ListModel::Long(s) => {
            lemma_rt_list_long(b, pos, s);
        },
        ListModel::Float(s) => {
            lemma_rt_list_float(b, pos, s);
        },
        ListModel::Double(s) => {
            lemma_rt_list_double(b, pos, s);
        },
        ListModel::String(s) => {
            lemma_rt_list_string(b, pos, s);
        },
        ListModel::List(s) => {
            lemma_rt_list_nested(b, pos, s);
        },
        ListModel::Compound(s) => {
            lemma_rt_list_compound(b, pos, s);
        },
        ListModel::IntArray(s) => {
            lemma_rt_list_int_arrays(b, pos, s);
        },
        ListModel::LongArray(s) => {
            lemma_rt_list_long_arrays(b, pos, s);
        },
        ListModel::End => {
            lemma_rt_list_end(b, pos);
        },
        _ => {},
    }
}

#[verifier::rlimit(100)]
proof fn lemma_rt_enc_value(v: ValueModel)
    requires
        round_trippable_value(v),
    ensures
        encodable_value(v),
    decreases v,
{
    match v {
        ValueModel::List(l) => {
            lemma_rt_enc_list(l);
        },
        ValueModel::Compound(fs) => {
            assert forall|i: int| 0 <= i < fs.len() implies encodable_node(
                #[trigger] fs[i],
                true,
            ) by {
                assert(round_trippable_child(fs[i]));
                assert(decreases_to!(fs => fs[i]));
                assert(decreases_to!(fs[i] => fs[i].value));
                lemma_rt_enc_value(fs[i].value);
            }
        },
        _ => {},
    }
}

#[verifier::rlimit(100)]
proof fn lemma_rt_enc_list(l: ListModel)
    requires
        round_trippable_list(l),
    ensures
        encodable_list(l),
    decreases l,
{
    match l {
        ListModel::List(s) => {
            assert forall|i: int| 0 <= i < s.len() implies encodable_list_elem(
                #[trigger] s[i],
            ) by {
                assert(round_trippable_list_elem(s[i]));
                let inner = s[i]->List_0;
                assert(decreases_to!(s => s[i]));
                assert(decreases_to!(s[i] => inner));
                lemma_rt_enc_list(inner);
            }
        },
        ListModel::Compound(s) => {
            assert forall|i: int| 0 <= i < s.len() implies encodable_node(
                #[trigger] s[i],
                false,
            ) by {
                assert(round_trippable_compound_elem(s[i]));
                assert(decreases_to!(s => s[i]));
                assert(decreases_to!(s[i] => s[i].value));
                lemma_rt_enc_value(s[i].value);
            }
        },
        _ => {},
    }
}

/// First-match law: when lookup by name finds a field, it is the one at
/// the first index whose name matches, and every field before it bears
/// another name; when it finds nothing, no field bears the name. A
/// compound may hold duplicate names, and lookup never reaches past the
/// first.
#[verifier::rlimit(100)]
pub proof fn lemma_first_match(fs: Seq<FieldModel>, name: Seq<u8>)
    ensures
        first_with_name(fs, name) matches Some(f) ==> {
            let k = first_index_with_name(fs, name);
            &&& 0 <= k < fs.len()
            &&& fs[k] == f
            &&& fs[k].name == name
            &&& forall|j: int| 0 <= j < k ==> (#[trigger] fs[j]).name != name
        },
        first_with_name(fs, name) is None ==> forall|j: int|
            0 <= j < fs.len() ==> (#[trigger] fs[j]).name != name,
    decreases fs.len(),
{
    if fs.len() > 0 && fs[0].name != name {
        lemma_first_match(fs.drop_first(), name);
        assert forall|j: int| 1 <= j < fs.len() implies fs.drop_first()[j - 1] == fs[j] by {}
        if first_with_name(fs, name) is Some {
            let k = first_index_with_name(fs, name);
            assert(k == first_index_with_name(fs.drop_first(), name) + 1);
            assert forall|j: int| 0 <= j < k implies (#[trigger] fs[j]).name != name by {
                if j > 0 {
                    assert(fs.drop_first()[j - 1].name != name);
                }
            }
        }
    }
}

/// Every round-trippable document is encodable, so for such documents
/// encoding is owed to succeed and the round-trip law applies to what it
/// produces.
pub proof fn lemma_round_trippable_encodable(f: FieldModel)
    requires
        round_trippable(f),
    ensures
        encodable_field(f),
{
    lemma_rt_enc_value(f.value);
}

/// The wire form names a value's kind in its very first byte, so two
/// documents whose root values are of different kinds — a byte array
/// against a list, say — are distinguishable from their encodings alone.
pub proof fn lemma_wire_tag(f: FieldModel)
    requires
        !(f.value is End),
    ensures
        wire_field(f).len() > 0,
        wire_field(f)[0] == value_tag(f.value),
{
}

/// Round-trip law: decoding the encoding of a round-trippable document
/// yields the document back, consuming exactly its wire form. Values the
/// wire format cannot carry faithfully are excluded by
/// [`round_trippable`]: a `Boolean` (written as a byte, so it decodes as
/// one), an `End` child inside a compound (the decoder takes it for the
/// terminator), a named compound inside a list (element names are never
/// written), and any length beyond its wire-format length prefix.
pub proof fn lemma_round_trip(f: FieldModel)
    requires
        round_trippable(f),
    ensures
        parse_field(wire_field(f), 0) == Ok::<(FieldModel, int), NbtError>(
            (f, wire_field(f).len() as int),
        ),
{
    let w = wire_field(f);
    assert(w.subrange(0, w.len() as int) =~= w);
    lemma_rt_field(w, 0, f);
}

} // verus!
