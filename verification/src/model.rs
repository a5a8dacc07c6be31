use vstd::prelude::*;

use crate::field::NbtField;
use crate::list::NbtList;
use crate::value::NbtValue;
use vstd::utf8::encode_utf8;

verus! {

/// The mathematical model of a field: its name as the sequence of UTF-8
/// bytes written to the wire, and the model of its value.
pub struct FieldModel {
    pub name: Seq<u8>,
    pub value: ValueModel,
}

/// The mathematical model of a value. Strings appear as their UTF-8 byte
/// sequences; floats and doubles as their IEEE 754 bit patterns.
pub enum ValueModel {
    Byte(u8),
    Boolean(bool),
    Short(i16),
    Int(i32),
    Long(i64),
    Float(u32),
    Double(u64),
    String(Seq<u8>),
    List(ListModel),
    Compound(Seq<FieldModel>),
    ByteArray(Seq<u8>),
    IntArray(Seq<i32>),
    LongArray(Seq<i64>),
    End,
}

/// The mathematical model of a typed list.
pub enum ListModel {
    Byte(Seq<u8>),
    Boolean(Seq<bool>),
    Short(Seq<i16>),
    Int(Seq<i32>),
    Long(Seq<i64>),
    Float(Seq<u32>),
    Double(Seq<u64>),
    String(Seq<Seq<u8>>),
    List(Seq<ValueModel>),
    Compound(Seq<FieldModel>),
    LongArray(Seq<Seq<i64>>),
    IntArray(Seq<Seq<i32>>),
    End,
}

pub open spec fn field_model(f: NbtField) -> FieldModel
    decreases f,
{
    FieldModel { name: encode_utf8(f.name@), value: value_model(f.value) }
}

pub open spec fn fields_model(c: Vec<NbtField>) -> Seq<FieldModel>
    decreases c,
{
    Seq::new(
        c@.len(),
        |i: int|
            if 0 <= i < c@.len() {
                field_model(c[i])
            } else {
                arbitrary()
            },
    )
}

pub open spec fn values_model(c: Vec<NbtValue>) -> Seq<ValueModel>
    decreases c,
{
    Seq::new(
        c@.len(),
        |i: int|
            if 0 <= i < c@.len() {
                value_model(c[i])
            } else {
                arbitrary()
            },
    )
}

pub open spec fn strings_model(c: Vec<String>) -> Seq<Seq<u8>> {
    Seq::new(c@.len(), |i: int| encode_utf8(c[i]@))
}

pub open spec fn vecs_model<T>(c: Vec<Vec<T>>) -> Seq<Seq<T>> {
    Seq::new(c@.len(), |i: int| c[i]@)
}

pub open spec fn value_model(v: NbtValue) -> ValueModel
    decreases v,
{
    match v {
        NbtValue::Byte(b) => ValueModel::Byte(b),
        NbtValue::Boolean(b) => ValueModel::Boolean(b),
        NbtValue::Short(x) => ValueModel::Short(x),
        NbtValue::Int(x) => ValueModel::Int(x),
        NbtValue::Long(x) => ValueModel::Long(x),
        NbtValue::Float(x) => ValueModel::Float(x),
        NbtValue::Double(x) => ValueModel::Double(x),
        NbtValue::String(s) => ValueModel::String(encode_utf8(s@)),
        NbtValue::List(l) => ValueModel::List(list_model(l)),
        NbtValue::Compound(c) => ValueModel::Compound(fields_model(c)),
        NbtValue::ByteArray(a) => ValueModel::ByteArray(a@),
        NbtValue::IntArray(a) => ValueModel::IntArray(a@),
        NbtValue::LongArray(a) => ValueModel::LongArray(a@),
        NbtValue::End => ValueModel::End,
    }
}

pub open spec fn list_model(l: NbtList) -> ListModel
    decreases l,
{
    match l {
        NbtList::Byte(v) => ListModel::Byte(v@),
        NbtList::Boolean(v) => ListModel::Boolean(v@),
        NbtList::Short(v) => ListModel::Short(v@),
        NbtList::Int(v) => ListModel::Int(v@),
        NbtList::Long(v) => ListModel::Long(v@),
        NbtList::Float(v) => ListModel::Float(v@),
        NbtList::Double(v) => ListModel::Double(v@),
        NbtList::String(v) => ListModel::String(strings_model(v)),
        NbtList::List(v) => ListModel::List(values_model(v)),
        NbtList::Compound(v) => ListModel::Compound(fields_model(v)),
        NbtList::LongArray(v) => ListModel::LongArray(vecs_model(v)),
        NbtList::IntArray(v) => ListModel::IntArray(vecs_model(v)),
        NbtList::End => ListModel::End,
    }
}

// ---- Lookup by name ---------------------------------------------------------

/// The first field of the sequence whose name has the given UTF-8 bytes,
/// if any: compounds may hold duplicate names, and lookup returns the
/// first match.
pub open spec fn first_with_name(fs: Seq<FieldModel>, name: Seq<u8>) -> Option<FieldModel>
    decreases fs.len(),
{
    if fs.len() == 0 {
        None
    } else if fs[0].name == name {
        Some(fs[0])
    } else {
        first_with_name(fs.drop_first(), name)
    }
}

/// The index of the first field with the given name, or -1 if there is
/// none.
pub open spec fn first_index_with_name(fs: Seq<FieldModel>, name: Seq<u8>) -> int
    decreases fs.len(),
{
    if fs.len() == 0 {
        -1
    } else if fs[0].name == name {
        0
    } else {
        let r = first_index_with_name(fs.drop_first(), name);
        if r < 0 {
            -1
        } else {
            r + 1
        }
    }
}

/// What looking a name up in a value yields: the first field of that name
/// if the value is a compound, and nothing otherwise.
pub open spec fn get_model(v: ValueModel, name: Seq<u8>) -> Option<FieldModel> {
    match v {
        ValueModel::Compound(fs) => first_with_name(fs, name),
        _ => None,
    }
}

/// What following a path of names from a field yields: each segment is
/// looked up in the compound reached so far, and the walk stops with
/// nothing at the first missing segment or non-compound.
pub open spec fn get_path_model(f: FieldModel, names: Seq<Seq<u8>>) -> Option<FieldModel>
    decreases names.len(),
{
    if names.len() == 0 {
        Some(f)
    } else {
        match get_model(f.value, names[0]) {
            None => None,
            Some(c) => get_path_model(c, names.drop_first()),
        }
    }
}

impl View for NbtField {
    type V = FieldModel;

    open spec fn view(&self) -> FieldModel {
        field_model(*self)
    }
}

impl View for NbtValue {
    type V = ValueModel;

    open spec fn view(&self) -> ValueModel {
        value_model(*self)
    }
}

impl View for NbtList {
    type V = ListModel;

    open spec fn view(&self) -> ListModel {
        list_model(*self)
    }
}

} // verus!
