use vstd::prelude::*;

use crate::field::NbtField;
use crate::model::{fields_model, strings_model, values_model, vecs_model, ListModel};
use crate::value::NbtValue;

verus! {

/// A homogeneous typed list: one variant per element type.
///
/// `Float` and `Double` elements carry IEEE 754 bit patterns, as in
/// [`NbtValue`](crate::value::NbtValue). The elements of the `List`
/// variant are themselves `NbtValue::List` values; the elements of the
/// `Compound` variant are anonymous fields (their names are empty and are
/// not written to the wire). `End` denotes the empty list of no particular
/// element type.
#[derive(Debug, PartialEq)]
pub enum NbtList {
    Byte(Vec<u8>),
    Boolean(Vec<bool>),
    Short(Vec<i16>),
    Int(Vec<i32>),
    Long(Vec<i64>),
    Float(Vec<u32>),
    Double(Vec<u64>),
    String(Vec<String>),
    List(Vec<NbtValue>),
    Compound(Vec<NbtField>),
    LongArray(Vec<Vec<i64>>),
    IntArray(Vec<Vec<i32>>),
    End,
}

impl NbtList {
    pub fn as_byte_list(&self) -> (r: Option<&Vec<u8>>)
        ensures
            match r {
                Some(v) => self@ == ListModel::Byte(v@),
                None => !(self@ is Byte),
            },
    {
        match self {
            NbtList::Byte(b) => Some(b),
            _ => None,
        }
    }

    pub fn as_boolean_list(&self) -> (r: Option<&Vec<bool>>)
        ensures
            match r {
                Some(v) => self@ == ListModel::Boolean(v@),
                None => !(self@ is Boolean),
            },
    {
        match self {
            NbtList::Boolean(b) => Some(b),
            _ => None,
        }
    }

    pub fn as_short_list(&self) -> (r: Option<&Vec<i16>>)
        ensures
            match r {
                Some(v) => self@ == ListModel::Short(v@),
                None => !(self@ is Short),
            },
    {
        match self {
            NbtList::Short(s) => Some(s),
            _ => None,
        }
    }

    pub fn as_int_list(&self) -> (r: Option<&Vec<i32>>)
        ensures
            match r {
                Some(v) => self@ == ListModel::Int(v@),
                None => !(self@ is Int),
            },
    {
        match self {
            NbtList::Int(i) => Some(i),
            _ => None,
        }
    }

    pub fn as_long_list(&self) -> (r: Option<&Vec<i64>>)
        ensures
            match r {
                Some(v) => self@ == ListModel::Long(v@),
                None => !(self@ is Long),
            },
    {
        match self {
            NbtList::Long(l) => Some(l),
            _ => None,
        }
    }

    /// The elements are bit patterns of IEEE 754 singles.
    pub fn as_float_list(&self) -> (r: Option<&Vec<u32>>)
        ensures
            match r {
                Some(v) => self@ == ListModel::Float(v@),
                None => !(self@ is Float),
            },
    {
        match self {
            NbtList::Float(f) => Some(f),
            _ => None,
        }
    }

    /// The elements are bit patterns of IEEE 754 doubles.
    pub fn as_double_list(&self) -> (r: Option<&Vec<u64>>)
        ensures
            match r {
                Some(v) => self@ == ListModel::Double(v@),
                None => !(self@ is Double),
            },
    {
        match self {
            NbtList::Double(d) => Some(d),
            _ => None,
        }
    }

    pub fn as_string_list(&self) -> (r: Option<&Vec<String>>)
        ensures
            match r {
                Some(v) => self@ == ListModel::String(strings_model(*v)),
                None => !(self@ is String),
            },
    {
        match self {
            NbtList::String(s) => Some(s),
            _ => None,
        }
    }

    pub fn as_list(&self) -> (r: Option<&Vec<NbtValue>>)
        ensures
            match r {
                Some(v) => self@ == ListModel::List(values_model(*v)),
                None => !(self@ is List),
            },
    {
        match self {
            NbtList::List(l) => Some(l),
            _ => None,
        }
    }

    pub fn as_compound_list(&self) -> (r: Option<&Vec<NbtField>>)
        ensures
            match r {
                Some(v) => self@ == ListModel::Compound(fields_model(*v)),
                None => !(self@ is Compound),
            },
    {
        match self {
            NbtList::Compound(c) => Some(c),
            _ => None,
        }
    }

    pub fn as_long_array_list(&self) -> (r: Option<&Vec<Vec<i64>>>)
        ensures
            match r {
                Some(v) => self@ == ListModel::LongArray(vecs_model(*v)),
                None => !(self@ is LongArray),
            },
    {
        match self {
            NbtList::LongArray(l) => Some(l),
            _ => None,
        }
    }

    pub fn as_int_array_list(&self) -> (r: Option<&Vec<Vec<i32>>>)
        ensures
            match r {
                Some(v) => self@ == ListModel::IntArray(vecs_model(*v)),
                None => !(self@ is IntArray),
            },
    {
        match self {
            NbtList::IntArray(i) => Some(i),
            _ => None,
        }
    }
}

} // verus!
