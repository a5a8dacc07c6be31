use vstd::prelude::*;

use crate::error::NbtError;
use crate::list::NbtList;
use crate::model::{
    fields_model, first_index_with_name, first_with_name, get_model, get_path_model, list_model,
    FieldModel, ValueModel,
};
use crate::parse::{
    lemma_parse_string_bounds, parse_field, parse_payload, parse_string,
};
use crate::utils::{
    bytes_eq, i16_from_u16, i32_from_u32, i64_from_u64, read_byte_block, read_compound, read_i32_block,
    read_i64_block, read_list, read_name, read_string, read_u16, read_u32, read_u64,
    u16_from_i16, u32_from_i32, u64_from_i64, write_bytes, write_i32_elems, write_i64_elems,
    write_len32, write_list, write_string, write_tag_name, write_u16_be, write_u32_be,
    write_u64_be,
};
use crate::value::{
    NbtValue, TAG_BYTE, TAG_BYTE_ARRAY, TAG_COMPOUND, TAG_DOUBLE, TAG_END, TAG_FLOAT, TAG_INT,
    TAG_INT_ARRAY, TAG_LIST, TAG_LONG, TAG_LONG_ARRAY, TAG_SHORT, TAG_STRING,
};
use crate::wire::{
    encodable_node, lemma_wire_fields_push, wire_fields, wire_node,
};
use vstd::utf8::encode_utf8;

verus! {

/// A name paired with a value: the unit of storage inside a compound and
/// the shape of a whole document's root.
#[derive(Debug, PartialEq)]
pub struct NbtField {
    pub name: String,
    pub value: NbtValue,
}

// ---- Constructors -----------------------------------------------------------

impl NbtField {
    pub fn new_compound(name: &str, fields: Vec<NbtField>) -> (r: NbtField)
        ensures
            r@ == (FieldModel {
                name: encode_utf8(name@),
                value: ValueModel::Compound(fields_model(fields)),
            }),
    {
        NbtField { name: name.to_owned(), value: NbtValue::Compound(fields) }
    }

    pub fn new_i32(name: &str, i: i32) -> (r: NbtField)
        ensures
            r@ == (FieldModel { name: encode_utf8(name@), value: ValueModel::Int(i) }),
    {
        NbtField { name: name.to_owned(), value: NbtValue::Int(i) }
    }

    pub fn new_string(name: &str, value: &str) -> (r: NbtField)
        ensures
            r@ == (FieldModel {
                name: encode_utf8(name@),
                value: ValueModel::String(encode_utf8(value@)),
            }),
    {
        NbtField { name: name.to_owned(), value: NbtValue::String(value.to_owned()) }
    }

    pub fn new_bool(name: &str, b: bool) -> (r: NbtField)
        ensures
            r@ == (FieldModel { name: encode_utf8(name@), value: ValueModel::Boolean(b) }),
    {
        NbtField { name: name.to_owned(), value: NbtValue::Boolean(b) }
    }

    /// The value is the raw bit pattern of an IEEE 754 single.
    pub fn new_float(name: &str, f: u32) -> (r: NbtField)
        ensures
            r@ == (FieldModel { name: encode_utf8(name@), value: ValueModel::Float(f) }),
    {
        NbtField { name: name.to_owned(), value: NbtValue::Float(f) }
    }

    /// The value is the raw bit pattern of an IEEE 754 double.
    pub fn new_double(name: &str, d: u64) -> (r: NbtField)
        ensures
            r@ == (FieldModel { name: encode_utf8(name@), value: ValueModel::Double(d) }),
    {
        NbtField { name: name.to_owned(), value: NbtValue::Double(d) }
    }

    pub fn new_short(name: &str, s: i16) -> (r: NbtField)
        ensures
            r@ == (FieldModel { name: encode_utf8(name@), value: ValueModel::Short(s) }),
    {
        NbtField { name: name.to_owned(), value: NbtValue::Short(s) }
    }

    pub fn new_long(name: &str, l: i64) -> (r: NbtField)
        ensures
            r@ == (FieldModel { name: encode_utf8(name@), value: ValueModel::Long(l) }),
    {
        NbtField { name: name.to_owned(), value: NbtValue::Long(l) }
    }

    pub fn new_byte_array(name: &str, arr: Vec<u8>) -> (r: NbtField)
        ensures
            r@ == (FieldModel { name: encode_utf8(name@), value: ValueModel::ByteArray(arr@) }),
    {
        NbtField { name: name.to_owned(), value: NbtValue::ByteArray(arr) }
    }

    pub fn new_int_array(name: &str, arr: Vec<i32>) -> (r: NbtField)
        ensures
            r@ == (FieldModel { name: encode_utf8(name@), value: ValueModel::IntArray(arr@) }),
    {
        NbtField { name: name.to_owned(), value: NbtValue::IntArray(arr) }
    }

    pub fn new_long_array(name: &str, arr: Vec<i64>) -> (r: NbtField)
        ensures
            r@ == (FieldModel { name: encode_utf8(name@), value: ValueModel::LongArray(arr@) }),
    {
        NbtField { name: name.to_owned(), value: NbtValue::LongArray(arr) }
    }

    pub fn new_list(name: &str, list: NbtList) -> (r: NbtField)
        ensures
            r@ == (FieldModel {
                name: encode_utf8(name@),
                value: ValueModel::List(list_model(list)),
            }),
    {
        NbtField { name: name.to_owned(), value: NbtValue::List(list) }
    }
}

// ---- Convenience access -------------------------------------------------------

impl NbtField {
    pub fn as_i32(&self) -> (r: Option<i32>)
        ensures
            r == (match self@.value {
                ValueModel::Int(i) => Some(i),
                _ => None::<i32>,
            }),
    {
        match &self.value {
            NbtValue::Int(i) => Some(*i),
            _ => None,
        }
    }

    pub fn as_string(&self) -> (r: Option<&String>)
        ensures
            match r {
                Some(s) => self@.value == ValueModel::String(encode_utf8(s@)),
                None => !(self@.value is String),
            },
    {
        match &self.value {
            NbtValue::String(s) => Some(s),
            _ => None,
        }
    }

    pub fn as_compound(&self) -> (r: Option<&Vec<NbtField>>)
        ensures
            match r {
                Some(c) => self@.value == ValueModel::Compound(fields_model(*c)),
                None => !(self@.value is Compound),
            },
    {
        match &self.value {
            NbtValue::Compound(f) => Some(f),
            _ => None,
        }
    }

    pub fn as_bool(&self) -> (r: Option<bool>)
        ensures
            r == (match self@.value {
                ValueModel::Boolean(b) => Some(b),
                _ => None::<bool>,
            }),
    {
        match &self.value {
            NbtValue::Boolean(b) => Some(*b),
            _ => None,
        }
    }

    /// The bit pattern of an IEEE 754 single, if this field holds one.
    pub fn as_float(&self) -> (r: Option<u32>)
        ensures
            r == (match self@.value {
                ValueModel::Float(f) => Some(f),
                _ => None::<u32>,
            }),
    {
        match &self.value {
            NbtValue::Float(f) => Some(*f),
            _ => None,
        }
    }

    /// The bit pattern of an IEEE 754 double, if this field holds one.
    pub fn as_double(&self) -> (r: Option<u64>)
        ensures
            r == (match self@.value {
                ValueModel::Double(d) => Some(d),
                _ => None::<u64>,
            }),
    {
        match &self.value {
            NbtValue::Double(d) => Some(*d),
            _ => None,
        }
    }

    pub fn as_short(&self) -> (r: Option<i16>)
        ensures
            r == (match self@.value {
                ValueModel::Short(s) => Some(s),
                _ => None::<i16>,
            }),
    {
        match &self.value {
            NbtValue::Short(s) => Some(*s),
            _ => None,
        }
    }

    pub fn as_long(&self) -> (r: Option<i64>)
        ensures
            r == (match self@.value {
                ValueModel::Long(l) => Some(l),
                _ => None::<i64>,
            }),
    {
        match &self.value {
            NbtValue::Long(l) => Some(*l),
            _ => None,
        }
    }

    pub fn as_byte_array(&self) -> (r: Option<&Vec<u8>>)
        ensures
            match r {
                Some(a) => self@.value == ValueModel::ByteArray(a@),
                None => !(self@.value is ByteArray),
            },
    {
        match &self.value {
            NbtValue::ByteArray(b) => Some(b),
            _ => None,
        }
    }

    pub fn as_int_array(&self) -> (r: Option<&Vec<i32>>)
        ensures
            match r {
                Some(a) => self@.value == ValueModel::IntArray(a@),
                None => !(self@.value is IntArray),
            },
    {
        match &self.value {
            NbtValue::IntArray(i) => Some(i),
            _ => None,
        }
    }

    pub fn as_long_array(&self) -> (r: Option<&Vec<i64>>)
        ensures
            match r {
                Some(a) => self@.value == ValueModel::LongArray(a@),
                None => !(self@.value is LongArray),
            },
    {
        match &self.value {
            NbtValue::LongArray(l) => Some(l),
            _ => None,
        }
    }

    pub fn as_list(&self) -> (r: Option<&NbtList>)
        ensures
            match r {
                Some(l) => self@.value == ValueModel::List(l@),
                None => !(self@.value is List),
            },
    {
        match &self.value {
            NbtValue::List(l) => Some(l),
            _ => None,
        }
    }
}

// ---- Element access -----------------------------------------------------------

impl NbtField {
    /// Looks a name up among this field's children: the first child of a
    /// compound whose name matches, and nothing at all on any other kind
    /// of value.
    #[verifier::loop_isolation(false)]
    pub fn get<'a>(&'a self, name: &str) -> (r: Option<&'a NbtField>)
        ensures
            match get_model(self@.value, encode_utf8(name@)) {
                Some(fm) => r matches Some(f) && f@ == fm,
                None => r is None,
            },
    {
        match &self.value {
            NbtValue::Compound(fields) => {
                let nb: &[u8] = name.as_bytes();
                let ghost nm: Seq<u8> = encode_utf8(name@);
                let ghost fms: Seq<FieldModel> = fields_model(*fields);
                proof {
                    assert(fms.skip(0) =~= fms);
                }
                let mut i: usize = 0;
                while i < fields.len()
                    invariant
                        i <= fields@.len(),
                        first_with_name(fms, nm) == first_with_name(fms.skip(i as int), nm),
                    decreases fields@.len() - i,
                {
                    if bytes_eq(fields[i].name.as_str().as_bytes(), nb) {
                        proof {
                            assert(fms.skip(i as int)[0] == fms[i as int]);
                        }
                        return Some(&fields[i]);
                    }
                    proof {
                        assert(fms.skip(i as int)[0] == fms[i as int]);
                        assert(fms.skip(i as int).drop_first() =~= fms.skip(i as int + 1));
                    }
                    i = i + 1;
                }
                proof {
                    assert(fms.skip(fms.len() as int) =~= Seq::<FieldModel>::empty());
                }
                None
            },
            _ => None,
        }
    }

    /// Follows a path of names, one compound lookup per segment, and
    /// stops with nothing at the first missing segment or non-compound.
    #[verifier::loop_isolation(false)]
    pub fn get_path<'a>(&'a self, path: &[&str]) -> (r: Option<&'a NbtField>)
        ensures
            ({
                let names = Seq::new(path@.len(), |i: int| encode_utf8(path@[i]@));
                match get_path_model(self@, names) {
                    Some(fm) => r matches Some(f) && f@ == fm,
                    None => r is None,
                }
            }),
    {
        let ghost names: Seq<Seq<u8>> = Seq::new(path@.len(), |i: int| encode_utf8(path@[i]@));
        let mut child: &NbtField = self;
        proof {
            assert(names.skip(0) =~= names);
        }
        let mut i: usize = 0;
        while i < path.len()
            invariant
                i <= path@.len(),
                get_path_model(self@, names) == get_path_model(child@, names.skip(i as int)),
            decreases path@.len() - i,
        {
            proof {
                assert(names.skip(i as int)[0] == names[i as int]);
                assert(names.skip(i as int).drop_first() =~= names.skip(i as int + 1));
            }
            match child.get(path[i]) {
                Some(c) => {
                    child = c;
                },
                None => {
                    return None;
                },
            }
            i = i + 1;
        }
        proof {
            assert(names.skip(names.len() as int) =~= Seq::<Seq<u8>>::empty());
        }
        Some(child)
    }

    /// Removes and returns the first child with the given name, filling
    /// the vacated slot with the last child: removal is constant-time but
    /// disturbs the order of the remaining children.
    #[verifier::loop_isolation(false)]
    pub fn swap_remove(&mut self, name: &str) -> (r: Option<NbtField>)
        ensures
            ({
                let nm = encode_utf8(name@);
                match old(self)@.value {
                    ValueModel::Compound(fs) => {
                        let k = first_index_with_name(fs, nm);
                        if k < 0 {
                            r is None && final(self)@ == old(self)@
                        } else {
                            r matches Some(f) && f@ == fs[k] && final(self)@ == (FieldModel {
                                name: old(self)@.name,
                                value: ValueModel::Compound(
                                    fs.update(k, fs.last()).drop_last(),
                                ),
                            })
                        }
                    },
                    _ => r is None && final(self)@ == old(self)@,
                }
            }),
    {
        match &mut self.value {
            NbtValue::Compound(fields) => {
                let nb: &[u8] = name.as_bytes();
                let ghost nm: Seq<u8> = encode_utf8(name@);
                let ghost fms: Seq<FieldModel> = fields_model(*fields);
                proof {
                    assert(fms.skip(0) =~= fms);
                }
                let mut i: usize = 0;
                while i < fields.len()
                    invariant
                        i <= fields@.len(),
                        fms == fields_model(*fields),
                        fms.len() == fields@.len(),
                        first_index_with_name(fms, nm) == (if first_index_with_name(
                            fms.skip(i as int),
                            nm,
                        ) < 0 {
                            -1int
                        } else {
                            i + first_index_with_name(fms.skip(i as int), nm)
                        }),
                    decreases fields@.len() - i,
                {
                    proof {
                        assert(fms.skip(i as int)[0] == fms[i as int]);
                        assert(fms.skip(i as int).drop_first() =~= fms.skip(i as int + 1));
                    }
                    if bytes_eq(fields[i].name.as_str().as_bytes(), nb) {
                        let f = fields.swap_remove(i);
                        proof {
                            assert(fields_model(*fields) =~= fms.update(
                                i as int,
                                fms.last(),
                            ).drop_last());
                        }
                        return Some(f);
                    }
                    i = i + 1;
                }
                proof {
                    assert(fms.skip(fms.len() as int) =~= Seq::<FieldModel>::empty());
                }
                None
            },
            _ => None,
        }
    }

    pub fn get_int(&self, name: &str) -> (r: Option<i32>)
        ensures
            r == (match get_model(self@.value, encode_utf8(name@)) {
                Some(fm) => match fm.value {
                    ValueModel::Int(i) => Some(i),
                    _ => None::<i32>,
                },
                None => None::<i32>,
            }),
    {
        match self.get(name) {
            Some(f) => match &f.value {
                NbtValue::Int(i) => Some(*i),
                _ => None,
            },
            None => None,
        }
    }

    pub fn get_string<'a>(&'a self, name: &str) -> (r: Option<&'a String>)
        ensures
            ({
                let m = get_model(self@.value, encode_utf8(name@));
                match r {
                    Some(s) => m matches Some(fm) && fm.value == ValueModel::String(
                        encode_utf8(s@),
                    ),
                    None => m is None || !(m->Some_0.value is String),
                }
            }),
    {
        match self.get(name) {
            Some(f) => match &f.value {
                NbtValue::String(s) => Some(s),
                _ => None,
            },
            None => None,
        }
    }

    pub fn get_bool(&self, name: &str) -> (r: Option<bool>)
        ensures
            r == (match get_model(self@.value, encode_utf8(name@)) {
                Some(fm) => match fm.value {
                    ValueModel::Boolean(b) => Some(b),
                    _ => None::<bool>,
                },
                None => None::<bool>,
            }),
    {
        match self.get(name) {
            Some(f) => match &f.value {
                NbtValue::Boolean(b) => Some(*b),
                _ => None,
            },
            None => None,
        }
    }

    /// The bit pattern of an IEEE 754 single, if the named child holds
    /// one.
    pub fn get_float(&self, name: &str) -> (r: Option<u32>)
        ensures
            r == (match get_model(self@.value, encode_utf8(name@)) {
                Some(fm) => match fm.value {
                    ValueModel::Float(f) => Some(f),
                    _ => None::<u32>,
                },
                None => None::<u32>,
            }),
    {
        match self.get(name) {
            Some(f) => match &f.value {
                NbtValue::Float(x) => Some(*x),
                _ => None,
            },
            None => None,
        }
    }

    /// The bit pattern of an IEEE 754 double, if the named child holds
    /// one.
    pub fn get_double(&self, name: &str) -> (r: Option<u64>)
        ensures
            r == (match get_model(self@.value, encode_utf8(name@)) {
                Some(fm) => match fm.value {
                    ValueModel::Double(d) => Some(d),
                    _ => None::<u64>,
                },
                None => None::<u64>,
            }),
    {
        match self.get(name) {
            Some(f) => match &f.value {
                NbtValue::Double(x) => Some(*x),
                _ => None,
            },
            None => None,
        }
    }

    pub fn get_short(&self, name: &str) -> (r: Option<i16>)
        ensures
            r == (match get_model(self@.value, encode_utf8(name@)) {
                Some(fm) => match fm.value {
                    ValueModel::Short(s) => Some(s),
                    _ => None::<i16>,
                },
                None => None::<i16>,
            }),
    {
        match self.get(name) {
            Some(f) => match &f.value {
                NbtValue::Short(s) => Some(*s),
                _ => None,
            },
            None => None,
        }
    }

    pub fn get_long(&self, name: &str) -> (r: Option<i64>)
        ensures
            r == (match get_model(self@.value, encode_utf8(name@)) {
                Some(fm) => match fm.value {
                    ValueModel::Long(l) => Some(l),
                    _ => None::<i64>,
                },
                None => None::<i64>,
            }),
    {
        match self.get(name) {
            Some(f) => match &f.value {
                NbtValue::Long(l) => Some(*l),
                _ => None,
            },
            None => None,
        }
    }

    pub fn get_byte(&self, name: &str) -> (r: Option<u8>)
        ensures
            r == (match get_model(self@.value, encode_utf8(name@)) {
                Some(fm) => match fm.value {
                    ValueModel::Byte(b) => Some(b),
                    _ => None::<u8>,
                },
                None => None::<u8>,
            }),
    {
        match self.get(name) {
            Some(f) => match &f.value {
                NbtValue::Byte(b) => Some(*b),
                _ => None,
            },
            None => None,
        }
    }

    pub fn get_byte_array<'a>(&'a self, name: &str) -> (r: Option<&'a Vec<u8>>)
        ensures
            ({
                let m = get_model(self@.value, encode_utf8(name@));
                match r {
                    Some(a) => m matches Some(fm) && fm.value == ValueModel::ByteArray(a@),
                    None => m is None || !(m->Some_0.value is ByteArray),
                }
            }),
    {
        match self.get(name) {
            Some(f) => match &f.value {
                NbtValue::ByteArray(b) => Some(b),
                _ => None,
            },
            None => None,
        }
    }

    pub fn get_int_array<'a>(&'a self, name: &str) -> (r: Option<&'a Vec<i32>>)
        ensures
            ({
                let m = get_model(self@.value, encode_utf8(name@));
                match r {
                    Some(a) => m matches Some(fm) && fm.value == ValueModel::IntArray(a@),
                    None => m is None || !(m->Some_0.value is IntArray),
                }
            }),
    {
        match self.get(name) {
            Some(f) => match &f.value {
                NbtValue::IntArray(i) => Some(i),
                _ => None,
            },
            None => None,
        }
    }

    pub fn get_long_array<'a>(&'a self, name: &str) -> (r: Option<&'a Vec<i64>>)
        ensures
            ({
                let m = get_model(self@.value, encode_utf8(name@));
                match r {
                    Some(a) => m matches Some(fm) && fm.value == ValueModel::LongArray(a@),
                    None => m is None || !(m->Some_0.value is LongArray),
                }
            }),
    {
        match self.get(name) {
            Some(f) => match &f.value {
                NbtValue::LongArray(l) => Some(l),
                _ => None,
            },
            None => None,
        }
    }

    pub fn get_list<'a>(&'a self, name: &str) -> (r: Option<&'a NbtList>)
        ensures
            ({
                let m = get_model(self@.value, encode_utf8(name@));
                match r {
                    Some(l) => m matches Some(fm) && fm.value == ValueModel::List(l@),
                    None => m is None || !(m->Some_0.value is List),
                }
            }),
    {
        match self.get(name) {
            Some(f) => match &f.value {
                NbtValue::List(l) => Some(l),
                _ => None,
            },
            None => None,
        }
    }

    pub fn get_compound<'a>(&'a self, name: &str) -> (r: Option<&'a Vec<NbtField>>)
        ensures
            ({
                let m = get_model(self@.value, encode_utf8(name@));
                match r {
                    Some(c) => m matches Some(fm) && fm.value == ValueModel::Compound(
                        fields_model(*c),
                    ),
                    None => m is None || !(m->Some_0.value is Compound),
                }
            }),
    {
        match self.get(name) {
            Some(f) => match &f.value {
                NbtValue::Compound(c) => Some(c),
                _ => None,
            },
            None => None,
        }
    }
}

// ---- Writing ---------------------------------------------------------------

impl NbtField {
    /// Serializes this field. `with_header` says whether the field's own
    /// tag byte and name are written before its payload: the root of a
    /// document and the children of a compound write them, the elements
    /// of a list do not. Succeeds exactly when every length in the field
    /// fits its wire-format length prefix, and otherwise reports
    /// [`NbtError::TooLong`] and may leave a partial prefix in `out`.
    #[verifier::rlimit(50)]
    pub fn write(&self, out: &mut Vec<u8>, with_header: bool) -> (r: Result<(), NbtError>)
        ensures
            r is Ok <==> encodable_node(self@, with_header),
            r is Ok ==> final(out)@ == old(out)@ + wire_node(self@, with_header),
            r is Err ==> r == Err::<(), NbtError>(NbtError::TooLong),
        decreases *self, 2int,
    {
        match &self.value {
            NbtValue::End => {
                out.push(TAG_END);
                proof {
                    assert(out@ =~= old(out)@ + wire_node(self@, with_header));
                }
                Ok(())
            },
            NbtValue::Byte(b) => {
                if with_header {
                    match write_tag_name(out, TAG_BYTE, self.name.as_str()) {
                        Err(e) => {
                            return Err(e);
                        },
                        Ok(_) => {},
                    }
                }
                out.push(*b);
                proof {
                    assert(out@ =~= old(out)@ + wire_node(self@, with_header));
                }
                Ok(())
            },
            NbtValue::Boolean(b) => {
                if with_header {
                    match write_tag_name(out, TAG_BYTE, self.name.as_str()) {
                        Err(e) => {
                            return Err(e);
                        },
                        Ok(_) => {},
                    }
                }
                out.push(
                    if *b {
                        1
                    } else {
                        0
                    },
                );
                proof {
                    assert(out@ =~= old(out)@ + wire_node(self@, with_header));
                }
                Ok(())
            },
            NbtValue::Short(x) => {
                if with_header {
                    match write_tag_name(out, TAG_SHORT, self.name.as_str()) {
                        Err(e) => {
                            return Err(e);
                        },
                        Ok(_) => {},
                    }
                }
                write_u16_be(out, u16_from_i16(*x));
                proof {
                    assert(out@ =~= old(out)@ + wire_node(self@, with_header));
                }
                Ok(())
            },
            NbtValue::Int(x) => {
                if with_header {
                    match write_tag_name(out, TAG_INT, self.name.as_str()) {
                        Err(e) => {
                            return Err(e);
                        },
                        Ok(_) => {},
                    }
                }
                write_u32_be(out, u32_from_i32(*x));
                proof {
                    assert(out@ =~= old(out)@ + wire_node(self@, with_header));
                }
                Ok(())
            },
            NbtValue::Long(x) => {
                if with_header {
                    match write_tag_name(out, TAG_LONG, self.name.as_str()) {
                        Err(e) => {
                            return Err(e);
                        },
                        Ok(_) => {},
                    }
                }
                write_u64_be(out, u64_from_i64(*x));
                proof {
                    assert(out@ =~= old(out)@ + wire_node(self@, with_header));
                }
                Ok(())
            },
            NbtValue::Float(x) => {
                if with_header {
                    match write_tag_name(out, TAG_FLOAT, self.name.as_str()) {
                        Err(e) => {
                            return Err(e);
                        },
                        Ok(_) => {},
                    }
                }
                write_u32_be(out, *x);
                proof {
                    assert(out@ =~= old(out)@ + wire_node(self@, with_header));
                }
                Ok(())
            },
            NbtValue::Double(x) => {
                if with_header {
                    match write_tag_name(out, TAG_DOUBLE, self.name.as_str()) {
                        Err(e) => {
                            return Err(e);
                        },
                        Ok(_) => {},
                    }
                }
                write_u64_be(out, *x);
                proof {
                    assert(out@ =~= old(out)@ + wire_node(self@, with_header));
                }
                Ok(())
            },
            NbtValue::String(s) => {
                if with_header {
                    match write_tag_name(out, TAG_STRING, self.name.as_str()) {
                        Err(e) => {
                            return Err(e);
                        },
                        Ok(_) => {},
                    }
                }
                match write_string(s.as_str(), out) {
                    Err(e) => {
                        return Err(e);
                    },
                    Ok(_) => {},
                }
                proof {
                    assert(out@ =~= old(out)@ + wire_node(self@, with_header));
                }
                Ok(())
            },
            NbtValue::List(l) => {
                proof {
                    assert(decreases_to!(*self => self.value));
                    assert(decreases_to!(self.value => *l));
                    assert(decreases_to!(*self => *l));
                }
                write_list(out, l, self.name.as_str(), with_header)
            },
            NbtValue::Compound(c) => {
                if with_header {
                    match write_tag_name(out, TAG_COMPOUND, self.name.as_str()) {
                        Err(e) => {
                            return Err(e);
                        },
                        Ok(_) => {},
                    }
                }
                let ghost base: Seq<u8> = out@;
                let ghost fm: Seq<FieldModel> = fields_model(*c);
                let mut i: usize = 0;
                while i < c.len()
                    invariant
                        self.value == NbtValue::Compound(*c),
                        i <= c.len(),
                        fm == fields_model(*c),
                        fm.len() == c@.len(),
                        out@ == base + wire_fields(fm.take(i as int)),
                        forall|j: int| 0 <= j < i ==> encodable_node(#[trigger] fm[j], true),
                    decreases c.len() - i,
                {
                    proof {
                        assert(decreases_to!(*self => self.value));
                        assert(decreases_to!(self.value => self.value->Compound_0));
                        assert(self.value->Compound_0 == *c);
                        assert(decreases_to!(self.value => *c));
                        assert(decreases_to!(*c => c@[i as int]));
                        assert(decreases_to!(*self => c@[i as int]));
                    }
                    match c[i].write(out, true) {
                        Err(e) => {
                            proof {
                                assert(!encodable_node(fm[i as int], true));
                                assert(!encodable_node(self@, with_header));
                            }
                            return Err(e);
                        },
                        Ok(_) => {},
                    }
                    proof {
                        lemma_wire_fields_push(fm.take(i as int), fm[i as int]);
                        assert(fm.take(i as int).push(fm[i as int]) =~= fm.take(i as int + 1));
                        assert(out@ =~= base + wire_fields(fm.take(i as int + 1)));
                    }
                    i = i + 1;
                }
                out.push(TAG_END);
                proof {
                    assert(fm.take(c@.len() as int) =~= fm);
                    assert(out@ =~= old(out)@ + wire_node(self@, with_header));
                }
                Ok(())
            },
            NbtValue::ByteArray(arr) => {
                if with_header {
                    match write_tag_name(out, TAG_BYTE_ARRAY, self.name.as_str()) {
                        Err(e) => {
                            return Err(e);
                        },
                        Ok(_) => {},
                    }
                }
                match write_len32(out, arr.len()) {
                    Err(e) => {
                        return Err(e);
                    },
                    Ok(_) => {},
                }
                write_bytes(out, arr.as_slice());
                proof {
                    assert(out@ =~= old(out)@ + wire_node(self@, with_header));
                }
                Ok(())
            },
            NbtValue::IntArray(arr) => {
                if with_header {
                    match write_tag_name(out, TAG_INT_ARRAY, self.name.as_str()) {
                        Err(e) => {
                            return Err(e);
                        },
                        Ok(_) => {},
                    }
                }
                match write_len32(out, arr.len()) {
                    Err(e) => {
                        return Err(e);
                    },
                    Ok(_) => {},
                }
                write_i32_elems(out, arr);
                proof {
                    assert(out@ =~= old(out)@ + wire_node(self@, with_header));
                }
                Ok(())
            },
            NbtValue::LongArray(arr) => {
                if with_header {
                    match write_tag_name(out, TAG_LONG_ARRAY, self.name.as_str()) {
                        Err(e) => {
                            return Err(e);
                        },
                        Ok(_) => {},
                    }
                }
                match write_len32(out, arr.len()) {
                    Err(e) => {
                        return Err(e);
                    },
                    Ok(_) => {},
                }
                write_i64_elems(out, arr);
                proof {
                    assert(out@ =~= old(out)@ + wire_node(self@, with_header));
                }
                Ok(())
            },
        }
    }
}

// ---- Reading ---------------------------------------------------------------

/// Reads the payload of a value whose (known, non-`End`) tag byte has
/// already been read.
fn read_payload(tag: u8, b: &[u8], pos: usize) -> (r: Result<(NbtValue, usize), NbtError>)
    requires
        pos <= b@.len(),
        TAG_BYTE <= tag <= TAG_LONG_ARRAY,
    ensures
        match parse_payload(tag, b@, pos as int) {
            Ok(p) => r matches Ok(q) && q.0@ == p.0 && q.1 == p.1 && q.1 <= b@.len(),
            Err(e) => r matches Err(e2) && e2 == e,
        },
    decreases b@.len() - pos, 2int,
{
    proof {
        assert(b.len() == b@.len());
    }
    if tag == TAG_BYTE {
        if b.len() - pos < 1 {
            return Err(NbtError::IOError);
        }
        Ok((NbtValue::Byte(b[pos]), pos + 1))
    } else if tag == TAG_SHORT {
        if b.len() - pos < 2 {
            return Err(NbtError::IOError);
        }
        Ok((NbtValue::Short(i16_from_u16(read_u16(b, pos))), pos + 2))
    } else if tag == TAG_INT {
        if b.len() - pos < 4 {
            return Err(NbtError::IOError);
        }
        Ok((NbtValue::Int(i32_from_u32(read_u32(b, pos))), pos + 4))
    } else if tag == TAG_LONG {
        if b.len() - pos < 8 {
            return Err(NbtError::IOError);
        }
        Ok((NbtValue::Long(i64_from_u64(read_u64(b, pos))), pos + 8))
    } else if tag == TAG_FLOAT {
        if b.len() - pos < 4 {
            return Err(NbtError::IOError);
        }
        Ok((NbtValue::Float(read_u32(b, pos)), pos + 4))
    } else if tag == TAG_DOUBLE {
        if b.len() - pos < 8 {
            return Err(NbtError::IOError);
        }
        Ok((NbtValue::Double(read_u64(b, pos)), pos + 8))
    } else if tag == TAG_BYTE_ARRAY {
        if b.len() - pos < 4 {
            return Err(NbtError::IOError);
        }
        let n_i32 = i32_from_u32(read_u32(b, pos));
        if n_i32 < 0 {
            return Err(NbtError::IOError);
        }
        let n = n_i32 as usize;
        if b.len() - (pos + 4) < n {
            return Err(NbtError::IOError);
        }
        let buf = read_byte_block(b, pos + 4, n);
        Ok((NbtValue::ByteArray(buf), pos + 4 + n))
    } else if tag == TAG_STRING {
        match read_string(b, pos) {
            Ok((s, end)) => Ok((NbtValue::String(s), end)),
            Err(e) => Err(e),
        }
    } else if tag == TAG_LIST {
        match read_list(b, pos) {
            Ok((l, end)) => Ok((NbtValue::List(l), end)),
            Err(e) => Err(e),
        }
    } else if tag == TAG_COMPOUND {
        match read_compound(b, pos) {
            Ok((c, end)) => Ok((NbtValue::Compound(c), end)),
            Err(e) => Err(e),
        }
    } else if tag == TAG_INT_ARRAY {
        if b.len() - pos < 4 {
            return Err(NbtError::IOError);
        }
        let n_i32 = i32_from_u32(read_u32(b, pos));
        if n_i32 < 0 {
            return Err(NbtError::IOError);
        }
        let n = n_i32 as usize;
        if n > (b.len() - (pos + 4)) / 4 {
            return Err(NbtError::IOError);
        }
        let buf = read_i32_block(b, pos + 4, n);
        Ok((NbtValue::IntArray(buf), pos + 4 + 4 * n))
    } else {
        if b.len() - pos < 4 {
            return Err(NbtError::IOError);
        }
        let n_i32 = i32_from_u32(read_u32(b, pos));
        if n_i32 < 0 {
            return Err(NbtError::IOError);
        }
        let n = n_i32 as usize;
        if n > (b.len() - (pos + 4)) / 8 {
            return Err(NbtError::IOError);
        }
        let buf = read_i64_block(b, pos + 4, n);
        Ok((NbtValue::LongArray(buf), pos + 4 + 8 * n))
    }
}

impl NbtField {
    /// Reads one field from the byte slice, starting at `pos`: a tag
    /// byte, and unless the tag is `End`, a name and a payload. Returns
    /// the field and the position of the first byte after it.
    pub fn read(b: &[u8], pos: usize) -> (r: Result<(NbtField, usize), NbtError>)
        requires
            pos <= b@.len(),
        ensures
            match parse_field(b@, pos as int) {
                Ok(p) => r matches Ok(q) && q.0@ == p.0 && q.1 == p.1 && q.1 <= b@.len(),
                Err(e) => r matches Err(e2) && e2 == e,
            },
        decreases b@.len() - pos, 0int,
    {
        proof {
            assert(b.len() == b@.len());
        }
        if b.len() - pos < 1 {
            return Err(NbtError::IOError);
        }
        let tag = b[pos];
        if tag == TAG_END {
            let f = NbtField { name: String::new(), value: NbtValue::End };
            proof {
                assert(encode_utf8(Seq::<char>::empty()) =~= Seq::<u8>::empty());
            }
            return Ok((f, pos + 1));
        }
        if tag > TAG_LONG_ARRAY {
            return Err(NbtError::UnknownTag(tag));
        }
        let (name, p) = match read_name(b, pos + 1) {
            Ok(x) => x,
            Err(e) => {
                return Err(e);
            },
        };
        proof {
            lemma_parse_string_bounds(b@, pos + 1);
        }
        let (value, end) = match read_payload(tag, b, p) {
            Ok(x) => x,
            Err(e) => {
                return Err(e);
            },
        };
        Ok((NbtField { name, value }, end))
    }
}

} // verus!
