use rnbt::{from_bytes, read_nbt, write_nbt, NbtError, NbtField, NbtList, NbtValue};

#[test]
fn empty_compound_round_trip() {
    let root = NbtField {
        name: "root".to_string(),
        value: NbtValue::Compound(vec![]),
    };
    let buf = write_nbt(&root).unwrap();
    let read = read_nbt(&buf).unwrap();
    assert_eq!(read, root);
    assert_eq!(read.as_compound(), Some(&vec![]));
}

#[test]
fn int_list_wire_layout() {
    let root = NbtField {
        name: "t".to_string(),
        value: NbtValue::List(NbtList::Int(vec![1, 2, 3])),
    };
    let buf = write_nbt(&root).unwrap();
    // list tag, name length 1, 't', element tag Int, count 3, then the
    // three big-endian ints
    assert_eq!(
        buf,
        vec![
            9, 0, 1, 116, 3, 0, 0, 0, 3, 0, 0, 0, 1, 0, 0, 0, 2, 0, 0, 0, 3
        ]
    );
    assert_eq!(read_nbt(&buf).unwrap(), root);
}

#[test]
fn end_list_round_trip() {
    let root = NbtField {
        name: "t".to_string(),
        value: NbtValue::List(NbtList::End),
    };
    let buf = write_nbt(&root).unwrap();
    // list tag, name length 1, 't', End element tag, count 0
    assert_eq!(buf, vec![9, 0, 1, 116, 0, 0, 0, 0, 0]);
    assert_eq!(read_nbt(&buf).unwrap(), root);
}

#[test]
fn string_at_length_cap_round_trips() {
    let s = "a".repeat(65535);
    let root = NbtField {
        name: "s".to_string(),
        value: NbtValue::String(s.clone()),
    };
    let buf = write_nbt(&root).unwrap();
    let read = read_nbt(&buf).unwrap();
    assert_eq!(read.as_string(), Some(&s));
}

#[test]
fn string_over_length_cap_rejected() {
    let s = "a".repeat(65536);
    let root = NbtField {
        name: "s".to_string(),
        value: NbtValue::String(s),
    };
    assert_eq!(write_nbt(&root), Err(NbtError::TooLong));
}

#[test]
fn name_over_length_cap_rejected() {
    let root = NbtField {
        name: "n".repeat(65536),
        value: NbtValue::Int(5),
    };
    assert_eq!(write_nbt(&root), Err(NbtError::TooLong));
}

#[test]
fn unknown_tag_rejected() {
    assert_eq!(from_bytes(&[200, 0, 0]), Err(NbtError::UnknownTag(200)));
}

#[test]
fn truncated_input_rejected() {
    // an Int field named "a" with no payload bytes at all
    assert_eq!(from_bytes(&[3, 0, 1, 97]), Err(NbtError::IOError));
    assert_eq!(from_bytes(&[]), Err(NbtError::IOError));
}

#[test]
fn invalid_utf8_rejected() {
    // a Byte field whose one-byte name is not valid UTF-8
    assert_eq!(from_bytes(&[1, 0, 1, 0xFF, 5]), Err(NbtError::Utf8Error));
    // a String field named "a" whose payload bytes are not valid UTF-8
    assert_eq!(
        from_bytes(&[8, 0, 1, 97, 0, 2, 0xFF, 0xFF]),
        Err(NbtError::Utf8Error)
    );
}

#[test]
fn negative_count_rejected() {
    // a ByteArray field named "a" with count -1
    assert_eq!(
        from_bytes(&[7, 0, 1, 97, 0xFF, 0xFF, 0xFF, 0xFF]),
        Err(NbtError::IOError)
    );
}

#[test]
fn byte_array_distinguished_from_byte_list() {
    let arr = NbtField {
        name: "t".to_string(),
        value: NbtValue::ByteArray(vec![1, 2, 3]),
    };
    let list = NbtField {
        name: "t".to_string(),
        value: NbtValue::List(NbtList::Byte(vec![1, 2, 3])),
    };
    let arr_buf = write_nbt(&arr).unwrap();
    let list_buf = write_nbt(&list).unwrap();
    assert_eq!(arr_buf[0], 7);
    assert_eq!(list_buf[0], 9);
    let arr_read = read_nbt(&arr_buf).unwrap();
    let list_read = read_nbt(&list_buf).unwrap();
    assert_eq!(arr_read, arr);
    assert_eq!(list_read, list);
    assert_ne!(arr_read, list_read);
}

#[test]
fn boolean_decodes_as_byte() {
    // the wire format has no boolean type: a Boolean is written with the
    // Byte tag, so it comes back as a Byte
    let root = NbtField {
        name: "b".to_string(),
        value: NbtValue::Boolean(true),
    };
    let buf = write_nbt(&root).unwrap();
    let read = read_nbt(&buf).unwrap();
    assert_eq!(read.value, NbtValue::Byte(1));
}

#[test]
fn first_match_on_duplicate_name() {
    let root = NbtField {
        name: "t".to_string(),
        value: NbtValue::Compound(vec![
            NbtField {
                name: "x".to_string(),
                value: NbtValue::Int(1),
            },
            NbtField {
                name: "x".to_string(),
                value: NbtValue::Int(2),
            },
        ]),
    };
    assert_eq!(
        root.get("x"),
        Some(&NbtField {
            name: "x".to_string(),
            value: NbtValue::Int(1)
        })
    );
    assert_eq!(root.get_int("x"), Some(1));
}

#[test]
fn path_to_missing_segment_is_absent() {
    let root = NbtField::new_compound(
        "test",
        vec![NbtField::new_compound(
            "the",
            vec![NbtField::new_compound(
                "path",
                vec![NbtField::new_i32("int_c", 42)],
            )],
        )],
    );
    assert_eq!(root.get_path(&["the", "path", "int_c"]).and_then(|f| f.as_i32()), Some(42));
    assert_eq!(root.get_path(&["the", "missing"]), None);
    // a path through a non-compound stops short as well
    assert_eq!(root.get_path(&["the", "path", "int_c", "deeper"]), None);
}

#[test]
fn swap_remove_takes_first_match() {
    let mut root = NbtField::new_compound(
        "t",
        vec![
            NbtField::new_i32("x", 1),
            NbtField::new_i32("y", 2),
            NbtField::new_i32("z", 3),
        ],
    );
    let removed = root.swap_remove("x");
    assert_eq!(removed, Some(NbtField::new_i32("x", 1)));
    // the vacated slot is filled by the last field
    assert_eq!(
        root.as_compound(),
        Some(&vec![NbtField::new_i32("z", 3), NbtField::new_i32("y", 2)])
    );
    assert_eq!(root.swap_remove("missing"), None);
    let mut scalar = NbtField::new_i32("x", 1);
    assert_eq!(scalar.swap_remove("x"), None);
}

#[test]
fn multi_byte_utf8_round_trips() {
    let name = "caf\u{e9}";
    let value = "gr\u{fc}n \u{2713}";
    let root = NbtField::new_compound("t", vec![NbtField::new_string(name, value)]);
    let buf = write_nbt(&root).unwrap();
    let read = read_nbt(&buf).unwrap();
    assert_eq!(read, root);
    assert_eq!(read.get_string(name), Some(&value.to_string()));
}

#[test]
fn nested_list_round_trip() {
    let root = NbtField {
        name: "t".to_string(),
        value: NbtValue::List(NbtList::List(vec![
            NbtValue::List(NbtList::Int(vec![1, 2])),
            NbtValue::List(NbtList::Int(vec![3])),
        ])),
    };
    let buf = write_nbt(&root).unwrap();
    assert_eq!(read_nbt(&buf).unwrap(), root);
}

#[test]
fn array_lists_round_trip() {
    let root = NbtField {
        name: "t".to_string(),
        value: NbtValue::Compound(vec![
            NbtField {
                name: "ints".to_string(),
                value: NbtValue::List(NbtList::IntArray(vec![vec![1, 2], vec![], vec![3]])),
            },
            NbtField {
                name: "longs".to_string(),
                value: NbtValue::List(NbtList::LongArray(vec![vec![-1, 9_000_000_000]])),
            },
        ]),
    };
    let buf = write_nbt(&root).unwrap();
    assert_eq!(read_nbt(&buf).unwrap(), root);
}

#[test]
fn trailing_bytes_ignored() {
    let root = NbtField {
        name: "t".to_string(),
        value: NbtValue::Int(-7),
    };
    let mut buf = write_nbt(&root).unwrap();
    buf.push(99);
    assert_eq!(read_nbt(&buf).unwrap(), root);
}

#[test]
fn extreme_values_round_trip() {
    let root = NbtField {
        name: "t".to_string(),
        value: NbtValue::Compound(vec![
            NbtField {
                name: "short_min".to_string(),
                value: NbtValue::Short(i16::MIN),
            },
            NbtField {
                name: "int_min".to_string(),
                value: NbtValue::Int(i32::MIN),
            },
            NbtField {
                name: "long_min".to_string(),
                value: NbtValue::Long(i64::MIN),
            },
            NbtField {
                name: "long_max".to_string(),
                value: NbtValue::Long(i64::MAX),
            },
            NbtField {
                name: "nan".to_string(),
                value: NbtValue::Double(f64::NAN.to_bits()),
            },
        ]),
    };
    let buf = write_nbt(&root).unwrap();
    assert_eq!(read_nbt(&buf).unwrap(), root);
}
