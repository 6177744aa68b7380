use bcsv::bcsv::BCSV;
use bcsv::codec::Endian;
use bcsv::hash::{calc_old_hash, calchash};
use bcsv::string_table::StringTable;
use bcsv::types::{BcsvError, Field, FieldType, Header, Value};

fn stringoff_field(name: &str) -> Field {
    Field::new_with_type(name, FieldType::STRINGOFF)
}

#[test]
fn hash_golden_values() {
    assert_eq!(calchash("directions"), 224454868);
    assert_eq!(calchash(""), 0);
    assert_eq!(calchash("name"), 0x337A8B);
    assert_eq!(calchash("Left"), 0x241427);
}

#[test]
fn old_hash_golden_values() {
    assert_eq!(calc_old_hash("directions"), 275456);
    assert_eq!(calc_old_hash(""), 0);
    assert_eq!(calc_old_hash("name"), 106752);
}

#[test]
fn field_type_sizes_and_masks() {
    assert_eq!(FieldType::LONG.size(), 4);
    assert_eq!(FieldType::STRING.size(), 32);
    assert_eq!(FieldType::FLOAT.size(), 4);
    assert_eq!(FieldType::ULONG.size(), 4);
    assert_eq!(FieldType::SHORT.size(), 2);
    assert_eq!(FieldType::CHAR.size(), 1);
    assert_eq!(FieldType::STRINGOFF.size(), 4);
    assert_eq!(FieldType::NULL.size(), 0);
    assert_eq!(FieldType::LONG.mask(), 0xFFFF_FFFF);
    assert_eq!(FieldType::SHORT.mask(), 0xFFFF);
    assert_eq!(FieldType::CHAR.mask(), 0xFF);
    assert_eq!(FieldType::STRING.mask(), 0);
    assert_eq!(FieldType::FLOAT.mask(), 0);
    assert_eq!(FieldType::NULL.mask(), 0);
}

#[test]
fn field_type_write_order() {
    assert_eq!(FieldType::NULL.order(), -1);
    assert_eq!(FieldType::STRING.order(), 0);
    assert_eq!(FieldType::FLOAT.order(), 1);
    assert_eq!(FieldType::LONG.order(), 2);
    assert_eq!(FieldType::ULONG.order(), 3);
    assert_eq!(FieldType::SHORT.order(), 4);
    assert_eq!(FieldType::CHAR.order(), 5);
    assert_eq!(FieldType::STRINGOFF.order(), 6);
}

#[test]
fn sort_fields_follows_rank_not_declaration() {
    let mut b = BCSV::new();
    b.new_field(Field::new_with_type("c", FieldType::STRINGOFF));
    b.new_field(Field::new_with_type("a", FieldType::LONG));
    b.new_field(Field::new_with_type("b", FieldType::STRING));
    let sorted = b.sort_fields();
    assert_eq!(sorted[0].hash, calchash("b"));
    assert_eq!(sorted[1].hash, calchash("a"));
    assert_eq!(sorted[2].hash, calchash("c"));
    // the canonical list is untouched
    assert_eq!(b.fields[0].hash, calchash("c"));
}

#[test]
fn string_table_offsets_are_cumulative() {
    let mut t = StringTable::new();
    t.push("a");
    t.push("bcd");
    t.push("a");
    t.push("xy");
    assert_eq!(t.find(&String::from("a")), Some(0));
    assert_eq!(t.find(&String::from("bcd")), Some(2));
    assert_eq!(t.find(&String::from("xy")), Some(6));
    assert_eq!(t.find(&String::from("zz")), None);
    let data = t.data();
    assert_eq!(data.len(), 3);
    assert_eq!(data[0], "a");
    assert_eq!(data[1], "bcd");
    assert_eq!(data[2], "xy");
}

#[test]
fn string_table_update_offs_patches_values() {
    let mut t = StringTable::new();
    let mut vals = vec![
        Value::STRINGOFF(99, String::from("Left")),
        Value::LONG(7),
        Value::STRINGOFF(99, String::from("Right")),
        Value::STRINGOFF(99, String::from("Left")),
    ];
    t.update_offs(&mut vals);
    match &vals[0] {
        Value::STRINGOFF(o, s) => {
            assert_eq!(*o, 0);
            assert_eq!(s, "Left");
        },
        _ => panic!("wrong variant"),
    }
    match &vals[2] {
        Value::STRINGOFF(o, _) => assert_eq!(*o, 5),
        _ => panic!("wrong variant"),
    }
    match &vals[3] {
        Value::STRINGOFF(o, _) => assert_eq!(*o, 0),
        _ => panic!("wrong variant"),
    }
}

#[test]
fn mask_shift_round_trip_concrete() {
    // decode 0xF0 under mask 0xFF, shift 4: (0xF0 & 0xFF) >> 4 == 15
    let f = Field::new("x", 0xFF, 4, FieldType::LONG);
    let mut v = Value::LONG(0xF0);
    v.recalc(f);
    match v {
        Value::LONG(l) => assert_eq!(l, 15),
        _ => panic!("wrong variant"),
    }
    // packing it back restores the masked raw word
    v.calc_write(f);
    match v {
        Value::LONG(l) => assert_eq!(l, 0xF0),
        _ => panic!("wrong variant"),
    }
}

#[test]
fn mask_shift_signed_width() {
    // a 16-bit value keeps its native signedness through the transform
    let f = Field::new("s", 0xFFFF, 0, FieldType::SHORT);
    let mut v = Value::SHORT(-2);
    v.recalc(f);
    match v {
        Value::SHORT(s) => assert_eq!(s, -2),
        _ => panic!("wrong variant"),
    }
}

#[test]
fn render_text_forms() {
    assert_eq!(Value::LONG(-5).get_string(true).unwrap(), "-5");
    assert_eq!(Value::ULONG(4000000000).get_string(true).unwrap(), "4000000000");
    assert_eq!(Value::SHORT(-1).get_string(true).unwrap(), "-1");
    assert_eq!(Value::SHORT(-1).get_string(false).unwrap(), "65535");
    assert_eq!(Value::CHAR(-2).get_string(true).unwrap(), "-2");
    assert_eq!(Value::CHAR(-2).get_string(false).unwrap(), "254");
    assert_eq!(Value::NULL.get_string(true).unwrap(), "NULL");
    assert!(Value::FLOAT(0x3FC0_0000).get_string(true).is_none());
    let off = Value::STRINGOFF(3, String::from("hello"));
    assert_eq!(off.get_string(false).unwrap(), "hello");
}

#[test]
fn render_fixed_string_is_lossy_utf8() {
    let mut buf = vec![0x41u8; 32];
    buf[0] = 0xFF;
    let v = Value::STRING(buf);
    let s = v.get_string(true).unwrap();
    let mut expected = String::from("\u{FFFD}");
    for _ in 0..31 {
        expected.push('A');
    }
    assert_eq!(s, expected);
}

#[test]
fn field_name_from_table_or_hex() {
    let mut hashes = std::collections::HashMap::new();
    hashes.insert(calchash("speed"), String::from("speed"));
    let f = Field::new_with_type("speed", FieldType::LONG);
    assert_eq!(f.get_name(&hashes), "speed");
    let g = Field {
        hash: 0xAB,
        mask: 0,
        dataoff: 0,
        shift: 0,
        datatype: 0,
    };
    assert_eq!(g.get_name(&hashes), "0xAB");
    let z = Field {
        hash: 0,
        mask: 0,
        dataoff: 0,
        shift: 0,
        datatype: 0,
    };
    assert_eq!(z.get_name(&hashes), "0x0");
}

#[test]
fn truncated_header_is_fatal() {
    let mut b = BCSV::new();
    let data = vec![0u8; 10];
    let r = b.read(&data, Endian::Big);
    assert_eq!(r, Err(BcsvError::TruncatedInput));
}

#[test]
fn truncated_row_block_is_fatal() {
    // header claims three rows of four bytes but only one is present
    let mut data = Vec::new();
    for w in [3u32, 1, 28, 4] {
        data.extend_from_slice(&w.to_be_bytes());
    }
    data.extend_from_slice(&0x11223344u32.to_be_bytes());
    data.extend_from_slice(&0xFFFFFFFFu32.to_be_bytes());
    data.extend_from_slice(&0u16.to_be_bytes());
    data.push(0);
    data.push(0);
    data.extend_from_slice(&0u32.to_be_bytes());
    let mut b = BCSV::new();
    let r = b.read(&data, Endian::Big);
    assert_eq!(r, Err(BcsvError::TruncatedInput));
}

#[test]
fn masked_shifted_long_decodes_to_fifteen() {
    // entry_count=3, field_count=1, entry_size=4, LONG mask=0xFF shift=4,
    // raw word 0x000000F0 in every row
    let mut data = Vec::new();
    for w in [3u32, 1, 28, 4] {
        data.extend_from_slice(&w.to_be_bytes());
    }
    let field = Field::new("v", 0xFF, 4, FieldType::LONG);
    data.extend_from_slice(&field.hash.to_be_bytes());
    data.extend_from_slice(&field.mask.to_be_bytes());
    data.extend_from_slice(&field.dataoff.to_be_bytes());
    data.push(field.shift);
    data.push(field.datatype);
    for _ in 0..3 {
        data.extend_from_slice(&0x000000F0u32.to_be_bytes());
    }
    let mut b = BCSV::new();
    b.read(&data, Endian::Big).unwrap();
    assert_eq!(b.header.entrycount, 3);
    let col = b.get_values(&field).unwrap();
    assert_eq!(col.len(), 3);
    for v in &col {
        assert!(matches!(v, Value::LONG(15)));
    }
}

#[test]
fn one_string_interned_once_offsets_zero() {
    // two rows holding "Left" share one string-table entry at offset 0
    let mut b = BCSV::new();
    b.header.entrycount = 2;
    b.new_field(stringoff_field("name"));
    b.set_value(0, 0, Value::STRINGOFF(7, String::from("Left")));
    b.set_value(0, 1, Value::STRINGOFF(9, String::from("Left")));
    b.update_layout();
    let bytes = b.to_bytes(Endian::Big).unwrap();
    assert_eq!(bytes.len(), 64);
    // both row slots hold offset zero
    assert_eq!(&bytes[28..32], &[0, 0, 0, 0]);
    assert_eq!(&bytes[32..36], &[0, 0, 0, 0]);
    // the table holds the bytes of "Left\0" exactly once
    assert_eq!(&bytes[36..41], b"Left\0");
    let hits = bytes.windows(4).filter(|w| w == b"Left").count();
    assert_eq!(hits, 1);
}

#[test]
fn output_padded_to_32_with_fill() {
    let mut b = BCSV::new();
    b.header.entrycount = 2;
    b.new_field(stringoff_field("name"));
    b.set_value(0, 0, Value::STRINGOFF(0, String::from("Left")));
    b.set_value(0, 1, Value::STRINGOFF(0, String::from("Left")));
    b.update_layout();
    let bytes = b.to_bytes(Endian::Big).unwrap();
    assert_eq!(bytes.len() % 32, 0);
    for &p in &bytes[41..] {
        assert_eq!(p, 0x40);
    }
}

#[test]
fn inconsistent_header_fails_write() {
    let mut b = BCSV::new();
    b.header.entrycount = 2;
    b.new_field(Field::new_with_type("a", FieldType::LONG));
    b.update_layout();
    b.header.entrysize = 5;
    let r = b.to_bytes(Endian::Big);
    assert_eq!(r.unwrap_err(), BcsvError::LayoutMismatch);
}

#[test]
fn header_round_trip_both_endians() {
    let h = Header {
        entrycount: 0x01020304,
        fieldcount: 0x05060708,
        entrydataoff: 0x090A0B0C,
        entrysize: 0x0D0E0F10,
    };
    for e in [Endian::Big, Endian::Little] {
        let mut out = Vec::new();
        h.push_bytes(&mut out, e);
        assert_eq!(out.len(), 16);
        let back = Header::from_bytes(&out, e);
        assert_eq!(back, h);
    }
    let mut out = Vec::new();
    h.push_bytes(&mut out, Endian::Big);
    assert_eq!(&out[0..4], &[0x01, 0x02, 0x03, 0x04]);
    let mut out2 = Vec::new();
    h.push_bytes(&mut out2, Endian::Little);
    assert_eq!(&out2[0..4], &[0x04, 0x03, 0x02, 0x01]);
}

#[test]
fn full_table_round_trips_byte_exact() {
    for endian in [Endian::Big, Endian::Little] {
        let mut b = BCSV::new();
        b.header.entrycount = 2;
        b.new_field(Field::new_with_type("l", FieldType::LONG));
        b.new_field(Field::new_with_type("f", FieldType::FLOAT));
        b.new_field(Field::new_with_type("u", FieldType::ULONG));
        b.new_field(Field::new_with_type("s", FieldType::SHORT));
        b.new_field(Field::new_with_type("c", FieldType::CHAR));
        b.new_field(stringoff_field("n"));
        b.set_value(0, 0, Value::LONG(-123456));
        b.set_value(0, 1, Value::LONG(42));
        b.set_value(1, 0, Value::FLOAT(1.5f32.to_bits()));
        b.set_value(1, 1, Value::FLOAT(0));
        b.set_value(2, 0, Value::ULONG(0xDEADBEEF));
        b.set_value(2, 1, Value::ULONG(7));
        b.set_value(3, 0, Value::SHORT(-2));
        b.set_value(3, 1, Value::SHORT(300));
        b.set_value(4, 0, Value::CHAR(-1));
        b.set_value(4, 1, Value::CHAR(64));
        b.set_value(5, 0, Value::STRINGOFF(0, String::from("Left")));
        b.set_value(5, 1, Value::STRINGOFF(0, String::from("Right")));
        b.update_layout();
        let bytes = b.to_bytes(endian).unwrap();
        assert_eq!(bytes.len() % 32, 0);

        let mut back = BCSV::new();
        back.read(&bytes, endian).unwrap();
        let again = back.to_bytes(endian).unwrap();
        assert_eq!(bytes, again);
    }
}

#[test]
fn fixed_string_field_round_trips() {
    let mut b = BCSV::new();
    b.header.entrycount = 1;
    b.new_field(Field::new_with_type("raw", FieldType::STRING));
    let mut buf = vec![0u8; 32];
    buf[..5].copy_from_slice(b"hello");
    b.set_value(0, 0, Value::STRING(buf.clone()));
    b.update_layout();
    let bytes = b.to_bytes(Endian::Little).unwrap();
    let mut back = BCSV::new();
    back.read(&bytes, Endian::Little).unwrap();
    let col = back.get_values(&b.fields[0]).unwrap();
    match &col[0] {
        Value::STRING(s) => assert_eq!(s, &buf),
        _ => panic!("wrong variant"),
    }
    let again = back.to_bytes(Endian::Little).unwrap();
    assert_eq!(bytes, again);
}

#[test]
fn shift_jis_string_survives_round_trip() {
    // a katakana name is two Shift-JIS bytes on disk, three UTF-8 bytes in
    // memory; the decoder must hand back the original character
    let mut b = BCSV::new();
    b.header.entrycount = 1;
    b.new_field(stringoff_field("n"));
    b.set_value(0, 0, Value::STRINGOFF(0, String::from("\u{30AB}")));
    b.update_layout();
    let bytes = b.to_bytes(Endian::Big).unwrap();
    // the encoded form is 0x83 0x4A, not the UTF-8 bytes
    assert_eq!(&bytes[32..35], &[0x83, 0x4A, 0x00]);
    let mut back = BCSV::new();
    back.read(&bytes, Endian::Big).unwrap();
    let col = back.get_values(&b.fields[0]).unwrap();
    match &col[0] {
        Value::STRINGOFF(o, s) => {
            assert_eq!(*o, 0);
            assert_eq!(s, "\u{30AB}");
        },
        _ => panic!("wrong variant"),
    }
}

#[test]
fn unknown_type_tag_degrades_to_null() {
    assert_eq!(FieldType::from_u8(7), FieldType::NULL);
    assert_eq!(FieldType::from_u8(200), FieldType::NULL);
    assert_eq!(FieldType::from_u8(6), FieldType::STRINGOFF);
    let f = Field {
        hash: 1,
        mask: 0,
        dataoff: 0,
        shift: 0,
        datatype: 9,
    };
    assert_eq!(f.get_field_type(), FieldType::NULL);
}

#[test]
fn unresolvable_string_offset_keeps_empty_string() {
    // the stored offset points past the end of the data: best effort, the
    // value keeps an empty string, the read still succeeds
    let mut data = Vec::new();
    for w in [1u32, 1, 28, 4] {
        data.extend_from_slice(&w.to_be_bytes());
    }
    let field = Field::new_with_type("n", FieldType::STRINGOFF);
    data.extend_from_slice(&field.hash.to_be_bytes());
    data.extend_from_slice(&field.mask.to_be_bytes());
    data.extend_from_slice(&field.dataoff.to_be_bytes());
    data.push(field.shift);
    data.push(field.datatype);
    data.extend_from_slice(&500u32.to_be_bytes());
    let mut b = BCSV::new();
    b.read(&data, Endian::Big).unwrap();
    let col = b.get_values(&field).unwrap();
    match &col[0] {
        Value::STRINGOFF(o, s) => {
            assert_eq!(*o, 500);
            assert_eq!(s, "");
        },
        _ => panic!("wrong variant"),
    }
}

#[test]
fn rekey_field_keeps_column() {
    let mut b = BCSV::new();
    b.header.entrycount = 1;
    b.new_field(Field::new_with_type("old", FieldType::LONG));
    b.set_value(0, 0, Value::LONG(5));
    let renamed = Field::new_with_type("new", FieldType::LONG);
    b.set_field(0, renamed);
    let col = b.get_values(&renamed).unwrap();
    assert!(matches!(col[0], Value::LONG(5)));
    assert!(b.get_values(&Field::new_with_type("old", FieldType::LONG)).is_none());
}

#[test]
fn add_value_checks_type_and_field() {
    let mut b = BCSV::new();
    let f = Field::new_with_type("a", FieldType::LONG);
    b.new_field(f);
    b.add_value(f, Value::SHORT(1));
    assert_eq!(b.get_values(&f).unwrap().len(), 0);
    b.add_value(f, Value::LONG(1));
    assert_eq!(b.get_values(&f).unwrap().len(), 1);
    let absent = Field::new_with_type("zz", FieldType::LONG);
    b.add_value(absent, Value::LONG(2));
    assert!(b.get_values(&absent).is_none());
}

#[test]
fn error_messages_name_the_failure() {
    assert!(BcsvError::TruncatedInput.message().contains("fixed-width"));
    assert!(BcsvError::LayoutMismatch.message().contains("string table"));
}

#[test]
fn descriptors_keep_declared_order_rows_follow_rank() {
    // declared [STRINGOFF, LONG]; the row block lays the LONG first, and
    // the emitted descriptors keep declared order but carry the repacked
    // offsets
    let mut b = BCSV::new();
    b.header.entrycount = 1;
    b.new_field(stringoff_field("n"));
    b.new_field(Field::new_with_type("a", FieldType::LONG));
    b.set_value(0, 0, Value::STRINGOFF(0, String::from("X")));
    b.set_value(1, 0, Value::LONG(7));
    b.update_layout();
    assert_eq!(b.fields[0].dataoff, 4);
    assert_eq!(b.fields[1].dataoff, 0);
    assert_eq!(b.header.entrysize, 8);
    assert_eq!(b.header.entrydataoff, 40);
    let bytes = b.to_bytes(Endian::Big).unwrap();
    // first descriptor is still the STRINGOFF field, with offset four
    assert_eq!(bytes[27], 6);
    assert_eq!(&bytes[24..26], &[0, 4]);
    // second descriptor is the LONG field, with offset zero
    assert_eq!(bytes[39], 0);
    assert_eq!(&bytes[36..38], &[0, 0]);
    // the row holds the LONG word first, then the string offset
    assert_eq!(&bytes[40..44], &[0, 0, 0, 7]);
    assert_eq!(&bytes[44..48], &[0, 0, 0, 0]);
    assert_eq!(&bytes[48..50], b"X\0");
}

#[test]
fn unknown_type_field_round_trips() {
    // a field with an unknown tag contributes no row bytes but keeps its
    // raw tag through a round trip
    let mut b = BCSV::new();
    b.header.entrycount = 2;
    b.new_field(Field {
        hash: 0x99,
        mask: 0,
        dataoff: 0,
        shift: 0,
        datatype: 9,
    });
    b.new_field(Field::new_with_type("a", FieldType::LONG));
    b.set_value(1, 0, Value::LONG(1));
    b.set_value(1, 1, Value::LONG(2));
    b.update_layout();
    assert_eq!(b.header.entrysize, 4);
    let bytes = b.to_bytes(Endian::Little).unwrap();
    let mut back = BCSV::new();
    back.read(&bytes, Endian::Little).unwrap();
    assert_eq!(back.fields[0].datatype, 9);
    let col = back
        .get_values(&Field {
            hash: 0x99,
            mask: 0,
            dataoff: 0,
            shift: 0,
            datatype: 9,
        })
        .unwrap();
    assert!(matches!(col[0], Value::NULL));
    let again = back.to_bytes(Endian::Little).unwrap();
    assert_eq!(bytes, again);
}

#[test]
fn ulong_read_shift_zero_fills() {
    // the unsigned width shifts in zeros: 0x80000000 >> 1 == 0x40000000
    let f = Field::new("u", 0xFFFF_FFFF, 1, FieldType::ULONG);
    let mut v = Value::ULONG(0x8000_0000);
    v.recalc(f);
    match v {
        Value::ULONG(u) => assert_eq!(u, 0x4000_0000),
        _ => panic!("wrong variant"),
    }
    // the signed width propagates its sign bit instead
    let g = Field::new("l", 0xFFFF_FFFF, 1, FieldType::LONG);
    let mut w = Value::LONG(i32::MIN);
    w.recalc(g);
    match w {
        Value::LONG(l) => assert_eq!(l as u32, 0xC000_0000),
        _ => panic!("wrong variant"),
    }
}

#[test]
fn ulong_decodes_with_zero_fill_through_read() {
    // a ULONG slot 0x80000000 under shift 1 must decode to 0x40000000
    let mut data = Vec::new();
    for w in [1u32, 1, 28, 4] {
        data.extend_from_slice(&w.to_be_bytes());
    }
    let field = Field::new("u", 0xFFFF_FFFF, 1, FieldType::ULONG);
    data.extend_from_slice(&field.hash.to_be_bytes());
    data.extend_from_slice(&field.mask.to_be_bytes());
    data.extend_from_slice(&field.dataoff.to_be_bytes());
    data.push(field.shift);
    data.push(field.datatype);
    data.extend_from_slice(&0x8000_0000u32.to_be_bytes());
    let mut b = BCSV::new();
    b.read(&data, Endian::Big).unwrap();
    let col = b.get_values(&field).unwrap();
    assert!(matches!(col[0], Value::ULONG(0x4000_0000)));
}

#[test]
fn well_formedness_is_decidable() {
    let mut b = BCSV::new();
    b.header.entrycount = 1;
    b.new_field(Field::new_with_type("s", FieldType::STRING));
    assert!(b.is_well_formed());
    // a short fixed-string buffer breaks the shape
    b.set_value(0, 0, Value::STRING(vec![0u8; 5]));
    assert!(!b.is_well_formed());
    b.set_value(0, 0, Value::STRING(vec![0u8; 32]));
    assert!(b.is_well_formed());
    // a column shorter than the entry count breaks the shape
    b.header.entrycount = 2;
    assert!(!b.is_well_formed());
}
