use tremor_core::gbq::{
    append_reply, encode_field, Field, JsonToProtobufMapping, SinkReply, TableField, Value,
};

fn tf(name: &[u8], type_code: i32) -> TableField {
    TableField {
        name: name.to_vec(),
        type_code,
        fields: Vec::new(),
    }
}

#[test]
fn maps_scalars_with_sequential_tags() {
    // int64 then string: tags 1 and 2 in schema order.
    let schema = vec![tf(b"a", 2), tf(b"b", 1)];
    let mapping = JsonToProtobufMapping::new(&schema);
    let record = Value::Object(vec![
        (b"a".to_vec(), Value::I64(150)),
        (b"b".to_vec(), Value::Str(b"test".to_vec())),
    ]);
    let encoded = mapping.map(&record).expect("map failed");
    // tag 1 varint: key 0x08, 150 = 0x96 0x01; tag 2 string: key 0x12,
    // length 4, then the bytes.
    let expected = vec![0x08, 0x96, 0x01, 0x12, 0x04, b't', b'e', b's', b't'];
    assert_eq!(encoded, expected);
}

#[test]
fn encoded_length_is_sum_of_field_lengths() {
    let schema = vec![tf(b"a", 2), tf(b"b", 1), tf(b"c", 6)];
    let mapping = JsonToProtobufMapping::new(&schema);
    // Each field alone.
    let f1 = mapping
        .map(&Value::Object(vec![(b"a".to_vec(), Value::I64(7))]))
        .unwrap();
    let f2 = mapping
        .map(&Value::Object(vec![(
            b"b".to_vec(),
            Value::Str(b"xy".to_vec()),
        )]))
        .unwrap();
    let f3 = mapping
        .map(&Value::Object(vec![(b"c".to_vec(), Value::Bool(true))]))
        .unwrap();
    // All together, in record order.
    let all = mapping
        .map(&Value::Object(vec![
            (b"a".to_vec(), Value::I64(7)),
            (b"b".to_vec(), Value::Str(b"xy".to_vec())),
            (b"c".to_vec(), Value::Bool(true)),
        ]))
        .unwrap();
    assert_eq!(all.len(), f1.len() + f2.len() + f3.len());
    let mut joined = f1.clone();
    joined.extend_from_slice(&f2);
    joined.extend_from_slice(&f3);
    assert_eq!(all, joined);
}

#[test]
fn unknown_record_keys_are_dropped() {
    let schema = vec![tf(b"a", 2)];
    let mapping = JsonToProtobufMapping::new(&schema);
    let with_unknown = mapping
        .map(&Value::Object(vec![
            (b"nosuch".to_vec(), Value::Str(b"zzz".to_vec())),
            (b"a".to_vec(), Value::I64(1)),
            (b"other".to_vec(), Value::Bool(true)),
        ]))
        .unwrap();
    let known_only = mapping
        .map(&Value::Object(vec![(b"a".to_vec(), Value::I64(1))]))
        .unwrap();
    assert_eq!(with_unknown, known_only);
}

#[test]
fn type_mismatch_fails_the_event() {
    let schema = vec![tf(b"a", 2)];
    let mapping = JsonToProtobufMapping::new(&schema);
    let bad = mapping.map(&Value::Object(vec![(
        b"a".to_vec(),
        Value::Str(b"not an int".to_vec()),
    )]));
    assert!(bad.is_err());
}

#[test]
fn unknown_schema_types_are_skipped() {
    // Type code 99 is unknown, 0 is unspecified: both fields are skipped
    // and the remaining field still gets tag 1.
    let schema = vec![tf(b"weird", 99), tf(b"none", 0), tf(b"a", 2)];
    let mapping = JsonToProtobufMapping::new(&schema);
    assert_eq!(mapping.fields.len(), 1);
    assert_eq!(mapping.descriptor().fields.len(), 1);
    assert_eq!(mapping.descriptor().fields[0].number, 1);
    let encoded = mapping
        .map(&Value::Object(vec![(b"a".to_vec(), Value::I64(1))]))
        .unwrap();
    assert_eq!(encoded, vec![0x08, 0x01]);
}

#[test]
fn nested_structs_are_length_delimited() {
    let schema = vec![TableField {
        name: b"inner".to_vec(),
        type_code: 4,
        fields: vec![tf(b"x", 2)],
    }];
    let mapping = JsonToProtobufMapping::new(&schema);
    let record = Value::Object(vec![(
        b"inner".to_vec(),
        Value::Object(vec![(b"x".to_vec(), Value::I64(1))]),
    )]);
    let encoded = mapping.map(&record).expect("map failed");
    // Outer: tag 1 length-delimited (key 0x0a), length 2; inner: tag 1
    // varint (key 0x08), value 1.
    assert_eq!(encoded, vec![0x0a, 0x02, 0x08, 0x01]);
    // The descriptor names the nested type.
    assert_eq!(
        mapping.descriptor().fields[0].nested_name,
        Some(b"struct_inner".to_vec())
    );
    assert_eq!(mapping.descriptor().nested.len(), 1);
}

#[test]
fn doubles_are_eight_bytes_of_bits() {
    let schema = vec![tf(b"d", 3)];
    let mapping = JsonToProtobufMapping::new(&schema);
    let bits = 1.5f64.to_bits();
    let encoded = mapping
        .map(&Value::Object(vec![(b"d".to_vec(), Value::F64Bits(bits))]))
        .unwrap();
    let mut expected = vec![0x09];
    expected.extend_from_slice(&bits.to_le_bytes());
    assert_eq!(encoded, expected);
}

#[test]
fn json_fields_carry_quoted_strings() {
    let schema = vec![tf(b"j", 15)];
    let mapping = JsonToProtobufMapping::new(&schema);
    let encoded = mapping
        .map(&Value::Object(vec![(
            b"j".to_vec(),
            Value::Str(b"a\"b".to_vec()),
        )]))
        .unwrap();
    // tag 1 length-delimited: "a\"b" quoted is 6 bytes.
    assert_eq!(encoded, vec![0x0a, 0x06, b'"', b'a', b'\\', b'"', b'b', b'"']);
}

#[test]
fn struct_unknown_subfield_is_a_mismatch() {
    let schema = vec![TableField {
        name: b"inner".to_vec(),
        type_code: 4,
        fields: vec![tf(b"x", 2)],
    }];
    let mapping = JsonToProtobufMapping::new(&schema);
    let record = Value::Object(vec![(
        b"inner".to_vec(),
        Value::Object(vec![(b"nosuch".to_vec(), Value::I64(1))]),
    )]);
    assert!(mapping.map(&record).is_err());
}

#[test]
fn non_object_records_encode_to_nothing() {
    let schema = vec![tf(b"a", 2)];
    let mapping = JsonToProtobufMapping::new(&schema);
    assert_eq!(mapping.map(&Value::I64(3)).unwrap(), Vec::<u8>::new());
}

#[test]
fn encode_field_appends_and_reports_mismatch() {
    let f = Field {
        table_type: tremor_core::gbq::ColumnType::Int64,
        tag: 1,
        subfields: Vec::new(),
    };
    let mut out = vec![0xaa];
    assert!(encode_field(&Value::I64(1), &f, &mut out).is_ok());
    assert_eq!(out, vec![0xaa, 0x08, 0x01]);
    let mut out2 = vec![0xaa];
    assert!(encode_field(&Value::Bool(true), &f, &mut out2).is_err());
    assert_eq!(out2, vec![0xaa]);
}

#[test]
fn append_replies_follow_the_first_response() {
    assert_eq!(append_reply(Some(true)), SinkReply::Ack);
    assert_eq!(append_reply(Some(false)), SinkReply::Fail);
    assert_eq!(append_reply(None), SinkReply::Fail);
}
