use pprz::messages::{field_kind, parse_id, validate_message, FieldDefinition, MessageDefinition};
use pprz::messages::{parse_dictionary, DecodeError, DictionaryError, FieldKind, FieldValue};
use pprz::protocol::Frame;

const DICTIONARY: &str = r#"
  <protocol><class name="telemetry">
    <message name="ATTITUDE" ID="6"><field name="phi" type="int16"/><field name="psi" type="int16"/><field name="theta" type="int16"/></message>
    <message name="COMMANDS" id="0x66"><field name="values" type="int16[]"/></message>
  </class></protocol>
"#;

#[test]
fn parses_and_decodes_scalars() {
    let dictionary = parse_dictionary(DICTIONARY, "telemetry").expect("dictionary parses");
    let message = dictionary
        .decode(&Frame::new(61, 6, vec![0x34, 0x12, 0xfe, 0xff, 0, 0x80]))
        .expect("payload decodes");
    assert_eq!(message.name, "ATTITUDE");
    assert_eq!(message.fields[0].value, FieldValue::I16(0x1234));
    assert_eq!(message.fields[1].value, FieldValue::I16(-2));
    assert_eq!(message.fields[2].value, FieldValue::I16(i16::MIN));
}

#[test]
fn decodes_variable_array_at_end() {
    let dictionary = parse_dictionary(DICTIONARY, "telemetry").expect("dictionary parses");
    let message = dictionary
        .decode(&Frame::new(61, 102, vec![1, 0, 0xfe, 0xff]))
        .expect("payload decodes");
    assert_eq!(message.fields[0].value, FieldValue::I16Array(vec![1, -2]));
}

#[test]
fn rejects_unknown_message() {
    let dictionary = parse_dictionary(DICTIONARY, "telemetry").expect("dictionary parses");
    assert_eq!(dictionary.decode(&Frame::new(61, 7, vec![])), Err(DecodeError::UnknownMessage(7)));
}

const ALL_KINDS: &str = r#"
  <protocol>
    <class name="other"><message name="IGNORED" id="1"/></class>
    <class name="telemetry">
      <message name="SCALARS" id="1">
        <field name="a" type="uint8"/><field name="b" type="int8"/><field name="c" type="uint16"/>
        <field name="d" type="uint32"/><field name="e" type="int32"/><field name="f" type="float"/>
      </message>
      <message name="BYTES" id="+2"><field name="head" type="uint8"/><field name="rest" type="uint8[]"/></message>
      <message name="WORDS" id="0xff"><field name="w" type="uint16[]"/></message>
      <message name="PING" id="3"/>
      <message name="FIRST" id="4"><field name="x" type="uint8"/></message>
      <message name="SECOND" id="4"><field name="x" type="uint16"/></message>
    </class>
  </protocol>
"#;

#[test]
fn lists_messages_in_xml_order() {
    let dictionary = parse_dictionary(ALL_KINDS, "telemetry").expect("dictionary parses");
    let names: Vec<&str> = dictionary.messages().iter().map(|m| m.name.as_str()).collect();
    assert_eq!(names, vec!["SCALARS", "BYTES", "WORDS", "PING", "FIRST", "SECOND"]);
    assert_eq!(dictionary.message(2).map(|m| m.fields[1].kind), Some(FieldKind::U8Array));
    assert_eq!(dictionary.message(255).map(|m| m.name.as_str()), Some("WORDS"));
    assert_eq!(dictionary.message(4).map(|m| m.name.as_str()), Some("FIRST"));
    assert!(dictionary.message(5).is_none());
}

#[test]
fn decodes_every_scalar_kind() {
    let dictionary = parse_dictionary(ALL_KINDS, "telemetry").expect("dictionary parses");
    let payload = vec![0xff, 0x80, 0x34, 0x12, 0x78, 0x56, 0x34, 0x12, 0xfe, 0xff, 0xff, 0xff, 0x00, 0x00, 0x80, 0x3f];
    let message = dictionary.decode(&Frame::new(3, 1, payload)).expect("payload decodes");
    assert_eq!(message.aircraft_id, 3);
    assert_eq!(message.id, 1);
    let values: Vec<FieldValue> = message.fields.iter().map(|f| f.value.clone()).collect();
    assert_eq!(
        values,
        vec![
            FieldValue::U8(255),
            FieldValue::I8(-128),
            FieldValue::U16(0x1234),
            FieldValue::U32(0x1234_5678),
            FieldValue::I32(-2),
            FieldValue::F32(1.0f32.to_bits()),
        ]
    );
    assert_eq!(message.fields[5].name, "f");
}

#[test]
fn decodes_arrays_and_empty_messages() {
    let dictionary = parse_dictionary(ALL_KINDS, "telemetry").expect("dictionary parses");
    let bytes = dictionary.decode(&Frame::new(1, 2, vec![9, 1, 2, 3])).expect("decodes");
    assert_eq!(bytes.fields[1].value, FieldValue::U8Array(vec![1, 2, 3]));
    let words = dictionary.decode(&Frame::new(1, 255, vec![1, 0, 0xff, 0xff])).expect("decodes");
    assert_eq!(words.fields[0].value, FieldValue::U16Array(vec![1, 0xffff]));
    let ping = dictionary.decode(&Frame::new(1, 3, vec![])).expect("decodes");
    assert!(ping.fields.is_empty());
    let first = dictionary.decode(&Frame::new(1, 4, vec![7])).expect("first definition wins");
    assert_eq!(first.name, "FIRST");
}

#[test]
fn reports_payload_errors() {
    let dictionary = parse_dictionary(ALL_KINDS, "telemetry").expect("dictionary parses");
    assert_eq!(
        dictionary.decode(&Frame::new(1, 1, vec![1, 2, 3])),
        Err(DecodeError::PayloadTooShort { needed: 2, available: 1 })
    );
    assert_eq!(
        dictionary.decode(&Frame::new(1, 255, vec![1, 2, 3])),
        Err(DecodeError::MisalignedArray { element_width: 2, available: 3 })
    );
    assert_eq!(dictionary.decode(&Frame::new(1, 3, vec![0, 0])), Err(DecodeError::TrailingBytes(2)));
    assert_eq!(
        dictionary.decode(&Frame::new(1, 4, vec![])),
        Err(DecodeError::PayloadTooShort { needed: 1, available: 0 })
    );
}

#[test]
fn reports_dictionary_errors() {
    assert_eq!(
        parse_dictionary(DICTIONARY, "datalink"),
        Err(DictionaryError::MissingClass("datalink".into()))
    );
    assert_eq!(
        parse_dictionary(r#"<class name="c"><message name="M" id="256"></message></class>"#, "c"),
        Err(DictionaryError::InvalidMessageId("256".into()))
    );
    assert_eq!(
        parse_dictionary(r#"<class name="c"><message name="M" id="0xZZ"></message></class>"#, "c"),
        Err(DictionaryError::InvalidMessageId("0xZZ".into()))
    );
    assert_eq!(
        parse_dictionary(r#"<class name="c"><message id="1"></message></class>"#, "c"),
        Err(DictionaryError::MissingAttribute("name"))
    );
    assert_eq!(
        parse_dictionary(r#"<class name="c"><message name="M"></message></class>"#, "c"),
        Err(DictionaryError::MissingAttribute("id"))
    );
    assert_eq!(
        parse_dictionary(r#"<class name="c"><message name="M" id="1"><field name="x"/></message></class>"#, "c"),
        Err(DictionaryError::MissingAttribute("type"))
    );
    assert_eq!(
        parse_dictionary(r#"<class name="c"><message name="M" id="1"><field name="x" type="double"/></message></class>"#, "c"),
        Err(DictionaryError::UnsupportedFieldType("double".into()))
    );
    assert_eq!(
        parse_dictionary(
            r#"<class name="c"><message name="M" id="1"><field name="a" type="uint8[]"/><field name="b" type="uint8"/></message></class>"#,
            "c"
        ),
        Err(DictionaryError::VariableArrayNotLast("M".into()))
    );
    assert!(matches!(parse_dictionary("<class name=\"c\"></klass>", "c"), Err(DictionaryError::Xml(_))));
}

#[test]
fn parses_identifiers_like_std() {
    assert_eq!(parse_id("6"), Ok(6));
    assert_eq!(parse_id("+255"), Ok(255));
    assert_eq!(parse_id("0x66"), Ok(0x66));
    assert_eq!(parse_id("0xFf"), Ok(255));
    assert_eq!(parse_id("0x+1f"), Ok(0x1f));
    assert_eq!(parse_id("007"), Ok(7));
    for bad in ["", "+", "-1", "256", "0x", "0x100", "1a", "x1", " 1", "0X10", "١"] {
        assert_eq!(parse_id(bad), Err(DictionaryError::InvalidMessageId(bad.into())), "{bad:?}");
    }
}

#[test]
fn names_supported_field_kinds() {
    assert_eq!(field_kind("uint8"), Some(FieldKind::U8));
    assert_eq!(field_kind("int32"), Some(FieldKind::I32));
    assert_eq!(field_kind("float"), Some(FieldKind::F32));
    assert_eq!(field_kind("uint16[]"), Some(FieldKind::U16Array));
    assert_eq!(field_kind("double"), None);
    assert_eq!(field_kind("uint8 "), None);
}

#[test]
fn validates_array_position() {
    let field = |name: &str, kind| FieldDefinition { name: name.into(), kind };
    let ok = MessageDefinition { id: 1, name: "OK".into(), fields: vec![field("a", FieldKind::U8), field("b", FieldKind::I16Array)] };
    assert_eq!(validate_message(&ok), Ok(()));
    let empty = MessageDefinition { id: 2, name: "EMPTY".into(), fields: vec![] };
    assert_eq!(validate_message(&empty), Ok(()));
    let bad = MessageDefinition { id: 3, name: "BAD".into(), fields: vec![field("a", FieldKind::U8Array), field("b", FieldKind::U8)] };
    assert_eq!(validate_message(&bad), Err(DictionaryError::VariableArrayNotLast("BAD".into())));
}

#[test]
fn lists_nested_messages_in_completion_order() {
    let dictionary = parse_dictionary(
        r#"<class name="c"><message name="OUTER" id="1"><message name="INNER" id="2"/></message></class>"#,
        "c",
    )
    .expect("dictionary parses");
    let names: Vec<&str> = dictionary.messages().iter().map(|m| m.name.as_str()).collect();
    assert_eq!(names, vec!["INNER", "OUTER"]);
}

#[test]
fn cloned_dictionary_decodes_alike() {
    let dictionary = parse_dictionary(DICTIONARY, "telemetry").expect("dictionary parses");
    let copy = dictionary.clone();
    assert_eq!(copy, dictionary);
    let frame = Frame::new(1, 102, vec![1, 0]);
    assert_eq!(copy.decode(&frame), dictionary.decode(&frame));
}

#[test]
fn decode_succeeds_exactly_when_payload_fits() {
    let dictionary = parse_dictionary(ALL_KINDS, "telemetry").expect("dictionary parses");
    for len in 0..8 {
        let ok = dictionary.decode(&Frame::new(1, 2, vec![0; len])).is_ok();
        assert_eq!(ok, len >= 1, "BYTES with {len} bytes");
        let ok = dictionary.decode(&Frame::new(1, 255, vec![0; len])).is_ok();
        assert_eq!(ok, len % 2 == 0, "WORDS with {len} bytes");
        let ok = dictionary.decode(&Frame::new(1, 1, vec![0; len])).is_ok();
        assert!(!ok, "SCALARS needs 16 bytes");
    }
    assert!(dictionary.decode(&Frame::new(1, 1, vec![0; 16])).is_ok());
}
