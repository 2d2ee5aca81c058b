use serde_vici::de::{from_reader, from_slice, AnyKind, Deserializer, State};
use serde_vici::error::{Category, ErrorCode};
use serde_vici::read::{ByteSource, Reference};
use serde_vici::ser::{to_vec, Serializer};
use serde_vici::value::{FieldType, ListElement, Value};
use serde_vici::ElementType;

fn text(s: &str) -> Value {
    Value::Text(s.as_bytes().to_vec())
}

fn section(entries: Vec<(&str, Value)>) -> Value {
    Value::Section(entries.into_iter().map(|(k, v)| (k.as_bytes().to_vec(), v)).collect())
}

/// A source that hands out one byte per read.
struct Trickle<'a> {
    data: &'a [u8],
}

impl<'a> ByteSource for Trickle<'a> {
    fn read_chunk(&mut self, chunk: &mut Vec<u8>) -> std::io::Result<usize> {
        if self.data.is_empty() || chunk.is_empty() {
            return Ok(0);
        }
        chunk[0] = self.data[0];
        self.data = &self.data[1..];
        Ok(1)
    }
}

#[test]
fn single_key_value_bytes() {
    let bytes = to_vec(&section(vec![("key1", text("value1"))])).unwrap();
    assert_eq!(
        bytes,
        vec![3, 4, b'k', b'e', b'y', b'1', 0, 6, b'v', b'a', b'l', b'u', b'e', b'1']
    );
}

#[test]
fn scalar_list_bytes() {
    let v = section(vec![("list1", Value::List(vec![text("item1"), text("item2")]))]);
    let bytes = to_vec(&v).unwrap();
    assert_eq!(
        bytes,
        vec![
            4, 5, b'l', b'i', b's', b't', b'1', 5, 0, 5, b'i', b't', b'e', b'm', b'1', 5, 0, 5,
            b'i', b't', b'e', b'm', b'2', 6,
        ]
    );
    assert_eq!(from_slice(&bytes).unwrap(), v);
}

#[test]
fn absent_field_reencodes_as_zero_length() {
    let v = section(vec![
        ("address", text("192.0.2.5")),
        ("identity", Value::Absent),
    ]);
    let bytes = to_vec(&v).unwrap();
    let tail = &bytes[bytes.len() - 12..];
    assert_eq!(tail, &[3, 8, b'i', b'd', b'e', b'n', b't', b'i', b't', b'y', 0, 0]);

    // Read back where an optional is allowed, the zero length is absent.
    let mut de = Deserializer::from_slice(&bytes);
    assert!(de.next_key().unwrap());
    de.parse_str().unwrap();
    de.next_value();
    de.parse_str().unwrap();
    assert!(de.next_key().unwrap());
    assert_eq!(de.parse_str().unwrap().get(), "identity");
    de.next_value();
    assert!(!de.next_is_some().unwrap());
    assert_eq!(de.position(), bytes.len());
}

#[test]
fn record_list_indexed_by_position() {
    let v = section(vec![(
        "leases",
        Value::List(vec![
            section(vec![("a", text("1"))]),
            section(vec![("a", text("2"))]),
            section(vec![("a", text("3"))]),
        ]),
    )]);
    let bytes = to_vec(&v).unwrap();
    assert_eq!(
        bytes,
        vec![
            1, 6, b'l', b'e', b'a', b's', b'e', b's', 1, 1, b'0', 3, 1, b'a', 0, 1, b'1', 2, 1, 1,
            b'1', 3, 1, b'a', 0, 1, b'2', 2, 1, 1, b'2', 3, 1, b'a', 0, 1, b'3', 2, 2,
        ]
    );
    let back = from_slice(&bytes).unwrap();
    assert_eq!(
        back,
        section(vec![(
            "leases",
            section(vec![
                ("0", section(vec![("a", text("1"))])),
                ("1", section(vec![("a", text("2"))])),
                ("2", section(vec![("a", text("3"))])),
            ]),
        )])
    );
}

#[test]
fn malformed_utf8_in_value() {
    let bytes = vec![3, 1, b'k', 0, 3, b'a', 0xff, b'b'];
    let e = from_slice(&bytes).unwrap_err();
    assert!(matches!(e.code(), ErrorCode::InvalidUnicodeCodePoint));
    assert_eq!(e.position(), Some(6));
    assert_eq!(e.input(), Some(0xff));
    assert_eq!(e.classify(), Category::Data);

    let e = from_reader(bytes.as_slice()).unwrap_err();
    assert_eq!(e.position(), Some(6));

    let mut de = Deserializer::from_reader(Trickle { data: &bytes });
    assert!(de.next_key().unwrap());
    assert_eq!(de.parse_str().unwrap().get(), "k");
    de.next_value();
    let e = de.parse_str().unwrap_err();
    assert!(matches!(e.code(), ErrorCode::InvalidUnicodeCodePoint));
    assert_eq!(e.position(), Some(6));
}

#[test]
fn truncation_fails_with_end_of_input() {
    let v = section(vec![
        ("key1", text("value1")),
        (
            "section1",
            section(vec![
                ("sub-section", section(vec![("key2", text("value2"))])),
                ("list1", Value::List(vec![text("item1"), text("item2")])),
            ]),
        ),
    ]);
    let bytes = to_vec(&v).unwrap();
    for cut in 0..bytes.len() {
        let r = from_slice(&bytes[..cut]);
        if cut == 0 || cut == 14 {
            // a cut between two top-level entries leaves a shorter message
            assert!(r.is_ok());
        } else {
            let e = r.unwrap_err();
            assert!(e.is_eof(), "cut at {}", cut);
        }
    }
}

#[test]
fn round_trip_keeps_a_plain_map() {
    let v = section(vec![
        ("a", text("")),
        ("b", section(vec![])),
        ("c", Value::List(vec![])),
        ("d", section(vec![("e", Value::List(vec![text("x")]))])),
    ]);
    let bytes = to_vec(&v).unwrap();
    assert_eq!(from_slice(&bytes).unwrap(), v);
    assert_eq!(from_reader(Trickle { data: &bytes }).unwrap(), v);
}

#[test]
fn probe_classifies_by_shape() {
    assert_eq!(FieldType::from(&text("x")), FieldType::String);
    assert_eq!(FieldType::from(&Value::Absent), FieldType::String);
    assert_eq!(FieldType::from(&section(vec![])), FieldType::Section);
    assert_eq!(FieldType::from(&Value::List(vec![])), FieldType::List(ListElement::String));
    assert_eq!(
        FieldType::from(&Value::List(vec![text("x"), section(vec![])])),
        FieldType::List(ListElement::String)
    );
    assert_eq!(
        FieldType::from(&Value::List(vec![section(vec![]), text("x")])),
        FieldType::List(ListElement::Section)
    );
    let v = section(vec![("k", section(vec![]))]);
    assert_eq!(FieldType::from(&v), FieldType::from(&v));
    assert_eq!(to_vec(&v).unwrap()[0], ElementType::SectionStart.as_byte());
}

#[test]
fn absent_in_key_and_value_position() {
    let mut ser = Serializer::new();
    assert!(ser.serialize_none().is_err());
    ser.serialize_map().unwrap();
    ser.begin_entry(FieldType::String);
    ser.serialize_none().unwrap();
    ser.begin_value();
    ser.serialize_none().unwrap();
    assert_eq!(ser.into_inner(), vec![3, 0, 0, 0]);
}

#[test]
fn top_level_is_always_present() {
    let bytes = vec![3, 1, b'k', 0, 0];
    let mut de = Deserializer::from_slice(&bytes);
    assert_eq!(de.state(), State::Root);
    assert!(de.next_is_some().unwrap());
    assert_eq!(de.position(), 0);
}

fn bool_at(value: &[u8]) -> Result<bool, serde_vici::error::Error> {
    let mut bytes = vec![3, 1, b'k', 0, value.len() as u8];
    bytes.extend_from_slice(value);
    let mut de = Deserializer::from_slice(&bytes);
    assert!(de.next_key().unwrap());
    de.parse_str().unwrap();
    de.next_value();
    de.parse_bool()
}

#[test]
fn booleans_are_yes_and_no_only() {
    assert_eq!(bool_at(b"yes").unwrap(), true);
    assert_eq!(bool_at(b"no").unwrap(), false);
    for other in [&b"Yes"[..], b"1", b"", b"true", b"no "] {
        let e = bool_at(other).unwrap_err();
        assert!(matches!(e.code(), ErrorCode::InvalidBool));
        assert!(e.id_data());
    }
}

#[test]
fn serializer_writes_numbers_and_booleans_as_text() {
    let mut ser = Serializer::new();
    ser.serialize_map().unwrap();
    ser.begin_entry(FieldType::String);
    ser.serialize_str("n").unwrap();
    ser.begin_value();
    ser.serialize_u64(1234).unwrap();
    ser.begin_entry(FieldType::String);
    ser.serialize_str("m").unwrap();
    ser.begin_value();
    ser.serialize_i64(-5).unwrap();
    ser.begin_entry(FieldType::String);
    ser.serialize_str("b").unwrap();
    ser.begin_value();
    ser.serialize_bool(true).unwrap();
    ser.end_map();
    assert_eq!(
        ser.output(),
        &[
            3, 1, b'n', 0, 4, b'1', b'2', b'3', b'4', 3, 1, b'm', 0, 2, b'-', b'5', 3, 1, b'b', 0,
            3, b'y', b'e', b's',
        ]
    );
}

#[test]
fn long_value_gets_two_byte_length() {
    let long = vec![b'x'; 300];
    let bytes = to_vec(&section(vec![("k", Value::Text(long.clone()))])).unwrap();
    assert_eq!(&bytes[..5], &[3, 1, b'k', 1, 44]);
    assert_eq!(bytes.len(), 5 + 300);
}

#[test]
fn writing_errors() {
    let long_key = "k".repeat(256);
    let e = to_vec(&section(vec![(long_key.as_str(), text("v"))])).unwrap_err();
    assert!(matches!(e.code(), ErrorCode::Unsupported));
    let e = to_vec(&text("top")).unwrap_err();
    assert!(matches!(e.code(), ErrorCode::Unsupported));
    let mixed = Value::List(vec![section(vec![]), text("x")]);
    assert!(to_vec(&section(vec![("l", mixed)])).is_err());
    let nested = Value::List(vec![Value::List(vec![])]);
    assert!(to_vec(&section(vec![("l", nested)])).is_err());
    let mut ser = Serializer::new();
    ser.serialize_map().unwrap();
    ser.begin_entry(FieldType::String);
    let e = ser.serialize_bytes(&vec![b'k'; 256]).unwrap_err();
    assert!(matches!(e.code(), ErrorCode::LengthOverflow));
    assert_eq!(ser.output(), &[3]);
}

#[test]
fn reading_errors() {
    let e = from_slice(&[9]).unwrap_err();
    assert!(matches!(e.code(), ErrorCode::InvalidElementType));
    assert_eq!(e.input(), Some(9));
    assert_eq!(e.position(), Some(0));
    assert!(e.id_data());

    let e = from_slice(&[5, 0, 0]).unwrap_err();
    assert!(matches!(e.code(), ErrorCode::UnexpectedElementType));

    let e = from_slice(&[2]).unwrap_err();
    assert!(matches!(e.code(), ErrorCode::UnexpectedElementType));

    let e = from_slice(&[1, 1, b's']).unwrap_err();
    assert!(matches!(e.code(), ErrorCode::EofWhileParsingElementType));
    assert_eq!(e.classify(), Category::Eof);

    let e = from_slice(&[3, 4, b'k']).unwrap_err();
    assert!(matches!(e.code(), ErrorCode::EofWhileParsingKey));
    assert_eq!(e.position(), Some(1));

    let e = from_slice(&[3, 1, b'k', 0]).unwrap_err();
    assert!(matches!(e.code(), ErrorCode::EofWhileParsingValue));
    assert!(e.is_eof());
    assert!(!e.is_io());
    assert_eq!(e.code().description(), "EOF while parsing value");
}

#[test]
fn unmatched_start_is_end_of_input() {
    let e = from_slice(&[4, 1, b'l', 5, 0, 1, b'x']).unwrap_err();
    assert!(e.is_eof());
    let e = from_slice(&[1, 1, b's', 1, 1, b't', 2]).unwrap_err();
    assert!(e.is_eof());
}

#[test]
fn stepping_through_a_stream() {
    let bytes = vec![
        1, 1, b's', 4, 1, b'l', 5, 0, 1, b'x', 6, 2, 1, 1, b'r', 1, 1, b'0', 2, 2,
    ];
    let mut de = Deserializer::from_reader(Trickle { data: &bytes });
    assert!(de.next_key().unwrap());
    assert_eq!(de.any_kind(), AnyKind::Str);
    assert_eq!(de.parse_str().unwrap().get(), "s");
    de.next_value();
    assert!(de.next_key().unwrap());
    assert_eq!(de.parse_str().unwrap().get(), "l");
    de.next_value();
    assert_eq!(de.any_kind(), AnyKind::Sequence);
    assert_eq!(de.next_element().unwrap(), Some(ListElement::String));
    assert_eq!(de.any_kind(), AnyKind::Bytes);
    assert_eq!(de.parse_raw_value().unwrap().get(), b"x");
    de.end_element(ListElement::String);
    assert_eq!(de.next_element().unwrap(), None);
    assert!(!de.next_key().unwrap());
    assert!(de.next_key().unwrap());
    assert_eq!(de.parse_str().unwrap().get(), "r");
    de.next_value();
    assert_eq!(de.next_element().unwrap(), Some(ListElement::Section));
    assert!(!de.next_key().unwrap());
    de.end_element(ListElement::Section);
    assert_eq!(de.next_element().unwrap(), None);
    assert!(!de.next_key().unwrap());
    assert_eq!(de.position(), bytes.len());
}

#[test]
fn error_positions_and_bytes() {
    let e = from_slice(&[1, 1, b's']).unwrap_err();
    assert!(e.is_eof());
    assert_eq!(e.position(), Some(3));

    let bad = [3, 1, b'k', 0, 2, b'a', 0xff];
    let e = from_slice(&bad).unwrap_err();
    assert!(e.id_data());
    assert_eq!(e.position(), Some(6));
    assert_eq!(e.input(), Some(0xff));
    let e = from_reader(Trickle { data: &bad }).unwrap_err();
    assert!(e.id_data());
    assert_eq!(e.position(), Some(6));
    assert_eq!(e.input(), Some(0xff));

    let cut = [3, 4, b'k', b'e', b'y', b'1', 0, 6, b'v', b'a', b'l', b'u', b'e'];
    let e = from_slice(&cut).unwrap_err();
    assert!(matches!(e.code(), ErrorCode::EofWhileParsingValue));
    assert_eq!(e.position(), Some(6));
    let e = from_reader(Trickle { data: &cut }).unwrap_err();
    assert_eq!(e.position(), Some(6));

    let e = from_slice(&[2]).unwrap_err();
    assert!(matches!(e.code(), ErrorCode::UnexpectedElementType));
    assert_eq!(e.position(), Some(1));
    assert_eq!(e.input(), Some(2));

    let e = from_slice(&[4, 1, b'l', 3]).unwrap_err();
    assert!(matches!(e.code(), ErrorCode::UnexpectedElementType));
    assert_eq!(e.position(), Some(4));
    assert_eq!(e.input(), Some(3));

    let e = from_slice(&[3, 1, b'k', 0, 1, b'v', 7]).unwrap_err();
    assert!(matches!(e.code(), ErrorCode::InvalidElementType));
    assert_eq!(e.position(), Some(6));
    assert_eq!(e.input(), Some(7));
}

#[test]
fn slice_views_are_borrowed_and_stream_views_copied() {
    let bytes = vec![3, 1, b'k', 0, 1, b'v'];
    let mut de = Deserializer::from_slice(&bytes);
    assert!(de.next_key().unwrap());
    assert!(matches!(de.parse_str().unwrap(), Reference::Borrowed("k")));
    let mut de = Deserializer::from_reader(Trickle { data: &bytes });
    assert!(de.next_key().unwrap());
    assert!(matches!(de.parse_str().unwrap(), Reference::Copied("k")));
}
