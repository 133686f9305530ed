use smallish::de::deserialize::{
    special, to_i8, to_u128, to_u16, to_u64, to_u8, AnyKind, Delimiter, FieldValue,
    LocatedField, Special, ESCAPED_SERDE_NAME, LOCATED_SERDE_NAME,
};
use smallish::de::{Deserializer, Error, ParseError, ParserState};
use smallish::syntax::{Event, Value};
use smallish::types::{Located, UnescapeError};
use smallish::Flavor;

#[test]
fn reads_events_and_values() {
    let mut state = [ParserState::zero(); 16];
    let mut buf = [0u8; 0];
    let mut de = Deserializer::new(Flavor::Value, b" [1, true, 'c', (), 2.5] ", &mut state, &mut buf);
    assert_eq!(Ok(()), de.next_delimiter(Delimiter::ListOpen));
    assert_eq!(Ok(false), de.next_is_seq_end());
    assert_eq!(Ok(1), de.next_int());
    assert_eq!(Ok(true), de.next_bool());
    assert_eq!(Ok('c'), de.next_char());
    assert_eq!(Ok(()), de.next_unit());
    assert_eq!(Ok("2.5"), de.next_float());
    assert_eq!(Ok(true), de.next_is_seq_end());
    assert_eq!(Ok(()), de.next_delimiter(Delimiter::ListClose));
    assert_eq!(Ok(()), de.finalize(Ok(())));
}

#[test]
fn wrong_type_is_invalid_type() {
    let mut state = [ParserState::zero(); 16];
    let mut buf = [0u8; 0];
    let mut de = Deserializer::new(Flavor::Value, b" 5 ", &mut state, &mut buf);
    assert_eq!(Err(Error::InvalidType), de.next_bool());
}

#[test]
fn parse_errors_pass_through() {
    let mut state = [ParserState::zero(); 16];
    let mut buf = [0u8; 0];
    let mut de = Deserializer::new(Flavor::Value, b" ? ", &mut state, &mut buf);
    assert_eq!(Err(Error::Parse(ParseError::UnknownToken)), de.next_int());
    let err = de.finalize::<()>(Err(Error::Parse(ParseError::UnknownToken))).unwrap_err();
    assert_eq!((1, 1), (err.line, err.column));
}

#[test]
fn unused_input() {
    let mut state = [ParserState::zero(); 16];
    let mut buf = [0u8; 0];
    let mut de = Deserializer::new(Flavor::Value, b"\n [1] ", &mut state, &mut buf);
    assert_eq!(Ok(()), de.next_delimiter(Delimiter::ListOpen));
    let err = de.finalize(Ok(())).unwrap_err();
    assert_eq!(Error::UnusedInput, err.value);
    assert_eq!((2, 1), (err.line, err.column));
}

#[test]
fn integer_ranges() {
    assert_eq!(Ok(255), to_u8(255));
    assert_eq!(Err(Error::IntegerRange(256)), to_u8(256));
    assert_eq!(Err(Error::IntegerRange(-1)), to_u8(-1));
    assert_eq!(Ok(-128), to_i8(-128));
    assert_eq!(Err(Error::IntegerRange(128)), to_i8(128));
    assert_eq!(Ok(65535), to_u16(65535));
    assert_eq!(Ok(i64::MAX as u64), to_u64(i64::MAX));
    assert_eq!(Err(Error::IntegerRange(-5)), to_u128(-5));
}

#[test]
fn strings_unescape_into_buffer() {
    let mut state = [ParserState::zero(); 16];
    let mut buf = [0u8; 8];
    let src = br#" ["plain", "a\nb", b"x\x41", "\u{263a}\u{263a}\u{263a}"] "#;
    let mut de = Deserializer::new(Flavor::Value, src, &mut state, &mut buf);
    assert_eq!(Ok(()), de.next_delimiter(Delimiter::ListOpen));
    assert_eq!(Ok("plain"), de.next_str());
    assert_eq!(Ok("a\nb"), de.next_str());
    assert_eq!(Ok(b"xA".as_ref()), de.next_bytes());
    // 3 + 2 bytes of the buffer are used; nine more do not fit
    assert_eq!(Err(Error::UnescapeBufferFull), de.next_str());
}

#[test]
fn escaped_strings_keep_escapes() {
    let mut state = [ParserState::zero(); 16];
    let mut buf = [0u8; 0];
    let mut de = Deserializer::new(Flavor::List, br#" "a\nb", b"c\td" "#, &mut state, &mut buf);
    assert_eq!(Ok(()), de.next_delimiter(Delimiter::ListOpen));
    assert_eq!(Ok(AnyKind::Str), de.next_any());
    assert_eq!(Ok("a\\nb"), de.next_escaped_str());
    assert_eq!(Ok(AnyKind::Bytes), de.next_any());
    assert_eq!(Ok(b"c\\td".as_ref()), de.next_escaped_bytes());
}

#[test]
fn skip_values() {
    let mut state = [ParserState::zero(); 16];
    let mut buf = [0u8; 0];
    let mut de = Deserializer::new(
        Flavor::List,
        b" [1, {a=[2]}, x 3 y=4], 7 ",
        &mut state,
        &mut buf,
    );
    assert_eq!(Ok(()), de.next_delimiter(Delimiter::ListOpen));
    assert_eq!(Ok(()), de.skip_value());
    assert_eq!(Ok(7), de.next_int());
    assert_eq!(Ok(()), de.next_delimiter(Delimiter::ListClose));
    assert_eq!(Ok(()), de.finalize(Ok(())));
}

#[test]
fn skip_key_is_invalid() {
    let mut state = [ParserState::zero(); 16];
    let mut buf = [0u8; 0];
    let mut de = Deserializer::new(Flavor::Mapping, b" a=1 ", &mut state, &mut buf);
    assert_eq!(Ok(()), de.next_delimiter(Delimiter::MapOpen));
    assert_eq!(Err(Error::InvalidType), de.skip_value());
}

#[test]
fn keys_options_and_enums() {
    let mut state = [ParserState::zero(); 16];
    let mut buf = [0u8; 0];
    let mut de = Deserializer::new(Flavor::Mapping, b" a=none, b=var 1 ", &mut state, &mut buf);
    assert_eq!(Ok(AnyKind::Mapping), de.next_any());
    assert_eq!(Ok(()), de.next_delimiter(Delimiter::MapOpen));
    assert_eq!(Ok(Some("a")), de.next_key());
    assert_eq!(Ok(true), de.next_is_none());
    assert_eq!(Ok(Some("b")), de.next_key());
    assert_eq!(Ok(false), de.next_is_none());
    assert_eq!(Ok(AnyKind::Enum), de.next_any());
    assert_eq!(Ok("var"), de.next_enum_name());
    assert_eq!(Ok(false), de.next_inline_is_map());
    assert_eq!(Ok(1), de.next_int());
    assert_eq!(Ok(true), de.next_is_seq_end());
    assert_eq!(Ok(()), de.next_delimiter(Delimiter::EnumClose));
    assert_eq!(Ok(None), de.next_key());
    assert_eq!(Ok(()), de.next_delimiter(Delimiter::MapClose));
}

#[test]
fn peek_then_next_agree() {
    let mut state = [ParserState::zero(); 16];
    let mut buf = [0u8; 0];
    let mut de = Deserializer::new(Flavor::Value, b" [ 3 ] ", &mut state, &mut buf);
    assert_eq!(Ok(Event::ListOpen), de.peek());
    assert_eq!(Ok(Event::ListOpen), de.peek());
    assert_eq!(Ok(Event::ListOpen), de.next());
    assert_eq!(Ok(Event::Value(Value::Int(3))), de.peek());
    let at = de.location();
    assert_eq!((1, 3), (at.line, at.column));
    de.consume();
    assert_eq!(Ok(Event::ListClose), de.next());
}

#[test]
fn error_without_event_uses_location() {
    let mut state = [ParserState::zero(); 16];
    let mut buf = [0u8; 0];
    let mut de = Deserializer::new(Flavor::Value, b"\n\n  x", &mut state, &mut buf);
    assert_eq!(Err::<(), Error>(Error::InvalidValue), de.error_without_event(Error::InvalidValue));
    let err = de.finalize::<()>(Err(Error::InvalidValue)).unwrap_err();
    assert_eq!((3, 2, 4), (err.line, err.column, err.offset));
}

#[test]
fn special_names() {
    assert_eq!(Special::Escaped, special(ESCAPED_SERDE_NAME));
    assert_eq!(Special::Located, special(LOCATED_SERDE_NAME));
    assert_eq!(Special::Other, special("Located"));
    assert_eq!(Special::Other, special(""));
}

#[test]
fn located_fields_in_order() {
    let loc = Located {
        source: Some(b"abc".as_ref()),
        line: 2,
        column: 3,
        offset: 7,
        value: (),
    };
    let mut field = LocatedField::Source;
    let mut keys = Vec::new();
    let mut values = Vec::new();
    while let Some(k) = field.key() {
        keys.push(k);
        let (next, v) = field.read(&loc);
        values.push(v);
        field = next;
    }
    assert_eq!(vec!["source", "line", "column", "offset", "value"], keys);
    assert_eq!(
        vec![
            FieldValue::Source(Some(b"abc".as_ref())),
            FieldValue::Number(2),
            FieldValue::Number(3),
            FieldValue::Number(7),
            FieldValue::Value,
        ],
        values
    );
}

#[test]
fn error_conversions() {
    assert_eq!(Error::Parse(ParseError::UnknownEscape), Error::from(UnescapeError::UnknownEscape));
    assert_eq!(Error::UnescapeBufferFull, Error::from(UnescapeError::BufferFull));
    assert_eq!(Error::Parse(ParseError::Eof), Error::from(ParseError::Eof));
}
