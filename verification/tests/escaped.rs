use smallish::de::TokenError;
use smallish::types::str::EscapedStr;
use smallish::types::{Escaped, EscapedFragment, Located, UnescapeError};

#[test]
fn str_bad_escape() {
    let err = Located {
        source: None,
        line: 1,
        column: 6,
        offset: 6,
        value: UnescapeError::UnknownEscape,
    };
    assert_eq!(Escaped::new(r#"hello\?"#), Err(err));
}

#[test]
fn bytes_bad_escape() {
    let err = Located {
        source: None,
        line: 1,
        column: 6,
        offset: 6,
        value: UnescapeError::UnknownEscape,
    };
    assert_eq!(Escaped::new(br#"hello\?"#.as_ref()), Err(err));
}

#[test]
fn str_bad_escape_unchecked() {
    let e = Escaped::new_unchecked(r#"\?"#);
    let mut buf = [0; 128];
    let err = Located {
        source: None,
        line: 1,
        column: 1,
        offset: 1,
        value: UnescapeError::UnknownEscape,
    };
    assert_eq!(Some(Err(err)), e.fragments().into_iter().next());
    assert_eq!(Err(err), e.unescape(&mut buf));
}

#[test]
fn bytes_bad_escape_unchecked() {
    let e = Escaped::new_unchecked(br#"\?"#.as_ref());
    let mut buf = [0; 128];
    let err = Located {
        source: None,
        line: 1,
        column: 1,
        offset: 1,
        value: UnescapeError::UnknownEscape,
    };
    assert_eq!(Some(Err(err)), e.fragments().into_iter().next());
    assert_eq!(Err(err), e.unescape(&mut buf));
}

#[test]
fn str_buffer_full() {
    let mut buf = [0; 0];
    let err = Located {
        source: None,
        line: 1,
        column: 0,
        offset: 0,
        value: UnescapeError::BufferFull,
    };
    let e = Escaped::new_unchecked(r#"hello\n"#);
    assert_eq!(Err(err), e.unescape(&mut buf));
    let e = Escaped::new_unchecked(r#"\n"#);
    assert_eq!(Err(err), e.unescape(&mut buf));
}

#[test]
fn bytes_buffer_full() {
    let mut buf = [0; 0];
    let err = Located {
        source: None,
        line: 1,
        column: 0,
        offset: 0,
        value: UnescapeError::BufferFull,
    };
    let e = Escaped::new_unchecked(br#"hello\n"#.as_ref());
    assert_eq!(Err(err), e.unescape(&mut buf));
    let e = Escaped::new_unchecked(br#"\n"#.as_ref());
    assert_eq!(Err(err), e.unescape(&mut buf));
}

#[test]
fn as_escaped() {
    assert_eq!(42, Escaped::new_unchecked(42).as_escaped());
}

#[test]
fn deref() {
    let e = Escaped::new("hello").unwrap();
    assert_eq!("hello", *e);
}

#[test]
fn str_empty() {
    let e = Escaped::new("").unwrap();
    assert!(!e.has_escapes());
    assert!(e.fragments().is_empty());
    let mut buf = [0; 128];
    let (_, s) = e.unescape(&mut buf).unwrap();
    assert_eq!(s, "");
}

#[test]
fn str_plain() {
    let e = Escaped::new("hello").unwrap();
    assert!(!e.has_escapes());
    assert_eq!(vec![Ok(EscapedFragment::Slice("hello"))], e.fragments());
    let mut buf = [0; 128];
    let (_, s) = e.unescape(&mut buf).unwrap();
    assert_eq!(s, "hello");
}

#[test]
fn str_escape() {
    let e = Escaped::new(r#"\n"#).unwrap();
    assert!(e.has_escapes());
    assert_eq!(vec![Ok(EscapedFragment::Item('\n'))], e.fragments());
    let mut buf = [0; 128];
    let (_, s) = e.unescape(&mut buf).unwrap();
    assert_eq!(s, "\n");
}

#[test]
fn str_mixed() {
    let e = Escaped::new(r#"hel\nlo"#).unwrap();
    assert!(e.has_escapes());
    assert_eq!(
        vec![
            Ok(EscapedFragment::Slice("hel")),
            Ok(EscapedFragment::Item('\n')),
            Ok(EscapedFragment::Slice("lo")),
        ],
        e.fragments()
    );
    let mut buf = [0; 128];
    let (_, s) = e.unescape(&mut buf).unwrap();
    assert_eq!(s, "hel\nlo");
}

#[test]
fn bytes_empty() {
    let e = Escaped::new(br#""#.as_ref()).unwrap();
    assert!(!e.has_escapes());
    assert!(e.fragments().is_empty());
    let mut buf = [0; 128];
    let (_, s) = e.unescape(&mut buf).unwrap();
    assert_eq!(s, b"");
}

#[test]
fn bytes_plain() {
    let e = Escaped::new(br#"hello"#.as_ref()).unwrap();
    assert!(!e.has_escapes());
    assert_eq!(vec![Ok(EscapedFragment::Slice(b"hello".as_ref()))], e.fragments());
    let mut buf = [0; 128];
    let (_, s) = e.unescape(&mut buf).unwrap();
    assert_eq!(s, b"hello");
}

#[test]
fn bytes_escape() {
    let e = Escaped::new(br#"\n"#.as_ref()).unwrap();
    assert!(e.has_escapes());
    assert_eq!(vec![Ok(EscapedFragment::Item(b'\n'))], e.fragments());
    let mut buf = [0; 128];
    let (_, s) = e.unescape(&mut buf).unwrap();
    assert_eq!(s, b"\n");
}

#[test]
fn bytes_mixed() {
    let e = Escaped::new(br#"hel\nlo"#.as_ref()).unwrap();
    assert!(e.has_escapes());
    assert_eq!(
        vec![
            Ok(EscapedFragment::Slice(b"hel".as_ref())),
            Ok(EscapedFragment::Item(b'\n')),
            Ok(EscapedFragment::Slice(b"lo".as_ref())),
        ],
        e.fragments()
    );
    let mut buf = [0; 128];
    let (_, s) = e.unescape(&mut buf).unwrap();
    assert_eq!(s, b"hel\nlo");
}

#[test]
fn numeric_escapes() {
    let e = Escaped::new(r#"a\x41\u{2603}\u{1F600}"#).unwrap();
    let mut buf = [0; 128];
    let (rest, s) = e.unescape(&mut buf).unwrap();
    assert_eq!(s, "aA☃😀");
    assert_eq!(rest.len(), 128 - "aA☃😀".len());

    let e = Escaped::new(br#"\xff\x00"#.as_ref()).unwrap();
    let (_, s) = e.unescape(&mut buf).unwrap();
    assert_eq!(s, b"\xff\x00");
}

#[test]
fn unescape_leaves_rest_of_buffer() {
    let e = Escaped::new(r#"ab\tc"#).unwrap();
    let mut buf = [7u8; 6];
    let (rest, s) = e.unescape(&mut buf).unwrap();
    assert_eq!(s, "ab\tc");
    assert_eq!(rest.len(), 2);
    rest[0] = 1;
    assert_eq!(buf, [b'a', b'b', b'\t', b'c', 1, 7]);
}

#[test]
fn buffer_exactly_full() {
    let e = Escaped::new(r#"ab\tc"#).unwrap();
    let mut buf = [0u8; 4];
    let (rest, s) = e.unescape(&mut buf).unwrap();
    assert_eq!(s, "ab\tc");
    assert!(rest.is_empty());
    let mut small = [0u8; 3];
    assert_eq!(UnescapeError::BufferFull, e.unescape(&mut small).unwrap_err().value);
}

#[test]
fn bad_escape_location() {
    let err = Escaped::new("ab\ncd\\u{d800}").unwrap_err();
    assert_eq!(UnescapeError::UnknownEscape, err.value);
    assert_eq!((2, 3, 6), (err.line, err.column, err.offset));
    assert!(err.source.is_none());

    // the same value unchecked reports the same place, with its source
    let e = Escaped::new_unchecked("ab\ncd\\u{d800}");
    let mut buf = [0u8; 64];
    let err2 = e.unescape(&mut buf).unwrap_err();
    assert_eq!(err, err2);
    assert_eq!(Some("ab\ncd\\u{d800}".as_bytes()), err2.source);
    let frags = e.fragments();
    assert_eq!(Some(&Err(err)), frags.last());
}

#[test]
fn bare_quote_is_rejected_at_start() {
    let err = Escaped::new("ab\"cd").unwrap_err();
    assert_eq!(UnescapeError::UnknownEscape, err.value);
    assert_eq!((1, 0, 0), (err.line, err.column, err.offset));
    // a short buffer is reported before the quote is reached
    let e = Escaped::new_unchecked("ab\"cd");
    let mut buf = [0u8; 1];
    assert_eq!(UnescapeError::BufferFull, e.unescape(&mut buf).unwrap_err().value);
}

#[test]
fn accepted_values_fit_their_own_length() {
    for src in ["", "plain", r#"\n\r\t\\\0\"\'"#, r#"\x7f\u{0}\u{10FFFF}"#, "ü\\u{fc}"] {
        let e = Escaped::new(src).unwrap();
        let mut buf = vec![0u8; src.len()];
        let (_, s) = e.unescape(&mut buf).unwrap();
        assert!(s.len() <= src.len());
    }
}

#[test]
fn unescaped_without_escapes_is_itself() {
    let e = Escaped::new("no escapes here").unwrap();
    assert!(!e.has_escapes());
    let mut buf = [0u8; 15];
    let (_, s) = e.unescape(&mut buf).unwrap();
    assert_eq!(s, "no escapes here");
}

#[test]
fn escaped_str_checks() {
    let s = EscapedStr::new("good \\n escape").unwrap();
    assert_eq!("good \\n escape", *s);
    assert_eq!("good \\n escape", s.as_escaped());
    assert_eq!(TokenError::UnknownEscape, EscapedStr::new("bad \\q escape").unwrap_err());
    assert_eq!(TokenError::UnknownToken, EscapedStr::new("bare \" quote").unwrap_err());
    assert_eq!("x\\q", EscapedStr::new_unchecked("x\\q").as_escaped());
}

#[test]
fn owned_string_escapes() {
    let e = Escaped::new(String::from("a\\tb")).unwrap();
    assert!(e.has_escapes());
    let mut buf = [0; 8];
    let (rest, text) = e.unescape(&mut buf).unwrap();
    assert_eq!("a\tb", text);
    assert_eq!(5, rest.len());
    let bad = Escaped::new(String::from("a\\qb")).unwrap_err();
    assert_eq!(UnescapeError::UnknownEscape, bad.value);
    assert_eq!(2, bad.offset);
}

#[test]
fn owned_bytes_escapes() {
    let e = Escaped::new(vec![b'x', b'\\', b'x', b'f', b'f']).unwrap();
    assert!(e.has_escapes());
    assert_eq!(
        vec![Ok(EscapedFragment::Slice(&b"x"[..])), Ok(EscapedFragment::Item(0xffu8))],
        e.fragments()
    );
    let mut buf = [0; 2];
    let (_, bytes) = e.unescape(&mut buf).unwrap();
    assert_eq!(&[b'x', 0xff][..], bytes);
}

#[test]
fn unescape_fits_exactly() {
    let e = Escaped::new("ab\\ncd").unwrap();
    let mut buf = [0; 5];
    let (rest, text) = e.unescape(&mut buf).unwrap();
    assert_eq!("ab\ncd", text);
    assert_eq!(0, rest.len());
    let mut small = [0; 4];
    assert_eq!(UnescapeError::BufferFull, e.unescape(&mut small).unwrap_err().value);
}

#[test]
fn fragments_tile_and_agree_with_has_escapes() {
    let e = Escaped::new("ab\\n\\tcd").unwrap();
    assert_eq!(
        vec![
            Ok(EscapedFragment::Slice("ab")),
            Ok(EscapedFragment::Item('\n')),
            Ok(EscapedFragment::Item('\t')),
            Ok(EscapedFragment::Slice("cd")),
        ],
        e.fragments()
    );
    assert!(e.has_escapes());
    let plain = Escaped::new("plain").unwrap();
    assert_eq!(vec![Ok(EscapedFragment::Slice("plain"))], plain.fragments());
    assert!(!plain.has_escapes());
}
