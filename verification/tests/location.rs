use smallish::de::location::Located as TextLocated;
use smallish::types::Located;

#[test]
fn default_eq_const() {
    assert_eq!(Located::default(), Located::new());
}

#[test]
fn source_line_start() {
    let loc = Located {
        source: Some(b"line 1\nline 2\nline 3".as_ref()),
        line: 1,
        column: 5,
        offset: 5,
        value: (),
    };
    assert_eq!(Some(b"line 1".as_ref()), loc.source_line_bytes());
    assert_eq!(Some("line 1"), loc.source_line());

    let loc = loc.without_source();
    assert_eq!(None, loc.source_line_bytes());
    assert_eq!(None, loc.source_line());
}

#[test]
fn source_line_middle() {
    let loc = Located {
        source: Some(b"line 1\nline 2\nline 3".as_ref()),
        line: 2,
        column: 5,
        offset: 12,
        value: (),
    };
    assert_eq!(Some(b"line 2".as_ref()), loc.source_line_bytes());
    assert_eq!(Some("line 2"), loc.source_line());

    let loc = loc.without_source();
    assert_eq!(None, loc.source_line_bytes());
    assert_eq!(None, loc.source_line());
}

#[test]
fn source_line_end() {
    let loc = Located {
        source: Some(b"line 1\nline 2\nline 3".as_ref()),
        line: 3,
        column: 5,
        offset: 19,
        value: (),
    };
    assert_eq!(Some(b"line 3".as_ref()), loc.source_line_bytes());
    assert_eq!(Some("line 3"), loc.source_line());

    let loc = loc.without_source();
    assert_eq!(None, loc.source_line_bytes());
    assert_eq!(None, loc.source_line());
}

#[test]
fn source_line_start_bad_utf8() {
    let loc = Located {
        source: Some(b"line \xf1\nline 2\nline \xf3".as_ref()),
        line: 1,
        column: 5,
        offset: 5,
        value: (),
    };
    assert_eq!(Some(b"line \xf1".as_ref()), loc.source_line_bytes());
    assert_eq!(None, loc.source_line());
}

#[test]
fn source_line_middle_bad_utf8() {
    let loc = Located {
        source: Some(b"line \xf1\nline 2\nline \xf3".as_ref()),
        line: 2,
        column: 5,
        offset: 12,
        value: (),
    };
    assert_eq!(Some(b"line 2".as_ref()), loc.source_line_bytes());
    assert_eq!(Some("line 2"), loc.source_line());
}

#[test]
fn source_line_end_bad_utf8() {
    let loc = Located {
        source: Some(b"line \xf1\nline 2\nline \xf3".as_ref()),
        line: 3,
        column: 5,
        offset: 19,
        value: (),
    };
    assert_eq!(Some(b"line \xf3".as_ref()), loc.source_line_bytes());
    assert_eq!(None, loc.source_line());
}

#[test]
fn advance_simple() {
    let mut loc = Located {
        source: None,
        line: 3,
        column: 5,
        offset: 10,
        value: (),
    };
    let src = b"this is source";
    loc.advance(src, &src[5..]);
    assert_eq!(loc.line, 3);
    assert_eq!(loc.column, 5 + 5);
    assert_eq!(loc.offset, 10 + 5);
}

#[test]
fn advance_line() {
    let mut loc = Located {
        source: None,
        line: 3,
        column: 5,
        offset: 10,
        value: (),
    };
    let src = b"this\nis source";
    loc.advance(src, &src[8..]);
    assert_eq!(loc.line, 3 + 1);
    assert_eq!(loc.column, 3);
    assert_eq!(loc.offset, 10 + 8);
}

#[test]
fn advance_lines() {
    let mut loc = Located {
        source: None,
        line: 3,
        column: 5,
        offset: 10,
        value: (),
    };
    let src = b"this\nis\nsource";
    loc.advance(src, &src[8..]);
    assert_eq!(loc.line, 3 + 2);
    assert_eq!(loc.column, 0);
    assert_eq!(loc.offset, 10 + 8);
}

#[test]
fn deref_and_mut() {
    let mut loc = Located::new().replace(42);
    assert_eq!(42, *loc);
    loc.value += 1;
    assert_eq!(43, *loc);
}

#[test]
fn display() {
    let loc = Located {
        source: Some(b"line 1\nline 2\nline 3".as_ref()),
        line: 2,
        column: 5,
        offset: 12,
        value: "FOO",
    };

    let s = loc.display_with(loc.value);
    assert!(s.find("2:5").is_some());
    assert!(s.find("line 2").is_some());
    assert!(s.find("FOO").is_some());
}

#[test]
fn display_exact() {
    let loc = Located {
        source: Some(b"ab\ncdef".as_ref()),
        line: 2,
        column: 2,
        offset: 5,
        value: (),
    };
    assert_eq!(
        "at source location 2:2, oops\n  | cdef\n      ^\n",
        loc.display_with("oops")
    );
    let loc = loc.without_source();
    assert_eq!("at source location 2:2, oops\n", loc.display_with("oops"));
    let big = Located::new().replace(()).with_source(None::<&[u8]>);
    let mut big = big;
    big.line = 1234567890;
    big.column = 0;
    assert_eq!("at source location 1234567890:0, x\n", big.display_with("x"));
}

#[test]
fn advance_in_two_steps() {
    let src = b"ab\ncd\nef";
    let mut once = Located::new();
    once.advance(src, &src[7..]);
    let mut twice = Located::new();
    twice.advance(src, &src[4..]);
    twice.advance(&src[4..], &src[7..]);
    assert_eq!(once, twice);
    assert_eq!((3, 1, 7), (once.line, once.column, once.offset));
}

#[test]
fn wrap_split_map() {
    let loc = Located {
        source: None,
        line: 4,
        column: 2,
        offset: 9,
        value: 10u32,
    };
    let (at, v) = loc.split();
    assert_eq!(10, v);
    assert_eq!((4, 2, 9), (at.line, at.column, at.offset));
    let mapped = loc.map(|x| x * 3);
    assert_eq!(30, mapped.value);
    assert_eq!(at.wrap(30u32), mapped);
    // equality ignores the source
    assert_eq!(loc, loc.with_source(Some(b"whatever".as_ref())));
}

#[test]
fn result_round_trip() {
    let ok: Result<Located<u8>, Located<&str>> = Ok(Located::new().replace(3));
    let flipped = Located::from_result(ok);
    assert_eq!(Ok(3), flipped.value);
    assert_eq!(ok, flipped.to_result());
    let err: Result<Located<u8>, Located<&str>> = Err(Located::new().replace("bad"));
    assert_eq!(err, Located::from_result(err).to_result());
}

#[test]
fn text_location_advance() {
    let src = "héllo\nwörld";
    let mut loc = TextLocated::from_source(src);
    assert_eq!((1, 0), (loc.line, loc.column));
    // advance over "héllo\nw" (8 bytes)
    loc.advance(src, &src[8..]);
    assert_eq!((2, 1), (loc.line, loc.column));
    assert_eq!(Some("wörld"), loc.get_source_line());
    // an end longer than the start moves nothing
    let before = loc.clone();
    loc.advance("ab", "abc");
    assert_eq!((before.line, before.column), (loc.line, loc.column));
}

#[test]
fn text_location_wrap_and_transpose() {
    let src = "one\ntwo";
    let mut loc = TextLocated::from_source(src);
    let first = loc.advance_and_wrap(src, &src[4..], 1u8);
    assert_eq!((1, 0, 1), (first.line, first.column, *first));
    assert_eq!((2, 0), (loc.line, loc.column));
    assert_eq!(Some("one"), first.get_source_line());
    let (moved, old) = first.replace("x");
    assert_eq!(1, old);
    assert_eq!("x", *moved);
    let r: Result<u8, &str> = Err("bad");
    let t = loc.wrap(r).transpose();
    let e = t.unwrap_err();
    assert_eq!("bad", *e);
    assert_eq!(Some("two"), e.get_source_line());
    let forgotten = e.forget_source();
    assert!(forgotten.source.is_none());
    assert_eq!(None, forgotten.get_source_line());
    let d: TextLocated<u8> = TextLocated::default();
    assert_eq!((None, 1, 0, 0), (d.source, d.line, d.column, *d));
}

#[test]
fn advance_newline_resets_large_column() {
    let mut loc = Located {
        source: None,
        line: 1,
        column: usize::MAX,
        offset: 0,
        value: (),
    };
    let src = b"a\nbc";
    loc.advance(src, &src[4..]);
    assert_eq!(loc.line, 2);
    assert_eq!(loc.column, 2);
    assert_eq!(loc.offset, 4);
}

#[test]
fn source_line_bytes_holds_no_newline() {
    let src = b"one\ntwo\nthree";
    let loc = Located {
        source: Some(&src[..]),
        line: 2,
        column: 1,
        offset: 5,
        value: (),
    };
    let line = loc.source_line_bytes().unwrap();
    assert_eq!(b"two", line);
    assert!(!line.contains(&b'\n'));
}

#[test]
fn text_location_display() {
    let src = "ab\ncd";
    let mut loc = TextLocated::from_source(src);
    loc.advance(src, &src[4..]);
    assert_eq!("oops at source location 2:1\n  | cd\n     ^\n", loc.display_with("oops"));
    let bare = TextLocated::from_source(src).forget_source();
    assert_eq!("x at source location 1:0\n", bare.display_with("x"));
}
