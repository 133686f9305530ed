use smallish::de::{TokenError, Tokenizer};
use smallish::syntax::{Token, TokenKind, Value};
use smallish::types::Escaped;

fn float_value(tok: &Token) -> f32 {
    match tok {
        Token::Value(Value::Float(text)) => text.parse().unwrap(),
        other => panic!("not a float: {:?}", other),
    }
}

/// Read every token of `src` and check them against `expected`, then
/// check that the input is used up.
fn check_tokens(src: &[u8], expected: &[Token]) {
    let mut tokenizer = Tokenizer::new(src);
    for tok in expected {
        assert!(!tokenizer.is_eof());
        assert_eq!(*tok, *tokenizer.next_token().unwrap());
    }
    assert!(tokenizer.is_eof());
    assert_eq!(TokenError::Eof, *tokenizer.next_token().unwrap_err());
}

/// Read tokens until the end or the first error, which is returned.
fn first_error(src: &[u8]) -> Option<TokenError> {
    let mut tokenizer = Tokenizer::new(src);
    while !tokenizer.is_eof() {
        if let Err(e) = tokenizer.next_token() {
            return Some(e.value);
        }
    }
    assert_eq!(TokenError::Eof, *tokenizer.next_token().unwrap_err());
    None
}

#[test]
fn token_iterator() {
    let mut tokenizer = Tokenizer::new(" [ ]   ".as_ref());
    let mut i = 0;
    while let Some(tok) = tokenizer.next() {
        assert!(i < 2);
        let tok = tok.unwrap();
        if i == 0 {
            assert_eq!(*tok, Token::ListOpen);
        } else {
            assert_eq!(*tok, Token::ListClose);
        }
        i += 1;
    }
}

#[test]
fn token_iterator_error() {
    let mut tokenizer = Tokenizer::new(" [ ?   ".as_ref());
    let mut i = 0;
    while let Some(tok) = tokenizer.next() {
        if i == 0 {
            assert_eq!(*tok.unwrap(), Token::ListOpen);
        } else {
            assert_eq!(*tok.unwrap_err(), TokenError::UnknownToken);
            if i > 5 {
                break;
            }
        }
        i += 1;
    }
}

#[test]
fn newline() {
    check_tokens(b"\n\n\n", &[]);
}

#[test]
fn invalid_utf8() {
    assert_eq!(Some(TokenError::UnknownToken), first_error(b"\n\n\xf0\n"));
}

#[test]
fn invalid_utf8_in_string() {
    assert_eq!(Some(TokenError::InvalidUtf8), first_error(b"\n\n\"\xf0\"\n"));
}

#[test]
fn invalid_utf8_in_char() {
    assert_eq!(Some(TokenError::InvalidUtf8), first_error(b"\n\n\'\xf0\'\n"));
}

#[test]
fn invalid_utf8_in_bytes() {
    assert_eq!(None, first_error(b"\n\nb\"\xf0\"\n"));
}

#[test]
fn comma_newline() {
    check_tokens(b"\n\n  \n    ,   \n \n", &[Token::Comma, Token::Newline]);
}

#[test]
fn punctuation() {
    check_tokens(b"    =   ", &[Token::Equals]);
    check_tokens(b"  \n  (      ", &[Token::ParenOpen]);
    check_tokens(b"  \n   )   ", &[Token::ParenClose]);
    check_tokens(b"  \n  [      ", &[Token::ListOpen]);
    check_tokens(b"  \n   ]   ", &[Token::ListClose]);
    check_tokens(b"  \n [  ]   ", &[Token::ListOpen, Token::ListClose]);
    check_tokens(b"  \n  {      ", &[Token::MapOpen]);
    check_tokens(b"  \n   }   ", &[Token::MapClose]);
    check_tokens(b"  \n {  }   ", &[Token::MapOpen, Token::MapClose]);
}

#[test]
fn comments() {
    check_tokens(b"  #  this is a comment \n ", &[]);
    check_tokens(b"  #  this is a comment \n ,  ", &[Token::Comma]);
    check_tokens(b" [ # com \n ] ", &[Token::ListOpen, Token::Newline, Token::ListClose]);
}

#[test]
fn idents() {
    check_tokens(b"   \n   ident", &[Token::Ident("ident")]);
    check_tokens(b"   \n   \\true  ", &[Token::Ident("true")]);
    check_tokens(b"   \n   \\false  ", &[Token::Ident("false")]);
    check_tokens(b"   \n   \\none  ", &[Token::Ident("none")]);
    check_tokens(b"   \n   \\0ident  ", &[Token::Ident("0ident")]);
}

#[test]
fn ident_number() {
    // identifiers do not start with a digit
    assert_eq!(Some(TokenError::UnknownToken), first_error(b"   \n   0ident  "));
}

#[test]
fn units_and_parens() {
    check_tokens(b"   \n   ()   ", &[Token::Value(Value::Unit)]);
    check_tokens(b"   \n   (      )   ", &[Token::Value(Value::Unit)]);
    check_tokens(
        b"   \n   (   \n  )   ",
        &[Token::ParenOpen, Token::Newline, Token::ParenClose],
    );
}

#[test]
fn keywords() {
    check_tokens(b"   \n   true   ", &[Token::Value(Value::Bool(true))]);
    check_tokens(b"   \n   false   ", &[Token::Value(Value::Bool(false))]);
    check_tokens(b"   \n   none   ", &[Token::Value(Value::NoneValue)]);
}

#[test]
fn integers() {
    check_tokens(
        b"   \n  10 -20 +30",
        &[Token::Value(Value::Int(10)), Token::Value(Value::Int(-20)), Token::Value(Value::Int(30))],
    );
    check_tokens(
        b"   \n  0x10 -0x20 +0x30",
        &[
            Token::Value(Value::Int(0x10)),
            Token::Value(Value::Int(-0x20)),
            Token::Value(Value::Int(0x30)),
        ],
    );
    check_tokens(
        b"   \n  0o10 -0o20 +0o30",
        &[
            Token::Value(Value::Int(0o10)),
            Token::Value(Value::Int(-0o20)),
            Token::Value(Value::Int(0o30)),
        ],
    );
    check_tokens(
        b"   \n  0b10 -0b11 +0b111",
        &[
            Token::Value(Value::Int(0b10)),
            Token::Value(Value::Int(-0b11)),
            Token::Value(Value::Int(0b111)),
        ],
    );
    check_tokens(
        b"   \n  0x7fffffffffffffff -0x8000000000000000",
        &[Token::Value(Value::Int(i64::MAX)), Token::Value(Value::Int(i64::MIN))],
    );
}

#[test]
fn integer_too_big() {
    assert_eq!(Some(TokenError::IntRange), first_error(b"   \n  0xffffffffffffffffffffffff "));
}

#[test]
fn floats() {
    let mut tokenizer = Tokenizer::new(b"  \n  1.2 -1.3 +1.4");
    assert_eq!(1.2, float_value(&tokenizer.next_token().unwrap()));
    assert_eq!(-1.3, float_value(&tokenizer.next_token().unwrap()));
    assert_eq!(1.4, float_value(&tokenizer.next_token().unwrap()));
    assert!(tokenizer.is_eof());

    let mut tokenizer = Tokenizer::new(b"  \n  1.2e1 -1.3E+3 +1.4e-2");
    assert_eq!(1.2e1, float_value(&tokenizer.next_token().unwrap()));
    assert_eq!(-1.3e+3, float_value(&tokenizer.next_token().unwrap()));
    assert_eq!(1.4e-2, float_value(&tokenizer.next_token().unwrap()));
    assert!(tokenizer.is_eof());
}

#[test]
fn chars() {
    check_tokens(
        r#"      'a' 'A' '\u{2603}' '🄯'"#.as_bytes(),
        &[
            Token::Value(Value::Char('a')),
            Token::Value(Value::Char('A')),
            Token::Value(Value::Char('☃')),
            Token::Value(Value::Char('🄯')),
        ],
    );
}

#[test]
fn char_errors() {
    assert_eq!(
        Some(TokenError::UnknownEscape),
        first_error(r#"      'a' 'A' '\xf0' '🄯'"#.as_bytes())
    );
    assert_eq!(Some(TokenError::InvalidCharLiteral), first_error(b"      '' "));
    assert_eq!(Some(TokenError::InvalidCharLiteral), first_error(b"      'aa' "));
    assert_eq!(Some(TokenError::InvalidCharLiteral), first_error(b"      'aaaaa' "));
}

#[test]
fn strings() {
    check_tokens(
        br#"  "hello"    "there"    "#,
        &[
            Token::Value(Value::Str(Escaped::new("hello").unwrap())),
            Token::Value(Value::Str(Escaped::new("there").unwrap())),
        ],
    );
    check_tokens(
        br#"  "hel\n\r\tlo"    "the\\\0\"\'re"    "#,
        &[
            Token::Value(Value::Str(Escaped::new("hel\\n\\r\\tlo").unwrap())),
            Token::Value(Value::Str(Escaped::new("the\\\\\\0\\\"\\\'re").unwrap())),
        ],
    );
    check_tokens(
        br#"  "hel\x42lo"    "the\u{1234}re"    "#,
        &[
            Token::Value(Value::Str(Escaped::new("hel\\x42lo").unwrap())),
            Token::Value(Value::Str(Escaped::new("the\\u{1234}re").unwrap())),
        ],
    );
    check_tokens(
        b"  \"hel\nlo\"    \"the\nre\"    ",
        &[
            Token::Value(Value::Str(Escaped::new("hel\nlo").unwrap())),
            Token::Value(Value::Str(Escaped::new("the\nre").unwrap())),
        ],
    );
}

#[test]
fn bytes() {
    check_tokens(
        br#"  b"hello"    b"there"    "#,
        &[
            Token::Value(Value::Bytes(Escaped::new(&b"hello"[..]).unwrap())),
            Token::Value(Value::Bytes(Escaped::new(&b"there"[..]).unwrap())),
        ],
    );
    check_tokens(
        br#"  b"hel\n\r\tlo"    b"the\\\0\"\'re"    "#,
        &[
            Token::Value(Value::Bytes(Escaped::new(&b"hel\\n\\r\\tlo"[..]).unwrap())),
            Token::Value(Value::Bytes(Escaped::new(&b"the\\\\\\0\\\"\\\'re"[..]).unwrap())),
        ],
    );
    check_tokens(
        br#"  b"hel\x42lo"    b"the\x12re"    "#,
        &[
            Token::Value(Value::Bytes(Escaped::new(&b"hel\\x42lo"[..]).unwrap())),
            Token::Value(Value::Bytes(Escaped::new(&b"the\\x12re"[..]).unwrap())),
        ],
    );
    check_tokens(
        b"  b\"hel\nlo\"    b\"the\nre\"    ",
        &[
            Token::Value(Value::Bytes(Escaped::new(&b"hel\nlo"[..]).unwrap())),
            Token::Value(Value::Bytes(Escaped::new(&b"the\nre"[..]).unwrap())),
        ],
    );
}

#[test]
fn escape_errors() {
    // a byte escape that stands for no character is no string escape
    assert_eq!(
        Some(TokenError::UnknownEscape),
        first_error(br#"  "hel\xf2lo"    "#)
    );
    // \u{...} is not allowed in bytes
    assert_eq!(
        Some(TokenError::UnknownEscape),
        first_error(br#"  b"hel\x42lo"    b"the\u{1234}re"    "#)
    );
}

#[test]
fn error_location() {
    // a failure inside a token is reported where it failed, and the
    // tokenizer stays at the start of that token
    let mut tokenizer = Tokenizer::new(b" [\n \"ab\\q\"");
    assert_eq!(Token::ListOpen, *tokenizer.next_token().unwrap());
    assert_eq!(Token::Newline, *tokenizer.next_token().unwrap());
    let before = tokenizer.location();
    let err = tokenizer.next_token().unwrap_err();
    assert_eq!(TokenError::UnknownEscape, err.value);
    assert_eq!((2, 5, 8), (err.line, err.column, err.offset));
    assert_eq!((2, 1, 4), (before.line, before.column, before.offset));
    assert_eq!(before, tokenizer.location());
    assert_eq!(err, tokenizer.next_token().unwrap_err());
}

#[test]
fn eof_exactly_at_end() {
    let mut tokenizer = Tokenizer::new(b"a");
    assert!(!tokenizer.is_eof());
    assert!(tokenizer.next_token().is_ok());
    assert!(tokenizer.is_eof());
    assert_eq!(TokenError::Eof, tokenizer.next_token().unwrap_err().value);
    assert!(tokenizer.next().is_none());
}

#[test]
fn string_tokens_unescape() {
    let mut tokenizer = Tokenizer::new(br#" "a\u{41}\x42\n" "#);
    let tok = tokenizer.next_token().unwrap();
    let s = match *tok {
        Token::Value(Value::Str(s)) => s,
        ref other => panic!("not a string: {:?}", other),
    };
    let mut buf = [0; 16];
    let (_, text) = s.unescape(&mut buf).unwrap();
    assert_eq!("aAB\n", text);
}

#[test]
fn bytes_tokens_unescape() {
    let mut tokenizer = Tokenizer::new(br#" b"a\xff\0" "#);
    let tok = tokenizer.next_token().unwrap();
    let s = match *tok {
        Token::Value(Value::Bytes(s)) => s,
        ref other => panic!("not bytes: {:?}", other),
    };
    let mut buf = [0; 16];
    let (_, bytes) = s.unescape(&mut buf).unwrap();
    assert_eq!(&[b'a', 0xff, 0][..], bytes);
}

#[test]
fn token_does_not_match_empty() {
    assert!(Tokenizer::new(&[]).next_token().is_err());
}

#[test]
fn token_kind_names() {
    assert_eq!("'='", TokenKind::Equals.text());
    assert_eq!("','", TokenKind::Comma.text());
    assert_eq!("'['", TokenKind::ListOpen.text());
}
