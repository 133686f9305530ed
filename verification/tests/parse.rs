use smallish::de::{ParseError, Parser, ParserState};
use smallish::syntax::{Event, Value};
use smallish::types::Escaped;
use smallish::Flavor;

/// Parse `src` and check its events against `expected`, then check that
/// the input is used up.
fn check_events(flavor: Flavor, src: &str, expected: &[Event]) {
    let mut state = [ParserState::zero(); 64];
    let mut parser = Parser::new(flavor, src.as_ref(), &mut state);
    for ev in expected {
        assert!(!parser.is_eof());
        assert_eq!(*ev, *parser.next().unwrap());
    }
    assert!(parser.is_eof());
    assert_eq!(ParseError::Eof, *parser.next().unwrap_err());
}

/// Parse `src` until the end or the first error, which is returned.
fn first_error(flavor: Flavor, src: &str) -> Option<ParseError> {
    let mut state = [ParserState::zero(); 64];
    let mut parser = Parser::new(flavor, src.as_ref(), &mut state);
    while !parser.is_eof() {
        if let Err(e) = parser.next() {
            return Some(e.value);
        }
    }
    assert_eq!(ParseError::Eof, *parser.next().unwrap_err());
    None
}

fn is_unexpected(e: Option<ParseError>) -> bool {
    matches!(e, Some(ParseError::UnexpectedToken(_, _)))
}

fn int_event(v: i64) -> Event<'static> {
    Event::Value(Value::Int(v))
}

#[test]
fn bare_key_and_comma() {
    assert!(is_unexpected(first_error(Flavor::Value, "    key=0    ")));
    assert!(is_unexpected(first_error(Flavor::Value, "    ,    ")));
    assert_eq!(None, first_error(Flavor::Value, "    \n    "));
}

#[test]
fn newlines_around_value() {
    check_events(Flavor::Value, " \n   0  ", &[int_event(0)]);
    check_events(Flavor::Value, "   0  \n  ", &[int_event(0)]);
}

#[test]
fn simple_values() {
    check_events(Flavor::Value, "   ()   ", &[Event::Value(Value::Unit)]);
    check_events(Flavor::Value, "   none   ", &[Event::Value(Value::NoneValue)]);
    check_events(Flavor::Value, "   true   ", &[Event::Value(Value::Bool(true))]);
    check_events(Flavor::Value, "   false   ", &[Event::Value(Value::Bool(false))]);
    check_events(Flavor::Value, "   42   ", &[int_event(42)]);
    check_events(Flavor::Value, "   'A'   ", &[Event::Value(Value::Char('A'))]);
    check_events(
        Flavor::Value,
        "   \"hello\"   ",
        &[Event::Value(Value::Str(Escaped::new("hello").unwrap()))],
    );
    check_events(
        Flavor::Value,
        "   b\"hello\"   ",
        &[Event::Value(Value::Bytes(Escaped::new(&b"hello"[..]).unwrap()))],
    );
}

#[test]
fn float_value() {
    let mut state = [ParserState::zero(); 64];
    let mut parser = Parser::new(Flavor::Value, b"   42.1   ", &mut state);
    match *parser.next().unwrap() {
        Event::Value(Value::Float(text)) => assert_eq!(42.1f32, text.parse::<f32>().unwrap()),
        other => panic!("not a float: {:?}", other),
    }
    assert!(parser.is_eof());
}

#[test]
fn lists() {
    check_events(Flavor::Value, "  []  ", &[Event::ListOpen, Event::ListClose]);
    check_events(Flavor::Value, "  [   ]  ", &[Event::ListOpen, Event::ListClose]);
    check_events(Flavor::Value, "  [ \n ] ", &[Event::ListOpen, Event::ListClose]);
    assert!(is_unexpected(first_error(Flavor::Value, "  [ , ] ")));
    check_events(
        Flavor::Value,
        " [1, 2, 3] ",
        &[Event::ListOpen, int_event(1), int_event(2), int_event(3), Event::ListClose],
    );
    check_events(Flavor::Value, " [1 , ] ", &[Event::ListOpen, int_event(1), Event::ListClose]);
    check_events(
        Flavor::Value,
        " [1, \n 2 \n 3] ",
        &[Event::ListOpen, int_event(1), int_event(2), int_event(3), Event::ListClose],
    );
    check_events(
        Flavor::Value,
        " [[], {}, variant] ",
        &[
            Event::ListOpen,
            Event::ListOpen,
            Event::ListClose,
            Event::MapOpen,
            Event::MapClose,
            Event::EnumOpen("variant"),
            Event::EnumClose,
            Event::ListClose,
        ],
    );
}

#[test]
fn list_flavor() {
    check_events(
        Flavor::List,
        " 1, 2, 3 ",
        &[Event::ListOpen, int_event(1), int_event(2), int_event(3), Event::ListClose],
    );
    check_events(Flavor::List, " 1 ,  ", &[Event::ListOpen, int_event(1), Event::ListClose]);
    check_events(
        Flavor::List,
        " 1, \n 2 \n 3 ",
        &[Event::ListOpen, int_event(1), int_event(2), int_event(3), Event::ListClose],
    );
    check_events(
        Flavor::List,
        " [], {}, variant  ",
        &[
            Event::ListOpen,
            Event::ListOpen,
            Event::ListClose,
            Event::MapOpen,
            Event::MapClose,
            Event::EnumOpen("variant"),
            Event::EnumClose,
            Event::ListClose,
        ],
    );
}

#[test]
fn maps() {
    check_events(Flavor::Value, "  {}  ", &[Event::MapOpen, Event::MapClose]);
    check_events(Flavor::Value, "  {   }  ", &[Event::MapOpen, Event::MapClose]);
    check_events(Flavor::Value, "  { \n } ", &[Event::MapOpen, Event::MapClose]);
    assert!(is_unexpected(first_error(Flavor::Value, "  { , } ")));
    check_events(
        Flavor::Value,
        " {a=1, b =  2} ",
        &[Event::MapOpen, Event::Key("a"), int_event(1), Event::Key("b"), int_event(2), Event::MapClose],
    );
    check_events(
        Flavor::Value,
        " {a=1 , } ",
        &[Event::MapOpen, Event::Key("a"), int_event(1), Event::MapClose],
    );
    assert!(is_unexpected(first_error(Flavor::Value, " { a \n = 1 } ")));
    assert!(is_unexpected(first_error(Flavor::Value, " { a = \n 1 } ")));
    check_events(
        Flavor::Value,
        " {a = 1, \n b = 2\n c = 3 } ",
        &[
            Event::MapOpen,
            Event::Key("a"),
            int_event(1),
            Event::Key("b"),
            int_event(2),
            Event::Key("c"),
            int_event(3),
            Event::MapClose,
        ],
    );
    check_events(
        Flavor::Value,
        " {a=[], b ={}, c= variant} ",
        &[
            Event::MapOpen,
            Event::Key("a"),
            Event::ListOpen,
            Event::ListClose,
            Event::Key("b"),
            Event::MapOpen,
            Event::MapClose,
            Event::Key("c"),
            Event::EnumOpen("variant"),
            Event::EnumClose,
            Event::MapClose,
        ],
    );
    check_events(
        Flavor::Value,
        " {a = enum} ",
        &[Event::MapOpen, Event::Key("a"), Event::EnumOpen("enum"), Event::EnumClose, Event::MapClose],
    );
    check_events(
        Flavor::Value,
        " {a = enum 0} ",
        &[
            Event::MapOpen,
            Event::Key("a"),
            Event::EnumOpen("enum"),
            int_event(0),
            Event::EnumClose,
            Event::MapClose,
        ],
    );
    check_events(
        Flavor::Value,
        " {a = (enum 0)} ",
        &[
            Event::MapOpen,
            Event::Key("a"),
            Event::EnumOpen("enum"),
            int_event(0),
            Event::EnumClose,
            Event::MapClose,
        ],
    );
}

#[test]
fn map_flavor() {
    check_events(
        Flavor::Mapping,
        " a=1, b =  2 ",
        &[Event::MapOpen, Event::Key("a"), int_event(1), Event::Key("b"), int_event(2), Event::MapClose],
    );
    check_events(
        Flavor::Mapping,
        " a=1 ,  ",
        &[Event::MapOpen, Event::Key("a"), int_event(1), Event::MapClose],
    );
    check_events(
        Flavor::Mapping,
        " a = 1, \n b = 2 \n c = 3  ",
        &[
            Event::MapOpen,
            Event::Key("a"),
            int_event(1),
            Event::Key("b"),
            int_event(2),
            Event::Key("c"),
            int_event(3),
            Event::MapClose,
        ],
    );
    check_events(
        Flavor::Mapping,
        " a = [], b={}, c =variant  ",
        &[
            Event::MapOpen,
            Event::Key("a"),
            Event::ListOpen,
            Event::ListClose,
            Event::Key("b"),
            Event::MapOpen,
            Event::MapClose,
            Event::Key("c"),
            Event::EnumOpen("variant"),
            Event::EnumClose,
            Event::MapClose,
        ],
    );
}

#[test]
fn enums() {
    check_events(Flavor::Value, "  var  ", &[Event::EnumOpen("var"), Event::EnumClose]);
    assert!(is_unexpected(first_error(Flavor::Value, "  var , ")));
    check_events(
        Flavor::Value,
        " var 1 2  ",
        &[Event::EnumOpen("var"), int_event(1), int_event(2), Event::EnumClose],
    );
    check_events(
        Flavor::Value,
        " var a=1 b=2  ",
        &[Event::EnumOpen("var"), Event::Key("a"), int_event(1), Event::Key("b"), int_event(2), Event::EnumClose],
    );
    check_events(
        Flavor::Value,
        " var 1 b=2  ",
        &[Event::EnumOpen("var"), int_event(1), Event::Key("b"), int_event(2), Event::EnumClose],
    );
    assert!(is_unexpected(first_error(Flavor::Value, " var a \n = 1  ")));
    assert!(is_unexpected(first_error(Flavor::Value, " var a = \n 1  ")));
    check_events(Flavor::Value, " var 1 \n ", &[Event::EnumOpen("var"), int_event(1), Event::EnumClose]);
    check_events(
        Flavor::Value,
        " var [] {} variant ",
        &[
            Event::EnumOpen("var"),
            Event::ListOpen,
            Event::ListClose,
            Event::MapOpen,
            Event::MapClose,
            Event::EnumOpen("variant"),
            Event::EnumClose,
            Event::EnumClose,
        ],
    );
}

#[test]
fn nested_enums() {
    check_events(
        Flavor::Value,
        " var a = enum ",
        &[
            Event::EnumOpen("var"),
            Event::Key("a"),
            Event::EnumOpen("enum"),
            Event::EnumClose,
            Event::EnumClose,
        ],
    );
    check_events(
        Flavor::Value,
        " var a = enum 0 ",
        &[
            Event::EnumOpen("var"),
            Event::Key("a"),
            Event::EnumOpen("enum"),
            Event::EnumClose,
            int_event(0),
            Event::EnumClose,
        ],
    );
    check_events(
        Flavor::Value,
        " var a = (enum 0) ",
        &[
            Event::EnumOpen("var"),
            Event::Key("a"),
            Event::EnumOpen("enum"),
            int_event(0),
            Event::EnumClose,
            Event::EnumClose,
        ],
    );
    check_events(
        Flavor::Value,
        " var enum ",
        &[Event::EnumOpen("var"), Event::EnumOpen("enum"), Event::EnumClose, Event::EnumClose],
    );
    check_events(
        Flavor::Value,
        " var enum 0 ",
        &[
            Event::EnumOpen("var"),
            Event::EnumOpen("enum"),
            Event::EnumClose,
            int_event(0),
            Event::EnumClose,
        ],
    );
    check_events(
        Flavor::Value,
        " var (enum 0) ",
        &[
            Event::EnumOpen("var"),
            Event::EnumOpen("enum"),
            int_event(0),
            Event::EnumClose,
            Event::EnumClose,
        ],
    );
}

#[test]
fn escaped_keywords_are_enums() {
    check_events(Flavor::Value, " \\none ", &[Event::EnumOpen("none"), Event::EnumClose]);
    check_events(Flavor::Value, " \\true ", &[Event::EnumOpen("true"), Event::EnumClose]);
    check_events(Flavor::Value, " \\false ", &[Event::EnumOpen("false"), Event::EnumClose]);
}

#[test]
fn errors_repeat() {
    let mut state = [ParserState::zero(); 64];
    let mut parser = Parser::new(Flavor::Value, b" [1, ? ] ", &mut state);
    assert_eq!(Event::ListOpen, *parser.next().unwrap());
    assert_eq!(int_event(1), *parser.next().unwrap());
    let err = parser.next().unwrap_err();
    assert_eq!(ParseError::UnknownToken, err.value);
    assert_eq!(5, err.offset);
    assert!(!parser.is_eof());
    assert_eq!(err, parser.next().unwrap_err());
    assert_eq!(err, parser.next().unwrap_err());
}

#[test]
fn is_eof_does_not_consume() {
    let mut state = [ParserState::zero(); 64];
    let mut parser = Parser::new(Flavor::Value, b" 7 ", &mut state);
    assert!(!parser.is_eof());
    assert!(!parser.is_eof());
    assert_eq!(int_event(7), *parser.next().unwrap());
    assert!(parser.is_eof());
    assert_eq!(ParseError::Eof, parser.next().unwrap_err().value);
}

#[test]
fn max_recursion() {
    let mut state = [ParserState::zero(); 2];
    let mut parser = Parser::new(Flavor::Value, b"[[[[1]]]]", &mut state);
    let mut err = None;
    for _ in 0..10 {
        if let Err(e) = parser.next() {
            err = Some(e.value);
            break;
        }
    }
    assert_eq!(Some(ParseError::MaxRecursion), err);
}

#[test]
fn unmatched_and_incomplete() {
    assert_eq!(Some(ParseError::UnmatchedBraces), first_error(Flavor::Value, " [1, 2 "));
    assert_eq!(Some(ParseError::IncompleteField), first_error(Flavor::Value, " var a = "));
}

#[test]
fn next_item_stops_at_end() {
    let mut state = [ParserState::zero(); 64];
    let mut parser = Parser::new(Flavor::Value, b" [1] ", &mut state);
    assert_eq!(Event::ListOpen, *parser.next_item().unwrap().unwrap());
    assert_eq!(int_event(1), *parser.next_item().unwrap().unwrap());
    assert_eq!(Event::ListClose, *parser.next_item().unwrap().unwrap());
    assert!(parser.next_item().is_none());
    assert!(parser.next_item().is_none());
}

#[test]
fn next_item_reports_errors() {
    let mut state = [ParserState::zero(); 64];
    let mut parser = Parser::new(Flavor::Value, b" ? ", &mut state);
    let err = parser.next_item().unwrap().unwrap_err();
    assert_eq!(ParseError::UnknownToken, err.value);
    assert_eq!(1, err.offset);
}
