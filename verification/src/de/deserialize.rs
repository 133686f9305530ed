//! The reading side of deserialization: events from the [Parser] turned
//! into the values a deserializer hands out, with the errors and source
//! locations it reports.

use vstd::prelude::*;
use vstd::std_specs::convert::FromSpecImpl;

use crate::de::parse::{
    ahead, event_wf, is_eof, lemma_next_progress, lemma_next_wf, location_of, measure, next,
    open_root, outcome_located, pos_ok, pstate_wf, start_state, stored_event, unsent, outcome_view, Outcome, PState, ParseError,
    Parser, ParserState, SpecEvent, SpecParseError,
};
use crate::de::token::at_position;
use vstd::string::StringSliceAdditionalSpecFns;

use crate::syntax::{Event, Int, SpecToken, Value};
use crate::de::grammar;
use crate::types::escaped::{
    lemma_well_formed_never_stuck, spec_has_escapes, unescape_from, Escapable, Escaped,
    UnescapeError, Unescaped,
};
use crate::types::location::Located;
use crate::Flavor;

verus! {

/// A short message of fixed capacity, as the deserialized types word
/// their own errors.
#[verifier::external_type_specification]
#[verifier::external_body]
pub struct ExMessage<const N: usize>(heapless::String<N>);

/// `heapless::String::clone` copies the message; nothing is claimed of
/// the copy, which stays opaque here.
pub assume_specification<const N: usize>[ <heapless::String<N> as Clone>::clone ](
    s: &heapless::String<N>,
) -> heapless::String<N>;

/// Errors produced by [Deserializer].
#[derive(Clone, Debug, PartialEq)]
pub enum Error {
    /// The parser found an error.
    Parse(ParseError),
    /// There was unconsumed data at the end of the input.
    UnusedInput,
    /// An integer did not fit into the deserialized type.
    IntegerRange(Int),
    /// There is not enough room in the unescape buffer.
    UnescapeBufferFull,
    /// A custom error of the deserialized type, with its message.
    Custom(heapless::String<64>),
    /// This value has the wrong type.
    InvalidType,
    /// This value has the wrong value.
    InvalidValue,
    /// This value has the wrong length. Holds the length found.
    InvalidLength(usize),
    /// Found a variant name that should be in this list but isn't.
    UnknownVariant(&'static [&'static str]),
    /// Found a field name that should be in this list but isn't.
    UnknownField(&'static [&'static str]),
    /// This field is required but not present.
    MissingField(&'static str),
    /// This field is repeated more than once.
    DuplicateField(&'static str),
}

/// An [Error] as a value.
pub ghost enum SpecError {
    Parse(SpecParseError),
    UnusedInput,
    IntegerRange(int),
    UnescapeBufferFull,
    Custom,
    InvalidType,
    InvalidValue,
    InvalidLength(int),
    UnknownVariant(Seq<&'static str>),
    UnknownField(Seq<&'static str>),
    MissingField(Seq<char>),
    DuplicateField(Seq<char>),
}

impl View for Error {
    type V = SpecError;

    open spec fn view(&self) -> SpecError {
        match *self {
            Error::Parse(e) => SpecError::Parse(e@),
            Error::UnusedInput => SpecError::UnusedInput,
            Error::IntegerRange(v) => SpecError::IntegerRange(v as int),
            Error::UnescapeBufferFull => SpecError::UnescapeBufferFull,
            Error::Custom(_) => SpecError::Custom,
            Error::InvalidType => SpecError::InvalidType,
            Error::InvalidValue => SpecError::InvalidValue,
            Error::InvalidLength(n) => SpecError::InvalidLength(n as int),
            Error::UnknownVariant(v) => SpecError::UnknownVariant(v@),
            Error::UnknownField(f) => SpecError::UnknownField(f@),
            Error::MissingField(f) => SpecError::MissingField(f@),
            Error::DuplicateField(f) => SpecError::DuplicateField(f@),
        }
    }
}

impl From<ParseError> for Error {
    fn from(e: ParseError) -> (r: Self) {
        Error::Parse(e)
    }
}

impl FromSpecImpl<ParseError> for Error {
    open spec fn obeys_from_spec() -> bool {
        true
    }

    open spec fn from_spec(e: ParseError) -> Error {
        Error::Parse(e)
    }
}

impl From<UnescapeError> for Error {
    fn from(e: UnescapeError) -> (r: Self) {
        match e {
            UnescapeError::UnknownEscape => Error::Parse(ParseError::UnknownEscape),
            UnescapeError::BufferFull => Error::UnescapeBufferFull,
        }
    }
}

impl FromSpecImpl<UnescapeError> for Error {
    open spec fn obeys_from_spec() -> bool {
        true
    }

    open spec fn from_spec(e: UnescapeError) -> Error {
        match e {
            UnescapeError::UnknownEscape => Error::Parse(ParseError::UnknownEscape),
            UnescapeError::BufferFull => Error::UnescapeBufferFull,
        }
    }
}

/// The state of a [Deserializer], as values.
pub ghost struct DState {
    /// the parser
    pub parser: PState,
    /// an event read ahead and not yet handed out
    pub peeked: Option<SpecEvent>,
    /// the offset of the last event read from the parser
    pub last: int,
    /// the room left in the unescape buffer
    pub scratch: int,
}

/// Read the next event: the one read ahead, or the parser's next.
pub open spec fn read(d: DState) -> (DState, Result<SpecEvent, SpecError>) {
    match d.peeked {
        Some(e) => (DState { peeked: None, ..d }, Ok(e)),
        None => {
            let (st, o) = next(d.parser);
            match o {
                Outcome::Event(at, e) => (DState { parser: st, last: at, ..d }, Ok(e)),
                Outcome::Error(at, e) => (
                    DState { parser: st, last: at, ..d },
                    Err(SpecError::Parse(e)),
                ),
            }
        },
    }
}

/// Look at the next event without handing it out.
pub open spec fn peek(d: DState) -> (DState, Result<SpecEvent, SpecError>) {
    match d.peeked {
        Some(e) => (d, Ok(e)),
        None => {
            let (d1, r) = read(d);
            match r {
                Ok(e) => (DState { peeked: Some(e), ..d1 }, Ok(e)),
                Err(x) => (d1, Err(x)),
            }
        },
    }
}

/// The offset a deserializer reports as its location: that of the event
/// read ahead, or where the parser stands.
pub open spec fn location(d: DState) -> int {
    if d.peeked is Some {
        d.last
    } else {
        location_of(d.parser)
    }
}

/// Deserialize source into values, one event at a time.
pub struct Deserializer<'de, 's> {
    parser: Parser<'de, 's>,
    peeked: Option<Event<'de>>,
    last_event_location: Located<'de, ()>,
    unescape: Option<&'de mut [u8]>,
}

impl<'de, 's> Deserializer<'de, 's> {
    /// The state, as values.
    pub closed spec fn model(&self) -> DState {
        DState {
            parser: self.parser.model(),
            peeked: match self.peeked {
                Some(e) => Some(e@),
                None => None,
            },
            last: self.last_event_location.offset as int,
            scratch: match self.unescape {
                Some(b) => b@.len() as int,
                None => 0,
            },
        }
    }

    /// The source being read.
    pub open spec fn source(&self) -> Seq<u8> {
        self.model().parser.src
    }

    pub closed spec fn wf(&self) -> bool {
        &&& self.parser.wf()
        &&& pstate_wf(self.parser.model())
        &&& pos_ok(self.parser.model())
        &&& self.peeked matches Some(e) ==> event_wf(e@)
        &&& at_position(
            self.last_event_location,
            self.parser.model().src,
            self.last_event_location.offset as int,
        )
    }

    /// Create a new `flavor`-flavored deserializer operating on `input`.
    ///
    /// `state` bounds the nesting depth, as for [Parser::new]. Strings
    /// and bytes that contain escapes are unescaped into `unescape`;
    /// when it is too small, reading them fails with
    /// [Error::UnescapeBufferFull]. It may be empty when the input holds
    /// no escapes.
    pub fn new(
        flavor: Flavor,
        input: &'de [u8],
        state: &'s mut [ParserState],
        unescape: &'de mut [u8],
    ) -> (r: Self)
        requires
            input@.len() < usize::MAX,
        ensures
            r.wf(),
            r.model().parser == start_state(flavor, input@, old(state)@.len() as int),
            r.model().peeked is None,
            r.model().last == location_of(r.model().parser),
            r.model().scratch == old(unescape)@.len(),
    {
        let parser = Parser::new(flavor, input, state);
        proof {
            grammar::lemma_ws0(input@, 0);
            grammar::lemma_newlines0(input@, grammar::ws0(input@, 0));
        }
        let loc = parser.location();
        Deserializer { parser, peeked: None, last_event_location: loc, unescape: Some(unescape) }
    }

    /// The next event: the one read ahead by [peek](Self::peek), or the
    /// parser's next. A parser error becomes [Error::Parse].
    pub fn next(&mut self) -> (r: Result<Event<'de>, Error>)
        requires
            old(self).wf(),
        ensures
            final(self).wf(),
            final(self).model() == read(old(self).model()).0,
            match read(old(self).model()).1 {
                Ok(e) => r matches Ok(ev) && ev@ == e,
                Err(e) => r matches Err(x) && x@ == e,
            },
            old(self).peeked() matches Some(ev) ==> r == Ok::<Event<'de>, Error>(ev),
    {
        if let Some(ev) = self.peeked.take() {
            return Ok(ev);
        }
        proof {
            lemma_next_wf(self.parser.model());
            lemma_next_progress(self.parser.model());
        }
        let next = self.parser.next();
        let (loc, ev) = Located::from_result(next).split();
        self.last_event_location = loc;
        match ev {
            Ok(e) => Ok(e),
            Err(e) => Err(Error::Parse(e)),
        }
    }

    /// The event read ahead, if any.
    pub closed spec fn peeked(&self) -> Option<Event<'de>> {
        self.peeked
    }

    /// The next event, kept to be handed out again by the next
    /// [next](Self::next) or [peek](Self::peek).
    pub fn peek(&mut self) -> (r: Result<Event<'de>, Error>)
        requires
            old(self).wf(),
        ensures
            final(self).wf(),
            final(self).model() == peek(old(self).model()).0,
            match peek(old(self).model()).1 {
                Ok(e) => r matches Ok(ev) && ev@ == e,
                Err(e) => r matches Err(x) && x@ == e,
            },
            r matches Ok(ev) ==> final(self).peeked() == Some(ev),
    {
        if let Some(ev) = self.peeked {
            return Ok(ev);
        }
        proof {
            lemma_next_wf(self.parser.model());
            lemma_next_progress(self.parser.model());
        }
        let next = self.parser.next();
        let (loc, ev) = Located::from_result(next).split();
        self.last_event_location = loc;
        match ev {
            Ok(e) => {
                self.peeked = Some(e);
                Ok(e)
            },
            Err(e) => Err(Error::Parse(e)),
        }
    }

    /// Drop the event read ahead.
    pub fn consume(&mut self)
        requires
            old(self).wf(),
        ensures
            final(self).wf(),
            final(self).model() == (DState { peeked: None, ..old(self).model() }),
    {
        self.peeked = None;
    }

    /// The location of the next event: that of the event read ahead, or
    /// where the parser stands.
    pub fn location(&self) -> (r: Located<'de, ()>)
        requires
            self.wf(),
        ensures
            at_position(r, self.source(), location(self.model())),
    {
        if self.peeked.is_some() {
            self.last_event_location
        } else {
            self.parser.location()
        }
    }

    /// Fail with `err`, reported at the location of the next event.
    pub fn error_without_event<T>(&mut self, err: Error) -> (r: Result<T, Error>)
        requires
            old(self).wf(),
        ensures
            final(self).wf(),
            final(self).model() == (DState { last: location(old(self).model()), ..old(self).model() }),
            r == Err::<T, Error>(err),
    {
        self.last_event_location = self.location();
        Err(err)
    }

    /// Finish deserializing: a success must have used all the input, or
    /// it becomes [Error::UnusedInput]; an error is reported at the
    /// location of the last event read.
    pub fn finalize<T>(&mut self, result: Result<T, Error>) -> (r: Result<T, Located<'de, Error>>)
        requires
            old(self).wf(),
        ensures
            final(self).wf(),
            ({
                let d = old(self).model();
                match result {
                    Ok(v) => if is_eof(d.parser).1 {
                        r == Ok::<T, Located<'de, Error>>(v) && final(self).model() == (DState {
                            parser: is_eof(d.parser).0,
                            ..d
                        })
                    } else {
                        r matches Err(l) && l.value == Error::UnusedInput && at_position(
                            l,
                            d.parser.src,
                            d.last,
                        ) && final(self).model() == (DState { parser: is_eof(d.parser).0, ..d })
                    },
                    Err(e) => r matches Err(l) && l.value == e && at_position(l, d.parser.src, d.last)
                        && final(self).model() == d,
                }
            }),
    {
        proof {
            lemma_next_wf(self.parser.model());
            lemma_next_progress(self.parser.model());
        }
        let result = match result {
            Ok(v) => if self.parser.is_eof() {
                Ok(v)
            } else {
                Err(Error::UnusedInput)
            },
            Err(e) => Err(e),
        };
        match result {
            Ok(v) => Ok(v),
            Err(e) => Err(self.last_event_location.wrap(e)),
        }
    }
}

} // verus!

verus! {

/// The kinds of value [Deserializer::next_any] finds.
#[derive(Clone, Copy, Debug, PartialEq, Eq, Structural)]
pub enum AnyKind {
    Sequence,
    Mapping,
    Enum,
    Unit,
    Option,
    Bool,
    Int,
    Float,
    Char,
    Str,
    Bytes,
}

/// The kind of value an event starts, if it starts one.
pub open spec fn any_kind(e: SpecEvent) -> Option<AnyKind> {
    match e {
        SpecEvent::ListOpen => Some(AnyKind::Sequence),
        SpecEvent::MapOpen => Some(AnyKind::Mapping),
        SpecEvent::EnumOpen(_) => Some(AnyKind::Enum),
        SpecEvent::Value(t) => match t {
            SpecToken::Unit => Some(AnyKind::Unit),
            SpecToken::NoneValue => Some(AnyKind::Option),
            SpecToken::Bool(_) => Some(AnyKind::Bool),
            SpecToken::Int(_) => Some(AnyKind::Int),
            SpecToken::Float(_) => Some(AnyKind::Float),
            SpecToken::Char(_) => Some(AnyKind::Char),
            SpecToken::Str(_) => Some(AnyKind::Str),
            SpecToken::Bytes(_) => Some(AnyKind::Bytes),
            _ => None,
        },
        _ => None,
    }
}

/// Delimiters that close or open compound values.
#[derive(Clone, Copy, Debug, PartialEq, Eq, Structural)]
pub enum Delimiter {
    ListOpen,
    ListClose,
    MapOpen,
    MapClose,
    EnumClose,
}

pub open spec fn delimiter_event(d: Delimiter) -> SpecEvent {
    match d {
        Delimiter::ListOpen => SpecEvent::ListOpen,
        Delimiter::ListClose => SpecEvent::ListClose,
        Delimiter::MapOpen => SpecEvent::MapOpen,
        Delimiter::MapClose => SpecEvent::MapClose,
        Delimiter::EnumClose => SpecEvent::EnumClose,
    }
}

/// The result of reading a simple value with `pick`: the value it
/// picks, [Error::InvalidType] for any other event, or the read error.
pub open spec fn picked<T>(r: Result<SpecEvent, SpecError>, pick: spec_fn(SpecEvent) -> Option<T>) -> Result<T, SpecError> {
    match r {
        Ok(e) => match pick(e) {
            Some(v) => Ok(v),
            None => Err(SpecError::InvalidType),
        },
        Err(x) => Err(x),
    }
}

/// `r` is `s`, an error taken by its view.
pub open spec fn result_is<T>(r: Result<T, Error>, s: Result<T, SpecError>) -> bool {
    match s {
        Ok(v) => r == Ok::<T, Error>(v),
        Err(e) => r matches Err(x) && x@ == e,
    }
}

impl<'de, 's> Deserializer<'de, 's> {
    /// What the next value is, without reading it; compound closers and
    /// keys are [Error::InvalidType].
    pub fn next_any(&mut self) -> (r: Result<AnyKind, Error>)
        requires
            old(self).wf(),
        ensures
            final(self).wf(),
            final(self).model() == peek(old(self).model()).0,
            result_is(r, picked(peek(old(self).model()).1, |e: SpecEvent| any_kind(e))),
    {
        match self.peek() {
            Ok(Event::ListOpen) => Ok(AnyKind::Sequence),
            Ok(Event::MapOpen) => Ok(AnyKind::Mapping),
            Ok(Event::EnumOpen(_)) => Ok(AnyKind::Enum),
            Ok(Event::Value(v)) => match v {
                Value::Unit => Ok(AnyKind::Unit),
                Value::NoneValue => Ok(AnyKind::Option),
                Value::Bool(_) => Ok(AnyKind::Bool),
                Value::Int(_) => Ok(AnyKind::Int),
                Value::Float(_) => Ok(AnyKind::Float),
                Value::Char(_) => Ok(AnyKind::Char),
                Value::Str(_) => Ok(AnyKind::Str),
                Value::Bytes(_) => Ok(AnyKind::Bytes),
            },
            Ok(_) => Err(Error::InvalidType),
            Err(e) => Err(e),
        }
    }

    /// Whether the next event starts a map (a key) rather than a
    /// sequence, for values written inline after an enum name.
    pub fn next_inline_is_map(&mut self) -> (r: Result<bool, Error>)
        requires
            old(self).wf(),
        ensures
            final(self).wf(),
            final(self).model() == peek(old(self).model()).0,
            result_is(r, picked(peek(old(self).model()).1, |e: SpecEvent| Some(e is Key))),
    {
        match self.peek() {
            Ok(Event::Key(_)) => Ok(true),
            Ok(_) => Ok(false),
            Err(e) => Err(e),
        }
    }

    /// Read a boolean.
    pub fn next_bool(&mut self) -> (r: Result<bool, Error>)
        requires
            old(self).wf(),
        ensures
            final(self).wf(),
            final(self).model() == read(old(self).model()).0,
            result_is(
                r,
                picked(
                    read(old(self).model()).1,
                    |e: SpecEvent|
                        match e {
                            SpecEvent::Value(SpecToken::Bool(b)) => Some(b),
                            _ => None,
                        },
                ),
            ),
    {
        match self.next() {
            Ok(Event::Value(Value::Bool(b))) => Ok(b),
            Ok(_) => Err(Error::InvalidType),
            Err(e) => Err(e),
        }
    }

    /// Read an integer.
    pub fn next_int(&mut self) -> (r: Result<Int, Error>)
        requires
            old(self).wf(),
        ensures
            final(self).wf(),
            final(self).model() == read(old(self).model()).0,
            match read(old(self).model()).1 {
                Ok(SpecEvent::Value(SpecToken::Int(i))) => r matches Ok(v) && v == i,
                Ok(_) => r == Err::<Int, Error>(Error::InvalidType),
                Err(e) => r matches Err(x) && x@ == e,
            },
    {
        match self.next() {
            Ok(Event::Value(Value::Int(i))) => Ok(i),
            Ok(_) => Err(Error::InvalidType),
            Err(e) => Err(e),
        }
    }

    /// Read a float, as its literal text.
    pub fn next_float(&mut self) -> (r: Result<&'de str, Error>)
        requires
            old(self).wf(),
        ensures
            final(self).wf(),
            final(self).model() == read(old(self).model()).0,
            match read(old(self).model()).1 {
                Ok(SpecEvent::Value(SpecToken::Float(f))) => r matches Ok(t) && t.spec_bytes() == f,
                Ok(_) => r == Err::<&'de str, Error>(Error::InvalidType),
                Err(e) => r matches Err(x) && x@ == e,
            },
    {
        match self.next() {
            Ok(Event::Value(Value::Float(f))) => Ok(f),
            Ok(_) => Err(Error::InvalidType),
            Err(e) => Err(e),
        }
    }

    /// Read a character.
    pub fn next_char(&mut self) -> (r: Result<char, Error>)
        requires
            old(self).wf(),
        ensures
            final(self).wf(),
            final(self).model() == read(old(self).model()).0,
            result_is(
                r,
                picked(
                    read(old(self).model()).1,
                    |e: SpecEvent|
                        match e {
                            SpecEvent::Value(SpecToken::Char(c)) => Some(c),
                            _ => None,
                        },
                ),
            ),
    {
        match self.next() {
            Ok(Event::Value(Value::Char(c))) => Ok(c),
            Ok(_) => Err(Error::InvalidType),
            Err(e) => Err(e),
        }
    }

    /// Read a unit `()`.
    pub fn next_unit(&mut self) -> (r: Result<(), Error>)
        requires
            old(self).wf(),
        ensures
            final(self).wf(),
            final(self).model() == read(old(self).model()).0,
            result_is(
                r,
                picked(
                    read(old(self).model()).1,
                    |e: SpecEvent|
                        match e {
                            SpecEvent::Value(SpecToken::Unit) => Some(()),
                            _ => None,
                        },
                ),
            ),
    {
        match self.next() {
            Ok(Event::Value(Value::Unit)) => Ok(()),
            Ok(_) => Err(Error::InvalidType),
            Err(e) => Err(e),
        }
    }

    /// Read the given delimiter.
    pub fn next_delimiter(&mut self, d: Delimiter) -> (r: Result<(), Error>)
        requires
            old(self).wf(),
        ensures
            final(self).wf(),
            final(self).model() == read(old(self).model()).0,
            result_is(
                r,
                picked(
                    read(old(self).model()).1,
                    |e: SpecEvent|
                        if e == delimiter_event(d) {
                            Some(())
                        } else {
                            None
                        },
                ),
            ),
    {
        let ev = self.next();
        match ev {
            Ok(e) => {
                let found = match (d, e) {
                    (Delimiter::ListOpen, Event::ListOpen) => true,
                    (Delimiter::ListClose, Event::ListClose) => true,
                    (Delimiter::MapOpen, Event::MapOpen) => true,
                    (Delimiter::MapClose, Event::MapClose) => true,
                    (Delimiter::EnumClose, Event::EnumClose) => true,
                    _ => false,
                };
                if found {
                    Ok(())
                } else {
                    Err(Error::InvalidType)
                }
            },
            Err(e) => Err(e),
        }
    }

    /// Read the name that opens an enum.
    pub fn next_enum_name(&mut self) -> (r: Result<&'de str, Error>)
        requires
            old(self).wf(),
        ensures
            final(self).wf(),
            final(self).model() == read(old(self).model()).0,
            match read(old(self).model()).1 {
                Ok(SpecEvent::EnumOpen(n)) => r matches Ok(t) && t.spec_bytes() == n,
                Ok(_) => r == Err::<&'de str, Error>(Error::InvalidType),
                Err(e) => r matches Err(x) && x@ == e,
            },
    {
        match self.next() {
            Ok(Event::EnumOpen(n)) => Ok(n),
            Ok(_) => Err(Error::InvalidType),
            Err(e) => Err(e),
        }
    }

    /// Read a key, when one comes next; anything else is left to read.
    pub fn next_key(&mut self) -> (r: Result<Option<&'de str>, Error>)
        requires
            old(self).wf(),
        ensures
            final(self).wf(),
            ({
                let (d1, p) = peek(old(self).model());
                match p {
                    Ok(SpecEvent::Key(n)) => r matches Ok(Some(t)) && t.spec_bytes() == n
                        && final(self).model() == (DState { peeked: None, ..d1 }),
                    Ok(_) => r == Ok::<Option<&'de str>, Error>(None) && final(self).model() == d1,
                    Err(e) => r matches Err(x) && x@ == e && final(self).model() == d1,
                }
            }),
    {
        match self.peek() {
            Ok(Event::Key(n)) => {
                self.consume();
                Ok(Some(n))
            },
            Ok(_) => Ok(None),
            Err(e) => Err(e),
        }
    }

    /// Whether a sequence (or the arguments of an enum) ends next; the
    /// closer is left to read.
    pub fn next_is_seq_end(&mut self) -> (r: Result<bool, Error>)
        requires
            old(self).wf(),
        ensures
            final(self).wf(),
            final(self).model() == peek(old(self).model()).0,
            result_is(
                r,
                picked(
                    peek(old(self).model()).1,
                    |e: SpecEvent| Some(e is ListClose || e is EnumClose),
                ),
            ),
    {
        match self.peek() {
            Ok(Event::ListClose) | Ok(Event::EnumClose) => Ok(true),
            Ok(_) => Ok(false),
            Err(e) => Err(e),
        }
    }

    /// Whether the next value is `none`; it is then read.
    pub fn next_is_none(&mut self) -> (r: Result<bool, Error>)
        requires
            old(self).wf(),
        ensures
            final(self).wf(),
            ({
                let (d1, p) = peek(old(self).model());
                match p {
                    Ok(SpecEvent::Value(SpecToken::NoneValue)) => r == Ok::<bool, Error>(true)
                        && final(self).model() == (DState { peeked: None, ..d1 }),
                    Ok(_) => r == Ok::<bool, Error>(false) && final(self).model() == d1,
                    Err(e) => r matches Err(x) && x@ == e && final(self).model() == d1,
                }
            }),
    {
        match self.peek() {
            Ok(Event::Value(Value::NoneValue)) => {
                self.consume();
                Ok(true)
            },
            Ok(_) => Ok(false),
            Err(e) => Err(e),
        }
    }
}

} // verus!

verus! {

/// `v` fits in `[lo, hi]`, or the error for an integer out of range.
pub open spec fn in_range(v: Int, lo: int, hi: int) -> Result<int, SpecError> {
    if lo <= v <= hi {
        Ok(v as int)
    } else {
        Err(SpecError::IntegerRange(v as int))
    }
}

/// `r` holds `v` exactly when `v` fits, and [Error::IntegerRange]
/// otherwise.
pub open spec fn converted<T>(r: Result<T, Error>, v: Int, lo: int, hi: int, as_int: spec_fn(T) -> int) -> bool {
    match in_range(v, lo, hi) {
        Ok(x) => r matches Ok(y) && as_int(y) == x,
        Err(e) => r matches Err(z) && z@ == e,
    }
}

/// `v` as an `i8`.
pub fn to_i8(v: Int) -> (r: Result<i8, Error>)
    ensures
        converted(r, v, i8::MIN as int, i8::MAX as int, |y: i8| y as int),
{
    if i8::MIN as i64 <= v && v <= i8::MAX as i64 {
        Ok(v as i8)
    } else {
        Err(Error::IntegerRange(v))
    }
}

/// `v` as a `u8`.
pub fn to_u8(v: Int) -> (r: Result<u8, Error>)
    ensures
        converted(r, v, 0, u8::MAX as int, |y: u8| y as int),
{
    if 0 <= v && v <= u8::MAX as i64 {
        Ok(v as u8)
    } else {
        Err(Error::IntegerRange(v))
    }
}

/// `v` as an `i16`.
pub fn to_i16(v: Int) -> (r: Result<i16, Error>)
    ensures
        converted(r, v, i16::MIN as int, i16::MAX as int, |y: i16| y as int),
{
    if i16::MIN as i64 <= v && v <= i16::MAX as i64 {
        Ok(v as i16)
    } else {
        Err(Error::IntegerRange(v))
    }
}

/// `v` as a `u16`.
pub fn to_u16(v: Int) -> (r: Result<u16, Error>)
    ensures
        converted(r, v, 0, u16::MAX as int, |y: u16| y as int),
{
    if 0 <= v && v <= u16::MAX as i64 {
        Ok(v as u16)
    } else {
        Err(Error::IntegerRange(v))
    }
}

/// `v` as an `i32`.
pub fn to_i32(v: Int) -> (r: Result<i32, Error>)
    ensures
        converted(r, v, i32::MIN as int, i32::MAX as int, |y: i32| y as int),
{
    if i32::MIN as i64 <= v && v <= i32::MAX as i64 {
        Ok(v as i32)
    } else {
        Err(Error::IntegerRange(v))
    }
}

/// `v` as a `u32`.
pub fn to_u32(v: Int) -> (r: Result<u32, Error>)
    ensures
        converted(r, v, 0, u32::MAX as int, |y: u32| y as int),
{
    if 0 <= v && v <= u32::MAX as i64 {
        Ok(v as u32)
    } else {
        Err(Error::IntegerRange(v))
    }
}

/// `v` as a `u64`.
pub fn to_u64(v: Int) -> (r: Result<u64, Error>)
    ensures
        converted(r, v, 0, u64::MAX as int, |y: u64| y as int),
{
    if 0 <= v {
        Ok(v as u64)
    } else {
        Err(Error::IntegerRange(v))
    }
}

/// `v` as a `u128`.
pub fn to_u128(v: Int) -> (r: Result<u128, Error>)
    ensures
        converted(r, v, 0, u128::MAX as int, |y: u128| y as int),
{
    if 0 <= v {
        Ok(v as u128)
    } else {
        Err(Error::IntegerRange(v))
    }
}

/// The name under which a [Escaped](crate::types::Escaped) value asks
/// to be read with its escapes kept.
pub const ESCAPED_SERDE_NAME: &'static str = "__smallish_magic_escaped__";

/// The name under which a [Located] value asks to be read with its
/// location.
pub const LOCATED_SERDE_NAME: &'static str = "__smallish_magic_located__";

/// Types that are read in a special way.
#[derive(Clone, Copy, Debug, PartialEq, Eq, Structural)]
pub enum Special {
    /// a string or bytes kept with its escapes
    Escaped,
    /// a value with its location
    Located,
    /// anything else
    Other,
}

fn bytes_equal(a: &[u8], b: &[u8]) -> (r: bool)
    ensures
        r == (a@ == b@),
{
    if a.len() != b.len() {
        return false;
    }
    let mut i: usize = 0;
    while i < a.len()
        invariant
            a@.len() == b@.len(),
            i <= a@.len(),
            a@.subrange(0, i as int) == b@.subrange(0, i as int),
        decreases a@.len() - i,
    {
        if a[i] != b[i] {
            assert(a@[i as int] != b@[i as int]);
            return false;
        }
        assert(a@.subrange(0, i + 1) =~= a@.subrange(0, i as int).push(a@[i as int]));
        assert(b@.subrange(0, i + 1) =~= b@.subrange(0, i as int).push(b@[i as int]));
        i = i + 1;
    }
    assert(a@.subrange(0, i as int) =~= a@);
    assert(b@.subrange(0, i as int) =~= b@);
    true
}

/// Which special type, if any, a struct name asks for.
pub fn special(name: &str) -> (r: Special)
    ensures
        r == (if name.spec_bytes() == ESCAPED_SERDE_NAME.spec_bytes() {
            Special::Escaped
        } else if name.spec_bytes() == LOCATED_SERDE_NAME.spec_bytes() {
            Special::Located
        } else {
            Special::Other
        }),
{
    let b = name.as_bytes();
    if bytes_equal(b, ESCAPED_SERDE_NAME.as_bytes()) {
        Special::Escaped
    } else if bytes_equal(b, LOCATED_SERDE_NAME.as_bytes()) {
        Special::Located
    } else {
        Special::Other
    }
}

/// The fields of a [Located] value, in the order they are read.
#[derive(Clone, Copy, Debug, PartialEq, Eq, Structural)]
pub enum LocatedField {
    Source,
    Line,
    Column,
    Offset,
    Value,
    End,
}

/// What a field of a [Located] value is read from.
#[derive(Clone, Copy, Debug, PartialEq)]
pub enum FieldValue<'de> {
    /// the source, if the location has one
    Source(Option<&'de [u8]>),
    /// a number of the location
    Number(usize),
    /// the wrapped value, read from the input
    Value,
}

impl LocatedField {
    /// The key of this field, or `None` after the last one.
    pub fn key(self) -> (r: Option<&'static str>)
        ensures
            r == match self {
                LocatedField::Source => Some("source"),
                LocatedField::Line => Some("line"),
                LocatedField::Column => Some("column"),
                LocatedField::Offset => Some("offset"),
                LocatedField::Value => Some("value"),
                LocatedField::End => None::<&'static str>,
            },
    {
        match self {
            LocatedField::Source => Some("source"),
            LocatedField::Line => Some("line"),
            LocatedField::Column => Some("column"),
            LocatedField::Offset => Some("offset"),
            LocatedField::Value => Some("value"),
            LocatedField::End => None,
        }
    }

    /// Read this field of `loc`: what its value is read from, and the
    /// field that comes next.
    pub fn read<'de>(self, loc: &Located<'de, ()>) -> (r: (LocatedField, FieldValue<'de>))
        requires
            self != LocatedField::End,
        ensures
            r == match self {
                LocatedField::Source => (LocatedField::Line, FieldValue::Source(loc.source)),
                LocatedField::Line => (LocatedField::Column, FieldValue::Number(loc.line)),
                LocatedField::Column => (LocatedField::Offset, FieldValue::Number(loc.column)),
                LocatedField::Offset => (LocatedField::Value, FieldValue::Number(loc.offset)),
                _ => (LocatedField::End, FieldValue::Value),
            },
    {
        match self {
            LocatedField::Source => (LocatedField::Line, FieldValue::Source(loc.source)),
            LocatedField::Line => (LocatedField::Column, FieldValue::Number(loc.line)),
            LocatedField::Column => (LocatedField::Offset, FieldValue::Number(loc.column)),
            LocatedField::Offset => (LocatedField::Value, FieldValue::Number(loc.offset)),
            _ => (LocatedField::End, FieldValue::Value),
        }
    }
}

} // verus!

verus! {

/// What reading a string or bytes value yields: the value itself when
/// it has no escapes, else its unescaped bytes in the buffer, with the
/// room the buffer has left.
pub open spec fn unescaped_read(b: Seq<u8>, text: bool, cap: int) -> (Result<Seq<u8>, SpecError>, int) {
    if !spec_has_escapes(b, text) {
        (Ok(b), cap)
    } else {
        match unescape_from(b, 0, text, seq![], cap) {
            Unescaped::Done(out) => (Ok(out), cap - out.len()),
            Unescaped::Error(_) => (Err(SpecError::Parse(SpecParseError::UnknownEscape)), 0),
            _ => (Err(SpecError::UnescapeBufferFull), 0),
        }
    }
}

proof fn lemma_read_wf(d: DState)
    requires
        pstate_wf(d.parser),
        d.peeked matches Some(e) ==> event_wf(e),
    ensures
        read(d).1 matches Ok(e) ==> event_wf(e),
        pstate_wf(read(d).0.parser),
{
    lemma_next_wf(d.parser);
}

impl<'de, 's> Deserializer<'de, 's> {
    /// Read a string: borrowed from the input when it has no escapes,
    /// else unescaped into the buffer.
    pub fn next_str(&mut self) -> (r: Result<&'de str, Error>)
        requires
            old(self).wf(),
        ensures
            final(self).wf(),
            ({
                let (d1, e) = read(old(self).model());
                match e {
                    Ok(SpecEvent::Value(SpecToken::Str(b))) => {
                        let (u, left) = unescaped_read(b, true, d1.scratch);
                        &&& final(self).model() == (DState { scratch: left, ..d1 })
                        &&& match u {
                            Ok(out) => r matches Ok(s) && s.spec_bytes() == out,
                            Err(x) => r matches Err(y) && y@ == x,
                        }
                    },
                    Ok(_) => r == Err::<&'de str, Error>(Error::InvalidType) && final(self).model() == d1,
                    Err(x) => r matches Err(y) && y@ == x && final(self).model() == d1,
                }
            }),
    {
        proof {
            lemma_read_wf(self.model());
        }
        match self.next() {
            Ok(Event::Value(Value::Str(v))) => {
                if !v.has_escapes() {
                    Ok(v.as_escaped())
                } else {
                    let buf = match self.unescape.take() {
                        Some(b) => b,
                        None => &mut [],
                    };
                    proof {
                        lemma_well_formed_never_stuck(v.content(), 0, true, seq![], buf@.len() as int);
                    }
                    match v.unescape(buf) {
                        Ok((rest, s)) => {
                            self.unescape = Some(rest);
                            Ok(s)
                        },
                        Err(l) => Err(Error::from(l.value)),
                    }
                }
            },
            Ok(_) => Err(Error::InvalidType),
            Err(e) => Err(e),
        }
    }

    /// Read bytes: borrowed from the input when they have no escapes,
    /// else unescaped into the buffer.
    pub fn next_bytes(&mut self) -> (r: Result<&'de [u8], Error>)
        requires
            old(self).wf(),
        ensures
            final(self).wf(),
            ({
                let (d1, e) = read(old(self).model());
                match e {
                    Ok(SpecEvent::Value(SpecToken::Bytes(b))) => {
                        let (u, left) = unescaped_read(b, false, d1.scratch);
                        &&& final(self).model() == (DState { scratch: left, ..d1 })
                        &&& match u {
                            Ok(out) => r matches Ok(s) && s@ == out,
                            Err(x) => r matches Err(y) && y@ == x,
                        }
                    },
                    Ok(_) => r == Err::<&'de [u8], Error>(Error::InvalidType) && final(self).model() == d1,
                    Err(x) => r matches Err(y) && y@ == x && final(self).model() == d1,
                }
            }),
    {
        proof {
            lemma_read_wf(self.model());
        }
        match self.next() {
            Ok(Event::Value(Value::Bytes(v))) => {
                if !v.has_escapes() {
                    Ok(v.as_escaped())
                } else {
                    let buf = match self.unescape.take() {
                        Some(b) => b,
                        None => &mut [],
                    };
                    proof {
                        lemma_well_formed_never_stuck(v.content(), 0, false, seq![], buf@.len() as int);
                    }
                    match v.unescape(buf) {
                        Ok((rest, s)) => {
                            self.unescape = Some(rest);
                            Ok(s)
                        },
                        Err(l) => Err(Error::from(l.value)),
                    }
                }
            },
            Ok(_) => Err(Error::InvalidType),
            Err(e) => Err(e),
        }
    }
}

} // verus!

verus! {

/// `1` while an event is read ahead, else `0`.
pub open spec fn peeked_flag(d: DState) -> int {
    if d.peeked is Some {
        1
    } else {
        0
    }
}

/// `a` is further along than `b`: its parser is, or the parsers agree
/// and `b` had read an event ahead that `a` has handed out.
pub open spec fn read_ahead(a: DState, b: DState) -> bool {
    ||| ahead(a.parser, b.parser)
    ||| measure(a.parser) == measure(b.parser) && a.parser.stack.len() == b.parser.stack.len()
        && open_root(a.parser) == open_root(b.parser) && unsent(a.parser) == unsent(b.parser)
        && stored_event(a.parser) == stored_event(b.parser) && peeked_flag(a) < peeked_flag(b)
}

/// Each event handed out moves the deserializer further along.
pub proof fn lemma_read_progress(d: DState)
    requires
        pos_ok(d.parser),
    ensures
        pos_ok(read(d).0.parser),
        read(d).1 is Ok ==> read_ahead(read(d).0, d),
{
    lemma_next_progress(d.parser);
}

/// How skipping a value goes on after an event, at nesting `depth`:
/// the new depth, whether the value is complete, and whether the event
/// cannot stand there.
pub open spec fn skip_step(e: SpecEvent, depth: usize) -> (usize, bool, bool) {
    match e {
        SpecEvent::ListOpen | SpecEvent::MapOpen | SpecEvent::EnumOpen(_) => (
            if depth < usize::MAX {
                (depth + 1) as usize
            } else {
                depth
            },
            false,
            false,
        ),
        SpecEvent::ListClose | SpecEvent::MapClose | SpecEvent::EnumClose => {
            let d2: usize = if depth > 0 {
                (depth - 1) as usize
            } else {
                0
            };
            (d2, d2 == 0, false)
        },
        SpecEvent::Value(_) => (depth, depth == 0, false),
        SpecEvent::Key(_) => (depth, false, depth == 0),
    }
}

/// Skip the rest of a value, at nesting `depth`: read events until the
/// value is complete. A key where a value should start is
/// [Error::InvalidType].
pub open spec fn skip(d: DState, depth: usize) -> (DState, Result<(), SpecError>)
    decreases measure(d.parser), d.parser.stack.len(), open_root(d.parser), unsent(d.parser),
        stored_event(d.parser), peeked_flag(d),
{
    let (d1, r) = read(d);
    match r {
        Err(e) => (d1, Err(e)),
        Ok(ev) => {
            let (depth1, done, bad) = skip_step(ev, depth);
            if bad {
                (d1, Err(SpecError::InvalidType))
            } else if done {
                (d1, Ok(()))
            } else if pos_ok(d.parser) && pos_ok(d1.parser) && read_ahead(d1, d) {
                skip(d1, depth1)
            } else {
                (d1, Err(SpecError::InvalidType))
            }
        },
    }
}

impl<'de, 's> Deserializer<'de, 's> {
    /// Read one whole value and throw it away: a simple value, or
    /// everything from an opening to its close. The nesting is counted
    /// only; the parser already checks that the events fit together.
    #[verifier::rlimit(30)]
    pub fn skip_value(&mut self) -> (r: Result<(), Error>)
        requires
            old(self).wf(),
        ensures
            final(self).wf(),
            final(self).model() == skip(old(self).model(), 0).0,
            match skip(old(self).model(), 0).1 {
                Ok(()) => r is Ok,
                Err(e) => r matches Err(x) && x@ == e,
            },
    {
        let mut depth: usize = 0;
        loop
            invariant_except_break
                skip(old(self).model(), 0) == skip(self.model(), depth),
            invariant
                self.wf(),
            ensures
                skip(old(self).model(), 0) == (self.model(), Ok::<(), SpecError>(())),
            decreases measure(self.model().parser), self.model().parser.stack.len(), open_root(
                self.model().parser,
            ), unsent(self.model().parser), stored_event(self.model().parser), peeked_flag(
                self.model(),
            ),
        {
            let ghost before = self.model();
            let ghost old_depth = depth;
            proof {
                lemma_read_progress(before);
            }
            let ev = match self.next() {
                Ok(ev) => ev,
                Err(e) => {
                    return Err(e);
                },
            };
            proof {
                assert(read(before).1 == Ok::<SpecEvent, SpecError>(ev@));
                assert(self.model() == read(before).0);
            }
            match ev {
                Event::ListOpen | Event::MapOpen | Event::EnumOpen(_) => {
                    depth = depth.saturating_add(1);
                    proof {
                        assert(skip_step(ev@, old_depth) == (depth, false, false));
                    }
                },
                Event::ListClose | Event::MapClose | Event::EnumClose => {
                    depth = depth.saturating_sub(1);
                    proof {
                        assert(skip_step(ev@, old_depth) == (depth, depth == 0, false));
                    }
                    if depth == 0 {
                        break ;
                    }
                },
                Event::Value(_) => {
                    proof {
                        assert(skip_step(ev@, old_depth) == (depth, depth == 0, false));
                    }
                    if depth == 0 {
                        break ;
                    }
                },
                Event::Key(_) => {
                    proof {
                        assert(skip_step(ev@, old_depth) == (depth, false, depth == 0));
                    }
                    if depth == 0 {
                        return Err(Error::InvalidType);
                    }
                },
            }
        }
        Ok(())
    }
}

} // verus!

verus! {

/// Looking at the next event does not change what is read next: reading
/// after a look hands out the event looked at, and leaves the
/// deserializer as reading right away would.
pub proof fn lemma_peek_then_read(d: DState)
    ensures
        peek(d).1 is Ok ==> read(peek(d).0) == read(d),
        peek(d).1 is Err ==> peek(d) == read(d),
{
}

impl<'de, 's> Deserializer<'de, 's> {
    /// Read a string with its escapes kept.
    pub fn next_escaped_str(&mut self) -> (r: Result<&'de str, Error>)
        requires
            old(self).wf(),
        ensures
            final(self).wf(),
            final(self).model() == read(old(self).model()).0,
            match read(old(self).model()).1 {
                Ok(SpecEvent::Value(SpecToken::Str(b))) => r matches Ok(s) && s.spec_bytes() == b,
                Ok(_) => r == Err::<&'de str, Error>(Error::InvalidType),
                Err(e) => r matches Err(x) && x@ == e,
            },
    {
        match self.next() {
            Ok(Event::Value(Value::Str(v))) => Ok(v.as_escaped()),
            Ok(_) => Err(Error::InvalidType),
            Err(e) => Err(e),
        }
    }

    /// Read bytes with their escapes kept.
    pub fn next_escaped_bytes(&mut self) -> (r: Result<&'de [u8], Error>)
        requires
            old(self).wf(),
        ensures
            final(self).wf(),
            final(self).model() == read(old(self).model()).0,
            match read(old(self).model()).1 {
                Ok(SpecEvent::Value(SpecToken::Bytes(b))) => r matches Ok(s) && s@ == b,
                Ok(_) => r == Err::<&'de [u8], Error>(Error::InvalidType),
                Err(e) => r matches Err(x) && x@ == e,
            },
    {
        match self.next() {
            Ok(Event::Value(Value::Bytes(v))) => Ok(v.as_escaped()),
            Ok(_) => Err(Error::InvalidType),
            Err(e) => Err(e),
        }
    }
}


/// [Deserializer::next_any] names the value an event starts by the reader
/// that accepts it: an integer is [AnyKind::Int], read by
/// [Deserializer::next_int]; a float is [AnyKind::Float], read by
/// [Deserializer::next_float]; and so on for each kind. Keys and closing
/// events start no value.
pub proof fn lemma_any_kind_names_the_value(e: SpecEvent)
    ensures
        (any_kind(e) == Some(AnyKind::Sequence)) == (e is ListOpen),
        (any_kind(e) == Some(AnyKind::Mapping)) == (e is MapOpen),
        (any_kind(e) == Some(AnyKind::Enum)) == (e is EnumOpen),
        (any_kind(e) == Some(AnyKind::Unit)) == (e == SpecEvent::Value(SpecToken::Unit)),
        (any_kind(e) == Some(AnyKind::Option)) == (e == SpecEvent::Value(SpecToken::NoneValue)),
        (any_kind(e) == Some(AnyKind::Bool)) == (e matches SpecEvent::Value(SpecToken::Bool(_))),
        (any_kind(e) == Some(AnyKind::Int)) == (e matches SpecEvent::Value(SpecToken::Int(_))),
        (any_kind(e) == Some(AnyKind::Float)) == (e matches SpecEvent::Value(SpecToken::Float(_))),
        (any_kind(e) == Some(AnyKind::Char)) == (e matches SpecEvent::Value(SpecToken::Char(_))),
        (any_kind(e) == Some(AnyKind::Str)) == (e matches SpecEvent::Value(SpecToken::Str(_))),
        (any_kind(e) == Some(AnyKind::Bytes)) == (e matches SpecEvent::Value(SpecToken::Bytes(_))),
        e is ListClose || e is MapClose || e is EnumClose || e is Key ==> any_kind(e) is None,
{
}

/// Skipping a simple value reads exactly that value and succeeds.
pub proof fn lemma_skip_simple_value(d: DState)
    ensures
        read(d).1 matches Ok(SpecEvent::Value(_)) ==> skip(d, 0) == (read(d).0, Ok::<
            (),
            SpecError,
        >(())),
{
}

/// Inside a compound value, a simple value does not end the skip: the
/// skip goes on after it at the same depth.
pub proof fn lemma_skip_goes_past_inner_value(d: DState, depth: usize)
    requires
        pos_ok(d.parser),
        depth > 0,
    ensures
        read(d).1 matches Ok(SpecEvent::Value(_)) ==> skip(d, depth) == skip(read(d).0, depth),
{
    lemma_read_progress(d);
}

/// An opening goes one level deeper, and the close that brings the skip
/// back to the top ends it, successfully.
pub proof fn lemma_skip_nesting(d: DState, depth: usize)
    requires
        pos_ok(d.parser),
        depth < usize::MAX,
    ensures
        read(d).1 matches Ok(SpecEvent::ListOpen) ==> skip(d, depth) == skip(
            read(d).0,
            (depth + 1) as usize,
        ),
        read(d).1 matches Ok(SpecEvent::MapOpen) ==> skip(d, depth) == skip(
            read(d).0,
            (depth + 1) as usize,
        ),
        read(d).1 matches Ok(SpecEvent::EnumOpen(_)) ==> skip(d, depth) == skip(
            read(d).0,
            (depth + 1) as usize,
        ),
        depth == 1 && ((read(d).1 matches Ok(SpecEvent::ListClose)) || (read(d).1 matches Ok(
            SpecEvent::MapClose,
        )) || (read(d).1 matches Ok(SpecEvent::EnumClose))) ==> skip(d, depth) == (read(d).0, Ok::<
            (),
            SpecError,
        >(())),
        depth == 0 && (read(d).1 matches Ok(SpecEvent::Key(_))) ==> skip(d, depth) == (read(d).0, Err::<(), SpecError>(
            SpecError::InvalidType,
        )),
{
    lemma_read_progress(d);
}

} // verus!
